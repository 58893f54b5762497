use akasha::commit::{
    commit_millis, last_commit_id, normalize_commit_time, read_commits_from_cube,
    render_commit_message, save_string_in_cube, summarize_commit,
};
use akasha::log::Writer;

fn seal(w: &mut Writer, summary: &str) -> (u64, Option<u64>) {
    let parent = last_commit_id(w);
    let pending = w.reserve_commit(&format!("feat {summary}")).unwrap();
    let parent_json = match parent {
        Some(p) => p.to_string(),
        None => "null".to_string(),
    };
    let body = format!(
        "{{\"id\":{},\"parent\":{},\"ty\":\"feat\",\"summary\":\"{}\",\"timestamp\":{}}}",
        pending.id,
        parent_json,
        summary,
        commit_millis(pending.timestamp)
    );
    save_string_in_cube(w, "commit", &body).unwrap();
    (pending.id, parent)
}

#[test]
fn commit_chain() {
    let mut w = Writer::create(Vec::new()).unwrap();
    let (_, p1) = seal(&mut w, "init");
    assert_eq!(p1, None);
    let first = read_commits_from_cube(&w);
    assert_eq!(first.len(), 1);
    let (_, p2) = seal(&mut w, "next");
    assert_eq!(p2, Some(first[0].id));
    let commits = read_commits_from_cube(&w);
    assert_eq!(commits.len(), 2);
    assert!(commits[1].noumenon.contains("\"summary\":\"next\""));
    assert!(commits[1].noumenon.contains(&format!("\"parent\":{}", first[0].id)));
    assert!(commits[0].noumenon.contains("\"parent\":null"));
}

#[test]
fn pending_record_reserves_the_id() {
    let mut w = Writer::create(Vec::new()).unwrap();
    w.append("x", "y").unwrap();
    let pending = w.reserve_commit("msg").unwrap();
    assert_eq!(pending.id, 2);
    assert_eq!(pending.phenomenon, "commit:pending");
    assert_eq!(pending.noumenon, "msg");
    assert_eq!(w.next_id(), 3);
    assert!(read_commits_from_cube(&w).is_empty());
    assert_eq!(last_commit_id(&w), None);
}

#[test]
fn commit_times() {
    assert_eq!(commit_millis(1_700_000_000_123_456_789), 1_700_000_000_123);
    assert_eq!(commit_millis(u128::MAX), 0);
    assert_eq!(normalize_commit_time(1_700_000_000_123), Some(1_700_000_000_123));
    assert_eq!(normalize_commit_time(1_700_000_000_123_456_789), Some(1_700_000_000_123));
    assert_eq!(normalize_commit_time(u128::MAX), None);
    assert_eq!(normalize_commit_time(1_000_000_000_000_000_000), Some(1_000_000_000_000_000_000));
}

#[test]
fn commit_summary_defaults() {
    let c = summarize_commit(9, None, None, None, None);
    assert_eq!((c.id, c.ty.as_str(), c.summary.as_str(), c.millis), (9, "commit", "", None));
    let c = summarize_commit(
        9,
        Some(4),
        Some("fix".to_string()),
        Some("typo".to_string()),
        Some(1_700_000_000_123_456_789),
    );
    assert_eq!((c.id, c.ty.as_str(), c.summary.as_str(), c.millis), (4, "fix", "typo", Some(1_700_000_000_123)));
}

#[test]
fn commit_message_fills_the_template() {
    let m = render_commit_message("feat", "add log", "details", "ana", "ana@example.com");
    assert_eq!(m, "feat add log\n\ndetails\n\nana <ana@example.com>\n\n");
}
