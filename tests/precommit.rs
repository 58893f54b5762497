use akasha::precommit::{
    cargo_pipeline, hooks, npm_pipeline, package_manager, PackageManager, PreCommit, ProjectKind,
};

fn t(a: &str, b: &str, c: &str) -> (String, String, String) {
    (a.to_string(), b.to_string(), c.to_string())
}

#[test]
fn add_task_replaces_by_name() {
    let mut pc = PreCommit::new();
    assert!(pc.is_empty());
    pc.add_task("fmt", "cargo", "fmt").add_task("test", "cargo", "test");
    pc.add_task("fmt", "cargo", "fmt --check");
    assert_eq!(pc.tasks(), &vec![t("fmt", "cargo", "fmt --check"), t("test", "cargo", "test")]);
}

#[test]
fn cargo_checks() {
    assert_eq!(
        cargo_pipeline().tasks(),
        &vec![
            t("fmt", "cargo", "fmt --check"),
            t("test", "cargo", "test --no-fail-fast"),
            t("lint", "cargo", "clippy -- -D clippy::all"),
        ]
    );
}

#[test]
fn npm_checks() {
    let scripts = vec!["fmt".to_string(), "lint".to_string(), "build".to_string()];
    let pc = npm_pipeline(PackageManager::Pnpm, &scripts, true);
    assert_eq!(
        pc.tasks(),
        &vec![
            t("fmt", "pnpm", "run -s fmt"),
            t("lint", "pnpm", "run -s lint"),
            t("test", "pnpm", "run -s test"),
        ]
    );
    let pc = npm_pipeline(PackageManager::Yarn, &vec!["format".to_string(), "fmt".to_string()], false);
    assert_eq!(pc.tasks(), &vec![t("format", "yarn", "format")]);
    let pc = npm_pipeline(PackageManager::Npm, &vec![], false);
    assert_eq!(pc.tasks(), &vec![t("test", "npm", "run -s test")]);
}

#[test]
fn project_detection() {
    assert_eq!(hooks(true, true), ProjectKind::Cargo);
    assert_eq!(hooks(false, true), ProjectKind::Npm);
    assert_eq!(hooks(false, false), ProjectKind::Other);
    assert_eq!(package_manager(true, true), PackageManager::Pnpm);
    assert_eq!(package_manager(false, true), PackageManager::Yarn);
    assert_eq!(package_manager(false, false), PackageManager::Npm);
}
