use akasha::codec::{decode_frame, encode_frame};
use akasha::log::{LogError, Writer};

const HEADER_FRESH: [u8; 16] = [
    0x41, 0x4B, 0x4C, 0x41, 0x01, 0x00, 0x01, 0x00, 0x00, 0x00, 0x00, 0x00, 0x00, 0x00, 0x00, 0x00,
];

fn fresh() -> Writer {
    Writer::create(Vec::new()).unwrap()
}

fn ids(w: &Writer) -> Vec<u64> {
    w.read_all().iter().map(|e| e.id).collect()
}

#[test]
fn fresh_log_is_a_bare_header() {
    let w = fresh();
    assert_eq!(w.contents().as_slice(), &HEADER_FRESH[..]);
    assert_eq!(w.next_id(), 1);
    assert!(w.read_all().is_empty());
}

#[test]
fn single_append() {
    let mut w = fresh();
    let off = w.append("k", "v").unwrap();
    assert_eq!(off, 16);
    assert_eq!(w.contents().len(), 54);
    let e = Writer::read_one_at(w.contents(), 16).unwrap();
    assert_eq!(e.id, 1);
    assert_eq!(e.phenomenon, "k");
    assert_eq!(e.noumenon, "v");
    assert!(e.timestamp > 1_577_836_800_000_000_000);
    assert_eq!(w.next_id(), 2);
    // The header now records id 2.
    assert_eq!(&w.contents()[6..14], &2u64.to_le_bytes());
}

#[test]
fn two_appends_and_reopen() {
    let mut w = fresh();
    let o1 = w.append("a", "1").unwrap();
    let o2 = w.append("b", "2").unwrap();
    let saved = w.contents().clone();
    let mut w = Writer::create(saved).unwrap();
    assert_eq!(w.next_id(), 3);
    let o3 = w.append("c", "3").unwrap();
    let got: Vec<u64> = [o1, o2, o3]
        .iter()
        .map(|o| Writer::read_one_at(w.contents(), *o).unwrap().id)
        .collect();
    assert_eq!(got, vec![1, 2, 3]);
    let idx = w.rebuild_index();
    assert_eq!(idx.keys().copied().collect::<Vec<u64>>(), vec![1, 2, 3]);
    assert_eq!(idx[&1], o1);
    assert_eq!(idx[&2], o2);
    assert_eq!(idx[&3], o3);
}

#[test]
fn corrupted_checksum_ends_reading() {
    let mut w = fresh();
    let o1 = w.append("a", "1").unwrap();
    let o2 = w.append("b", "2").unwrap();
    let mut bytes = w.contents().clone();
    let last = bytes.len() - 1;
    bytes[last] ^= 0xFF;
    let w2 = Writer::create(bytes.clone()).unwrap();
    let evs = w2.read_all();
    assert_eq!(evs.len(), 1);
    assert_eq!(evs[0].id, 1);
    assert_eq!(evs[0].phenomenon, "a");
    assert!(Writer::read_one_at(&bytes, o1).is_ok());
    assert_eq!(Writer::read_one_at(&bytes, o2).err(), Some(LogError::Corruption));
}

#[test]
fn every_single_bit_flip_is_caught() {
    let mut w = fresh();
    let o1 = w.append("first", "one").unwrap();
    let o2 = w.append("second", "two").unwrap();
    let end = w.contents().len() as u64;
    for pos in (o2 + 4)..end {
        for bit in 0..8 {
            let mut bytes = w.contents().clone();
            bytes[pos as usize] ^= 1 << bit;
            let w2 = Writer::create(bytes.clone()).unwrap();
            let evs = w2.read_all();
            assert_eq!(evs.len(), 1, "flip at {pos}:{bit}");
            assert_eq!(evs[0].noumenon, "one");
            assert!(Writer::read_one_at(&bytes, o1).is_ok());
            assert_eq!(Writer::read_one_at(&bytes, o2).err(), Some(LogError::Corruption));
        }
    }
}

#[test]
fn torn_tail_is_ignored() {
    let mut w = fresh();
    w.append("a", "1").unwrap();
    w.append("b", "2").unwrap();
    let good = w.contents().clone();
    let frame = encode_frame(99, 3, "c", "3");
    for cut in 0..frame.len() {
        let mut bytes = good.clone();
        bytes.extend_from_slice(&frame[..cut]);
        let w2 = Writer::create(bytes).unwrap();
        assert_eq!(ids(&w2), vec![1, 2]);
        assert_eq!(w2.next_id(), 3);
    }
    let mut whole = good.clone();
    whole.extend_from_slice(&frame);
    assert_eq!(ids(&Writer::create(whole).unwrap()), vec![1, 2, 3]);
}

#[test]
fn zeroed_counter_is_recovered() {
    let mut w = fresh();
    for i in 0..4 {
        w.append("p", &format!("{i}")).unwrap();
    }
    let mut bytes = w.contents().clone();
    for b in &mut bytes[6..14] {
        *b = 0;
    }
    let w2 = Writer::create(bytes).unwrap();
    assert_eq!(w2.next_id(), 5);
    assert_eq!(&w2.contents()[6..14], &5u64.to_le_bytes());
    assert_eq!(ids(&w2), vec![1, 2, 3, 4]);
}

#[test]
fn zeroed_counter_without_records_restarts_at_one() {
    let mut bytes = HEADER_FRESH.to_vec();
    bytes[6] = 0;
    let w = Writer::create(bytes).unwrap();
    assert_eq!(w.next_id(), 1);
}

#[test]
fn bad_magic_and_short_header_are_refused() {
    let mut bytes = HEADER_FRESH.to_vec();
    bytes[0] = b'X';
    assert_eq!(Writer::create(bytes).err(), Some(LogError::InvalidHeader));
    assert_eq!(Writer::create(vec![0x41, 0x4B]).err(), Some(LogError::InvalidHeader));
    let mut v2 = HEADER_FRESH.to_vec();
    v2[4] = 2;
    assert_eq!(Writer::create(v2).err(), Some(LogError::InvalidHeader));
}

#[test]
fn ids_increase_from_one() {
    let mut w = fresh();
    for i in 0..10 {
        w.append(&format!("k{i}"), "x").unwrap();
    }
    assert_eq!(ids(&w), (1..=10).collect::<Vec<u64>>());
}

#[test]
fn round_trip_of_long_and_unicode_fields() {
    let mut w = fresh();
    let p = "é".repeat(32767);
    let n = "x".repeat(65535);
    let off = w.append(&p, &n).unwrap();
    let e = Writer::read_one_at(w.contents(), off).unwrap();
    assert_eq!(e.phenomenon, p);
    assert_eq!(e.noumenon, n);
    assert_eq!(e.id, 1);
    let off2 = w.append("", "").unwrap();
    let e2 = Writer::read_one_at(w.contents(), off2).unwrap();
    assert_eq!(e2.phenomenon, "");
    assert_eq!(e2.noumenon, "");
    assert_eq!(e2.id, 2);
}

#[test]
fn append_at_uses_the_given_time() {
    let mut w = fresh();
    let off = w.append_at("t", "u", 123_456_789).unwrap();
    let e = Writer::read_one_at(w.contents(), off).unwrap();
    assert_eq!(e.timestamp, 123_456_789);
}

#[test]
fn frame_layout_and_checksum() {
    let f = encode_frame(1, 2, "ab", "c");
    // len_total = 16 + 8 + 2 + 2 + 2 + 1 + 4
    assert_eq!(&f[0..4], &35u32.to_le_bytes());
    assert_eq!(&f[4..20], &1u128.to_le_bytes());
    assert_eq!(&f[20..28], &2u64.to_le_bytes());
    assert_eq!(&f[28..30], &2u16.to_le_bytes());
    assert_eq!(&f[30..32], &1u16.to_le_bytes());
    assert_eq!(&f[32..35], b"abc");
    let crc = crc32fast::hash(&f[4..35]);
    assert_eq!(&f[35..39], &crc.to_le_bytes());
    assert_ne!(crc, 0);
    let (e, end) = decode_frame(&f, 0).unwrap();
    assert_eq!(end, f.len());
    assert_eq!((e.timestamp, e.id), (1, 2));
    assert_eq!((e.phenomenon.as_str(), e.noumenon.as_str()), ("ab", "c"));
}

#[test]
fn short_and_malformed_frames() {
    let f = encode_frame(1, 2, "ab", "c");
    assert!(decode_frame(&f[..3], 0).is_none());
    assert!(decode_frame(&f[..f.len() - 1], 0).is_none());
    assert_eq!(Writer::read_one_at(&f[..f.len() - 1], 0).err(), Some(LogError::UnexpectedEof));
    assert_eq!(Writer::read_one_at(&f, 100).err(), Some(LogError::UnexpectedEof));
    let mut small = f.clone();
    small[0..4].copy_from_slice(&8u32.to_le_bytes());
    assert!(decode_frame(&small, 0).is_none());
    assert_eq!(Writer::read_one_at(&small, 0).err(), Some(LogError::Corruption));
}

#[test]
fn id_overflow_is_refused() {
    let mut bytes = HEADER_FRESH.to_vec();
    bytes[6..14].copy_from_slice(&u64::MAX.to_le_bytes());
    let mut w = Writer::create(bytes.clone()).unwrap();
    assert_eq!(w.append("a", "b").err(), Some(LogError::IdOverflow));
    assert_eq!(w.contents(), &bytes);
}

#[test]
fn duplicate_ids_index_the_last_frame() {
    let mut bytes = HEADER_FRESH.to_vec();
    bytes[6] = 2;
    let first = encode_frame(1, 1, "a", "x");
    let second = encode_frame(2, 1, "b", "y");
    bytes.extend_from_slice(&first);
    bytes.extend_from_slice(&second);
    let w = Writer::create(bytes).unwrap();
    let idx = w.rebuild_index();
    assert_eq!(idx.len(), 1);
    assert_eq!(idx[&1], 16 + first.len() as u64);
    assert_eq!(w.read_all().len(), 2);
}

#[test]
fn recovery_at_the_last_id_never_reuses_ids() {
    let mut bytes = HEADER_FRESH.to_vec();
    bytes[6..14].copy_from_slice(&0u64.to_le_bytes());
    bytes.extend_from_slice(&encode_frame(5, u64::MAX, "a", "b"));
    let mut w = Writer::create(bytes).unwrap();
    assert_eq!(w.next_id(), u64::MAX);
    assert_eq!(w.append("c", "d").err(), Some(LogError::IdOverflow));
}
