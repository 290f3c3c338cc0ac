use treestate::DecodeError;
use treestate::Digest;
use treestate::FileMeta;
use treestate::FileState;
use treestate::Observation;
use treestate::Timestamp;
use treestate::TreeState;
use treestate::Verdict;

fn ts(secs: u64, nanos: u32) -> Timestamp {
    Timestamp { secs, nanos }
}

fn dg(tag: u64) -> Digest {
    Digest { w0: tag, w1: tag ^ 0xff, w2: tag.wrapping_mul(31), w3: 7 }
}

fn found(len: u64, modified: Timestamp, digest: Digest) -> Observation {
    Observation::Found { meta: FileMeta { len, modified }, digest }
}

fn key(s: &str) -> Vec<u8> {
    s.as_bytes().to_vec()
}

fn two_file_items() -> Vec<(Vec<u8>, Observation)> {
    vec![
        (key("a"), found(1, ts(100, 0), dg(1))),
        (key("b"), found(2, ts(200, 5), dg(2))),
    ]
}

#[test]
fn lib_basic() {}

#[test]
fn capture_records_sha256() {
    let content = b"abc".to_vec();
    let st = FileState::capture(3, ts(5, 6), &content);
    assert_eq!(st.len, 3);
    assert_eq!(st.modified, ts(5, 6));
    // SHA-256("abc"), little-endian words
    assert_eq!(st.digest.w0, 0xeacf018fbf1678ba);
    assert_eq!(st.digest.w1, 0x2322ae5dde404141);
    assert_eq!(st.digest.w2, 0x9c7a1796a36103b0);
    assert_eq!(st.digest.w3, 0xad1500f261ff10b4);
}

#[test]
fn content_changed_compares_digests() {
    let st = FileState::capture(3, ts(5, 6), &b"abc".to_vec());
    assert!(!st.content_changed(&b"abc".to_vec()));
    assert!(st.content_changed(&b"abd".to_vec()));
    assert!(st.content_changed(&b"abcd".to_vec()));
}

#[test]
fn check_meta_is_layered() {
    let st = FileState { len: 3, modified: ts(1, 2), digest: dg(9) };
    assert_eq!(st.check_meta(None), Verdict::Changed);
    assert_eq!(st.check_meta(Some(FileMeta { len: 3, modified: ts(1, 2) })), Verdict::Unchanged);
    assert_eq!(st.check_meta(Some(FileMeta { len: 4, modified: ts(1, 2) })), Verdict::NeedContent);
    assert_eq!(st.check_meta(Some(FileMeta { len: 3, modified: ts(1, 3) })), Verdict::NeedContent);
}

#[test]
fn build_then_unmodified_reports_unchanged() {
    let items = two_file_items();
    let t = TreeState::new(&items);
    assert_eq!(t.len(), 2);
    assert!(!t.has_changed(&items));
}

#[test]
fn capture_miss_is_silently_excluded() {
    let mut items = two_file_items();
    items.push((key("gone"), Observation::Missing));
    let t = TreeState::new(&items);
    assert_eq!(t.len(), 2);
    assert!(t.get(&key("gone")).is_none());
    assert!(!t.has_changed(&items));
}

#[test]
fn detects_content_change() {
    let items = two_file_items();
    let t = TreeState::new(&items);
    // b grew by a byte and its timestamp moved: digest differs, so changed
    let live = vec![
        (key("a"), found(1, ts(100, 0), dg(1))),
        (key("b"), found(3, ts(201, 0), dg(3))),
    ];
    assert!(t.has_changed(&live));
}

#[test]
fn mtime_only_touch_is_unchanged() {
    let items = two_file_items();
    let t = TreeState::new(&items);
    // b's timestamp moved but its content did not: the digest recheck
    // confirms no real change
    let live = vec![
        (key("a"), found(1, ts(100, 0), dg(1))),
        (key("b"), found(2, ts(999, 9), dg(2))),
    ];
    assert!(!t.has_changed(&live));
}

#[test]
fn restored_mtime_after_edit_is_changed() {
    let items = two_file_items();
    let t = TreeState::new(&items);
    // b was edited to a new length but its timestamp was forced back:
    // detection rests on the digest mismatch alone
    let live = vec![
        (key("a"), found(1, ts(100, 0), dg(1))),
        (key("b"), found(4, ts(200, 5), dg(4))),
    ];
    assert!(t.has_changed(&live));
}

#[test]
fn missing_file_is_changed() {
    let items = two_file_items();
    let t = TreeState::new(&items);
    let live_absent = vec![(key("a"), found(1, ts(100, 0), dg(1)))];
    assert!(t.has_changed(&live_absent));
    let live_missing = vec![
        (key("a"), found(1, ts(100, 0), dg(1))),
        (key("b"), Observation::Missing),
    ];
    assert!(t.has_changed(&live_missing));
}

#[test]
fn persist_restore_round_trip() {
    let items = two_file_items();
    let t = TreeState::new(&items);
    let bytes = t.dump();
    let t2 = TreeState::load(&bytes).unwrap();
    assert_eq!(t2.len(), t.len());
    for k in t.keys() {
        assert_eq!(t2.get(&k), t.get(&k));
    }
    for k in t2.keys() {
        assert_eq!(t2.get(&k), t.get(&k));
    }
    assert!(!t2.has_changed(&items));
}

#[test]
fn empty_collection_round_trip() {
    let t = TreeState::new(&vec![]);
    assert_eq!(t.len(), 0);
    assert!(!t.has_changed(&vec![]));
    let t2 = TreeState::load(&t.dump()).unwrap();
    assert_eq!(t2.len(), 0);
}

#[test]
fn load_rejects_empty_bytes() {
    assert!(matches!(TreeState::load(&vec![]), Err(DecodeError::Malformed)));
}

#[test]
fn load_rejects_truncated_and_overlong() {
    let t = TreeState::new(&two_file_items());
    let mut short = t.dump();
    short.pop();
    assert!(matches!(TreeState::load(&short), Err(DecodeError::Malformed)));
    let mut long = t.dump();
    long.push(0);
    assert!(matches!(TreeState::load(&long), Err(DecodeError::Malformed)));
    assert!(matches!(TreeState::load(&vec![1, 2, 3]), Err(DecodeError::Malformed)));
}

#[test]
fn load_rejects_duplicate_keys() {
    let st = FileState { len: 1, modified: ts(1, 1), digest: dg(1) };
    let one = TreeState::from(&vec![(key("x"), st)]);
    let bytes = one.dump();
    let entry = &bytes[8..];
    let mut crafted: Vec<u8> = Vec::new();
    crafted.extend_from_slice(&2u64.to_le_bytes());
    crafted.extend_from_slice(entry);
    crafted.extend_from_slice(entry);
    assert!(matches!(TreeState::load(&crafted), Err(DecodeError::Duplicate)));
}

#[test]
fn dump_layout_is_exact() {
    let st = FileState {
        len: 0x0102,
        modified: ts(3, 4),
        digest: Digest { w0: 5, w1: 6, w2: 7, w3: 8 },
    };
    let t = TreeState::from(&vec![(key("x"), st)]);
    let mut expected: Vec<u8> = Vec::new();
    expected.extend_from_slice(&1u64.to_le_bytes());
    expected.extend_from_slice(&1u64.to_le_bytes());
    expected.push(b'x');
    expected.extend_from_slice(&0x0102u64.to_le_bytes());
    expected.extend_from_slice(&3u64.to_le_bytes());
    expected.extend_from_slice(&4u32.to_le_bytes());
    expected.extend_from_slice(&5u64.to_le_bytes());
    expected.extend_from_slice(&6u64.to_le_bytes());
    expected.extend_from_slice(&7u64.to_le_bytes());
    expected.extend_from_slice(&8u64.to_le_bytes());
    assert_eq!(t.dump(), expected);
}

#[test]
fn ignore_removes_entry() {
    let items = two_file_items();
    let mut t = TreeState::new(&items);
    t.ignore(&key("a"));
    assert_eq!(t.len(), 1);
    assert!(t.get(&key("a")).is_none());
    assert!(t.get(&key("b")).is_some());
    t.ignore(&key("never-tracked"));
    assert_eq!(t.len(), 1);
}

#[test]
fn self_exclusion_makes_state_file_irrelevant() {
    let state_key = key(".treestate");
    let mut items = two_file_items();
    items.push((state_key.clone(), found(10, ts(300, 0), dg(5))));
    let mut t = TreeState::new(&items);
    t.ignore(&state_key);
    // the state file was rewritten by persisting: observed new, or gone
    let rewritten = vec![
        (key("a"), found(1, ts(100, 0), dg(1))),
        (key("b"), found(2, ts(200, 5), dg(2))),
        (state_key.clone(), found(99, ts(400, 0), dg(6))),
    ];
    let vanished = vec![
        (key("a"), found(1, ts(100, 0), dg(1))),
        (key("b"), found(2, ts(200, 5), dg(2))),
    ];
    assert!(!t.has_changed(&rewritten));
    assert!(!t.has_changed(&vanished));
}

#[test]
fn build_order_is_irrelevant() {
    let items = two_file_items();
    let mut reversed = two_file_items();
    reversed.reverse();
    let t1 = TreeState::new(&items);
    let t2 = TreeState::new(&reversed);
    assert_eq!(t1.len(), t2.len());
    for k in t1.keys() {
        assert_eq!(t1.get(&k), t2.get(&k));
    }
    assert_eq!(t1.has_changed(&items), t2.has_changed(&items));
}

#[test]
fn from_pairs_last_wins() {
    let s1 = FileState { len: 1, modified: ts(1, 0), digest: dg(1) };
    let s2 = FileState { len: 2, modified: ts(2, 0), digest: dg(2) };
    let t = TreeState::from(&vec![(key("x"), s1), (key("x"), s2), (key("y"), s1)]);
    assert_eq!(t.len(), 2);
    assert_eq!(t.get(&key("x")), Some(&s2));
    assert_eq!(t.get(&key("y")), Some(&s1));
}

#[test]
fn full_cycle_scenario() {
    // two files a and b; build; nothing changed; then b is touched without a
    // content change, which the digest recheck resolves to unchanged; then b
    // is really edited, which is detected
    let items = two_file_items();
    let t = TreeState::new(&items);
    assert!(!t.has_changed(&items));
    let bytes = t.dump();
    let t2 = TreeState::load(&bytes).unwrap();
    let touched = vec![
        (key("a"), found(1, ts(100, 0), dg(1))),
        (key("b"), found(2, ts(500, 0), dg(2))),
    ];
    assert!(!t2.has_changed(&touched));
    let edited = vec![
        (key("a"), found(1, ts(100, 0), dg(1))),
        (key("b"), found(5, ts(500, 0), dg(9))),
    ];
    assert!(t2.has_changed(&edited));
}
