use darts::DartsError;
use darts::unit;
use darts::{DoubleArrayTrie, ResultPairType};

const NO_PROGRESS: Option<fn(usize, usize) -> i32> = None;

fn strings(keys: &[&str]) -> Vec<String> {
    keys.iter().map(|k| k.to_string()).collect()
}

fn pair(value: i32, length: usize) -> ResultPairType {
    ResultPairType { value, length }
}

fn small_dictionary() -> DoubleArrayTrie {
    let keys = strings(&["a", "ab", "b"]);
    let values = vec![0, 1, 2];
    let mut dic = DoubleArrayTrie::new();
    dic.build(keys.len(), &keys, None, Some(&values), NO_PROGRESS).unwrap();
    dic
}

#[test]
fn three_keys_scenario() {
    let dic = small_dictionary();
    assert_eq!(dic.exact_match_search_pair("ab", 0, 0), pair(1, 2));
    assert_eq!(dic.common_prefix_search("ab", 16, 0, 0), vec![pair(0, 1), pair(1, 2)]);
    assert_eq!(dic.exact_match_search_pair("c", 0, 0), pair(-1, 0));
    let mut node = 0usize;
    let mut pos = 0usize;
    assert_eq!(dic.traverse("ab", &mut node, &mut pos, 1), 0);
    assert_eq!(pos, 1);
    assert_eq!(dic.traverse("ab", &mut node, &mut pos, 2), 1);
    assert_eq!(pos, 2);
}

#[test]
fn out_of_order_and_duplicate_keys_are_skipped() {
    let keys = strings(&["b", "a", "b", "c", "c"]);
    let values = vec![1, 2, 3, 4, 5];
    let mut dic = DoubleArrayTrie::new();
    assert_eq!(dic.build(keys.len(), &keys, None, Some(&values), NO_PROGRESS), Ok(()));
    assert_eq!(dic.exact_match_search("a", 0, 0), -1);
    assert_eq!(dic.exact_match_search("b", 0, 0), 1);
    assert_eq!(dic.exact_match_search("c", 0, 0), 4);
}

#[test]
fn index_is_the_value_without_values() {
    let keys = strings(&["x", "xy", "y"]);
    let mut dic = DoubleArrayTrie::new();
    dic.build(keys.len(), &keys, None, None, NO_PROGRESS).unwrap();
    assert_eq!(dic.exact_match_search("x", 0, 0), 0);
    assert_eq!(dic.exact_match_search("xy", 0, 0), 1);
    assert_eq!(dic.exact_match_search("y", 0, 0), 2);
}

#[test]
fn lengths_cut_the_keys() {
    let keys = strings(&["abc", "bcd"]);
    let lengths = vec![2usize, 1];
    let mut dic = DoubleArrayTrie::new();
    dic.build(keys.len(), &keys, Some(&lengths), None, NO_PROGRESS).unwrap();
    assert_eq!(dic.exact_match_search("ab", 0, 0), 0);
    assert_eq!(dic.exact_match_search("b", 0, 0), 1);
    assert_eq!(dic.exact_match_search("abc", 0, 0), -1);
    assert_eq!(dic.exact_match_search("abc", 2, 0), 0);
}

#[test]
fn clear_twice_leaves_nothing() {
    let mut dic = small_dictionary();
    assert!(dic.size() > 0);
    dic.clear();
    dic.clear();
    assert_eq!(dic.size(), 0);
    assert_eq!(dic.total_size(), 0);
    assert_eq!(dic.exact_match_search("a", 0, 0), -1);
}

#[test]
fn empty_dictionary_finds_nothing() {
    let dic = DoubleArrayTrie::new();
    assert_eq!(dic.exact_match_search_pair("a", 0, 0), pair(-1, 0));
    assert_eq!(dic.common_prefix_search("abc", 4, 0, 0), vec![]);
    assert_eq!(dic.common_longest_prefix_search_pair("abc", 0, 0), pair(-1, 0));
    let mut node = 0usize;
    let mut pos = 0usize;
    assert_eq!(dic.traverse("a", &mut node, &mut pos, 0), -2);
    assert_eq!(pos, 0);
}

#[test]
fn build_without_keys() {
    let keys: Vec<String> = Vec::new();
    let mut dic = DoubleArrayTrie::new();
    assert_eq!(dic.build(0, &keys, None, None, NO_PROGRESS), Ok(()));
    assert_eq!(dic.exact_match_search("", 0, 0), -1);
    assert_eq!(dic.exact_match_search("a", 0, 0), -1);
}

#[test]
fn empty_key_and_zero_bytes() {
    let keys = strings(&["", "a\u{0}b", "a\u{0}c"]);
    let values = vec![7, 8, 9];
    let mut dic = DoubleArrayTrie::new();
    dic.build(keys.len(), &keys, None, Some(&values), NO_PROGRESS).unwrap();
    assert_eq!(dic.exact_match_search("", 0, 0), 7);
    assert_eq!(dic.exact_match_search("a\u{0}b", 0, 0), 8);
    assert_eq!(dic.exact_match_search("a\u{0}c", 0, 0), 9);
    assert_eq!(dic.exact_match_search("a", 0, 0), -1);
    assert_eq!(dic.common_prefix_search("a\u{0}bz", 8, 0, 0), vec![pair(8, 3)]);
}

#[test]
fn negative_value_is_rejected() {
    let keys = strings(&["a", "b"]);
    let values = vec![1, -1];
    let mut dic = small_dictionary();
    assert_eq!(
        dic.build(keys.len(), &keys, None, Some(&values), NO_PROGRESS),
        Err(DartsError::InvalidValue)
    );
    assert_eq!(dic.size(), 0);
    assert_eq!(dic.exact_match_search("a", 0, 0), -1);
}

#[test]
fn progress_can_stop_the_build() {
    let keys = strings(&["a", "b", "c"]);
    let mut dic = DoubleArrayTrie::new();
    let stop = |current: usize, _total: usize| if current >= 2 { -1 } else { 0 };
    assert_eq!(dic.build(keys.len(), &keys, None, None, Some(stop)), Err(DartsError::Aborted));
    assert_eq!(dic.size(), 0);
}

#[test]
fn progress_sees_every_key() {
    let keys = strings(&["a", "b", "c"]);
    let mut dic = DoubleArrayTrie::new();
    let calls = std::cell::RefCell::new(Vec::new());
    let record = |current: usize, total: usize| {
        calls.borrow_mut().push((current, total));
        0
    };
    assert_eq!(dic.build(keys.len(), &keys, None, None, Some(record)), Ok(()));
    assert_eq!(calls.into_inner(), vec![(1, 4), (2, 4), (3, 4), (4, 4)]);
}

#[test]
fn longest_prefix_is_the_last_common_prefix() {
    let keys = strings(&["ab", "abcd", "abcdef", "b"]);
    let values = vec![1, 2, 3, 4];
    let mut dic = DoubleArrayTrie::new();
    dic.build(keys.len(), &keys, None, Some(&values), NO_PROGRESS).unwrap();
    let all = dic.common_prefix_search("abcdexyz", 8, 0, 0);
    assert_eq!(all, vec![pair(1, 2), pair(2, 4)]);
    assert_eq!(dic.common_longest_prefix_search_pair("abcdexyz", 0, 0), pair(2, 4));
    assert_eq!(dic.common_longest_prefix_search("abcdexyz", 0, 0), 2);
    assert_eq!(dic.common_longest_prefix_search("xyz", 0, 0), -1);
    let first = dic.common_prefix_search("abcdef", 1, 0, 0);
    assert_eq!(first, vec![pair(1, 2)]);
    let mut buffer = Vec::new();
    assert_eq!(dic.common_prefix_search_into("abcdef", &mut buffer, 2, 0, 0), 3);
    assert_eq!(buffer, vec![pair(1, 2), pair(2, 4)]);
}

#[test]
fn search_from_a_traversed_node() {
    let keys = strings(&["xyzA", "xyzBC", "xyzDE"]);
    let values = vec![10, 20, 30];
    let mut dic = DoubleArrayTrie::new();
    dic.build(keys.len(), &keys, None, Some(&values), NO_PROGRESS).unwrap();
    let mut node = 0usize;
    let mut pos = 0usize;
    assert_eq!(dic.traverse("xyz", &mut node, &mut pos, 0), -1);
    assert_eq!(pos, 3);
    assert_eq!(dic.exact_match_search_pair("A", 0, node), pair(10, 1));
    assert_eq!(dic.exact_match_search_pair("BC", 0, node), pair(20, 2));
    assert_eq!(dic.exact_match_search_pair("DE", 0, node), pair(30, 2));
    assert_eq!(dic.exact_match_search_pair("D", 0, node), pair(-1, 0));
}

#[test]
fn traverse_stops_where_a_transition_is_missing() {
    let dic = small_dictionary();
    let mut node = 0usize;
    let mut pos = 0usize;
    assert_eq!(dic.traverse("abc", &mut node, &mut pos, 0), -2);
    assert_eq!(pos, 2);
    let mut node2 = 0usize;
    let mut pos2 = 0usize;
    assert_eq!(dic.traverse("ab", &mut node2, &mut pos2, 0), 1);
    assert_eq!(node, node2);
}

#[test]
fn shared_subtrees_keep_values() {
    let keys = strings(&["ax", "bx", "cx", "cy"]);
    let values = vec![5, 5, 5, 6];
    let mut minimized = DoubleArrayTrie::new();
    minimized.build(keys.len(), &keys, None, Some(&values), NO_PROGRESS).unwrap();
    assert_eq!(minimized.exact_match_search("ax", 0, 0), 5);
    assert_eq!(minimized.exact_match_search("bx", 0, 0), 5);
    assert_eq!(minimized.exact_match_search("cx", 0, 0), 5);
    assert_eq!(minimized.exact_match_search("cy", 0, 0), 6);
    assert_eq!(minimized.exact_match_search("ay", 0, 0), -1);
}

#[test]
fn saved_bytes_open_to_the_same_dictionary() {
    let dic = small_dictionary();
    let saved = dic.save_bytes();
    assert_eq!(saved.len(), dic.size() * dic.unit_size());
    let mut file = vec![9u8, 9, 9];
    file.extend_from_slice(&saved);
    let mut copy = DoubleArrayTrie::new();
    assert_eq!(copy.open_bytes(&file, 3, 0), Ok(()));
    assert_eq!(copy.size(), dic.size());
    assert_eq!(copy.total_size(), dic.total_size());
    for key in ["a", "ab", "b", "c", ""] {
        assert_eq!(copy.exact_match_search_pair(key, 0, 0), dic.exact_match_search_pair(key, 0, 0));
    }
    assert_eq!(copy.save_bytes(), saved);
}

#[test]
fn open_bytes_rejects_bad_ranges() {
    let mut dic = small_dictionary();
    let size = dic.size();
    let data = vec![0u8; 16];
    assert!(matches!(dic.open_bytes(&data, 17, 0), Err(DartsError::Io(_))));
    assert!(matches!(dic.open_bytes(&data, 8, 16), Err(DartsError::Io(_))));
    assert!(matches!(dic.open_bytes(&data, 1, 0), Err(DartsError::Io(_))));
    assert_eq!(dic.size(), size);
    assert_eq!(dic.exact_match_search("ab", 0, 0), 1);
    assert_eq!(dic.open_bytes(&data, 8, 8), Ok(()));
    assert_eq!(dic.size(), 1);
}

#[test]
fn open_bytes_reads_little_endian_units() {
    let mut dic = DoubleArrayTrie::new();
    let data = vec![0x2Au8, 0, 0, 0, 0, 0, 0, 0x80, 0x07, 0x05, 0, 0, 0, 0, 0, 0];
    dic.open_bytes(&data, 0, 0).unwrap();
    assert_eq!(dic.size(), 2);
    assert_eq!(dic.save_bytes(), data);
}

#[test]
fn set_array_size_is_informational() {
    let dic = small_dictionary();
    let mut copy = DoubleArrayTrie::new();
    copy.set_array(&dic.array(), 0);
    assert_eq!(copy.size(), 0);
    assert_eq!(copy.total_size(), 0);
    assert_eq!(copy.nonzero_size(), 0);
    assert_eq!(copy.exact_match_search("ab", 0, 0), 1);
    assert_eq!(copy.save_bytes(), Vec::<u8>::new());
}

#[test]
fn unit_fields_round_trip() {
    let t = unit::encode(5, 7, false, 0);
    assert_eq!(t, (5 << 8) | 7);
    assert!(!unit::has_leaf(t));
    assert_eq!(unit::base(t), 5);
    assert_eq!(unit::check(t), 7);
    let l = unit::encode(0, 0, true, 42);
    assert_eq!(l, 0x8000_0000_0000_002A);
    assert!(unit::has_leaf(l));
    assert_eq!(unit::value(l), 42);
    assert_eq!(unit::make_leaf(unit::MAX_VALUE), 0x8000_0000_7FFF_FFFF);
    assert_eq!(unit::make_transition(unit::MAX_BASE, 255), 0x7FFF_FFFF_FFFF_FFFF);
    assert_eq!(unit::base(0x7FFF_FFFF_FFFF_FFFF), unit::MAX_BASE);
}

#[test]
fn unit_size_is_eight_bytes() {
    let dic = small_dictionary();
    assert_eq!(dic.unit_size(), 8);
    assert_eq!(dic.total_size(), dic.size() * 8);
    assert_eq!(dic.nonzero_size(), dic.size());
}

#[test]
fn default_is_empty() {
    let dic = DoubleArrayTrie::default();
    assert_eq!(dic.size(), 0);
    assert_eq!(dic.exact_match_search("a", 0, 0), -1);
}

#[test]
fn successful_build_is_not_empty() {
    let keys: Vec<String> = Vec::new();
    let mut dic = DoubleArrayTrie::new();
    dic.build(0, &keys, None, None, NO_PROGRESS).unwrap();
    assert!(dic.size() > 0);
    let dic = small_dictionary();
    assert!(dic.size() > 0);
}

#[test]
fn traverse_tells_prefixes_from_dead_ends() {
    let dic = small_dictionary();
    let keys = strings(&["abcd"]);
    let values = vec![3];
    let mut long = DoubleArrayTrie::new();
    long.build(1, &keys, None, Some(&values), NO_PROGRESS).unwrap();
    let expected = [-1, -1, -1, 3];
    let mut node = 0usize;
    let mut pos = 0usize;
    for (i, want) in expected.iter().enumerate() {
        assert_eq!(long.traverse("abcd", &mut node, &mut pos, i + 1), *want);
    }
    let mut node = 0usize;
    let mut pos = 0usize;
    assert_eq!(long.traverse("abx", &mut node, &mut pos, 1), -1);
    assert_eq!(long.traverse("abx", &mut node, &mut pos, 2), -1);
    assert_eq!(long.traverse("abx", &mut node, &mut pos, 3), -2);
    assert_eq!(pos, 2);
    let mut node = 0usize;
    let mut pos = 0usize;
    assert_eq!(dic.traverse("c", &mut node, &mut pos, 1), -2);
    assert_eq!(pos, 0);
}

#[test]
fn progress_stops_at_the_first_negative_answer() {
    let keys = strings(&["a", "b", "c"]);
    let mut dic = small_dictionary();
    let calls = std::cell::RefCell::new(Vec::new());
    let stop = |current: usize, total: usize| {
        calls.borrow_mut().push((current, total));
        if current == 2 { -1 } else { 0 }
    };
    assert_eq!(dic.build(keys.len(), &keys, None, None, Some(stop)), Err(DartsError::Aborted));
    assert_eq!(calls.into_inner(), vec![(1, 4), (2, 4)]);
    assert_eq!(dic.total_size(), 0);
}

#[test]
fn rebuild_after_clear() {
    let mut dic = small_dictionary();
    dic.clear();
    let keys = strings(&["q", "r"]);
    let values = vec![4, 5];
    assert_eq!(dic.build(keys.len(), &keys, None, Some(&values), NO_PROGRESS), Ok(()));
    assert_eq!(dic.exact_match_search("q", 0, 0), 4);
    assert_eq!(dic.exact_match_search("a", 0, 0), -1);
}

#[test]
fn prefix_search_from_an_accepting_node() {
    let dic = small_dictionary();
    let mut node = 0usize;
    let mut pos = 0usize;
    assert_eq!(dic.traverse("a", &mut node, &mut pos, 0), 0);
    assert_eq!(dic.common_prefix_search("b", 8, 0, node), vec![pair(1, 1)]);
    assert_eq!(dic.common_longest_prefix_search_pair("b", 0, node), pair(1, 1));
    assert_eq!(dic.common_longest_prefix_search_pair("x", 0, node), pair(-1, 0));
    assert_eq!(dic.common_prefix_search("", 8, 0, node), vec![]);
    let mut buffer = Vec::new();
    assert_eq!(dic.common_prefix_search_into("bb", &mut buffer, 0, 0, node), 1);
    assert_eq!(buffer, vec![]);
}

#[test]
fn traverse_past_the_end_moves_nothing() {
    let dic = small_dictionary();
    let mut node = 0usize;
    let mut pos = 0usize;
    assert_eq!(dic.traverse("ab", &mut node, &mut pos, 1), 0);
    let at_a = node;
    pos = 5;
    assert_eq!(dic.traverse("ab", &mut node, &mut pos, 1), 0);
    assert_eq!(node, at_a);
    assert_eq!(pos, 5);
}

#[test]
fn set_array_size_may_exceed_the_array() {
    let dic = small_dictionary();
    let mut copy = DoubleArrayTrie::new();
    copy.set_array(&dic.array(), dic.size() + 10);
    assert_eq!(copy.size(), dic.size() + 10);
    assert_eq!(copy.save_bytes(), dic.save_bytes());
    assert_eq!(copy.exact_match_search("ab", 0, 0), 1);
}
