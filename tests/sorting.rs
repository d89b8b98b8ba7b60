use rustc_hash::FxHasher;
use std::hash::Hasher;
use wordsort::merge::{merge_all, merge_unique, sort_unique};
use wordsort::partition::hash_partition;
use wordsort::pipeline::{
    is_strictly_sorted, merge_encoded, reduce_partition, render_lines, sort_unique_words,
};
use wordsort::records::encode_records;
use wordsort::{CHUNK_SIZE, MAX_WORD_LEN, PARTITIONS};

fn words(v: &[&str]) -> Vec<Vec<u8>> {
    v.iter().map(|s| s.as_bytes().to_vec()).collect()
}

#[test]
fn hash_partition_is_fx_hash_mod_partitions() {
    for w in ["foo", "bar", "a longer word here", ""] {
        let mut h = FxHasher::default();
        h.write(w.as_bytes());
        let expected = (h.finish() % PARTITIONS as u64) as usize;
        assert_eq!(hash_partition(w.as_bytes()), expected);
        assert!(hash_partition(w.as_bytes()) < PARTITIONS);
    }
}

#[test]
fn hash_partition_is_deterministic() {
    let a = hash_partition(b"determinism");
    let b = hash_partition(&b"xx determinism"[3..]);
    assert_eq!(a, b);
}

#[test]
fn hash_partition_spreads_words() {
    let parts: std::collections::HashSet<usize> =
        (0..200).map(|i| hash_partition(format!("w{}", i).as_bytes())).collect();
    assert!(parts.len() > 1);
}

#[test]
fn merge_unique_collapses_shared_words() {
    let m = merge_unique(&words(&["a", "c", "e"]), &words(&["b", "c", "f"]));
    assert_eq!(m, words(&["a", "b", "c", "e", "f"]));
}

#[test]
fn merge_unique_with_empty_side() {
    assert_eq!(merge_unique(&words(&[]), &words(&["x"])), words(&["x"]));
    assert_eq!(merge_unique(&words(&["x"]), &words(&[])), words(&["x"]));
}

#[test]
fn merge_all_many_lists() {
    let lists = vec![
        words(&["d", "g"]),
        words(&["a"]),
        words(&[]),
        words(&["b", "d", "z"]),
        words(&["c"]),
    ];
    assert_eq!(merge_all(lists), words(&["a", "b", "c", "d", "g", "z"]));
    assert!(merge_all(Vec::new()).is_empty());
}

#[test]
fn sort_unique_orders_by_bytes() {
    let s = sort_unique(words(&["b", "ab", "a", "b", "B", "aa", "a"]));
    assert_eq!(s, words(&["B", "a", "aa", "ab", "b"]));
}

#[test]
fn sort_unique_prefix_comes_first() {
    assert_eq!(sort_unique(words(&["abc", "ab", "abcd"])), words(&["ab", "abc", "abcd"]));
}

#[test]
fn reduce_partition_sorted_and_unique() {
    let r = reduce_partition(b"pear\napple\npear\nfig\napple\n");
    assert_eq!(r, words(&["apple", "fig", "pear"]));
    assert!(is_strictly_sorted(&r));
}

#[test]
fn strictly_sorted_check() {
    assert!(is_strictly_sorted(&words(&[])));
    assert!(is_strictly_sorted(&words(&["a", "b"])));
    assert!(!is_strictly_sorted(&words(&["a", "a"])));
    assert!(!is_strictly_sorted(&words(&["b", "a"])));
}

#[test]
fn merge_encoded_partitions() {
    let p0 = encode_records(&words(&["apple", "kiwi"])).unwrap();
    let p1 = encode_records(&words(&["banana", "kiwi", "zucchini"])).unwrap();
    let m = merge_encoded(&vec![p0, p1]).unwrap();
    assert_eq!(m, words(&["apple", "banana", "kiwi", "zucchini"]));
}

#[test]
fn merge_encoded_rejects_unsorted_partition() {
    let bad = encode_records(&words(&["b", "a"])).unwrap();
    assert_eq!(merge_encoded(&vec![bad]), None);
}

#[test]
fn render_lines_one_per_line() {
    assert_eq!(render_lines(&words(&["x", "yz"])), b"x\nyz\n".to_vec());
    assert!(render_lines(&words(&[])).is_empty());
}

#[test]
fn two_files_example_output() {
    let files = vec![b"Foo bar".to_vec(), b"foo BAZ bar".to_vec()];
    let r = sort_unique_words(&files, CHUNK_SIZE, MAX_WORD_LEN);
    assert_eq!(r, words(&["bar", "baz", "foo"]));
    assert_eq!(render_lines(&r), b"bar\nbaz\nfoo\n".to_vec());
}

#[test]
fn small_chunks_give_same_output() {
    let files = vec![
        b"one two three four five six seven".to_vec(),
        b"SIX five\tFour\nthree two one zero".to_vec(),
    ];
    let big = sort_unique_words(&files, CHUNK_SIZE, MAX_WORD_LEN);
    let small = sort_unique_words(&files, 6, 6);
    assert_eq!(big, small);
    assert_eq!(
        big,
        words(&["five", "four", "one", "seven", "six", "three", "two", "zero"])
    );
}

#[test]
fn running_twice_is_identical() {
    let files = vec![b"b a c a\nB".to_vec(), b"".to_vec(), b"d".to_vec()];
    let first = render_lines(&sort_unique_words(&files, 4, 4));
    let second = render_lines(&sort_unique_words(&files, 4, 4));
    assert_eq!(first, second);
    assert_eq!(first, b"a\nb\nc\nd\n".to_vec());
}

#[test]
fn no_input_files_gives_empty_output() {
    assert!(sort_unique_words(&Vec::new(), 8, 4).is_empty());
}
