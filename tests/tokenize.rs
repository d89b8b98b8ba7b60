use wordsort::tokenize::{chunk_count, chunk_words, split_words, to_ascii_lowercase};

fn words(v: &[&str]) -> Vec<Vec<u8>> {
    v.iter().map(|s| s.as_bytes().to_vec()).collect()
}

fn chunked(data: &[u8], chunk_size: usize, overlap: usize) -> Vec<Vec<u8>> {
    let mut all = Vec::new();
    for k in 0..chunk_count(data.len(), chunk_size) {
        all.extend(chunk_words(data, chunk_size, overlap, k));
    }
    all
}

fn lowered_words(data: &[u8]) -> Vec<Vec<u8>> {
    split_words(data)
        .into_iter()
        .map(|mut w| {
            to_ascii_lowercase(&mut w);
            w
        })
        .collect()
}

#[test]
fn split_skips_consecutive_separators() {
    assert_eq!(split_words(b"  foo \t\nbar  baz\n"), words(&["foo", "bar", "baz"]));
}

#[test]
fn split_empty_and_blank_input() {
    assert!(split_words(b"").is_empty());
    assert!(split_words(b" \n\t ").is_empty());
}

#[test]
fn split_single_word_without_separator() {
    assert_eq!(split_words(b"word"), words(&["word"]));
}

#[test]
fn lowercase_only_ascii_letters() {
    let mut b = "HeLLo-Z@[ü]".as_bytes().to_vec();
    to_ascii_lowercase(&mut b);
    assert_eq!(b, "hello-z@[ü]".as_bytes().to_vec());
}

#[test]
fn chunk_count_is_ceiling() {
    assert_eq!(chunk_count(0, 8), 0);
    assert_eq!(chunk_count(8, 8), 1);
    assert_eq!(chunk_count(9, 8), 2);
    assert_eq!(chunk_count(16, 8), 2);
    assert_eq!(chunk_count(usize::MAX, 2), usize::MAX / 2 + 1);
}

#[test]
fn boundary_mid_word_one_chunk_plus_one_byte() {
    // nine bytes, chunk size eight: the boundary falls between 'g' and 'h'
    let data = b"abcd efgh";
    assert_eq!(chunk_count(data.len(), 8), 2);
    assert_eq!(chunk_words(data, 8, 4, 0), words(&["abcd", "efgh"]));
    assert!(chunk_words(data, 8, 4, 1).is_empty());
    assert_eq!(chunked(data, 8, 4), words(&["abcd", "efgh"]));
}

#[test]
fn boundary_at_word_start_credits_previous_chunk() {
    // the second chunk starts exactly at 'x'; the word belongs to chunk 0
    let data = b"abc xyz q";
    assert_eq!(chunk_words(data, 4, 4, 0), words(&["abc", "xyz"]));
    assert_eq!(chunk_words(data, 4, 4, 1), words(&["q"]));
    assert_eq!(chunk_words(data, 4, 4, 2), words(&[]));
}

#[test]
fn chunking_matches_whole_file_for_many_sizes() {
    let data = b"The quick Brown fox\tjumps over\nthe LAZY dog  again and again";
    for chunk_size in 5..40 {
        for overlap in 5..=chunk_size.min(8) {
            assert_eq!(chunked(data, chunk_size, overlap), lowered_words(data));
        }
    }
}

#[test]
fn chunk_words_normalizes_case() {
    assert_eq!(chunk_words(b"Foo BAR", 100, 10, 0), words(&["foo", "bar"]));
}

#[test]
fn chunk_text_stops_at_invalid_utf8() {
    let data = b"ab cd \xff ef gh";
    assert_eq!(chunk_words(data, 100, 10, 0), words(&["ab", "cd"]));
}

#[test]
fn chunk_keeps_valid_multibyte_text() {
    let data = "Grüße AUS köln".as_bytes();
    assert_eq!(chunk_words(data, 100, 10, 0), words(&["grüße", "aus", "köln"]));
}
