use levenshtein_report::distance::levenshtein;

#[test]
fn kitten_sitting_is_three() {
    assert_eq!(levenshtein("kitten", "sitting"), 3);
}

#[test]
fn flaw_lawn_is_two() {
    assert_eq!(levenshtein("flaw", "lawn"), 2);
}

#[test]
fn same_string_is_zero() {
    for s in ["", "a", "hello", "héllo wörld", "aaaa"] {
        assert_eq!(levenshtein(s, s), 0);
    }
}

#[test]
fn symmetric_on_samples() {
    let samples = ["", "abc", "kitten", "sitting", "flaw", "lawn", "日本語", "日本"];
    for a in samples {
        for b in samples {
            assert_eq!(levenshtein(a, b), levenshtein(b, a));
        }
    }
}

#[test]
fn from_empty_is_character_count() {
    assert_eq!(levenshtein("", "hello"), 5);
    assert_eq!(levenshtein("hello", ""), 5);
    assert_eq!(levenshtein("", "日本語"), 3);
    assert_eq!(levenshtein("", ""), 0);
}

#[test]
fn counts_characters_not_bytes() {
    assert_eq!(levenshtein("café", "cafe"), 1);
    assert_eq!(levenshtein("日本語", "日本人"), 1);
    assert_eq!(levenshtein("ü", "u"), 1);
}

#[test]
fn insert_delete_substitute() {
    assert_eq!(levenshtein("abc", "abxc"), 1);
    assert_eq!(levenshtein("abxc", "abc"), 1);
    assert_eq!(levenshtein("abc", "axc"), 1);
    assert_eq!(levenshtein("abc", "xyz"), 3);
    assert_eq!(levenshtein("hello", "world"), 4);
    assert_eq!(levenshtein("hallo", "world"), 4);
}
