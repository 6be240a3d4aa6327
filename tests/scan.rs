use levenshtein_report::scan::{merge_rows, scan, scan_row, Entry, MatchRecord};

fn entry(text: &str, source: &str) -> Entry {
    Entry { text: text.to_string(), source: source.to_string() }
}

fn rec(a: &str, sa: &str, b: &str, sb: &str, d: usize) -> MatchRecord {
    MatchRecord {
        text_a: a.to_string(),
        text_b: b.to_string(),
        source_a: sa.to_string(),
        source_b: sb.to_string(),
        distance: d,
    }
}

fn sample() -> Vec<Entry> {
    vec![
        entry("kitten", "a.txt"),
        entry("sitting", "a.txt"),
        entry("mitten", "b.txt"),
        entry("flaw", "b.txt"),
        entry("lawn", "c.txt"),
        entry("kitten", "c.txt"),
    ]
}

#[test]
fn two_file_corpus_threshold_one() {
    let entries = vec![entry("hello", "A"), entry("hallo", "A"), entry("world", "B")];
    let r = scan(&entries, 1);
    assert_eq!(r, vec![rec("hello", "A", "hallo", "A", 1)]);
}

#[test]
fn world_pairs_excluded_below_four() {
    let entries = vec![entry("hello", "A"), entry("hallo", "A"), entry("world", "B")];
    let r = scan(&entries, 3);
    assert_eq!(r, vec![rec("hello", "A", "hallo", "A", 1)]);
    let r = scan(&entries, 4);
    assert_eq!(r.len(), 3);
}

#[test]
fn every_record_within_threshold_and_every_pair_found() {
    let entries = sample();
    for t in 0..8usize {
        let r = scan(&entries, t);
        for m in r.iter() {
            assert!(m.distance <= t);
        }
        let mut expected = 0;
        for i in 0..entries.len() {
            for j in i + 1..entries.len() {
                let d = levenshtein_report::distance::levenshtein(&entries[i].text, &entries[j].text);
                if d <= t {
                    expected += 1;
                    let want = rec(&entries[i].text, &entries[i].source, &entries[j].text, &entries[j].source, d);
                    assert_eq!(r.iter().filter(|m| **m == want).count(), 1);
                }
            }
        }
        assert_eq!(r.len(), expected);
    }
}

#[test]
fn at_most_half_of_ordered_pairs() {
    let entries = sample();
    let n = entries.len();
    let r = scan(&entries, 1000);
    assert_eq!(r.len(), n * (n - 1) / 2);
    for m in r.iter() {
        assert!(!(m.text_a == m.text_b && m.source_a == m.source_b));
    }
}

#[test]
fn identical_lines_pair_once() {
    let entries = vec![entry("same", "x"), entry("same", "x")];
    let r = scan(&entries, 0);
    assert_eq!(r, vec![rec("same", "x", "same", "x", 0)]);
}

#[test]
fn single_and_empty_corpus() {
    assert!(scan(&Vec::new(), 5).is_empty());
    assert!(scan(&vec![entry("alone", "f")], 5).is_empty());
}

#[test]
fn row_sweeps_later_entries_only() {
    let entries = sample();
    let r = scan_row(&entries, 0, 2);
    assert_eq!(
        r,
        vec![rec("kitten", "a.txt", "mitten", "b.txt", 1), rec("kitten", "a.txt", "kitten", "c.txt", 0)]
    );
    assert!(scan_row(&entries, entries.len() - 1, 100).is_empty());
}

#[test]
fn rows_in_any_order_give_the_same_set() {
    let entries = sample();
    let n = entries.len();
    let t = 3;
    let sequential = scan(&entries, t);
    let reversed: Vec<Vec<MatchRecord>> = (0..n).rev().map(|i| scan_row(&entries, i, t)).collect();
    let merged = merge_rows(reversed);
    assert_eq!(merged.len(), sequential.len());
    for m in merged.iter() {
        assert!(sequential.contains(m));
    }
    for m in sequential.iter() {
        assert!(merged.contains(m));
    }
}

#[test]
fn merge_in_row_order_is_the_scan() {
    let entries = sample();
    let rows: Vec<Vec<MatchRecord>> = (0..entries.len()).map(|i| scan_row(&entries, i, 2)).collect();
    assert_eq!(merge_rows(rows), scan(&entries, 2));
}
