//! The all-pairs scanner: every unordered pair of distinct entries whose
//! texts lie within the threshold yields one match record.
use crate::distance::{edit_distance, levenshtein};
use vstd::prelude::*;

verus! {

/// One loaded line and the file it came from.
#[derive(Clone, Debug, PartialEq, Eq)]
pub struct Entry {
    pub text: String,
    pub source: String,
}

/// Two entries whose texts are close, with their distance.
#[derive(Clone, Debug, PartialEq, Eq)]
pub struct MatchRecord {
    pub text_a: String,
    pub text_b: String,
    pub source_a: String,
    pub source_b: String,
    pub distance: usize,
}

pub struct EntryView {
    pub text: Seq<char>,
    pub source: Seq<char>,
}

pub struct RecordView {
    pub text_a: Seq<char>,
    pub text_b: Seq<char>,
    pub source_a: Seq<char>,
    pub source_b: Seq<char>,
    pub distance: nat,
}

impl View for Entry {
    type V = EntryView;

    open spec fn view(&self) -> EntryView {
        EntryView { text: self.text@, source: self.source@ }
    }
}

impl View for MatchRecord {
    type V = RecordView;

    open spec fn view(&self) -> RecordView {
        RecordView {
            text_a: self.text_a@,
            text_b: self.text_b@,
            source_a: self.source_a@,
            source_b: self.source_b@,
            distance: self.distance as nat,
        }
    }
}

pub open spec fn entry_views(s: Seq<Entry>) -> Seq<EntryView> {
    s.map_values(|x: Entry| x@)
}

pub open spec fn record_views(s: Seq<MatchRecord>) -> Seq<RecordView> {
    s.map_values(|x: MatchRecord| x@)
}

/// Entries `i` and `j` are within `t` edits of each other.
pub open spec fn is_match(e: Seq<EntryView>, t: nat, i: int, j: int) -> bool {
    edit_distance(e[i].text, e[j].text) <= t
}

/// The record that the pair of entries `i` and `j` gives.
pub open spec fn record_of(e: Seq<EntryView>, i: int, j: int) -> RecordView {
    RecordView {
        text_a: e[i].text,
        text_b: e[j].text,
        source_a: e[i].source,
        source_b: e[j].source,
        distance: edit_distance(e[i].text, e[j].text),
    }
}

/// The matching pairs `(i, j)` with `i < j < k`, in increasing `j`.
pub open spec fn row_pairs(e: Seq<EntryView>, t: nat, i: int, k: int) -> Seq<(int, int)>
    decreases k - i,
{
    if k <= i + 1 {
        Seq::empty()
    } else if is_match(e, t, i, k - 1) {
        row_pairs(e, t, i, k - 1).push((i, k - 1))
    } else {
        row_pairs(e, t, i, k - 1)
    }
}

/// The matching pairs whose first index is below `m`, row after row.
pub open spec fn scan_pairs(e: Seq<EntryView>, t: nat, m: int) -> Seq<(int, int)>
    decreases m,
{
    if m <= 0 {
        Seq::empty()
    } else {
        scan_pairs(e, t, m - 1) + row_pairs(e, t, m - 1, e.len() as int)
    }
}

pub open spec fn records_of(e: Seq<EntryView>, ps: Seq<(int, int)>) -> Seq<RecordView> {
    ps.map_values(|p: (int, int)| record_of(e, p.0, p.1))
}

/// The records of one outer index: entry `i` against every later entry.
pub open spec fn row_records(e: Seq<EntryView>, t: nat, i: int) -> Seq<RecordView> {
    records_of(e, row_pairs(e, t, i, e.len() as int))
}

/// The records of a whole scan.
pub open spec fn scan_records(e: Seq<EntryView>, t: nat) -> Seq<RecordView> {
    records_of(e, scan_pairs(e, t, e.len() as int))
}

/// The rows laid end to end, first row first.
pub open spec fn flatten_rows(rows: Seq<Seq<RecordView>>) -> Seq<RecordView>
    decreases rows.len(),
{
    if rows.len() == 0 {
        Seq::empty()
    } else {
        flatten_rows(rows.drop_last()) + rows.last()
    }
}

pub open spec fn row_views(rows: Seq<Vec<MatchRecord>>) -> Seq<Seq<RecordView>> {
    rows.map_values(|v: Vec<MatchRecord>| record_views(v@))
}

/// Compares entry `i` with every later entry and keeps the pairs within
/// `threshold`, in the order of the later entry.
pub fn scan_row(entries: &Vec<Entry>, i: usize, threshold: usize) -> (r: Vec<MatchRecord>)
    requires
        i < entries@.len(),
    ensures
        record_views(r@) == row_records(entry_views(entries@), threshold as nat, i as int),
{
    let ghost e = entry_views(entries@);
    let n = entries.len();
    let mut out: Vec<MatchRecord> = Vec::new();
    let mut j: usize = i + 1;
    while j < n
        invariant
            e == entry_views(entries@),
            n == entries@.len(),
            i < n,
            i + 1 <= j <= n,
            record_views(out@) == records_of(e, row_pairs(e, threshold as nat, i as int, j as int)),
        decreases n - j,
    {
        let a = &entries[i];
        let b = &entries[j];
        let d = levenshtein(a.text.as_str(), b.text.as_str());
        let ghost ps = row_pairs(e, threshold as nat, i as int, j as int);
        if d <= threshold {
            let rec = MatchRecord {
                text_a: a.text.clone(),
                text_b: b.text.clone(),
                source_a: a.source.clone(),
                source_b: b.source.clone(),
                distance: d,
            };
            let ghost old_out = out@;
            out.push(rec);
            proof {
                assert(record_views(out@) =~= record_views(old_out).push(rec@));
                assert(records_of(e, ps.push((i as int, j as int))) =~= records_of(e, ps).push(
                    record_of(e, i as int, j as int),
                ));
            }
        }
        j += 1;
    }
    out
}

/// Compares every unordered pair of distinct entries and keeps those within
/// `threshold`, row after row.
pub fn scan(entries: &Vec<Entry>, threshold: usize) -> (r: Vec<MatchRecord>)
    ensures
        record_views(r@) == scan_records(entry_views(entries@), threshold as nat),
{
    let ghost e = entry_views(entries@);
    let n = entries.len();
    let mut out: Vec<MatchRecord> = Vec::new();
    for i in 0..n
        invariant
            e == entry_views(entries@),
            n == entries@.len(),
            record_views(out@) == records_of(e, scan_pairs(e, threshold as nat, i as int)),
    {
        let mut row = scan_row(entries, i, threshold);
        let ghost old_out = out@;
        let ghost row_v = row@;
        out.append(&mut row);
        proof {
            let t = threshold as nat;
            assert(record_views(out@) =~= record_views(old_out) + record_views(row_v));
            assert(records_of(e, scan_pairs(e, t, i + 1)) =~= records_of(e, scan_pairs(e, t, i as int))
                + records_of(e, row_pairs(e, t, i as int, n as int)));
        }
    }
    out
}

/// Joins rows that were swept separately into one result, keeping the order
/// of the rows and of the records in each.
pub fn merge_rows(rows: Vec<Vec<MatchRecord>>) -> (r: Vec<MatchRecord>)
    ensures
        record_views(r@) == flatten_rows(row_views(rows@)),
{
    let ghost rv = row_views(rows@);
    let mut out: Vec<MatchRecord> = Vec::new();
    for row in it: rows
        invariant
            it.seq() == rows@,
            rv == row_views(rows@),
            record_views(out@) == flatten_rows(rv.take(it.index() as int)),
    {
        let mut row = row;
        let ghost old_out = out@;
        let ghost row_v = row@;
        out.append(&mut row);
        proof {
            let k = it.index() as int;
            assert(rv.take(k + 1).drop_last() =~= rv.take(k));
            assert(record_views(out@) =~= record_views(old_out) + record_views(row_v));
        }
    }
    proof {
        assert(rv.take(rows@.len() as int) =~= rv);
    }
    out
}

/// The pairs of row `i` up to `k`: all start at `i`, end after it and below
/// `k`, match, come in strictly increasing order, number at most the later
/// indices, and include every matching later index below `k`.
proof fn lemma_row_pairs(e: Seq<EntryView>, t: nat, i: int, k: int)
    ensures
        ({
            let rp = row_pairs(e, t, i, k);
            &&& forall|x: int|
                0 <= x < rp.len() ==> rp[x].0 == i && i < rp[x].1 < k && is_match(
                    e,
                    t,
                    i,
                    rp[x].1,
                )
            &&& forall|x: int, y: int| 0 <= x < y < rp.len() ==> rp[x].1 < rp[y].1
            &&& forall|j: int| i < j < k && is_match(e, t, i, j) ==> rp.contains((i, j))
            &&& rp.len() <= if k > i + 1 {
                k - i - 1
            } else {
                0
            }
        }),
    decreases k - i,
{
    if k > i + 1 {
        lemma_row_pairs(e, t, i, k - 1);
        let prev = row_pairs(e, t, i, k - 1);
        let rp = row_pairs(e, t, i, k);
        assert forall|j: int| i < j < k && is_match(e, t, i, j) implies rp.contains((i, j)) by {
            if j < k - 1 {
                let x = choose|x: int| 0 <= x < prev.len() && prev[x] == (i, j);
                assert(rp[x] == (i, j));
            } else {
                assert(rp[rp.len() - 1] == (i, j));
            }
        }
    }
}

/// The pairs of the first `m` rows: in range, matching, in strictly
/// increasing order by first then second index, at most `m(2n - m - 1) / 2`
/// of them, and including every matching pair whose first index is below `m`.
proof fn lemma_scan_pairs(e: Seq<EntryView>, t: nat, m: int)
    requires
        0 <= m <= e.len(),
    ensures
        ({
            let ps = scan_pairs(e, t, m);
            let n = e.len() as int;
            &&& forall|x: int|
                0 <= x < ps.len() ==> 0 <= ps[x].0 < m && ps[x].0 < ps[x].1 < n && is_match(
                    e,
                    t,
                    ps[x].0,
                    ps[x].1,
                )
            &&& forall|x: int, y: int|
                0 <= x < y < ps.len() ==> ps[x].0 < ps[y].0 || (ps[x].0 == ps[y].0 && ps[x].1
                    < ps[y].1)
            &&& forall|i: int, j: int|
                0 <= i < m && i < j < n && is_match(e, t, i, j) ==> ps.contains((i, j))
            &&& 2 * ps.len() <= m * (2 * n - m - 1)
        }),
    decreases m,
{
    let n = e.len() as int;
    if m > 0 {
        lemma_scan_pairs(e, t, m - 1);
        lemma_row_pairs(e, t, m - 1, n);
        let prev = scan_pairs(e, t, m - 1);
        let rp = row_pairs(e, t, m - 1, n);
        let ps = scan_pairs(e, t, m);
        assert(ps == prev + rp);
        assert forall|x: int, y: int| 0 <= x < y < ps.len() implies ps[x].0 < ps[y].0 || (ps[x].0
            == ps[y].0 && ps[x].1 < ps[y].1) by {
            if y >= prev.len() && x < prev.len() {
                assert(ps[y] == rp[y - prev.len()]);
            } else if x >= prev.len() {
                assert(ps[x] == rp[x - prev.len()]);
                assert(ps[y] == rp[y - prev.len()]);
            }
        }
        assert forall|i: int, j: int|
            0 <= i < m && i < j < n && is_match(e, t, i, j) implies ps.contains((i, j)) by {
            if i < m - 1 {
                let x = choose|x: int| 0 <= x < prev.len() && prev[x] == (i, j);
                assert(ps[x] == (i, j));
            } else {
                let x = choose|x: int| 0 <= x < rp.len() && rp[x] == (i, j);
                assert(ps[prev.len() + x] == (i, j));
            }
        }
        assert(2 * ps.len() <= m * (2 * n - m - 1)) by (nonlinear_arith)
            requires
                ps.len() == prev.len() + rp.len(),
                2 * prev.len() <= (m - 1) * (2 * n - (m - 1) - 1),
                rp.len() <= if n > m {
                    n - m
                } else {
                    0
                },
                m <= n,
        ;
    }
}

/// A scan is exact: each pair it lists joins two distinct entries, first
/// index below the second, within the threshold; no pair is listed twice;
/// every pair within the threshold is listed; and each record carries the
/// texts, sources and true distance of its pair.
pub proof fn lemma_scan_exact(e: Seq<EntryView>, t: nat)
    ensures
        ({
            let ps = scan_pairs(e, t, e.len() as int);
            let rs = scan_records(e, t);
            &&& forall|x: int|
                0 <= x < ps.len() ==> 0 <= ps[x].0 < ps[x].1 < e.len() && edit_distance(
                    e[ps[x].0].text,
                    e[ps[x].1].text,
                ) <= t
            &&& ps.no_duplicates()
            &&& forall|i: int, j: int|
                0 <= i < j < e.len() && edit_distance(e[i].text, e[j].text) <= t ==> ps.contains(
                    (i, j),
                )
            &&& rs.len() == ps.len()
            &&& forall|x: int|
                0 <= x < rs.len() ==> rs[x] == record_of(e, ps[x].0, ps[x].1) && rs[x].distance
                    == edit_distance(rs[x].text_a, rs[x].text_b) && rs[x].distance <= t
        }),
{
    let ps = scan_pairs(e, t, e.len() as int);
    let rs = scan_records(e, t);
    lemma_scan_pairs(e, t, e.len() as int);
    assert forall|x: int, y: int| 0 <= x < ps.len() && 0 <= y < ps.len() && x != y implies ps[x]
        != ps[y] by {
        if x > y {
            assert(ps[y].0 < ps[x].0 || (ps[y].0 == ps[x].0 && ps[y].1 < ps[x].1));
        }
    }
    assert forall|x: int| 0 <= x < rs.len() implies rs[x] == record_of(e, ps[x].0, ps[x].1)
        && rs[x].distance == edit_distance(rs[x].text_a, rs[x].text_b) && rs[x].distance
        <= t by {
        assert(is_match(e, t, ps[x].0, ps[x].1));
    }
    assert forall|i: int, j: int|
        0 <= i < j < e.len() && edit_distance(e[i].text, e[j].text) <= t implies ps.contains(
        (i, j),
    ) by {
        assert(is_match(e, t, i, j));
    }
    assert forall|x: int| 0 <= x < ps.len() implies 0 <= ps[x].0 < ps[x].1 < e.len()
        && edit_distance(e[ps[x].0].text, e[ps[x].1].text) <= t by {
        assert(is_match(e, t, ps[x].0, ps[x].1));
    }
}

/// A scan of `n` entries yields at most `n(n - 1) / 2` records, and never
/// pairs an entry with itself.
pub proof fn lemma_scan_bounded(e: Seq<EntryView>, t: nat)
    ensures
        2 * scan_records(e, t).len() <= e.len() * (e.len() - 1),
        forall|x: int|
            0 <= x < scan_pairs(e, t, e.len() as int).len() ==> scan_pairs(
                e,
                t,
                e.len() as int,
            )[x].0 != scan_pairs(e, t, e.len() as int)[x].1,
{
    lemma_scan_pairs(e, t, e.len() as int);
}

/// The records of the rows `order[0]`, `order[1]`, ... laid end to end.
pub open spec fn rows_in_order(e: Seq<EntryView>, t: nat, order: Seq<int>) -> Seq<RecordView> {
    flatten_rows(order.map_values(|i: int| row_records(e, t, i)))
}

proof fn lemma_flatten_contains(rows: Seq<Seq<RecordView>>, r: RecordView)
    ensures
        flatten_rows(rows).contains(r) <==> exists|k: int| 0 <= k < rows.len() && rows[k].contains(r),
    decreases rows.len(),
{
    if rows.len() > 0 {
        let init = rows.drop_last();
        let last = rows.last();
        let f = flatten_rows(rows);
        lemma_flatten_contains(init, r);
        assert(f == flatten_rows(init) + last);
        if f.contains(r) {
            let x = choose|x: int| 0 <= x < f.len() && f[x] == r;
            if x < flatten_rows(init).len() {
                assert(flatten_rows(init).contains(r));
                let k = choose|k: int| 0 <= k < init.len() && init[k].contains(r);
                assert(rows[k] == init[k]);
            } else {
                assert(last[x - flatten_rows(init).len()] == r);
                assert(rows[rows.len() - 1].contains(r));
            }
        }
        if exists|k: int| 0 <= k < rows.len() && rows[k].contains(r) {
            let k = choose|k: int| 0 <= k < rows.len() && rows[k].contains(r);
            let y = choose|y: int| 0 <= y < rows[k].len() && rows[k][y] == r;
            if k < rows.len() - 1 {
                assert(init[k] == rows[k]);
                let x = choose|x: int| 0 <= x < flatten_rows(init).len() && flatten_rows(init)[x]
                    == r;
                assert(f[x] == r);
            } else {
                assert(f[flatten_rows(init).len() + y] == r);
            }
        }
    }
}

/// The first `m` rows of a scan, laid end to end, are its first `m` rows of records.
proof fn lemma_scan_is_rows(e: Seq<EntryView>, t: nat, m: int)
    requires
        0 <= m,
    ensures
        records_of(e, scan_pairs(e, t, m)) == rows_in_order(e, t, Seq::new(m as nat, |i: int| i)),
    decreases m,
{
    if m > 0 {
        lemma_scan_is_rows(e, t, m - 1);
        let ord = Seq::new(m as nat, |i: int| i);
        let rows = ord.map_values(|i: int| row_records(e, t, i));
        assert(ord.drop_last() =~= Seq::new((m - 1) as nat, |i: int| i));
        assert(rows.drop_last() =~= ord.drop_last().map_values(|i: int| row_records(e, t, i)));
        assert(records_of(e, scan_pairs(e, t, m)) =~= records_of(e, scan_pairs(e, t, m - 1))
            + records_of(e, row_pairs(e, t, m - 1, e.len() as int)));
    }
}

/// Sweeping the rows in any order, each row once, and joining them yields
/// the same set of records as a scan that goes row after row.
pub proof fn lemma_any_row_order(e: Seq<EntryView>, t: nat, order: Seq<int>)
    requires
        order.len() == e.len(),
        order.no_duplicates(),
        forall|k: int| 0 <= k < order.len() ==> 0 <= #[trigger] order[k] < e.len(),
        forall|i: int| 0 <= i < e.len() ==> order.contains(i),
    ensures
        rows_in_order(e, t, order).to_set() == scan_records(e, t).to_set(),
{
    let n = e.len() as int;
    let ident = Seq::new(n as nat, |i: int| i);
    let rows_a = order.map_values(|i: int| row_records(e, t, i));
    let rows_b = ident.map_values(|i: int| row_records(e, t, i));
    lemma_scan_is_rows(e, t, n);
    assert forall|r: RecordView| rows_in_order(e, t, order).contains(r) <==> scan_records(
        e,
        t,
    ).contains(r) by {
        lemma_flatten_contains(rows_a, r);
        lemma_flatten_contains(rows_b, r);
        if exists|k: int| 0 <= k < rows_a.len() && rows_a[k].contains(r) {
            let k = choose|k: int| 0 <= k < rows_a.len() && rows_a[k].contains(r);
            assert(rows_b[order[k]] == rows_a[k]);
        }
        if exists|k: int| 0 <= k < rows_b.len() && rows_b[k].contains(r) {
            let k = choose|k: int| 0 <= k < rows_b.len() && rows_b[k].contains(r);
            assert(order.contains(k));
            let x = choose|x: int| 0 <= x < order.len() && order[x] == k;
            assert(rows_a[x] == rows_b[k]);
        }
    }
    assert(rows_in_order(e, t, order).to_set() =~= scan_records(e, t).to_set());
}

} // verus!
