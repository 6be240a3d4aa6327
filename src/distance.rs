//! The edit-distance (Levenshtein) metric over characters.
use vstd::prelude::*;

verus! {

broadcast use vstd::string::axiom_spec_iter;

pub open spec fn min3(x: nat, y: nat, z: nat) -> nat {
    if x <= y && x <= z {
        x
    } else if y <= z {
        y
    } else {
        z
    }
}

/// The least number of single-character insertions, deletions and
/// substitutions that turn `a` into `b`.
pub open spec fn edit_distance(a: Seq<char>, b: Seq<char>) -> nat
    decreases a.len() + b.len(),
{
    if a.len() == 0 {
        b.len()
    } else if b.len() == 0 {
        a.len()
    } else {
        min3(
            edit_distance(a.drop_last(), b) + 1,
            edit_distance(a, b.drop_last()) + 1,
            edit_distance(a.drop_last(), b.drop_last()) + if a.last() == b.last() {
                0nat
            } else {
                1nat
            },
        )
    }
}

/// The characters of `s`, in order.
fn chars_of(s: &str) -> (r: Vec<char>)
    ensures
        r@ == s@,
{
    let mut out: Vec<char> = Vec::new();
    for c in it: s.chars()
        invariant
            it.seq() == s@,
            out@ == it.seq().take(it.index() as int),
    {
        out.push(c);
    }
    out
}

/// No more edits are needed than the longer of the two strings has characters.
pub proof fn lemma_distance_at_most_longer(a: Seq<char>, b: Seq<char>)
    ensures
        edit_distance(a, b) <= if a.len() >= b.len() {
            a.len()
        } else {
            b.len()
        },
    decreases a.len() + b.len(),
{
    if a.len() > 0 && b.len() > 0 {
        lemma_distance_at_most_longer(a.drop_last(), b.drop_last());
    }
}

/// A string is at distance zero from itself.
pub proof fn lemma_distance_to_self(a: Seq<char>)
    ensures
        edit_distance(a, a) == 0,
    decreases a.len(),
{
    if a.len() > 0 {
        lemma_distance_to_self(a.drop_last());
    }
}

/// The distance does not depend on which string comes first.
pub proof fn lemma_distance_symmetric(a: Seq<char>, b: Seq<char>)
    ensures
        edit_distance(a, b) == edit_distance(b, a),
    decreases a.len() + b.len(),
{
    if a.len() > 0 && b.len() > 0 {
        lemma_distance_symmetric(a.drop_last(), b);
        lemma_distance_symmetric(a, b.drop_last());
        lemma_distance_symmetric(a.drop_last(), b.drop_last());
    }
}

/// From the empty string, the distance is the number of characters.
pub proof fn lemma_distance_from_empty(s: Seq<char>)
    ensures
        edit_distance(Seq::empty(), s) == s.len(),
{
}

/// The edit distance between `str1` and `str2`, counted over characters.
pub fn levenshtein(str1: &str, str2: &str) -> (r: usize)
    ensures
        r as nat == edit_distance(str1@, str2@),
{
    let a = chars_of(str1);
    let b = chars_of(str2);
    let m = a.len();
    let n = b.len();
    let mut prev: Vec<usize> = Vec::new();
    prev.push(0);
    for j in 0..n
        invariant
            n == b@.len(),
            prev@.len() == j + 1,
            forall|k: int| 0 <= k <= j ==> prev@[k] as nat == edit_distance(a@.take(0), b@.take(k)),
    {
        prev.push(j + 1);
    }
    for i in 0..m
        invariant
            m == a@.len(),
            n == b@.len(),
            prev@.len() == n + 1,
            forall|k: int| 0 <= k <= n ==> prev@[k] as nat == edit_distance(a@.take(i as int), b@.take(k)),
    {
        let mut cur: Vec<usize> = Vec::new();
        cur.push(i + 1);
        assert(a@.take(i + 1).len() > 0 && b@.take(0).len() == 0);
        for j in 0..n
            invariant
                m == a@.len(),
                n == b@.len(),
                i < m,
                prev@.len() == n + 1,
                forall|k: int| 0 <= k <= n ==> prev@[k] as nat == edit_distance(a@.take(i as int), b@.take(k)),
                cur@.len() == j + 1,
                forall|k: int| 0 <= k <= j ==> cur@[k] as nat == edit_distance(a@.take(i + 1), b@.take(k)),
        {
            proof {
                lemma_distance_at_most_longer(a@.take(i as int), b@.take(j as int));
            }
            let cost: usize = if a[i] == b[j] { 0 } else { 1 };
            let mut d = prev[j] + cost;
            if prev[j + 1] < d {
                d = prev[j + 1] + 1;
            }
            if cur[j] < d {
                d = cur[j] + 1;
            }
            proof {
                let x = a@.take(i + 1);
                let y = b@.take(j + 1);
                assert(x.drop_last() =~= a@.take(i as int));
                assert(y.drop_last() =~= b@.take(j as int));
                assert(x.last() == a@[i as int]);
                assert(y.last() == b@[j as int]);
            }
            cur.push(d);
        }
        prev = cur;
    }
    proof {
        assert(a@.take(m as int) =~= a@);
        assert(b@.take(n as int) =~= b@);
    }
    prev[n]
}

} // verus!
