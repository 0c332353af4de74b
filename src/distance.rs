//! String metrics: the edit distance between two pieces of text.
use vstd::prelude::*;

verus! {

pub open spec fn min2(x: int, y: int) -> int {
    if x <= y { x } else { y }
}

/// The Levenshtein distance: the least number of single-character insertions,
/// deletions and substitutions that turn `a` into `b`.
pub open spec fn levenshtein(a: Seq<char>, b: Seq<char>) -> int
    decreases a.len() + b.len(),
{
    if a.len() == 0 {
        b.len() as int
    } else if b.len() == 0 {
        a.len() as int
    } else {
        let cost: int = if a.last() == b.last() { 0 } else { 1 };
        min2(
            min2(levenshtein(a.drop_last(), b) + 1, levenshtein(a, b.drop_last()) + 1),
            levenshtein(a.drop_last(), b.drop_last()) + cost,
        )
    }
}

proof fn lemma_levenshtein_bounds(a: Seq<char>, b: Seq<char>)
    ensures
        0 <= levenshtein(a, b) <= if a.len() >= b.len() { a.len() as int } else { b.len() as int },
    decreases a.len() + b.len(),
{
    if a.len() > 0 && b.len() > 0 {
        lemma_levenshtein_bounds(a.drop_last(), b);
        lemma_levenshtein_bounds(a, b.drop_last());
        lemma_levenshtein_bounds(a.drop_last(), b.drop_last());
    }
}

fn chars_of(s: &str) -> (r: Vec<char>)
    ensures
        r@ == s@,
{
    let n = s.unicode_len();
    let mut r: Vec<char> = Vec::new();
    let mut i: usize = 0;
    while i < n
        invariant
            n == s@.len(),
            i <= n,
            r@ == s@.subrange(0, i as int),
        decreases n - i,
    {
        r.push(s.get_char(i));
        i = i + 1;
        assert(r@ =~= s@.subrange(0, i as int));
    }
    assert(r@ =~= s@);
    r
}

/// The edit distance between `a` and `b`, counted in characters, capped at
/// `threshold`: a lower threshold lets the search stop early.
pub fn ukkonen(a: &str, b: &str, threshold: usize) -> (r: usize)
    requires
        a@.len() < usize::MAX,
        b@.len() < usize::MAX,
    ensures
        r == min2(levenshtein(a@, b@), threshold as int),
{
    let av = chars_of(a);
    let bv = chars_of(b);
    let la = av.len();
    let lb = bv.len();
    // prev[j] holds the distance between the first i characters of `a`
    // and the first j characters of `b`.
    let mut prev: Vec<usize> = Vec::new();
    let mut j: usize = 0;
    while j <= lb
        invariant
            lb == b@.len(),
            lb < usize::MAX,
            j <= lb + 1,
            prev@.len() == j,
            forall|k: int| 0 <= k < j ==> prev@[k] == k,
        decreases lb + 1 - j,
    {
        prev.push(j);
        j = j + 1;
    }
    proof {
        assert forall|k: int| 0 <= k <= lb implies prev@[k] == levenshtein(
            a@.subrange(0, 0),
            b@.subrange(0, k),
        ) by {}
    }
    let mut i: usize = 0;
    while i < la
        invariant
            av@ == a@,
            bv@ == b@,
            la == a@.len(),
            lb == b@.len(),
            la < usize::MAX,
            lb < usize::MAX,
            i <= la,
            prev@.len() == lb + 1,
            forall|k: int|
                0 <= k <= lb ==> prev@[k] == levenshtein(
                    a@.subrange(0, i as int),
                    b@.subrange(0, k),
                ),
        decreases la - i,
    {
        let mut cur: Vec<usize> = Vec::new();
        cur.push(i + 1);
        proof {
            assert(a@.subrange(0, i + 1).len() > 0);
        }
        let mut j: usize = 1;
        while j <= lb
            invariant
                av@ == a@,
                bv@ == b@,
                la == a@.len(),
                lb == b@.len(),
                la < usize::MAX,
                lb < usize::MAX,
                i < la,
                1 <= j <= lb + 1,
                prev@.len() == lb + 1,
                cur@.len() == j,
                forall|k: int|
                    0 <= k <= lb ==> prev@[k] == levenshtein(
                        a@.subrange(0, i as int),
                        b@.subrange(0, k),
                    ),
                forall|k: int|
                    0 <= k < j ==> cur@[k] == levenshtein(
                        a@.subrange(0, i + 1),
                        b@.subrange(0, k),
                    ),
            decreases lb + 1 - j,
        {
            let ghost sa = a@.subrange(0, i + 1);
            let ghost sb = b@.subrange(0, j as int);
            proof {
                assert(sa.drop_last() =~= a@.subrange(0, i as int));
                assert(sb.drop_last() =~= b@.subrange(0, j - 1));
                lemma_levenshtein_bounds(a@.subrange(0, i as int), sb);
                lemma_levenshtein_bounds(sa, sb.drop_last());
                lemma_levenshtein_bounds(sa.drop_last(), sb.drop_last());
            }
            let cost: usize = if av[i] == bv[j - 1] { 0 } else { 1 };
            let del = prev[j] + 1;
            let ins = cur[j - 1] + 1;
            let sub = prev[j - 1] + cost;
            let best = if del <= ins { del } else { ins };
            let best = if best <= sub { best } else { sub };
            cur.push(best);
            j = j + 1;
        }
        prev = cur;
        i = i + 1;
    }
    proof {
        assert(a@.subrange(0, la as int) =~= a@);
        assert(b@.subrange(0, lb as int) =~= b@);
    }
    let d = prev[lb];
    if d <= threshold { d } else { threshold }
}

} // verus!
