//! Damerau-Levenshtein distance: the fewest single-character insertions,
//! deletions, substitutions and transpositions of two characters that turn
//! one string into the other, with edits allowed between earlier
//! operations. `dl` states the standard recurrence; the executable
//! functions compute it by dynamic programming and are proved to return
//! exactly `dl`.

use vstd::prelude::*;

verus! {

/// The largest position `k` with `1 <= k < i` and `s[k - 1] == c`, or 0
/// when no prefix position holds `c`.
pub open spec fn last_match(s: Seq<char>, c: char, i: int) -> int
    decreases i,
{
    if i <= 1 {
        0
    } else if s[i - 2] == c {
        i - 1
    } else {
        last_match(s, c, i - 1)
    }
}

pub proof fn lemma_last_match_bound(s: Seq<char>, c: char, i: int)
    ensures
        0 <= last_match(s, c, i),
        i >= 1 ==> last_match(s, c, i) <= i - 1,
        i < 1 ==> last_match(s, c, i) == 0,
    decreases i,
{
    if i > 1 {
        lemma_last_match_bound(s, c, i - 1);
    }
}

/// The Damerau-Levenshtein distance between the first `i` characters of
/// `a` and the first `j` characters of `b`: substitution, deletion and
/// insertion cost one; a transposition of `a[k-1]` and `b[l-1]` costs one
/// plus one per character dropped between the transposed pair.
pub open spec fn dl(a: Seq<char>, b: Seq<char>, i: int, j: int) -> int
    decreases i + j,
    via dl_decreases
{
    if i <= 0 {
        if j <= 0 {
            0
        } else {
            j
        }
    } else if j <= 0 {
        i
    } else {
        let sub = dl(a, b, i - 1, j - 1) + if a[i - 1] == b[j - 1] {
            0int
        } else {
            1int
        };
        let del = dl(a, b, i - 1, j) + 1;
        let ins = dl(a, b, i, j - 1) + 1;
        let base = if sub <= del && sub <= ins {
            sub
        } else if del <= ins {
            del
        } else {
            ins
        };
        let k = last_match(a, b[j - 1], i);
        let l = last_match(b, a[i - 1], j);
        if 1 <= k && 1 <= l {
            let tr = dl(a, b, k - 1, l - 1) + (i - k - 1) + (j - l - 1) + 1;
            if tr < base {
                tr
            } else {
                base
            }
        } else {
            base
        }
    }
}

#[via_fn]
proof fn dl_decreases(a: Seq<char>, b: Seq<char>, i: int, j: int) {
    if i > 0 && j > 0 {
        lemma_last_match_bound(a, b[j - 1], i);
        lemma_last_match_bound(b, a[i - 1], j);
    }
}

/// The distance is never negative and never beyond the longer prefix.
pub proof fn lemma_dl_bounds(a: Seq<char>, b: Seq<char>, i: int, j: int)
    requires
        0 <= i,
        0 <= j,
    ensures
        0 <= dl(a, b, i, j),
        dl(a, b, i, j) <= if i >= j {
            i
        } else {
            j
        },
    decreases i + j,
{
    if i > 0 && j > 0 {
        lemma_dl_bounds(a, b, i - 1, j - 1);
        lemma_dl_bounds(a, b, i - 1, j);
        lemma_dl_bounds(a, b, i, j - 1);
        let k = last_match(a, b[j - 1], i);
        let l = last_match(b, a[i - 1], j);
        lemma_last_match_bound(a, b[j - 1], i);
        lemma_last_match_bound(b, a[i - 1], j);
        if 1 <= k && 1 <= l {
            lemma_dl_bounds(a, b, k - 1, l - 1);
        }
    }
}

/// The distance is zero exactly between equal prefixes.
pub proof fn lemma_dl_zero_iff_eq(a: Seq<char>, b: Seq<char>, i: int, j: int)
    requires
        0 <= i <= a.len(),
        0 <= j <= b.len(),
    ensures
        (dl(a, b, i, j) == 0) <==> (i == j && a.subrange(0, i) == b.subrange(0, j)),
    decreases i + j,
{
    lemma_dl_bounds(a, b, i, j);
    if i > 0 && j > 0 {
        lemma_dl_zero_iff_eq(a, b, i - 1, j - 1);
        lemma_dl_bounds(a, b, i - 1, j - 1);
        lemma_dl_bounds(a, b, i - 1, j);
        lemma_dl_bounds(a, b, i, j - 1);
        let k = last_match(a, b[j - 1], i);
        let l = last_match(b, a[i - 1], j);
        lemma_last_match_bound(a, b[j - 1], i);
        lemma_last_match_bound(b, a[i - 1], j);
        if 1 <= k && 1 <= l {
            lemma_dl_bounds(a, b, k - 1, l - 1);
        }
        if i == j && a.subrange(0, i) == b.subrange(0, j) {
            assert forall|t: int|
                0 <= t < i - 1 implies #[trigger] a.subrange(0, i - 1)[t] == b.subrange(
                0,
                j - 1,
            )[t] by {
                assert(a.subrange(0, i)[t] == b.subrange(0, j)[t]);
            }
            assert(a.subrange(0, i - 1) =~= b.subrange(0, j - 1));
            assert(a[i - 1] == b[j - 1]) by {
                assert(a.subrange(0, i)[i - 1] == b.subrange(0, j)[j - 1]);
            }
        }
        if dl(a, b, i, j) == 0 {
            assert(a[i - 1] == b[j - 1] && dl(a, b, i - 1, j - 1) == 0);
            assert forall|t: int|
                0 <= t < i implies #[trigger] a.subrange(0, i)[t] == b.subrange(
                0,
                j,
            )[t] by {
                if t < i - 1 {
                    assert(a.subrange(0, i - 1)[t] == b.subrange(0, j - 1)[t]);
                }
            }
            assert(a.subrange(0, i) =~= b.subrange(0, j));
        }
    } else {
        if i == 0 && j == 0 {
            assert(a.subrange(0, 0) =~= b.subrange(0, 0));
        }
    }
}

/// The distance does not depend on which string stands first.
pub proof fn lemma_dl_symmetric(a: Seq<char>, b: Seq<char>, i: int, j: int)
    requires
        0 <= i <= a.len(),
        0 <= j <= b.len(),
    ensures
        dl(a, b, i, j) == dl(b, a, j, i),
    decreases i + j,
{
    if i > 0 && j > 0 {
        lemma_dl_symmetric(a, b, i - 1, j - 1);
        lemma_dl_symmetric(a, b, i - 1, j);
        lemma_dl_symmetric(a, b, i, j - 1);
        let k = last_match(a, b[j - 1], i);
        let l = last_match(b, a[i - 1], j);
        lemma_last_match_bound(a, b[j - 1], i);
        lemma_last_match_bound(b, a[i - 1], j);
        if 1 <= k && 1 <= l {
            lemma_dl_symmetric(a, b, k - 1, l - 1);
        }
    }
}

/// The characters of `s`, in order, as a vector.
pub fn chars_of(s: &str) -> (r: Vec<char>)
    ensures
        r@ == s@,
{
    let n = s.unicode_len();
    let mut r: Vec<char> = Vec::new();
    let mut i: usize = 0;
    while i < n
        invariant
            i <= n,
            n == s@.len(),
            r@ == s@.take(i as int),
        decreases n - i,
    {
        r.push(s.get_char(i));
        proof {
            assert(r@ =~= s@.take(i + 1 as int));
        }
        i = i + 1;
    }
    proof {
        assert(s@.take(n as int) =~= s@);
    }
    r
}

/// The largest 1-based prefix position of `s` before `i` holding `c`, or 0.
fn last_match_at(s: &Vec<char>, c: char, i: usize) -> (k: usize)
    requires
        i <= s@.len(),
    ensures
        k as int == last_match(s@, c, i as int),
{
    let mut t: usize = i;
    while t > 1
        invariant
            t <= i,
            i <= s@.len(),
            last_match(s@, c, i as int) == last_match(s@, c, t as int),
        decreases t,
    {
        if s[t - 2] == c {
            return t - 1;
        }
        t = t - 1;
    }
    proof {
        lemma_last_match_bound(s@, c, t as int);
    }
    0
}

/// Computes the Damerau-Levenshtein distance of two character sequences by
/// filling the full distance matrix row by row.
pub fn damerau_levenshtein_impl(a: &Vec<char>, b: &Vec<char>) -> (r: usize)
    ensures
        r as int == dl(a@, b@, a@.len() as int, b@.len() as int),
{
    let n = a.len();
    let m = b.len();
    let mut d: Vec<Vec<usize>> = Vec::new();
    let mut row0: Vec<usize> = Vec::new();
    row0.push(0);
    let mut jd: usize = 0;
    while jd < m
        invariant
            jd <= m,
            m == b@.len(),
            row0@.len() == jd + 1,
            forall|jj: int| 0 <= jj <= jd ==> #[trigger] row0@[jj] == jj,
        decreases m - jd,
    {
        row0.push(jd + 1);
        jd = jd + 1;
    }
    proof {
        assert forall|jj: int| 0 <= jj <= m implies #[trigger] row0@[jj] == dl(a@, b@, 0, jj) by {}
    }
    d.push(row0);
    let mut id: usize = 0;
    while id < n
        invariant
            id <= n,
            n == a@.len(),
            m == b@.len(),
            d@.len() == id + 1,
            forall|ii: int| 0 <= ii <= id ==> (#[trigger] d@[ii])@.len() == m + 1,
            forall|ii: int, jj: int|
                0 <= ii <= id && 0 <= jj <= m ==> #[trigger] d@[ii]@[jj] == dl(a@, b@, ii, jj),
        decreases n - id,
    {
        let i = id + 1;
        let mut row: Vec<usize> = Vec::new();
        row.push(i);
        proof {
            lemma_dl_bounds(a@, b@, i as int, 0);
        }
        let mut jc: usize = 0;
        while jc < m
            invariant
                1 <= i <= n,
                i == id + 1,
                jc <= m,
                n == a@.len(),
                m == b@.len(),
                d@.len() == i,
                forall|ii: int| 0 <= ii < i ==> (#[trigger] d@[ii])@.len() == m + 1,
                forall|ii: int, jj: int|
                    0 <= ii < i && 0 <= jj <= m ==> #[trigger] d@[ii]@[jj] == dl(a@, b@, ii, jj),
                row@.len() == jc + 1,
                forall|jj: int| 0 <= jj <= jc ==> #[trigger] row@[jj] == dl(a@, b@, i as int, jj),
            decreases m - jc,
        {
            let j = jc + 1;
            let k = last_match_at(a, b[j - 1], i);
            let l = last_match_at(b, a[i - 1], j);
            proof {
                lemma_last_match_bound(a@, b@[j - 1], i as int);
                lemma_last_match_bound(b@, a@[i - 1], j as int);
                lemma_dl_bounds(a@, b@, i - 1, j - 1);
                lemma_dl_bounds(a@, b@, i - 1, j as int);
                lemma_dl_bounds(a@, b@, i as int, j - 1);
                if 1 <= k && 1 <= l {
                    lemma_dl_bounds(a@, b@, k - 1, l - 1);
                }
                lemma_dl_bounds(a@, b@, i as int, j as int);
            }
            let sub: u128 = d[i - 1][j - 1] as u128 + if a[i - 1] == b[j - 1] {
                0
            } else {
                1
            };
            let del: u128 = d[i - 1][j] as u128 + 1;
            let ins: u128 = row[j - 1] as u128 + 1;
            let mut best: u128 = if sub <= del && sub <= ins {
                sub
            } else if del <= ins {
                del
            } else {
                ins
            };
            if 1 <= k && 1 <= l {
                let tr: u128 = d[k - 1][l - 1] as u128 + ((i - k - 1) as u128) + ((j - l
                    - 1) as u128) + 1;
                if tr < best {
                    best = tr;
                }
            }
            proof {
                assert(best as int == dl(a@, b@, i as int, j as int));
            }
            row.push(best as usize);
            jc = jc + 1;
        }
        d.push(row);
        id = id + 1;
    }
    d[n][m]
}

/// The Damerau-Levenshtein distance between two strings, over characters.
pub fn damerau_levenshtein(a: &str, b: &str) -> (r: usize)
    ensures
        r as int == dl(a@, b@, a@.len() as int, b@.len() as int),
{
    let va = chars_of(a);
    let vb = chars_of(b);
    damerau_levenshtein_impl(&va, &vb)
}

} // verus!
