//! Optimal string alignment (restricted Damerau-Levenshtein) distance, and
//! the dynamic programs that compute it with and without the breakdown of
//! the edits into insertions, deletions, substitutions and transpositions.
use vstd::prelude::*;

verus! {

pub open spec fn min2(a: int, b: int) -> int {
    if a <= b {
        a
    } else {
        b
    }
}

/// Characters `p[i-1]`, `p[i-2]` are `t[j-2]`, `t[j-1]`: a transposition applies.
pub open spec fn swappable(p: Seq<char>, t: Seq<char>, i: int, j: int) -> bool {
    i > 1 && j > 1 && p[i - 1] == t[j - 2] && p[i - 2] == t[j - 1]
}

/// The optimal string alignment distance between `p[..i]` and `t[..j]`:
/// the fewest insertions, deletions, substitutions and transpositions of
/// adjacent characters, no substring being edited twice.
pub open spec fn osa(p: Seq<char>, t: Seq<char>, i: int, j: int) -> int
    decreases i + j,
{
    if i <= 0 {
        if j <= 0 {
            0
        } else {
            j
        }
    } else if j <= 0 {
        i
    } else {
        let cost: int = if p[i - 1] == t[j - 1] {
            0
        } else {
            1
        };
        let base = min2(min2(osa(p, t, i - 1, j) + 1, osa(p, t, i, j - 1) + 1), osa(p, t, i - 1, j - 1) + cost);
        if swappable(p, t, i, j) {
            min2(base, osa(p, t, i - 2, j - 2) + 1)
        } else {
            base
        }
    }
}

/// Equal prefixes are at distance zero.
pub proof fn lemma_osa_same(p: Seq<char>, t: Seq<char>, i: int)
    requires
        0 <= i <= p.len(),
        i <= t.len(),
        forall|x: int| 0 <= x < i ==> p[x] == t[x],
    ensures
        osa(p, t, i, i) == 0,
    decreases i,
{
    lemma_osa_lower(p, t, i, i);
    if i > 0 {
        lemma_osa_same(p, t, i - 1);
    }
}

/// The distance is at least the difference of the lengths.
pub proof fn lemma_osa_lower(p: Seq<char>, t: Seq<char>, i: int, j: int)
    requires
        0 <= i,
        0 <= j,
    ensures
        osa(p, t, i, j) >= i - j,
        osa(p, t, i, j) >= j - i,
    decreases i + j,
{
    if i > 0 && j > 0 {
        lemma_osa_lower(p, t, i - 1, j);
        lemma_osa_lower(p, t, i, j - 1);
        lemma_osa_lower(p, t, i - 1, j - 1);
        if swappable(p, t, i, j) {
            lemma_osa_lower(p, t, i - 2, j - 2);
        }
    }
}

/// Dropping the last text character changes the distance by at most one.
pub proof fn lemma_osa_drop_text(p: Seq<char>, t: Seq<char>, x: int, y: int)
    requires
        0 <= x,
        1 <= y,
    ensures
        osa(p, t, x, y - 1) <= osa(p, t, x, y) + 1,
    decreases x + y,
{
    if x == 0 {
    } else if y == 1 {
        lemma_osa_lower(p, t, x, 1);
    } else {
        lemma_osa_drop_text(p, t, x - 1, y);
        if swappable(p, t, x, y) && y == 2 {
            assert(osa(p, t, x - 1, 0) == x - 1);
        }
    }
}

/// Dropping the last pattern character changes the distance by at most one.
pub proof fn lemma_osa_drop_pattern(p: Seq<char>, t: Seq<char>, x: int, y: int)
    requires
        1 <= x,
        0 <= y,
    ensures
        osa(p, t, x - 1, y) <= osa(p, t, x, y) + 1,
    decreases x + y,
{
    if y == 0 {
    } else if x == 1 {
        lemma_osa_lower(p, t, 1, y);
    } else {
        lemma_osa_drop_pattern(p, t, x, y - 1);
        if swappable(p, t, x, y) && x == 2 {
            assert(osa(p, t, 0, y - 1) == y - 1);
        }
    }
}

/// A cell of the breakdown table: distance, insertions, deletions,
/// substitutions, transpositions.
pub type Cell = (int, int, int, int, int);

/// The breakdown table as the program fills it: on equal characters the
/// diagonal is taken; otherwise the cheapest of substitution, insertion,
/// deletion and transposition, earlier ones winning ties.
pub open spec fn breakdown(p: Seq<char>, t: Seq<char>, i: int, j: int) -> Cell
    decreases i + j,
{
    if i <= 0 {
        if j <= 0 {
            (0, 0, 0, 0, 0)
        } else {
            (j, j, 0, 0, 0)
        }
    } else if j <= 0 {
        (i, 0, i, 0, 0)
    } else if p[i - 1] == t[j - 1] {
        breakdown(p, t, i - 1, j - 1)
    } else {
        let s = breakdown(p, t, i - 1, j - 1);
        let b1: Cell = (s.0 + 1, s.1, s.2, s.3 + 1, s.4);
        let a = breakdown(p, t, i, j - 1);
        let b2: Cell = if a.0 + 1 < b1.0 {
            (a.0 + 1, a.1 + 1, a.2, a.3, a.4)
        } else {
            b1
        };
        let d = breakdown(p, t, i - 1, j);
        let b3: Cell = if d.0 + 1 < b2.0 {
            (d.0 + 1, d.1, d.2 + 1, d.3, d.4)
        } else {
            b2
        };
        if swappable(p, t, i, j) {
            let tr = breakdown(p, t, i - 2, j - 2);
            if tr.0 + 1 < b3.0 {
                (tr.0 + 1, tr.1, tr.2, tr.3, tr.4 + 1)
            } else {
                b3
            }
        } else {
            b3
        }
    }
}

/// The distance-only table as the program fills it.
pub open spec fn distance_table(p: Seq<char>, t: Seq<char>, i: int, j: int) -> int
    decreases i + j,
{
    if i <= 0 {
        if j <= 0 {
            0
        } else {
            j
        }
    } else if j <= 0 {
        i
    } else if p[i - 1] == t[j - 1] {
        distance_table(p, t, i - 1, j - 1)
    } else {
        let best = 1 + min2(
            min2(distance_table(p, t, i - 1, j - 1), distance_table(p, t, i, j - 1)),
            distance_table(p, t, i - 1, j),
        );
        if swappable(p, t, i, j) {
            min2(best, distance_table(p, t, i - 2, j - 2) + 1)
        } else {
            best
        }
    }
}

/// The breakdown is a valid alignment of optimal cost: its distance is the
/// optimal string alignment distance and the sum of its counts, and it
/// inserts exactly as many characters more than it deletes as the text is
/// longer than the pattern.
pub proof fn lemma_breakdown_valid(p: Seq<char>, t: Seq<char>, i: int, j: int)
    requires
        0 <= i,
        0 <= j,
    ensures
        breakdown(p, t, i, j).0 == osa(p, t, i, j),
        breakdown(p, t, i, j).0 == breakdown(p, t, i, j).1 + breakdown(p, t, i, j).2 + breakdown(p, t, i, j).3
            + breakdown(p, t, i, j).4,
        breakdown(p, t, i, j).1 - breakdown(p, t, i, j).2 == j - i,
        breakdown(p, t, i, j).1 >= 0,
        breakdown(p, t, i, j).2 >= 0,
        breakdown(p, t, i, j).3 >= 0,
        breakdown(p, t, i, j).4 >= 0,
        distance_table(p, t, i, j) == osa(p, t, i, j),
        osa(p, t, i, j) <= if i >= j {
            i
        } else {
            j
        },
    decreases i + j,
{
    if i > 0 && j > 0 {
        lemma_breakdown_valid(p, t, i - 1, j - 1);
        lemma_breakdown_valid(p, t, i, j - 1);
        lemma_breakdown_valid(p, t, i - 1, j);
        if swappable(p, t, i, j) {
            lemma_breakdown_valid(p, t, i - 2, j - 2);
        }
        if p[i - 1] == t[j - 1] {
            lemma_osa_drop_text(p, t, i - 1, j);
            lemma_osa_drop_pattern(p, t, i, j - 1);
            if swappable(p, t, i, j) {
                assert(osa(p, t, i - 1, j - 1) <= osa(p, t, i - 2, j - 2) + 1);
            }
        }
    }
}


/// `x` holds the cell `c`.
pub open spec fn cell_is(x: (u8, u8, u8, u8, u8), c: Cell) -> bool {
    x.0 == c.0 && x.1 == c.1 && x.2 == c.2 && x.3 == c.3 && x.4 == c.4
}

fn zero_row(n: usize) -> (r: Vec<(u8, u8, u8, u8, u8)>)
    ensures
        r@.len() == n,
{
    let mut r: Vec<(u8, u8, u8, u8, u8)> = Vec::new();
    let mut j: usize = 0;
    while j < n
        invariant
            0 <= j <= n,
            r@.len() == j,
        decreases n - j,
    {
        r.push((0, 0, 0, 0, 0));
        j = j + 1;
    }
    r
}

/// The breakdown `(insertions, deletions, substitutions, transpositions)`
/// of an optimal alignment of `p` with `t`, filled row by row keeping three rows.
pub fn breakdown_dp(p: &[char], t: &[char]) -> (r: (u8, u8, u8, u8))
    requires
        p@.len() <= 254,
        t@.len() <= 254,
    ensures
        r.0 == breakdown(p@, t@, p@.len() as int, t@.len() as int).1,
        r.1 == breakdown(p@, t@, p@.len() as int, t@.len() as int).2,
        r.2 == breakdown(p@, t@, p@.len() as int, t@.len() as int).3,
        r.3 == breakdown(p@, t@, p@.len() as int, t@.len() as int).4,
{
    let m = p.len();
    let n = t.len();
    let ghost ps = p@;
    let ghost ts = t@;
    let mut prev_prev = zero_row(n + 1);
    let mut prev = zero_row(n + 1);
    let mut curr = zero_row(n + 1);
    let mut j: usize = 0;
    while j <= n
        invariant
            n == ts.len(),
            n <= 254,
            0 <= j <= n + 1,
            prev@.len() == n + 1,
            forall|k: int| 0 <= k < j ==> cell_is(#[trigger] prev@[k], breakdown(ps, ts, 0, k)),
        decreases n + 1 - j,
    {
        prev.set(j, (j as u8, j as u8, 0, 0, 0));
        j = j + 1;
    }
    let mut prev_pattern_char: char = '\0';
    let mut i: usize = 1;
    while i <= m
        invariant
            m == ps.len(),
            n == ts.len(),
            m <= 254,
            n <= 254,
            p@ == ps,
            t@ == ts,
            1 <= i <= m + 1,
            prev@.len() == n + 1,
            prev_prev@.len() == n + 1,
            curr@.len() == n + 1,
            forall|k: int| 0 <= k <= n ==> cell_is(#[trigger] prev@[k], breakdown(ps, ts, i - 1, k)),
            i >= 2 ==> forall|k: int| 0 <= k <= n ==> cell_is(#[trigger] prev_prev@[k], breakdown(ps, ts, i - 2, k)),
            i >= 2 ==> prev_pattern_char == ps[i - 2],
        decreases m + 1 - i,
    {
        let pattern_char = p[i - 1];
        curr.set(0, (i as u8, 0, i as u8, 0, 0));
        let mut j: usize = 1;
        while j <= n
            invariant
                m == ps.len(),
                n == ts.len(),
                m <= 254,
                n <= 254,
                p@ == ps,
                t@ == ts,
                1 <= i <= m,
                1 <= j <= n + 1,
                pattern_char == ps[i - 1],
                prev@.len() == n + 1,
                prev_prev@.len() == n + 1,
                curr@.len() == n + 1,
                forall|k: int| 0 <= k <= n ==> cell_is(#[trigger] prev@[k], breakdown(ps, ts, i - 1, k)),
                i >= 2 ==> forall|k: int| 0 <= k <= n ==> cell_is(#[trigger] prev_prev@[k], breakdown(ps, ts, i - 2, k)),
                i >= 2 ==> prev_pattern_char == ps[i - 2],
                forall|k: int| 0 <= k < j ==> cell_is(#[trigger] curr@[k], breakdown(ps, ts, i as int, k)),
            decreases n + 1 - j,
        {
            let text_char = t[j - 1];
            proof {
                lemma_breakdown_valid(ps, ts, i - 1, j - 1);
                lemma_breakdown_valid(ps, ts, i as int, j - 1);
                lemma_breakdown_valid(ps, ts, i - 1, j as int);
                if i >= 2 && j >= 2 {
                    lemma_breakdown_valid(ps, ts, i - 2, j - 2);
                }
                assert(cell_is(prev@[j - 1], breakdown(ps, ts, i - 1, j - 1)));
                assert(cell_is(curr@[j - 1], breakdown(ps, ts, i as int, j - 1)));
                assert(cell_is(prev@[j as int], breakdown(ps, ts, i - 1, j as int)));
            }
            if pattern_char == text_char {
                let c = prev[j - 1];
                curr.set(j, c);
            } else {
                let (sub_d, sub_i, sub_del, sub_s, sub_sw) = prev[j - 1];
                let mut best = (sub_d + 1, sub_i, sub_del, sub_s + 1, sub_sw);
                let (ins_d, ins_i, ins_del, ins_s, ins_sw) = curr[j - 1];
                if ins_d + 1 < best.0 {
                    best = (ins_d + 1, ins_i + 1, ins_del, ins_s, ins_sw);
                }
                let (del_d, del_i, del_del, del_s, del_sw) = prev[j];
                if del_d + 1 < best.0 {
                    best = (del_d + 1, del_i, del_del + 1, del_s, del_sw);
                }
                if i > 1 && j > 1 {
                    let prev_text_char = t[j - 2];
                    if pattern_char == prev_text_char && prev_pattern_char == text_char {
                        proof {
                            assert(cell_is(prev_prev@[j - 2], breakdown(ps, ts, i - 2, j - 2)));
                        }
                        let (tr_d, tr_i, tr_del, tr_s, tr_sw) = prev_prev[j - 2];
                        if tr_d + 1 < best.0 {
                            best = (tr_d + 1, tr_i, tr_del, tr_s, tr_sw + 1);
                        }
                    }
                }
                curr.set(j, best);
            }
            j = j + 1;
        }
        std::mem::swap(&mut prev_prev, &mut prev);
        std::mem::swap(&mut prev, &mut curr);
        prev_pattern_char = pattern_char;
        i = i + 1;
    }
    proof {
        assert(cell_is(prev@[n as int], breakdown(ps, ts, m as int, n as int)));
    }
    let (_, ins, del, sub, sw) = prev[n];
    (ins, del, sub, sw)
}

/// The optimal string alignment distance of `p` and `t`, keeping three rows.
pub fn distance_dp(p: &[char], t: &[char]) -> (r: u8)
    requires
        p@.len() <= 254,
        t@.len() <= 254,
    ensures
        r == osa(p@, t@, p@.len() as int, t@.len() as int),
{
    let m = p.len();
    let n = t.len();
    let ghost ps = p@;
    let ghost ts = t@;
    let mut prev_prev: Vec<u8> = Vec::new();
    let mut prev: Vec<u8> = Vec::new();
    let mut curr: Vec<u8> = Vec::new();
    let mut j: usize = 0;
    while j <= n
        invariant
            n == ts.len(),
            n <= 254,
            0 <= j <= n + 1,
            prev@.len() == j,
            prev_prev@.len() == j,
            curr@.len() == j,
            forall|k: int| 0 <= k < j ==> #[trigger] prev@[k] == distance_table(ps, ts, 0, k),
        decreases n + 1 - j,
    {
        prev.push(j as u8);
        prev_prev.push(0);
        curr.push(0);
        j = j + 1;
    }
    let mut prev_pattern_char: char = '\0';
    let mut i: usize = 1;
    while i <= m
        invariant
            m == ps.len(),
            n == ts.len(),
            m <= 254,
            n <= 254,
            p@ == ps,
            t@ == ts,
            1 <= i <= m + 1,
            prev@.len() == n + 1,
            prev_prev@.len() == n + 1,
            curr@.len() == n + 1,
            forall|k: int| 0 <= k <= n ==> #[trigger] prev@[k] == distance_table(ps, ts, i - 1, k),
            i >= 2 ==> forall|k: int| 0 <= k <= n ==> #[trigger] prev_prev@[k] == distance_table(ps, ts, i - 2, k),
            i >= 2 ==> prev_pattern_char == ps[i - 2],
        decreases m + 1 - i,
    {
        let pattern_char = p[i - 1];
        curr.set(0, i as u8);
        let mut j: usize = 1;
        while j <= n
            invariant
                m == ps.len(),
                n == ts.len(),
                m <= 254,
                n <= 254,
                p@ == ps,
                t@ == ts,
                1 <= i <= m,
                1 <= j <= n + 1,
                pattern_char == ps[i - 1],
                prev@.len() == n + 1,
                prev_prev@.len() == n + 1,
                curr@.len() == n + 1,
                forall|k: int| 0 <= k <= n ==> #[trigger] prev@[k] == distance_table(ps, ts, i - 1, k),
                i >= 2 ==> forall|k: int| 0 <= k <= n ==> #[trigger] prev_prev@[k] == distance_table(ps, ts, i - 2, k),
                i >= 2 ==> prev_pattern_char == ps[i - 2],
                forall|k: int| 0 <= k < j ==> #[trigger] curr@[k] == distance_table(ps, ts, i as int, k),
            decreases n + 1 - j,
        {
            let text_char = t[j - 1];
            proof {
                lemma_breakdown_valid(ps, ts, i - 1, j - 1);
                lemma_breakdown_valid(ps, ts, i as int, j - 1);
                lemma_breakdown_valid(ps, ts, i - 1, j as int);
                if i >= 2 && j >= 2 {
                    lemma_breakdown_valid(ps, ts, i - 2, j - 2);
                }
                assert(prev@[j - 1] == distance_table(ps, ts, i - 1, j - 1));
                assert(curr@[j - 1] == distance_table(ps, ts, i as int, j - 1));
                assert(prev@[j as int] == distance_table(ps, ts, i - 1, j as int));
            }
            if pattern_char == text_char {
                let c = prev[j - 1];
                curr.set(j, c);
            } else {
                let a = prev[j - 1];
                let b = curr[j - 1];
                let c = prev[j];
                let ab = if a <= b { a } else { b };
                let abc = if ab <= c { ab } else { c };
                let mut best = 1 + abc;
                if i > 1 && j > 1 && pattern_char == t[j - 2] && prev_pattern_char == text_char {
                    proof {
                        assert(prev_prev@[j - 2] == distance_table(ps, ts, i - 2, j - 2));
                    }
                    let tr = prev_prev[j - 2] + 1;
                    if tr < best {
                        best = tr;
                    }
                }
                curr.set(j, best);
            }
            j = j + 1;
        }
        std::mem::swap(&mut prev_prev, &mut prev);
        std::mem::swap(&mut prev, &mut curr);
        prev_pattern_char = pattern_char;
        i = i + 1;
    }
    proof {
        lemma_breakdown_valid(ps, ts, m as int, n as int);
    }
    prev[n]
}

} // verus!
