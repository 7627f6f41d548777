//! Edit distance between chains of block hashes, and the totals from which
//! the agreement score of several chains is computed.
use vstd::prelude::*;
use super::strset::string_views;

verus! {

pub open spec fn min_nat(x: nat, y: nat) -> nat {
    if x <= y {
        x
    } else {
        y
    }
}

pub open spec fn max_nat(x: nat, y: nat) -> nat {
    if x >= y {
        x
    } else {
        y
    }
}

/// The edit distance (Levenshtein distance) between two sequences: the
/// fewest insertions, deletions and substitutions of single entries that
/// turn one into the other.
pub open spec fn edit_distance(a: Seq<Seq<char>>, b: Seq<Seq<char>>) -> nat
    decreases a.len() + b.len(),
{
    if a.len() == 0 {
        b.len()
    } else if b.len() == 0 {
        a.len()
    } else if a.last() == b.last() {
        edit_distance(a.drop_last(), b.drop_last())
    } else {
        1 + min_nat(
            edit_distance(a.drop_last(), b.drop_last()),
            min_nat(edit_distance(a, b.drop_last()), edit_distance(a.drop_last(), b)),
        )
    }
}

/// The edit distance never exceeds the longer length.
pub proof fn lemma_edit_distance_bound(a: Seq<Seq<char>>, b: Seq<Seq<char>>)
    ensures
        edit_distance(a, b) <= max_nat(a.len(), b.len()),
    decreases a.len() + b.len(),
{
    if a.len() > 0 && b.len() > 0 {
        lemma_edit_distance_bound(a.drop_last(), b.drop_last());
    }
}

/// The edit distance is symmetric.
pub proof fn lemma_edit_distance_symmetric(a: Seq<Seq<char>>, b: Seq<Seq<char>>)
    ensures
        edit_distance(a, b) == edit_distance(b, a),
    decreases a.len() + b.len(),
{
    if a.len() > 0 && b.len() > 0 {
        lemma_edit_distance_symmetric(a.drop_last(), b.drop_last());
        lemma_edit_distance_symmetric(a, b.drop_last());
        lemma_edit_distance_symmetric(a.drop_last(), b);
    }
}

/// The edit distance is zero exactly between equal sequences.
pub proof fn lemma_edit_distance_zero(a: Seq<Seq<char>>, b: Seq<Seq<char>>)
    ensures
        edit_distance(a, b) == 0 <==> a == b,
    decreases a.len() + b.len(),
{
    if a.len() > 0 && b.len() > 0 {
        lemma_edit_distance_zero(a.drop_last(), b.drop_last());
        if edit_distance(a, b) == 0 {
            assert(a.last() == b.last());
            assert(a =~= a.drop_last().push(a.last()));
            assert(b =~= b.drop_last().push(b.last()));
        }
        if a == b {
            assert(a.drop_last() == b.drop_last());
        }
    } else if a.len() == 0 && b.len() == 0 {
        assert(a =~= b);
    } else if a.len() == 0 {
        assert(a != b);
    } else {
        assert(a != b);
    }
}

/// The edit distance is at least the difference of the lengths.
pub proof fn lemma_edit_distance_lower(a: Seq<Seq<char>>, b: Seq<Seq<char>>)
    ensures
        edit_distance(a, b) >= b.len() - a.len(),
        edit_distance(a, b) >= a.len() - b.len(),
    decreases a.len() + b.len(),
{
    if a.len() > 0 && b.len() > 0 {
        lemma_edit_distance_lower(a.drop_last(), b.drop_last());
        lemma_edit_distance_lower(a, b.drop_last());
        lemma_edit_distance_lower(a.drop_last(), b);
    }
}

/// Dropping the last entry of the first sequence lowers the distance by at
/// most one, and dropping the last entry of the second raises it by at most
/// one.
proof fn lemma_edit_distance_drop(a: Seq<Seq<char>>, b: Seq<Seq<char>>)
    ensures
        a.len() > 0 ==> edit_distance(a, b) <= edit_distance(a.drop_last(), b) + 1,
        b.len() > 0 ==> edit_distance(a, b.drop_last()) <= edit_distance(a, b) + 1,
    decreases a.len() + b.len(),
{
    if a.len() > 0 && b.len() > 0 {
        lemma_edit_distance_drop(a.drop_last(), b);
        lemma_edit_distance_drop(a, b.drop_last());
    }
}

/// Adding one entry at the end of either sequence raises the distance by
/// at most one.
proof fn lemma_edit_distance_step(a: Seq<Seq<char>>, b: Seq<Seq<char>>)
    ensures
        a.len() > 0 ==> edit_distance(a, b) <= edit_distance(a.drop_last(), b) + 1,
        b.len() > 0 ==> edit_distance(a, b) <= edit_distance(a, b.drop_last()) + 1,
{
    lemma_edit_distance_drop(a, b);
    lemma_edit_distance_drop(b, a);
    lemma_edit_distance_symmetric(a, b);
    if b.len() > 0 {
        lemma_edit_distance_symmetric(a, b.drop_last());
    }
}

/// The edit distance obeys the triangle inequality.
pub proof fn lemma_edit_distance_triangle(a: Seq<Seq<char>>, b: Seq<Seq<char>>, c: Seq<Seq<char>>)
    ensures
        edit_distance(a, c) <= edit_distance(a, b) + edit_distance(b, c),
    decreases a.len() + b.len() + c.len(),
{
    if a.len() == 0 {
        lemma_edit_distance_lower(b, c);
    } else if c.len() == 0 {
        lemma_edit_distance_lower(a, b);
    } else if b.len() == 0 {
        lemma_edit_distance_bound(a, c);
    } else {
        let a1: Seq<Seq<char>> = a.drop_last();
        let b1: Seq<Seq<char>> = b.drop_last();
        let c1: Seq<Seq<char>> = c.drop_last();
        lemma_edit_distance_step(a, c);
        lemma_edit_distance_triangle(a1, b, c);
        lemma_edit_distance_triangle(a, b, c1);
        lemma_edit_distance_triangle(a, b1, c);
        lemma_edit_distance_triangle(a, b1, c1);
        lemma_edit_distance_triangle(a1, b1, c);
        lemma_edit_distance_triangle(a1, b1, c1);
    }
}

/// The edit distance between two chains of hashes.
pub fn levenshtein_distance_vec(a: &Vec<String>, b: &Vec<String>) -> (r: usize)
    ensures
        r == edit_distance(string_views(a@), string_views(b@)),
{
    let ghost sa: Seq<Seq<char>> = string_views(a@);
    let ghost sb: Seq<Seq<char>> = string_views(b@);
    let len_a: usize = a.len();
    let len_b: usize = b.len();
    if len_a == 0 {
        assert(sa.len() == 0);
        return len_b;
    }
    if len_b == 0 {
        assert(sb.len() == 0);
        return len_a;
    }
    let mut prev: Vec<usize> = Vec::new();
    let mut j: usize = 0;
    while j < len_b
        invariant
            len_b == b@.len(),
            sa == string_views(a@),
            sb == string_views(b@),
            j <= len_b,
            prev@.len() == j,
            forall|q: int| 0 <= q < j ==> prev@[q] == edit_distance(sa.take(0), sb.take(q)),
        decreases len_b - j,
    {
        proof {
            assert(sa.take(0).len() == 0);
        }
        prev.push(j);
        assert(sb.take(j as int).len() == j);
        j = j + 1;
    }
    proof {
        assert(sa.take(0).len() == 0);
    }
    prev.push(len_b);
    let mut i: usize = 0;
    while i < len_a
        invariant
            len_a == a@.len(),
            len_b == b@.len(),
            sa == string_views(a@),
            sb == string_views(b@),
            i <= len_a,
            prev@.len() == len_b + 1,
            forall|q: int| 0 <= q <= len_b ==> prev@[q] == edit_distance(sa.take(i as int), sb.take(q)),
        decreases len_a - i,
    {
        let mut cur: Vec<usize> = Vec::new();
        proof {
            assert(sb.take(0).len() == 0);
        }
        cur.push(i + 1);
        let mut k: usize = 0;
        while k < len_b
            invariant
                len_a == a@.len(),
                len_b == b@.len(),
                sa == string_views(a@),
                sb == string_views(b@),
                i < len_a,
                k <= len_b,
                prev@.len() == len_b + 1,
                cur@.len() == k + 1,
                forall|q: int| 0 <= q <= len_b ==> prev@[q] == edit_distance(sa.take(i as int), sb.take(q)),
                forall|q: int| 0 <= q <= k ==> cur@[q] == edit_distance(sa.take(i + 1), sb.take(q)),
            decreases len_b - k,
        {
            let ghost x: Seq<Seq<char>> = sa.take(i + 1);
            let ghost y: Seq<Seq<char>> = sb.take(k + 1);
            proof {
                assert(x.drop_last() =~= sa.take(i as int));
                assert(y.drop_last() =~= sb.take(k as int));
                assert(x.last() == a@[i as int]@);
                assert(y.last() == b@[k as int]@);
                lemma_edit_distance_bound(sa.take(i as int), sb.take(k as int));
            }
            let value: usize = if a[i] == b[k] {
                prev[k]
            } else {
                let diag: usize = prev[k];
                let left: usize = cur[k];
                let up: usize = prev[k + 1];
                let m1: usize = if left <= up {
                    left
                } else {
                    up
                };
                let m: usize = if diag <= m1 {
                    diag
                } else {
                    m1
                };
                1 + m
            };
            cur.push(value);
            k = k + 1;
        }
        prev = cur;
        i = i + 1;
    }
    proof {
        assert(sa.take(len_a as int) =~= sa);
        assert(sb.take(len_b as int) =~= sb);
    }
    prev[len_b]
}

/// The sum of `f(i, j)` over the ordered pairs of distinct positions
/// `i`, `j` with `i < rows` and `j < cols` (all positions of `n`).
pub open spec fn row_sum(f: spec_fn(int, int) -> nat, i: int, cols: int) -> nat
    decreases cols,
{
    if cols <= 0 {
        0
    } else {
        row_sum(f, i, cols - 1) + if i != cols - 1 {
            f(i, cols - 1)
        } else {
            0
        }
    }
}

pub open spec fn pair_sum(f: spec_fn(int, int) -> nat, rows: int, n: int) -> nat
    decreases rows,
{
    if rows <= 0 {
        0
    } else {
        pair_sum(f, rows - 1, n) + row_sum(f, rows - 1, n)
    }
}

/// The edit distance between chains `i` and `j`.
pub open spec fn chain_distance(chains: Seq<Seq<Seq<char>>>) -> spec_fn(int, int) -> nat {
    |i: int, j: int| edit_distance(chains[i], chains[j])
}

/// The combined length of chains `i` and `j`.
pub open spec fn chain_lengths(chains: Seq<Seq<Seq<char>>>) -> spec_fn(int, int) -> nat {
    |i: int, j: int| chains[i].len() + chains[j].len()
}

/// The texts of chains of strings.
pub open spec fn chains_view(c: Seq<Vec<String>>) -> Seq<Seq<Seq<char>>> {
    Seq::new(c.len(), |i: int| string_views(c[i]@))
}

/// The totals behind the agreement score of several chains: the sum of
/// edit distances and the sum of combined lengths, both over all ordered
/// pairs of distinct chains.
pub fn chains_edit_totals(main_chains: &Vec<Vec<String>>) -> (r: (u128, u128))
    requires
        main_chains@.len() <= u32::MAX,
        forall|i: int| 0 <= i < main_chains@.len() ==> (#[trigger] main_chains@[i])@.len() <= u32::MAX,
    ensures
        r.0 == pair_sum(chain_distance(chains_view(main_chains@)), main_chains@.len() as int, main_chains@.len() as int),
        r.1 == pair_sum(chain_lengths(chains_view(main_chains@)), main_chains@.len() as int, main_chains@.len() as int),
{
    let ghost cv: Seq<Seq<Seq<char>>> = chains_view(main_chains@);
    let ghost fd = chain_distance(cv);
    let ghost fl = chain_lengths(cv);
    let n: usize = main_chains.len();
    let ghost bound: int = 2 * (u32::MAX as int);
    let mut score: u128 = 0;
    let mut max_score: u128 = 0;
    let mut i: usize = 0;
    while i < n
        invariant
            n == main_chains@.len(),
            n <= u32::MAX,
            forall|q: int| 0 <= q < main_chains@.len() ==> (#[trigger] main_chains@[q])@.len() <= u32::MAX,
            cv == chains_view(main_chains@),
            fd == chain_distance(cv),
            fl == chain_lengths(cv),
            bound == 2 * (u32::MAX as int),
            i <= n,
            score == pair_sum(fd, i as int, n as int),
            max_score == pair_sum(fl, i as int, n as int),
            score <= i * n * bound,
            max_score <= i * n * bound,
        decreases n - i,
    {
        let mut j: usize = 0;
        let mut row_score: u128 = 0;
        let mut row_max: u128 = 0;
        while j < n
            invariant
                n == main_chains@.len(),
                n <= u32::MAX,
                forall|q: int| 0 <= q < main_chains@.len() ==> (#[trigger] main_chains@[q])@.len() <= u32::MAX,
                cv == chains_view(main_chains@),
                fd == chain_distance(cv),
                fl == chain_lengths(cv),
                bound == 2 * (u32::MAX as int),
                i < n,
                j <= n,
                row_score == row_sum(fd, i as int, j as int),
                row_max == row_sum(fl, i as int, j as int),
                row_score <= j * bound,
                row_max <= j * bound,
            decreases n - j,
        {
            if i != j {
                let d: usize = levenshtein_distance_vec(&main_chains[i], &main_chains[j]);
                proof {
                    assert(cv[i as int] == string_views(main_chains@[i as int]@));
                    assert(cv[j as int] == string_views(main_chains@[j as int]@));
                    lemma_edit_distance_bound(cv[i as int], cv[j as int]);
                    assert(d <= bound);
                    assert(fd(i as int, j as int) == d);
                    assert(fl(i as int, j as int) == main_chains@[i as int]@.len() + main_chains@[j as int]@.len());
                    assert((j + 1) * bound == j * bound + bound) by (nonlinear_arith);
                    assert(j * bound <= (u32::MAX as int) * bound) by (nonlinear_arith)
                        requires j <= u32::MAX, bound >= 0;
                }
                row_score = row_score + d as u128;
                row_max = row_max + (main_chains[i].len() as u128) + (main_chains[j].len() as u128);
            } else {
                proof {
                    assert((j + 1) * bound == j * bound + bound) by (nonlinear_arith);
                }
            }
            j = j + 1;
        }
        proof {
            assert(i * n * bound + n * bound == (i + 1) * n * bound) by (nonlinear_arith);
            assert((i + 1) * n * bound <= (u32::MAX as int) * (u32::MAX as int) * bound) by (nonlinear_arith)
                requires i + 1 <= u32::MAX, n <= u32::MAX, bound >= 0;
        }
        score = score + row_score;
        max_score = max_score + row_max;
        i = i + 1;
    }
    (score, max_score)
}

} // verus!
