//! The mathematical model of a 9x9 board: positions, the three partition
//! families (rows, columns, 3x3 sections), duplicate-digit violations, and
//! what it means for one grid to complete another.

use vstd::prelude::*;

verus! {

/// A well-formed flat grid: 81 cells, row-major, each holding a digit 0..=9
/// (0 stands for an empty cell).
pub open spec fn wf_grid(s: Seq<u8>) -> bool {
    s.len() == 81 && forall|p: int| 0 <= p < 81 ==> s[p] <= 9
}

/// Row of a flat position.
pub open spec fn row_of(p: int) -> int {
    p / 9
}

/// Column of a flat position.
pub open spec fn col_of(p: int) -> int {
    p % 9
}

/// Section index (0..9) of a flat position, reading sections row-major.
pub open spec fn sec_of(p: int) -> int {
    3 * (row_of(p) / 3) + col_of(p) / 3
}

/// Two positions share a row.
pub open spec fn in_same_row(p: int, q: int) -> bool {
    row_of(p) == row_of(q)
}

/// Two positions share a column.
pub open spec fn in_same_col(p: int, q: int) -> bool {
    col_of(p) == col_of(q)
}

/// Two positions share a 3x3 section.
pub open spec fn in_same_section(p: int, q: int) -> bool {
    row_of(p) / 3 == row_of(q) / 3 && col_of(p) / 3 == col_of(q) / 3
}

/// Two positions belong to at least one common group: a row, a column or a
/// 3x3 section.
pub open spec fn in_same_group(p: int, q: int) -> bool {
    in_same_row(p, q) || in_same_col(p, q) || in_same_section(p, q)
}

/// The cell at `p` is duplicated within one of its groups: some other cell of
/// a common group holds the same nonzero digit.
pub open spec fn cell_violated(s: Seq<u8>, p: int) -> bool {
    exists|q: int|
        0 <= q < 81 && q != p && in_same_group(p, q) && s[p] != 0 && s[q] == s[p]
}

/// Violation within the row family only.
pub open spec fn row_violated(s: Seq<u8>, p: int) -> bool {
    exists|q: int| 0 <= q < 81 && q != p && in_same_row(p, q) && s[p] != 0 && s[q] == s[p]
}

/// Violation within the column family only.
pub open spec fn col_violated(s: Seq<u8>, p: int) -> bool {
    exists|q: int| 0 <= q < 81 && q != p && in_same_col(p, q) && s[p] != 0 && s[q] == s[p]
}

/// Violation within the section family only.
pub open spec fn section_violated(s: Seq<u8>, p: int) -> bool {
    exists|q: int| 0 <= q < 81 && q != p && in_same_section(p, q) && s[p] != 0 && s[q] == s[p]
}

/// A grid is invalid when any cell participates in a duplicate-digit
/// conflict within its row, its column or its section.
pub open spec fn grid_invalid(s: Seq<u8>) -> bool {
    exists|p: int| 0 <= p < 81 && cell_violated(s, p)
}

/// Every cell holds a nonzero digit.
pub open spec fn grid_full(s: Seq<u8>) -> bool {
    forall|p: int| 0 <= p < 81 ==> s[p] != 0
}

/// A finished grid: completely filled and free of violations.
pub open spec fn grid_finished(s: Seq<u8>) -> bool {
    grid_full(s) && !grid_invalid(s)
}

/// `g` extends `b`: wherever `b` holds a nonzero digit, `g` holds the same
/// digit.
pub open spec fn extends(g: Seq<u8>, b: Seq<u8>) -> bool {
    g.len() == 81 && b.len() == 81 && forall|p: int| 0 <= p < 81 && b[p] != 0 ==> g[p] == b[p]
}

/// `g` is a solution of the (possibly partial) board `b`: a well-formed
/// finished grid that keeps every digit already placed on `b`.
pub open spec fn is_completion(g: Seq<u8>, b: Seq<u8>) -> bool {
    wf_grid(g) && grid_finished(g) && extends(g, b)
}

/// The combined violation test decomposes into the three families.
pub proof fn lemma_violated_decompose(s: Seq<u8>, p: int)
    ensures
        cell_violated(s, p) <==> (row_violated(s, p) || col_violated(s, p) || section_violated(
            s,
            p,
        )),
{
    if cell_violated(s, p) {
        let q = choose|q: int|
            0 <= q < 81 && q != p && in_same_group(p, q) && s[p] != 0 && s[q] == s[p];
        if in_same_row(p, q) {
            assert(row_violated(s, p));
        } else if in_same_col(p, q) {
            assert(col_violated(s, p));
        } else {
            assert(section_violated(s, p));
        }
    }
    if row_violated(s, p) {
        let q = choose|q: int| 0 <= q < 81 && q != p && in_same_row(p, q) && s[p] != 0 && s[q] == s[p];
        assert(cell_violated(s, p));
    }
    if col_violated(s, p) {
        let q = choose|q: int| 0 <= q < 81 && q != p && in_same_col(p, q) && s[p] != 0 && s[q] == s[p];
        assert(cell_violated(s, p));
    }
    if section_violated(s, p) {
        let q = choose|q: int|
            0 <= q < 81 && q != p && in_same_section(p, q) && s[p] != 0 && s[q] == s[p];
        assert(cell_violated(s, p));
    }
}

/// A duplicate pair survives any extension: extending an invalid board can
/// never repair it.
pub proof fn lemma_extends_keeps_invalid(b: Seq<u8>, g: Seq<u8>)
    requires
        extends(g, b),
        grid_invalid(b),
    ensures
        grid_invalid(g),
{
    let p = choose|p: int| 0 <= p < 81 && cell_violated(b, p);
    let q = choose|q: int|
        0 <= q < 81 && q != p && in_same_group(p, q) && b[p] != 0 && b[q] == b[p];
    assert(g[p] == b[p]);
    assert(g[q] == b[q]);
    assert(cell_violated(g, p));
}

/// A board with a completion is itself free of violations.
pub proof fn lemma_completable_not_invalid(b: Seq<u8>, g: Seq<u8>)
    requires
        is_completion(g, b),
    ensures
        !grid_invalid(b),
{
    if grid_invalid(b) {
        lemma_extends_keeps_invalid(b, g);
    }
}

/// A full board has exactly one extension: itself.
pub proof fn lemma_full_board_extension_is_equal(b: Seq<u8>, g: Seq<u8>)
    requires
        b.len() == 81,
        grid_full(b),
        extends(g, b),
    ensures
        g =~= b,
{
}

/// The board `b` admits two distinct solutions: it is ambiguous.
pub open spec fn two_completions(b: Seq<u8>) -> bool {
    exists|g1: Seq<u8>, g2: Seq<u8>| is_completion(g1, b) && is_completion(g2, b) && g1 != g2
}

/// A completion of a board also completes any board obtained from it by
/// clearing cells: dropping clues only widens the solution set.
pub proof fn lemma_completion_transfers(g: Seq<u8>, b: Seq<u8>, b2: Seq<u8>)
    requires
        is_completion(g, b),
        extends(b, b2),
    ensures
        is_completion(g, b2),
{
}

/// How many of the first `upto` cells are empty.
pub open spec fn num_empty(s: Seq<u8>, upto: int) -> int
    decreases upto,
{
    if upto <= 0 {
        0
    } else {
        num_empty(s, upto - 1) + if s[upto - 1] == 0 {
            1int
        } else {
            0int
        }
    }
}

/// A board without empty cells in the window counts none.
pub proof fn lemma_num_empty_all_nonzero(s: Seq<u8>, upto: int)
    requires
        forall|p: int| 0 <= p < upto ==> s[p] != 0,
    ensures
        num_empty(s, upto) == 0,
    decreases upto,
{
    if upto > 0 {
        lemma_num_empty_all_nonzero(s, upto - 1);
    }
}

/// Clearing one filled cell raises the empty count by exactly one.
pub proof fn lemma_num_empty_clear(s: Seq<u8>, p: int, upto: int)
    requires
        0 <= p < upto <= s.len(),
        s[p] != 0,
    ensures
        num_empty(s.update(p, 0), upto) == num_empty(s, upto) + 1,
    decreases upto,
{
    if p == upto - 1 {
        lemma_num_empty_unchanged(s, s.update(p, 0), upto - 1);
    } else {
        lemma_num_empty_clear(s, p, upto - 1);
    }
}

/// The empty count only reads the cells of the window.
pub proof fn lemma_num_empty_unchanged(s1: Seq<u8>, s2: Seq<u8>, upto: int)
    requires
        forall|p: int| 0 <= p < upto ==> s1[p] == s2[p],
    ensures
        num_empty(s1, upto) == num_empty(s2, upto),
    decreases upto,
{
    if upto > 0 {
        lemma_num_empty_unchanged(s1, s2, upto - 1);
    }
}

/// A reordering of a duplicate-free sequence is duplicate-free.
pub proof fn lemma_permutation_no_duplicates<T>(a: Seq<T>, b: Seq<T>)
    requires
        a.no_duplicates(),
        a.to_multiset() == b.to_multiset(),
    ensures
        b.no_duplicates(),
{
    a.lemma_multiset_has_no_duplicates();
    b.lemma_multiset_has_no_duplicates_conv();
}

/// The answer list holds the grid `g` somewhere.
pub open spec fn contains_grid(a: Seq<Vec<u8>>, g: Seq<u8>) -> bool {
    exists|k: int| 0 <= k < a.len() && a[k]@ == g
}

/// Appending to an answer list keeps everything it already holds.
pub proof fn lemma_contains_grid_extend(a: Seq<Vec<u8>>, b: Seq<Vec<u8>>, g: Seq<u8>)
    requires
        contains_grid(a, g),
        a.len() <= b.len(),
        forall|k: int| 0 <= k < a.len() ==> a[k] == b[k],
    ensures
        contains_grid(b, g),
{
    let k = choose|k: int| 0 <= k < a.len() && a[k]@ == g;
    assert(0 <= k < b.len() && b[k]@ == g);
}

/// The digit on the grid at a (row, column) pair.
pub open spec fn pos_digit(s: Seq<u8>, pq: (usize, usize)) -> u8 {
    s[pq.0 * 9 + pq.1]
}

/// The (row, column) pair of a flat position.
pub open spec fn pos_pair(p: int) -> (usize, usize) {
    ((p / 9) as usize, (p % 9) as usize)
}

/// A well-formed group: 9 (row, column) pairs, each within the grid.
pub open spec fn group_wf(inds: Seq<(usize, usize)>) -> bool {
    inds.len() == 9 && forall|k: int| 0 <= k < 9 ==> (#[trigger] inds[k]).0 < 9 && inds[k].1 < 9
}

/// How many of the first `upto` group members hold the digit `d`.
pub open spec fn dup_count(s: Seq<u8>, inds: Seq<(usize, usize)>, d: u8, upto: int) -> int
    decreases upto,
{
    if upto <= 0 {
        0
    } else {
        dup_count(s, inds, d, upto - 1) + if pos_digit(s, inds[upto - 1]) == d {
            1int
        } else {
            0int
        }
    }
}

/// A group member is flagged when its digit is nonzero and occurs at two
/// distinct places of the group.
pub open spec fn entry_flagged(s: Seq<u8>, inds: Seq<(usize, usize)>, pq: (usize, usize)) -> bool {
    pos_digit(s, pq) != 0 && exists|k1: int, k2: int|
        0 <= k1 < k2 < inds.len() && pos_digit(s, #[trigger] inds[k1]) == pos_digit(s, pq)
            && pos_digit(s, #[trigger] inds[k2]) == pos_digit(s, pq)
}

/// The flagged members among the first `upto` of a group, in group order.
pub open spec fn flagged_entries(s: Seq<u8>, inds: Seq<(usize, usize)>, upto: int) -> Seq<
    (usize, usize),
>
    decreases upto,
{
    if upto <= 0 {
        Seq::empty()
    } else {
        let prev = flagged_entries(s, inds, upto - 1);
        if entry_flagged(s, inds, inds[upto - 1]) {
            prev.push(inds[upto - 1])
        } else {
            prev
        }
    }
}

/// The running duplicate count never decreases as the window grows.
pub proof fn lemma_dup_count_monotonic(s: Seq<u8>, inds: Seq<(usize, usize)>, d: u8, a: int, b: int)
    requires
        a <= b,
    ensures
        dup_count(s, inds, d, a) <= dup_count(s, inds, d, b),
    decreases b - a,
{
    if a < b {
        lemma_dup_count_monotonic(s, inds, d, a, b - 1);
    }
}

/// A positive duplicate count names a witness index.
pub proof fn lemma_dup_count_ge1(s: Seq<u8>, inds: Seq<(usize, usize)>, d: u8, upto: int)
    requires
        dup_count(s, inds, d, upto) >= 1,
    ensures
        exists|k: int| 0 <= k < upto && pos_digit(s, #[trigger] inds[k]) == d,
    decreases upto,
{
    if upto > 0 {
        if pos_digit(s, inds[upto - 1]) == d {
            assert(0 <= upto - 1 < upto && pos_digit(s, inds[upto - 1]) == d);
        } else {
            lemma_dup_count_ge1(s, inds, d, upto - 1);
        }
    }
}

/// A count below two rules out a pair of witnesses.
pub proof fn lemma_dup_count_pair_bound(
    s: Seq<u8>,
    inds: Seq<(usize, usize)>,
    d: u8,
    k1: int,
    k2: int,
    upto: int,
)
    requires
        0 <= k1 < k2 < upto,
        pos_digit(s, inds[k1]) == d,
        pos_digit(s, inds[k2]) == d,
    ensures
        dup_count(s, inds, d, upto) >= 2,
{
    lemma_dup_count_monotonic(s, inds, d, 0, k1);
    assert(dup_count(s, inds, d, k1 + 1) == dup_count(s, inds, d, k1) + 1);
    lemma_dup_count_monotonic(s, inds, d, k1 + 1, k2);
    assert(dup_count(s, inds, d, k2 + 1) == dup_count(s, inds, d, k2) + 1);
    lemma_dup_count_monotonic(s, inds, d, k2 + 1, upto);
}

/// The duplicate count reaches two exactly when the digit occurs at two
/// distinct places of the group.
pub proof fn lemma_dup_count_pair(s: Seq<u8>, inds: Seq<(usize, usize)>, d: u8, upto: int)
    ensures
        dup_count(s, inds, d, upto) >= 2 <==> exists|k1: int, k2: int|
            0 <= k1 < k2 < upto && pos_digit(s, #[trigger] inds[k1]) == d && pos_digit(
                s,
                #[trigger] inds[k2],
            ) == d,
    decreases upto,
{
    if upto > 0 {
        lemma_dup_count_pair(s, inds, d, upto - 1);
        if dup_count(s, inds, d, upto) >= 2 {
            if pos_digit(s, inds[upto - 1]) == d && dup_count(s, inds, d, upto - 1) == 1 {
                lemma_dup_count_ge1(s, inds, d, upto - 1);
                let k = choose|k: int| 0 <= k < upto - 1 && pos_digit(s, #[trigger] inds[k]) == d;
                assert(0 <= k < upto - 1 < upto && pos_digit(s, inds[k]) == d && pos_digit(
                    s,
                    inds[upto - 1],
                ) == d);
            }
        }
        if exists|k1: int, k2: int|
            0 <= k1 < k2 < upto && pos_digit(s, #[trigger] inds[k1]) == d && pos_digit(
                s,
                #[trigger] inds[k2],
            ) == d {
            let (k1, k2) = choose|k1: int, k2: int|
                0 <= k1 < k2 < upto && pos_digit(s, #[trigger] inds[k1]) == d && pos_digit(
                    s,
                    #[trigger] inds[k2],
                ) == d;
            lemma_dup_count_pair_bound(s, inds, d, k1, k2, upto);
        }
    }
}

/// Membership in the flagged subsequence: exactly the group members that are
/// flagged.
pub proof fn lemma_flagged_entries_membership(
    s: Seq<u8>,
    inds: Seq<(usize, usize)>,
    upto: int,
    pq: (usize, usize),
)
    ensures
        flagged_entries(s, inds, upto).contains(pq) <==> (entry_flagged(s, inds, pq) && exists|
            m: int,
        |
            0 <= m < upto && inds[m] == pq),
    decreases upto,
{
    if upto > 0 {
        lemma_flagged_entries_membership(s, inds, upto - 1, pq);
        let prev = flagged_entries(s, inds, upto - 1);
        let cur = flagged_entries(s, inds, upto);
        if entry_flagged(s, inds, inds[upto - 1]) {
            assert(cur == prev.push(inds[upto - 1]));
            assert(cur.contains(pq) <==> (prev.contains(pq) || inds[upto - 1] == pq)) by {
                if cur.contains(pq) {
                    let t = choose|t: int| 0 <= t < cur.len() && cur[t] == pq;
                    if t < prev.len() {
                        assert(prev[t] == pq);
                    }
                }
                if prev.contains(pq) {
                    let t = choose|t: int| 0 <= t < prev.len() && prev[t] == pq;
                    assert(cur[t] == pq);
                }
                if inds[upto - 1] == pq {
                    assert(cur[cur.len() - 1] == pq);
                }
            }
            if cur.contains(pq) && inds[upto - 1] == pq && !prev.contains(pq) {
                assert(0 <= upto - 1 < upto && inds[upto - 1] == pq);
            }
        } else {
            assert(cur == prev);
            if entry_flagged(s, inds, pq) && exists|m: int| 0 <= m < upto && inds[m] == pq {
                let m = choose|m: int| 0 <= m < upto && inds[m] == pq;
                assert(m < upto - 1) by {
                    if m == upto - 1 {
                        assert(!entry_flagged(s, inds, inds[upto - 1]));
                    }
                }
            }
        }
    }
}

/// Some cell of row `r` holds the digit `d`.
pub open spec fn row_has_digit(g: Seq<u8>, r: int, d: u8) -> bool {
    exists|p: int| 0 <= p < 81 && row_of(p) == r && #[trigger] g[p] == d
}

/// Some cell of column `c` holds the digit `d`.
pub open spec fn col_has_digit(g: Seq<u8>, c: int, d: u8) -> bool {
    exists|p: int| 0 <= p < 81 && col_of(p) == c && #[trigger] g[p] == d
}

/// Some cell of section `si` holds the digit `d`.
pub open spec fn sec_has_digit(g: Seq<u8>, si: int, d: u8) -> bool {
    exists|p: int| 0 <= p < 81 && sec_of(p) == si && #[trigger] g[p] == d
}

/// Nine pairwise-distinct positions of one common group on a finished grid
/// hold every digit 1..=9 somewhere.
proof fn lemma_group_has_digit(g: Seq<u8>, ps: Seq<int>, d: u8)
    requires
        wf_grid(g),
        grid_finished(g),
        ps.len() == 9,
        ps.no_duplicates(),
        forall|k: int| 0 <= k < 9 ==> 0 <= #[trigger] ps[k] < 81,
        forall|k1: int, k2: int|
            0 <= k1 < 9 && 0 <= k2 < 9 && k1 != k2 ==> in_same_group(
                #[trigger] ps[k1],
                #[trigger] ps[k2],
            ),
        1 <= d <= 9,
    ensures
        exists|k: int| 0 <= k < 9 && g[#[trigger] ps[k]] == d,
{
    broadcast use vstd::seq_lib::seq_to_set_is_finite;

    let vals = Seq::new(9, |k: int| g[ps[k]]);
    assert(vals.no_duplicates()) by {
        assert forall|k1: int, k2: int|
            0 <= k1 < vals.len() && 0 <= k2 < vals.len() && k1 != k2 implies vals[k1]
            != vals[k2] by {
            if vals[k1] == vals[k2] {
                assert(ps[k1] != ps[k2]);
                assert(g[ps[k1]] != 0);
                assert(cell_violated(g, ps[k1]));
                assert(grid_invalid(g));
            }
        }
    }
    vals.unique_seq_to_set();
    let digits = Seq::new(9, |k: int| (k + 1) as u8);
    assert(digits.no_duplicates()) by {
        assert forall|k1: int, k2: int|
            0 <= k1 < digits.len() && 0 <= k2 < digits.len() && k1 != k2 implies digits[k1]
            != digits[k2] by {
            assert(digits[k1] as int == k1 + 1);
            assert(digits[k2] as int == k2 + 1);
        }
    }
    digits.unique_seq_to_set();
    assert(vals.to_set().subset_of(digits.to_set())) by {
        assert forall|x: u8| vals.to_set().contains(x) implies digits.to_set().contains(x) by {
            let k = choose|k: int| 0 <= k < vals.len() && vals[k] == x;
            assert(1 <= x <= 9);
            assert(digits[x - 1] == x);
            assert(digits.contains(x));
        }
    }
    vstd::set_lib::lemma_subset_equality(vals.to_set(), digits.to_set());
    assert(digits[d - 1] == d);
    assert(digits.contains(d));
    assert(digits.to_set().contains(d));
    assert(vals.to_set().contains(d));
    assert(vals.contains(d));
    let k = choose|k: int| 0 <= k < vals.len() && vals[k] == d;
    assert(g[ps[k]] == d);
}

/// A finished grid solves the puzzle exactly: no two cells of a common group
/// agree, and each of the nine rows, columns and sections holds every digit
/// 1..=9 somewhere (so each exactly once).
pub proof fn lemma_finished_grid_groups(g: Seq<u8>)
    requires
        wf_grid(g),
        grid_finished(g),
    ensures
        forall|p1: int, p2: int|
            0 <= p1 < 81 && 0 <= p2 < 81 && p1 != p2 && in_same_group(p1, p2) ==> g[p1] != g[p2],
        forall|r: int, d: u8| 0 <= r < 9 && 1 <= d <= 9 ==> #[trigger] row_has_digit(g, r, d),
        forall|c: int, d: u8| 0 <= c < 9 && 1 <= d <= 9 ==> #[trigger] col_has_digit(g, c, d),
        forall|si: int, d: u8| 0 <= si < 9 && 1 <= d <= 9 ==> #[trigger] sec_has_digit(g, si, d),
{
    assert forall|p1: int, p2: int|
        0 <= p1 < 81 && 0 <= p2 < 81 && p1 != p2 && in_same_group(p1, p2) implies g[p1]
        != g[p2] by {
        if g[p1] == g[p2] {
            assert(cell_violated(g, p1));
            assert(grid_invalid(g));
        }
    }
    assert forall|r: int, d: u8| 0 <= r < 9 && 1 <= d <= 9 implies #[trigger] row_has_digit(
        g,
        r,
        d,
    ) by {
        let ps = Seq::new(9, |k: int| 9 * r + k);
        assert(ps.no_duplicates());
        assert forall|k1: int, k2: int|
            0 <= k1 < 9 && 0 <= k2 < 9 && k1 != k2 implies in_same_group(
            #[trigger] ps[k1],
            #[trigger] ps[k2],
        ) by {
            assert(row_of(9 * r + k1) == r && row_of(9 * r + k2) == r);
        }
        lemma_group_has_digit(g, ps, d);
        let k = choose|k: int| 0 <= k < 9 && g[#[trigger] ps[k]] == d;
        assert(row_of(9 * r + k) == r);
        assert(0 <= 9 * r + k < 81 && row_of(9 * r + k) == r && g[9 * r + k] == d);
    }
    assert forall|c: int, d: u8| 0 <= c < 9 && 1 <= d <= 9 implies #[trigger] col_has_digit(
        g,
        c,
        d,
    ) by {
        let ps = Seq::new(9, |k: int| 9 * k + c);
        assert(ps.no_duplicates()) by {
            assert forall|k1: int, k2: int|
                0 <= k1 < 9 && 0 <= k2 < 9 && k1 != k2 implies #[trigger] ps[k1] != #[trigger] ps[k2] by {
                assert(ps[k1] == 9 * k1 + c && ps[k2] == 9 * k2 + c);
            }
        }
        assert forall|k1: int, k2: int|
            0 <= k1 < 9 && 0 <= k2 < 9 && k1 != k2 implies in_same_group(
            #[trigger] ps[k1],
            #[trigger] ps[k2],
        ) by {
            assert(col_of(9 * k1 + c) == c && col_of(9 * k2 + c) == c);
        }
        lemma_group_has_digit(g, ps, d);
        let k = choose|k: int| 0 <= k < 9 && g[#[trigger] ps[k]] == d;
        assert(col_of(9 * k + c) == c);
        assert(0 <= 9 * k + c < 81 && col_of(9 * k + c) == c && g[9 * k + c] == d);
    }
    assert forall|si: int, d: u8| 0 <= si < 9 && 1 <= d <= 9 implies #[trigger] sec_has_digit(
        g,
        si,
        d,
    ) by {
        let a = si / 3;
        let b = si % 3;
        let ps = Seq::new(9, |n: int| 9 * (3 * a + n / 3) + 3 * b + n % 3);
        assert forall|n: int| 0 <= n < 9 implies 0 <= #[trigger] ps[n] < 81 && row_of(ps[n]) == 3
            * a + n / 3 && col_of(ps[n]) == 3 * b + n % 3 && sec_of(ps[n]) == si by {
            assert(ps[n] == 9 * (3 * a + n / 3) + (3 * b + n % 3));
        }
        assert(ps.no_duplicates()) by {
            assert forall|k1: int, k2: int|
                0 <= k1 < 9 && 0 <= k2 < 9 && k1 != k2 implies #[trigger] ps[k1] != #[trigger] ps[k2] by {
                if ps[k1] == ps[k2] {
                    assert(row_of(ps[k1]) == row_of(ps[k2]) && col_of(ps[k1]) == col_of(ps[k2]));
                    assert(k1 / 3 == k2 / 3 && k1 % 3 == k2 % 3);
                    assert(k1 == 3 * (k1 / 3) + k1 % 3 && k2 == 3 * (k2 / 3) + k2 % 3);
                }
            }
        }
        assert forall|k1: int, k2: int|
            0 <= k1 < 9 && 0 <= k2 < 9 && k1 != k2 implies in_same_group(
            #[trigger] ps[k1],
            #[trigger] ps[k2],
        ) by {
            assert(in_same_section(ps[k1], ps[k2]));
        }
        lemma_group_has_digit(g, ps, d);
        let k = choose|k: int| 0 <= k < 9 && g[#[trigger] ps[k]] == d;
        assert(0 <= ps[k] < 81 && sec_of(ps[k]) == si && g[ps[k]] == d);
    }
}

/// On a board in puzzle phase, where exactly the nonzero cells are fixed
/// clues, any completion leaves every fixed clue unchanged: solving cannot
/// move a clue.
pub proof fn lemma_clues_survive_solving(cells: Seq<u8>, fixed: Seq<bool>, g: Seq<u8>)
    requires
        cells.len() == 81,
        fixed.len() == 81,
        forall|p: int| 0 <= p < 81 ==> (fixed[p] <==> cells[p] != 0),
        is_completion(g, cells),
    ensures
        forall|p: int| 0 <= p < 81 && fixed[p] ==> g[p] == cells[p],
{
}

/// The digit a fixed diagonal pattern puts at position `p`: shifting the
/// sequence 1..9 by three per row and by one per row band fills the grid
/// without a duplicate in any row, column or section.
pub open spec fn pattern_value(p: int) -> u8 {
    ((3 * ((p / 9) % 3) + (p / 9) / 3 + p % 9) % 9 + 1) as u8
}

/// A concrete finished grid, used as the witness that an empty board can
/// always be completed.
pub open spec fn pattern_grid() -> Seq<u8> {
    Seq::new(81, |p: int| pattern_value(p))
}

/// Two nonnegative numbers less than nine apart with equal remainders by
/// nine are equal.
proof fn lemma_mod9_eq(u: int, v: int)
    requires
        u >= 0,
        v >= 0,
        u % 9 == v % 9,
        -9 < u - v < 9,
    ensures
        u == v,
{
    assert(u == 9 * (u / 9) + u % 9);
    assert(v == 9 * (v / 9) + v % 9);
    assert(u - v == 9 * (u / 9) - 9 * (v / 9));
    assert(9 * (u / 9) - 9 * (v / 9) == 9 * (u / 9 - v / 9));
    assert(-9 < 9 * (u / 9 - v / 9) < 9);
    assert(u / 9 - v / 9 == 0);
}

/// The pattern grid never repeats a digit within a group.
proof fn lemma_pattern_distinct(p: int, q: int)
    requires
        0 <= p < 81,
        0 <= q < 81,
        p != q,
        in_same_group(p, q),
    ensures
        pattern_grid()[p] != pattern_grid()[q],
{
    let r1 = p / 9;
    let c1 = p % 9;
    let r2 = q / 9;
    let c2 = q % 9;
    let u = 3 * (r1 % 3) + r1 / 3 + c1;
    let v = 3 * (r2 % 3) + r2 / 3 + c2;
    assert(0 <= u <= 16 && 0 <= v <= 16);
    assert(pattern_grid()[p] as int == u % 9 + 1);
    assert(pattern_grid()[q] as int == v % 9 + 1);
    assert(p == 9 * r1 + c1 && q == 9 * r2 + c2);
    if pattern_grid()[p] == pattern_grid()[q] {
        assert(u % 9 == v % 9);
        if in_same_row(p, q) {
            assert(r1 == r2);
            assert(-9 < u - v < 9);
            lemma_mod9_eq(u, v);
            assert(c1 == c2);
            assert(false);
        } else if in_same_col(p, q) {
            assert(c1 == c2);
            assert(-9 < u - v < 9);
            lemma_mod9_eq(u, v);
            assert(3 * (r1 % 3) + r1 / 3 == 3 * (r2 % 3) + r2 / 3);
            assert(r1 % 3 == r2 % 3 && r1 / 3 == r2 / 3);
            assert(r1 == r2);
            assert(false);
        } else {
            assert(r1 / 3 == r2 / 3 && c1 / 3 == c2 / 3);
            assert(c1 == 3 * (c1 / 3) + c1 % 3 && c2 == 3 * (c2 / 3) + c2 % 3);
            assert(-9 < u - v < 9);
            lemma_mod9_eq(u, v);
            assert(3 * (r1 % 3) + c1 % 3 == 3 * (r2 % 3) + c2 % 3);
            assert(r1 % 3 == r2 % 3 && c1 % 3 == c2 % 3);
            assert(r1 == r2 && c1 == c2);
            assert(false);
        }
    }
}

/// A completely empty board always has a completion: the pattern grid.
pub proof fn lemma_blank_board_solvable(b: Seq<u8>)
    requires
        b.len() == 81,
        forall|p: int| 0 <= p < 81 ==> b[p] == 0,
    ensures
        is_completion(pattern_grid(), b),
{
    let w = pattern_grid();
    assert forall|p: int| 0 <= p < 81 implies 1 <= #[trigger] w[p] <= 9 by {
        let u = 3 * ((p / 9) % 3) + (p / 9) / 3 + p % 9;
        assert(0 <= u % 9 < 9);
        assert(w[p] as int == u % 9 + 1);
    }
    assert(wf_grid(w));
    assert(grid_full(w));
    if grid_invalid(w) {
        let p = choose|p: int| 0 <= p < 81 && cell_violated(w, p);
        let q = choose|q: int|
            0 <= q < 81 && q != p && in_same_group(p, q) && w[p] != 0 && w[q] == w[p];
        lemma_pattern_distinct(p, q);
        assert(false);
    }
    assert(extends(w, b));
}

/// On the group listing row `i` left to right, a member is flagged exactly
/// when its cell is row-violated.
pub proof fn lemma_row_group_flagged(s: Seq<u8>, inds: Seq<(usize, usize)>, i: int, p: int)
    requires
        s.len() == 81,
        0 <= i < 9,
        0 <= p < 81,
        row_of(p) == i,
        inds.len() == 9,
        forall|k: int| 0 <= k < 9 ==> #[trigger] inds[k] == ((i as usize, k as usize)),
    ensures
        entry_flagged(s, inds, pos_pair(p)) <==> row_violated(s, p),
        exists|m: int| 0 <= m < 9 && inds[m] == pos_pair(p),
{
    let c = col_of(p);
    assert(p == 9 * i + c);
    assert(inds[c] == pos_pair(p));
    assert(pos_digit(s, pos_pair(p)) == s[p]);
    if entry_flagged(s, inds, pos_pair(p)) {
        let (k1, k2) = choose|k1: int, k2: int|
            0 <= k1 < k2 < inds.len() && pos_digit(s, #[trigger] inds[k1]) == pos_digit(
                s,
                pos_pair(p),
            ) && pos_digit(s, #[trigger] inds[k2]) == pos_digit(s, pos_pair(p));
        let k = if k1 != c {
            k1
        } else {
            k2
        };
        let q = 9 * i + k;
        assert(pos_digit(s, inds[k]) == s[q]);
        assert(0 <= q < 81 && q != p && in_same_row(p, q) && s[p] != 0 && s[q] == s[p]);
        assert(row_violated(s, p));
    }
    if row_violated(s, p) {
        let q = choose|q: int|
            0 <= q < 81 && q != p && in_same_row(p, q) && s[p] != 0 && s[q] == s[p];
        let cq = col_of(q);
        assert(q == 9 * i + cq);
        assert(cq != c);
        assert(pos_digit(s, inds[cq]) == s[q]);
        let k1 = if c < cq {
            c
        } else {
            cq
        };
        let k2 = if c < cq {
            cq
        } else {
            c
        };
        assert(0 <= k1 < k2 < inds.len() && pos_digit(s, inds[k1]) == pos_digit(s, pos_pair(p))
            && pos_digit(s, inds[k2]) == pos_digit(s, pos_pair(p)));
        assert(entry_flagged(s, inds, pos_pair(p)));
    }
}

/// On the group listing column `j` top to bottom, a member is flagged exactly
/// when its cell is column-violated.
pub proof fn lemma_col_group_flagged(s: Seq<u8>, inds: Seq<(usize, usize)>, j: int, p: int)
    requires
        s.len() == 81,
        0 <= j < 9,
        0 <= p < 81,
        col_of(p) == j,
        inds.len() == 9,
        forall|k: int| 0 <= k < 9 ==> #[trigger] inds[k] == ((k as usize, j as usize)),
    ensures
        entry_flagged(s, inds, pos_pair(p)) <==> col_violated(s, p),
        exists|m: int| 0 <= m < 9 && inds[m] == pos_pair(p),
{
    let r = row_of(p);
    assert(p == 9 * r + j);
    assert(inds[r] == pos_pair(p));
    assert(pos_digit(s, pos_pair(p)) == s[p]);
    if entry_flagged(s, inds, pos_pair(p)) {
        let (k1, k2) = choose|k1: int, k2: int|
            0 <= k1 < k2 < inds.len() && pos_digit(s, #[trigger] inds[k1]) == pos_digit(
                s,
                pos_pair(p),
            ) && pos_digit(s, #[trigger] inds[k2]) == pos_digit(s, pos_pair(p));
        let k = if k1 != r {
            k1
        } else {
            k2
        };
        let q = 9 * k + j;
        assert(pos_digit(s, inds[k]) == s[q]);
        assert(0 <= q < 81 && q != p && in_same_col(p, q) && s[p] != 0 && s[q] == s[p]);
        assert(col_violated(s, p));
    }
    if col_violated(s, p) {
        let q = choose|q: int|
            0 <= q < 81 && q != p && in_same_col(p, q) && s[p] != 0 && s[q] == s[p];
        let rq = row_of(q);
        assert(q == 9 * rq + j);
        assert(rq != r);
        assert(pos_digit(s, inds[rq]) == s[q]);
        let k1 = if r < rq {
            r
        } else {
            rq
        };
        let k2 = if r < rq {
            rq
        } else {
            r
        };
        assert(0 <= k1 < k2 < inds.len() && pos_digit(s, inds[k1]) == pos_digit(s, pos_pair(p))
            && pos_digit(s, inds[k2]) == pos_digit(s, pos_pair(p)));
        assert(entry_flagged(s, inds, pos_pair(p)));
    }
}

/// Forward half of the section equivalence: a flagged member of a section
/// group is section-violated.
proof fn lemma_section_group_flagged_fwd(
    s: Seq<u8>,
    inds: Seq<(usize, usize)>,
    a: int,
    b: int,
    p: int,
)
    requires
        s.len() == 81,
        0 <= a < 3,
        0 <= b < 3,
        0 <= p < 81,
        row_of(p) / 3 == a,
        col_of(p) / 3 == b,
        inds.len() == 9,
        forall|n: int|
            0 <= n < 9 ==> #[trigger] inds[n] == (((3 * a + n / 3) as usize, (3 * b
                + n % 3) as usize)),
        entry_flagged(s, inds, pos_pair(p)),
    ensures
        section_violated(s, p),
{
    let r = row_of(p);
    let c = col_of(p);
    let np = 3 * (r - 3 * a) + (c - 3 * b);
    assert(0 <= np < 9);
    assert(np / 3 == r - 3 * a && np % 3 == c - 3 * b);
    assert(inds[np] == pos_pair(p));
    assert(pos_digit(s, pos_pair(p)) == s[p]);
    let (k1, k2) = choose|k1: int, k2: int|
        0 <= k1 < k2 < inds.len() && pos_digit(s, #[trigger] inds[k1]) == pos_digit(
            s,
            pos_pair(p),
        ) && pos_digit(s, #[trigger] inds[k2]) == pos_digit(s, pos_pair(p));
    let k = if k1 != np {
        k1
    } else {
        k2
    };
    let rq = 3 * a + k / 3;
    let cq = 3 * b + k % 3;
    let q = 9 * rq + cq;
    assert(0 <= q < 81);
    assert(row_of(q) == rq && col_of(q) == cq);
    assert(q != p) by {
        if q == p {
            assert(rq == r && cq == c);
            assert(k == 3 * (k / 3) + k % 3);
        }
    }
    assert(in_same_section(p, q));
    assert(pos_digit(s, inds[k]) == s[q]);
    assert(section_violated(s, p));
}

/// Backward half of the section equivalence: a section-violated cell is a
/// flagged member of its section group.
proof fn lemma_section_group_flagged_bwd(
    s: Seq<u8>,
    inds: Seq<(usize, usize)>,
    a: int,
    b: int,
    p: int,
)
    requires
        s.len() == 81,
        0 <= a < 3,
        0 <= b < 3,
        0 <= p < 81,
        row_of(p) / 3 == a,
        col_of(p) / 3 == b,
        inds.len() == 9,
        forall|n: int|
            0 <= n < 9 ==> #[trigger] inds[n] == (((3 * a + n / 3) as usize, (3 * b
                + n % 3) as usize)),
        section_violated(s, p),
    ensures
        entry_flagged(s, inds, pos_pair(p)),
{
    let r = row_of(p);
    let c = col_of(p);
    let np = 3 * (r - 3 * a) + (c - 3 * b);
    assert(0 <= np < 9);
    assert(np / 3 == r - 3 * a && np % 3 == c - 3 * b);
    assert(inds[np] == pos_pair(p));
    assert(pos_digit(s, pos_pair(p)) == s[p]);
    let q = choose|q: int|
        0 <= q < 81 && q != p && in_same_section(p, q) && s[p] != 0 && s[q] == s[p];
    let rq = row_of(q);
    let cq = col_of(q);
    assert(rq / 3 == a && cq / 3 == b);
    let nq = 3 * (rq - 3 * a) + (cq - 3 * b);
    assert(0 <= nq < 9 && nq / 3 == rq - 3 * a && nq % 3 == cq - 3 * b);
    assert(inds[nq] == ((rq as usize, cq as usize)));
    assert(q == 9 * rq + cq);
    assert(pos_digit(s, inds[nq]) == s[q]);
    assert(nq != np) by {
        if nq == np {
            assert(rq == r && cq == c);
            assert(q == p);
        }
    }
    let k1 = if np < nq {
        np
    } else {
        nq
    };
    let k2 = if np < nq {
        nq
    } else {
        np
    };
    assert(0 <= k1 < k2 < inds.len() && pos_digit(s, inds[k1]) == pos_digit(s, pos_pair(p))
        && pos_digit(s, inds[k2]) == pos_digit(s, pos_pair(p)));
    assert(entry_flagged(s, inds, pos_pair(p)));
}

/// On the group listing the 3x3 section `(a, b)` in reading order, a member
/// is flagged exactly when its cell is section-violated.
pub proof fn lemma_section_group_flagged(
    s: Seq<u8>,
    inds: Seq<(usize, usize)>,
    a: int,
    b: int,
    p: int,
)
    requires
        s.len() == 81,
        0 <= a < 3,
        0 <= b < 3,
        0 <= p < 81,
        row_of(p) / 3 == a,
        col_of(p) / 3 == b,
        inds.len() == 9,
        forall|n: int|
            0 <= n < 9 ==> #[trigger] inds[n] == (((3 * a + n / 3) as usize, (3 * b
                + n % 3) as usize)),
    ensures
        entry_flagged(s, inds, pos_pair(p)) <==> section_violated(s, p),
        exists|m: int| 0 <= m < 9 && inds[m] == pos_pair(p),
{
    let r = row_of(p);
    let c = col_of(p);
    let np = 3 * (r - 3 * a) + (c - 3 * b);
    assert(0 <= np < 9);
    assert(np / 3 == r - 3 * a && np % 3 == c - 3 * b);
    assert(inds[np] == pos_pair(p));
    if entry_flagged(s, inds, pos_pair(p)) {
        lemma_section_group_flagged_fwd(s, inds, a, b, p);
    }
    if section_violated(s, p) {
        lemma_section_group_flagged_bwd(s, inds, a, b, p);
    }
}

} // verus!
