//! The game board: a 9x9 grid of digits with per-cell clue flags, duplicate
//! detection over rows, columns and 3x3 sections, and a backtracking solver
//! that enumerates complete rule-consistent grids.

use vstd::prelude::*;

use crate::grid::cell_violated;
use crate::grid::col_of;
use crate::grid::col_violated;
use crate::grid::contains_grid;
use crate::grid::dup_count;
use crate::grid::extends;
use crate::grid::flagged_entries;
use crate::grid::grid_finished;
use crate::grid::grid_full;
use crate::grid::grid_invalid;
use crate::grid::group_wf;
use crate::grid::is_completion;
use crate::grid::lemma_col_group_flagged;
use crate::grid::lemma_contains_grid_extend;
use crate::grid::lemma_dup_count_pair;
use crate::grid::lemma_extends_keeps_invalid;
use crate::grid::lemma_flagged_entries_membership;
use crate::grid::lemma_full_board_extension_is_equal;
use crate::grid::lemma_row_group_flagged;
use crate::grid::lemma_section_group_flagged;
use crate::grid::lemma_violated_decompose;
use crate::grid::num_empty;
use crate::grid::pos_digit;
use crate::grid::pos_pair;
use crate::grid::row_of;
use crate::grid::row_violated;
use crate::grid::sec_of;
use crate::grid::section_violated;
use crate::grid::two_completions;
use crate::grid::wf_grid;

verus! {

/// The display character of a digit: only 1..=9 have one.
pub open spec fn digit_char(d: u8) -> Option<char> {
    match d {
        1 => Some('1'),
        2 => Some('2'),
        3 => Some('3'),
        4 => Some('4'),
        5 => Some('5'),
        6 => Some('6'),
        7 => Some('7'),
        8 => Some('8'),
        9 => Some('9'),
        _ => None,
    }
}

/// Stores game board information: the cell contents (0 is an empty cell) and
/// the clue flags (a fixed cell cannot be edited through `set`).
pub struct Gameboard {
    /// The 81 cells in row-major order; each holds a digit 0..=9.
    pub cells: Vec<u8>,
    /// The clue flags, parallel to `cells`.
    pub fixed: Vec<bool>,
}

impl Gameboard {
    /// Both grids have 81 entries and every cell holds a digit 0..=9.
    pub open spec fn wf(&self) -> bool {
        wf_grid(self.cells@) && self.fixed@.len() == 81
    }

    /// Creates a new game board: every cell empty, no cell fixed.
    pub fn new() -> (r: Gameboard)
        ensures
            r.wf(),
            forall|p: int| 0 <= p < 81 ==> r.cells@[p] == 0,
            forall|p: int| 0 <= p < 81 ==> !r.fixed@[p],
    {
        let mut cells: Vec<u8> = Vec::new();
        let mut fixed: Vec<bool> = Vec::new();
        let mut n: usize = 0;
        while n < 81
            invariant
                cells@.len() == n,
                fixed@.len() == n,
                n <= 81,
                forall|p: int| 0 <= p < n ==> cells@[p] == 0,
                forall|p: int| 0 <= p < n ==> !fixed@[p],
            decreases 81 - n,
        {
            cells.push(0);
            fixed.push(false);
            n = n + 1;
        }
        Gameboard { cells, fixed }
    }

    /// Reads the digit at the given cell.
    pub fn get(&self, row: usize, col: usize) -> (d: u8)
        requires
            self.wf(),
            row < 9,
            col < 9,
        ensures
            d == self.cells@[row * 9 + col],
            d <= 9,
    {
        self.cells[row * 9 + col]
    }

    /// Gets the character at a cell location: a digit character for 1..=9,
    /// nothing for an empty cell.
    pub fn char(&self, row: usize, col: usize) -> (c: Option<char>)
        requires
            self.wf(),
            row < 9,
            col < 9,
        ensures
            c == digit_char(self.cells@[row * 9 + col]),
    {
        match self.cells[row * 9 + col] {
            1 => Some('1'),
            2 => Some('2'),
            3 => Some('3'),
            4 => Some('4'),
            5 => Some('5'),
            6 => Some('6'),
            7 => Some('7'),
            8 => Some('8'),
            9 => Some('9'),
            _ => None,
        }
    }

    /// Sets a cell value; a silent no-op when the cell is a fixed clue.
    pub fn set(&mut self, row: usize, col: usize, val: u8)
        requires
            old(self).wf(),
            row < 9,
            col < 9,
            val <= 9,
        ensures
            final(self).wf(),
            final(self).fixed@ == old(self).fixed@,
            old(self).fixed@[row * 9 + col] ==> final(self).cells@ == old(self).cells@,
            !old(self).fixed@[row * 9 + col] ==> final(self).cells@ == old(self).cells@.update(
                row * 9 + col,
                val,
            ),
    {
        if !self.fixed[row * 9 + col] {
            self.cells.set(row * 9 + col, val);
        }
    }

    /// Reports whether the cell is a fixed clue.
    pub fn is_fixed(&self, row: usize, col: usize) -> (f: bool)
        requires
            self.wf(),
            row < 9,
            col < 9,
        ensures
            f == self.fixed@[row * 9 + col],
    {
        self.fixed[row * 9 + col]
    }

    /// Sets or clears the fixed-clue flag of a cell.
    pub fn set_readonly(&mut self, row: usize, col: usize, flag: bool)
        requires
            old(self).wf(),
            row < 9,
            col < 9,
        ensures
            final(self).wf(),
            final(self).cells@ == old(self).cells@,
            final(self).fixed@ == old(self).fixed@.update(row * 9 + col, flag),
    {
        self.fixed.set(row * 9 + col, flag);
    }

    /// Clears every cell to empty; the fixed flags are kept (callers that
    /// need a truly blank board must also clear the flags).
    pub fn reset(&mut self)
        requires
            old(self).wf(),
        ensures
            final(self).wf(),
            final(self).fixed@ == old(self).fixed@,
            forall|p: int| 0 <= p < 81 ==> final(self).cells@[p] == 0,
    {
        let mut n: usize = 0;
        while n < 81
            invariant
                self.wf(),
                self.fixed@ == old(self).fixed@,
                n <= 81,
                forall|p: int| 0 <= p < n ==> self.cells@[p] == 0,
            decreases 81 - n,
        {
            self.cells.set(n, 0);
            n = n + 1;
        }
    }

    /// Returns a copy of the 81 cells.
    pub fn copy_cells(&self) -> (r: Vec<u8>)
        requires
            self.wf(),
        ensures
            r@ == self.cells@,
    {
        let mut r: Vec<u8> = Vec::new();
        let mut n: usize = 0;
        while n < 81
            invariant
                self.wf(),
                r@.len() == n,
                n <= 81,
                forall|p: int| 0 <= p < n ==> r@[p] == self.cells@[p],
            decreases 81 - n,
        {
            r.push(self.cells[n]);
            n = n + 1;
        }
        proof {
            assert(r@ =~= self.cells@);
        }
        r
    }

    /// Search invalid positions in one specific group of 9 cells: returns, in
    /// group order, the members whose nonzero digit occurs more than once
    /// within the group.
    pub fn search_invalid_position_in(&self, inds: Vec<(usize, usize)>) -> (v: Vec<(usize, usize)>)
        requires
            self.wf(),
            group_wf(inds@),
        ensures
            v@ == flagged_entries(self.cells@, inds@, 9),
    {
        let mut v: Vec<(usize, usize)> = Vec::new();
        let mut t: usize = 0;
        while t < 9
            invariant
                self.wf(),
                group_wf(inds@),
                t <= 9,
                v@ == flagged_entries(self.cells@, inds@, t as int),
            decreases 9 - t,
        {
            let pq = inds[t];
            let d = self.cells[pq.0 * 9 + pq.1];
            if d != 0 {
                let mut cnt: usize = 0;
                let mut k: usize = 0;
                while k < 9
                    invariant
                        self.wf(),
                        group_wf(inds@),
                        k <= 9,
                        cnt <= k,
                        d == pos_digit(self.cells@, inds@[t as int]),
                        cnt == dup_count(self.cells@, inds@, d, k as int),
                    decreases 9 - k,
                {
                    let pq2 = inds[k];
                    if self.cells[pq2.0 * 9 + pq2.1] == d {
                        cnt = cnt + 1;
                    }
                    k = k + 1;
                }
                proof {
                    lemma_dup_count_pair(self.cells@, inds@, d, 9);
                }
                if cnt >= 2 {
                    v.push(pq);
                }
                proof {
                    assert(v@ == flagged_entries(self.cells@, inds@, t + 1));
                }
            }
            t = t + 1;
        }
        v
    }

    /// Search invalid positions over the row family: flag every cell whose
    /// nonzero digit occurs more than once within its row.
    pub fn search_invalid_position_row(&self) -> (r: Vec<bool>)
        requires
            self.wf(),
        ensures
            r@.len() == 81,
            forall|p: int| 0 <= p < 81 ==> r@[p] == row_violated(self.cells@, p),
    {
        let ghost s = self.cells@;
        let mut invalid: Vec<bool> = Vec::new();
        let mut n: usize = 0;
        while n < 81
            invariant
                invalid@.len() == n,
                n <= 81,
                forall|p: int| 0 <= p < n ==> !invalid@[p],
            decreases 81 - n,
        {
            invalid.push(false);
            n = n + 1;
        }
        let mut i: usize = 0;
        while i < 9
            invariant
                self.wf(),
                s == self.cells@,
                invalid@.len() == 81,
                i <= 9,
                forall|p: int| 0 <= p < 81 && row_of(p) < i ==> invalid@[p] == row_violated(s, p),
                forall|p: int| 0 <= p < 81 && row_of(p) >= i ==> !invalid@[p],
            decreases 9 - i,
        {
            let mut inds: Vec<(usize, usize)> = Vec::new();
            let mut j: usize = 0;
            while j < 9
                invariant
                    i < 9,
                    j <= 9,
                    inds@.len() == j,
                    forall|k: int| 0 <= k < j ==> #[trigger] inds@[k] == ((i, k as usize)),
                decreases 9 - j,
            {
                inds.push((i, j));
                j = j + 1;
            }
            let ghost ginds = inds@;
            let flagged = self.search_invalid_position_in(inds);
            let mut t: usize = 0;
            while t < flagged.len()
                invariant
                    self.wf(),
                    s == self.cells@,
                    invalid@.len() == 81,
                    i < 9,
                    t <= flagged@.len(),
                    ginds.len() == 9,
                    forall|k: int| 0 <= k < 9 ==> #[trigger] ginds[k] == ((i, k as usize)),
                    flagged@ == flagged_entries(s, ginds, 9),
                    forall|p: int|
                        0 <= p < 81 && row_of(p) < i ==> invalid@[p] == row_violated(s, p),
                    forall|p: int| 0 <= p < 81 && row_of(p) > i ==> !invalid@[p],
                    forall|p: int|
                        0 <= p < 81 && row_of(p) == i ==> invalid@[p] == exists|m: int|
                            0 <= m < t && flagged@[m] == pos_pair(p),
                decreases flagged@.len() - t,
            {
                let pq = flagged[t];
                proof {
                    assert(flagged@.contains(pq));
                    lemma_flagged_entries_membership(s, ginds, 9, pq);
                    let m = choose|m: int| 0 <= m < 9 && ginds[m] == pq;
                    assert(pq == ((i, m as usize)));
                }
                let ghost prev = invalid@;
                invalid.set(pq.0 * 9 + pq.1, true);
                proof {
                    assert forall|p: int| 0 <= p < 81 && row_of(p) == i implies invalid@[p] == (
                    exists|m: int| 0 <= m < t + 1 && flagged@[m] == pos_pair(p)) by {
                        if p == pq.0 * 9 + pq.1 {
                            assert(flagged@[t as int] == pos_pair(p));
                        } else {
                            assert(pos_pair(p) != pq);
                            assert(invalid@[p] == prev[p]);
                            assert((exists|m: int| 0 <= m < t + 1 && flagged@[m] == pos_pair(p))
                                == (exists|m: int| 0 <= m < t && flagged@[m] == pos_pair(p)));
                        }
                    }
                }
                t = t + 1;
            }
            proof {
                assert forall|p: int| 0 <= p < 81 && row_of(p) == i implies invalid@[p]
                    == row_violated(s, p) by {
                    lemma_flagged_entries_membership(s, ginds, 9, pos_pair(p));
                    lemma_row_group_flagged(s, ginds, i as int, p);
                    if invalid@[p] {
                        let m = choose|m: int| 0 <= m < t && flagged@[m] == pos_pair(p);
                        assert(flagged@.contains(pos_pair(p)));
                    } else {
                        if flagged@.contains(pos_pair(p)) {
                            let m = choose|m: int|
                                0 <= m < flagged@.len() && flagged@[m] == pos_pair(p);
                            assert(exists|m: int| 0 <= m < t && flagged@[m] == pos_pair(p));
                        }
                    }
                }
            }
            i = i + 1;
        }
        invalid
    }

    /// Search invalid positions over the column family: flag every cell whose
    /// nonzero digit occurs more than once within its column.
    pub fn search_invalid_position_col(&self) -> (r: Vec<bool>)
        requires
            self.wf(),
        ensures
            r@.len() == 81,
            forall|p: int| 0 <= p < 81 ==> r@[p] == col_violated(self.cells@, p),
    {
        let ghost s = self.cells@;
        let mut invalid: Vec<bool> = Vec::new();
        let mut n: usize = 0;
        while n < 81
            invariant
                invalid@.len() == n,
                n <= 81,
                forall|p: int| 0 <= p < n ==> !invalid@[p],
            decreases 81 - n,
        {
            invalid.push(false);
            n = n + 1;
        }
        let mut j: usize = 0;
        while j < 9
            invariant
                self.wf(),
                s == self.cells@,
                invalid@.len() == 81,
                j <= 9,
                forall|p: int| 0 <= p < 81 && col_of(p) < j ==> invalid@[p] == col_violated(s, p),
                forall|p: int| 0 <= p < 81 && col_of(p) >= j ==> !invalid@[p],
            decreases 9 - j,
        {
            let mut inds: Vec<(usize, usize)> = Vec::new();
            let mut i: usize = 0;
            while i < 9
                invariant
                    j < 9,
                    i <= 9,
                    inds@.len() == i,
                    forall|k: int| 0 <= k < i ==> #[trigger] inds@[k] == ((k as usize, j)),
                decreases 9 - i,
            {
                inds.push((i, j));
                i = i + 1;
            }
            let ghost ginds = inds@;
            let flagged = self.search_invalid_position_in(inds);
            let mut t: usize = 0;
            while t < flagged.len()
                invariant
                    self.wf(),
                    s == self.cells@,
                    invalid@.len() == 81,
                    j < 9,
                    t <= flagged@.len(),
                    ginds.len() == 9,
                    forall|k: int| 0 <= k < 9 ==> #[trigger] ginds[k] == ((k as usize, j)),
                    flagged@ == flagged_entries(s, ginds, 9),
                    forall|p: int|
                        0 <= p < 81 && col_of(p) < j ==> invalid@[p] == col_violated(s, p),
                    forall|p: int| 0 <= p < 81 && col_of(p) > j ==> !invalid@[p],
                    forall|p: int|
                        0 <= p < 81 && col_of(p) == j ==> invalid@[p] == exists|m: int|
                            0 <= m < t && flagged@[m] == pos_pair(p),
                decreases flagged@.len() - t,
            {
                let pq = flagged[t];
                proof {
                    assert(flagged@.contains(pq));
                    lemma_flagged_entries_membership(s, ginds, 9, pq);
                    let m = choose|m: int| 0 <= m < 9 && ginds[m] == pq;
                    assert(pq == ((m as usize, j)));
                }
                let ghost prev = invalid@;
                invalid.set(pq.0 * 9 + pq.1, true);
                proof {
                    assert forall|p: int| 0 <= p < 81 && col_of(p) == j implies invalid@[p] == (
                    exists|m: int| 0 <= m < t + 1 && flagged@[m] == pos_pair(p)) by {
                        if p == pq.0 * 9 + pq.1 {
                            assert(flagged@[t as int] == pos_pair(p));
                        } else {
                            assert(pos_pair(p) != pq);
                            assert(invalid@[p] == prev[p]);
                            assert((exists|m: int| 0 <= m < t + 1 && flagged@[m] == pos_pair(p))
                                == (exists|m: int| 0 <= m < t && flagged@[m] == pos_pair(p)));
                        }
                    }
                }
                t = t + 1;
            }
            proof {
                assert forall|p: int| 0 <= p < 81 && col_of(p) == j implies invalid@[p]
                    == col_violated(s, p) by {
                    lemma_flagged_entries_membership(s, ginds, 9, pos_pair(p));
                    lemma_col_group_flagged(s, ginds, j as int, p);
                    if invalid@[p] {
                        let m = choose|m: int| 0 <= m < t && flagged@[m] == pos_pair(p);
                        assert(flagged@.contains(pos_pair(p)));
                    } else {
                        if flagged@.contains(pos_pair(p)) {
                            let m = choose|m: int|
                                0 <= m < flagged@.len() && flagged@[m] == pos_pair(p);
                            assert(exists|m: int| 0 <= m < t && flagged@[m] == pos_pair(p));
                        }
                    }
                }
            }
            j = j + 1;
        }
        invalid
    }

    /// Search invalid positions over the section family: flag every cell
    /// whose nonzero digit occurs more than once within its 3x3 section.
    pub fn search_invalid_position_section(&self) -> (r: Vec<bool>)
        requires
            self.wf(),
        ensures
            r@.len() == 81,
            forall|p: int| 0 <= p < 81 ==> r@[p] == section_violated(self.cells@, p),
    {
        let ghost s = self.cells@;
        let mut invalid: Vec<bool> = Vec::new();
        let mut n: usize = 0;
        while n < 81
            invariant
                invalid@.len() == n,
                n <= 81,
                forall|p: int| 0 <= p < n ==> !invalid@[p],
            decreases 81 - n,
        {
            invalid.push(false);
            n = n + 1;
        }
        let mut si: usize = 0;
        while si < 9
            invariant
                self.wf(),
                s == self.cells@,
                invalid@.len() == 81,
                si <= 9,
                forall|p: int|
                    0 <= p < 81 && sec_of(p) < si ==> invalid@[p] == section_violated(s, p),
                forall|p: int| 0 <= p < 81 && sec_of(p) >= si ==> !invalid@[p],
            decreases 9 - si,
        {
            let a = si / 3;
            let b = si % 3;
            let mut inds: Vec<(usize, usize)> = Vec::new();
            let mut m: usize = 0;
            while m < 9
                invariant
                    a == si as int / 3,
                    b == si as int % 3,
                    si < 9,
                    m <= 9,
                    inds@.len() == m,
                    forall|k: int|
                        0 <= k < m ==> #[trigger] inds@[k] == (((3 * a + k / 3) as usize, (3 * b + (
                        k % 3)) as usize)),
                decreases 9 - m,
            {
                inds.push((3 * a + m / 3, 3 * b + m % 3));
                m = m + 1;
            }
            let ghost ginds = inds@;
            let flagged = self.search_invalid_position_in(inds);
            let mut t: usize = 0;
            while t < flagged.len()
                invariant
                    self.wf(),
                    s == self.cells@,
                    invalid@.len() == 81,
                    si < 9,
                    a == si as int / 3,
                    b == si as int % 3,
                    t <= flagged@.len(),
                    ginds.len() == 9,
                    forall|k: int|
                        0 <= k < 9 ==> #[trigger] ginds[k] == (((3 * a + k / 3) as usize, (3 * b + (
                        k % 3)) as usize)),
                    flagged@ == flagged_entries(s, ginds, 9),
                    forall|p: int|
                        0 <= p < 81 && sec_of(p) < si ==> invalid@[p] == section_violated(s, p),
                    forall|p: int| 0 <= p < 81 && sec_of(p) > si ==> !invalid@[p],
                    forall|p: int|
                        0 <= p < 81 && sec_of(p) == si ==> invalid@[p] == exists|m: int|
                            0 <= m < t && flagged@[m] == pos_pair(p),
                decreases flagged@.len() - t,
            {
                let pq = flagged[t];
                proof {
                    assert(flagged@.contains(pq));
                    lemma_flagged_entries_membership(s, ginds, 9, pq);
                    let m = choose|m: int| 0 <= m < 9 && ginds[m] == pq;
                    assert(pq == (((3 * a as int + m / 3) as usize, (3 * b as int + (
                    m % 3)) as usize)));
                    assert(row_of(pq.0 * 9 + pq.1) == pq.0 && col_of(pq.0 * 9 + pq.1) == pq.1);
                    assert(sec_of(pq.0 * 9 + pq.1) == si);
                }
                let ghost prev = invalid@;
                invalid.set(pq.0 * 9 + pq.1, true);
                proof {
                    assert forall|p: int| 0 <= p < 81 && sec_of(p) == si implies invalid@[p] == (
                    exists|m: int| 0 <= m < t + 1 && flagged@[m] == pos_pair(p)) by {
                        if p == pq.0 * 9 + pq.1 {
                            assert(flagged@[t as int] == pos_pair(p));
                        } else {
                            assert(pos_pair(p) != pq);
                            assert(invalid@[p] == prev[p]);
                            assert((exists|m: int| 0 <= m < t + 1 && flagged@[m] == pos_pair(p))
                                == (exists|m: int| 0 <= m < t && flagged@[m] == pos_pair(p)));
                        }
                    }
                }
                t = t + 1;
            }
            proof {
                assert forall|p: int| 0 <= p < 81 && sec_of(p) == si implies invalid@[p]
                    == section_violated(s, p) by {
                    assert(row_of(p) / 3 == a as int && col_of(p) / 3 == b as int);
                    lemma_flagged_entries_membership(s, ginds, 9, pos_pair(p));
                    lemma_section_group_flagged(s, ginds, a as int, b as int, p);
                    if invalid@[p] {
                        let m = choose|m: int| 0 <= m < t && flagged@[m] == pos_pair(p);
                        assert(flagged@.contains(pos_pair(p)));
                    } else {
                        if flagged@.contains(pos_pair(p)) {
                            let m = choose|m: int|
                                0 <= m < flagged@.len() && flagged@[m] == pos_pair(p);
                            assert(exists|m: int| 0 <= m < t && flagged@[m] == pos_pair(p));
                        }
                    }
                }
            }
            si = si + 1;
        }
        invalid
    }

    /// Search invalid positions over all three families: a cell is flagged
    /// when its row, its column or its section flags it.
    pub fn search_invalid_position(&self) -> (r: Vec<bool>)
        requires
            self.wf(),
        ensures
            r@.len() == 81,
            forall|p: int| 0 <= p < 81 ==> r@[p] == cell_violated(self.cells@, p),
    {
        let ghost s = self.cells@;
        let mut invalid1 = self.search_invalid_position_section();
        let invalid2 = self.search_invalid_position_row();
        let invalid3 = self.search_invalid_position_col();
        let mut n: usize = 0;
        while n < 81
            invariant
                self.wf(),
                s == self.cells@,
                invalid1@.len() == 81,
                invalid2@.len() == 81,
                invalid3@.len() == 81,
                n <= 81,
                forall|p: int| 0 <= p < n ==> invalid1@[p] == cell_violated(s, p),
                forall|p: int| n <= p < 81 ==> invalid1@[p] == section_violated(s, p),
                forall|p: int| 0 <= p < 81 ==> invalid2@[p] == row_violated(s, p),
                forall|p: int| 0 <= p < 81 ==> invalid3@[p] == col_violated(s, p),
            decreases 81 - n,
        {
            let combined = invalid1[n] || invalid2[n] || invalid3[n];
            invalid1.set(n, combined);
            proof {
                lemma_violated_decompose(s, n as int);
            }
            n = n + 1;
        }
        invalid1
    }

    /// Reports whether the cell at the given location participates in a
    /// duplicate-digit conflict.
    pub fn is_invalid(&self, row: usize, col: usize) -> (f: bool)
        requires
            self.wf(),
            row < 9,
            col < 9,
        ensures
            f == cell_violated(self.cells@, row * 9 + col),
    {
        let invalid_pos = self.search_invalid_position();
        invalid_pos[row * 9 + col]
    }

    /// Check whether the whole board is invalid: true iff some cell is
    /// flagged by the row, column or section family.
    pub fn invalid(&self) -> (f: bool)
        requires
            self.wf(),
        ensures
            f == grid_invalid(self.cells@),
    {
        let ghost s = self.cells@;
        let invalid_pos = self.search_invalid_position();
        let mut acc = false;
        let mut n: usize = 0;
        while n < 81
            invariant
                invalid_pos@.len() == 81,
                n <= 81,
                forall|p: int| 0 <= p < 81 ==> invalid_pos@[p] == cell_violated(s, p),
                acc == exists|p: int| 0 <= p < n && cell_violated(s, p),
            decreases 81 - n,
        {
            let ghost acc0 = acc;
            acc = acc || invalid_pos[n];
            proof {
                if acc0 {
                    let p = choose|p: int| 0 <= p < n && cell_violated(s, p);
                    assert(0 <= p < n + 1 && cell_violated(s, p));
                } else if invalid_pos@[n as int] {
                    assert(0 <= n < n + 1 && cell_violated(s, n as int));
                }
            }
            n = n + 1;
        }
        acc
    }

    /// Check whether the board is finished: every cell filled and no cell in
    /// conflict.
    pub fn finished(&self) -> (f: bool)
        requires
            self.wf(),
        ensures
            f == grid_finished(self.cells@),
    {
        let ghost s = self.cells@;
        let mut full = true;
        let mut n: usize = 0;
        while n < 81
            invariant
                self.wf(),
                s == self.cells@,
                n <= 81,
                full == forall|p: int| 0 <= p < n ==> s[p] != 0,
            decreases 81 - n,
        {
            let ghost full0 = full;
            full = full && self.cells[n] != 0;
            proof {
                if full0 && s[n as int] != 0 {
                    assert(forall|p: int| 0 <= p < n + 1 ==> s[p] != 0);
                }
            }
            n = n + 1;
        }
        full && !self.invalid()
    }

    /// Core part of the backtracking solver: explores the positions from
    /// `position` on in row-major order, trying the digits 1..=9 in every
    /// empty cell, and appends to `answers` a copy of every complete,
    /// rule-consistent grid it reaches, until `answers` holds `n_answer`
    /// grids. The appended grids are pairwise distinct, and the board itself
    /// is left exactly as it was found.
    pub fn solve_core(&mut self, n_answer: usize, position: usize, answers: &mut Vec<Vec<u8>>)
        requires
            old(self).wf(),
            position <= 81,
            forall|p: int| 0 <= p < position ==> old(self).cells@[p] != 0,
        ensures
            final(self).wf(),
            final(self).cells@ == old(self).cells@,
            final(self).fixed@ == old(self).fixed@,
            final(answers)@.len() >= old(answers)@.len(),
            forall|k: int| 0 <= k < old(answers)@.len() ==> final(answers)@[k] == old(answers)@[k],
            forall|k: int|
                old(answers)@.len() <= k < final(answers)@.len() ==> is_completion(
                    #[trigger] final(answers)@[k]@,
                    old(self).cells@,
                ),
            forall|k1: int, k2: int|
                old(answers)@.len() <= k1 < k2 < final(answers)@.len() ==> final(answers)@[k1]@
                    != final(answers)@[k2]@,
            old(answers)@.len() < n_answer ==> final(answers)@.len() <= n_answer,
            old(answers)@.len() >= n_answer ==> final(answers)@.len() == old(answers)@.len(),
            final(answers)@.len() < n_answer ==> forall|g: Seq<u8>|
                is_completion(g, old(self).cells@) ==> contains_grid(final(answers)@, g),
        decreases 81 - position,
    {
        let ghost b = self.cells@;
        let ghost len0 = answers@.len();
        if self.invalid() {
            proof {
                assert forall|g: Seq<u8>| is_completion(g, b) implies contains_grid(
                    answers@,
                    g,
                ) by {
                    lemma_extends_keeps_invalid(b, g);
                }
            }
            return ;
        }
        if position == 81 {
            if answers.len() < n_answer {
                let copy = self.copy_cells();
                answers.push(copy);
                proof {
                    assert(grid_full(b));
                    assert(extends(b, b));
                    assert(answers@[len0 as int]@ == b);
                    assert forall|g: Seq<u8>| is_completion(g, b) implies contains_grid(
                        answers@,
                        g,
                    ) by {
                        lemma_full_board_extension_is_equal(b, g);
                        assert(answers@[len0 as int]@ == g);
                    }
                }
            }
            return ;
        }
        let cur = self.cells[position];
        if cur != 0 {
            proof {
                assert forall|p: int| 0 <= p < position + 1 implies self.cells@[p] != 0 by {
                    if p < position {
                        assert(b[p] != 0);
                    }
                }
            }
            self.solve_core(n_answer, position + 1, answers);
            return ;
        }
        let mut d: usize = 1;
        while d <= 9 && answers.len() < n_answer
            invariant
                self.wf(),
                self.fixed@ == old(self).fixed@,
                self.cells@.len() == 81,
                1 <= d <= 10,
                position < 81,
                n_answer <= usize::MAX,
                b == old(self).cells@,
                b.len() == 81,
                wf_grid(b),
                b[position as int] == 0,
                forall|p: int| 0 <= p < position ==> b[p] != 0,
                forall|q: int| 0 <= q < 81 && q != position ==> self.cells@[q] == b[q],
                len0 == old(answers)@.len(),
                answers@.len() >= len0,
                forall|k: int| 0 <= k < len0 ==> answers@[k] == old(answers)@[k],
                forall|k: int|
                    len0 <= k < answers@.len() ==> is_completion(#[trigger] answers@[k]@, b),
                forall|k: int|
                    len0 <= k < answers@.len() ==> 1 <= (#[trigger] answers@[k]@)[position as int]
                        < d,
                forall|k1: int, k2: int|
                    len0 <= k1 < k2 < answers@.len() ==> answers@[k1]@ != answers@[k2]@,
                len0 < n_answer ==> answers@.len() <= n_answer,
                len0 >= n_answer ==> answers@.len() == len0,
                answers@.len() < n_answer ==> forall|g: Seq<u8>|
                    is_completion(g, b) && 1 <= g[position as int] < d ==> contains_grid(
                        answers@,
                        g,
                    ),
            decreases 10 - d,
        {
            self.cells.set(position, d as u8);
            let ghost b2 = self.cells@;
            let ghost apre = answers@;
            proof {
                assert forall|p: int| 0 <= p < position + 1 implies self.cells@[p] != 0 by {
                    if p < position {
                        assert(self.cells@[p] == b[p]);
                        assert(b[p] != 0);
                    }
                }
            }
            self.solve_core(n_answer, position + 1, answers);
            proof {
                assert forall|k: int| len0 <= k < answers@.len() implies 1 <= (
                #[trigger] answers@[k]@)[position as int] < d + 1 by {
                    if k < apre.len() {
                        assert(answers@[k] == apre[k]);
                    } else {
                        assert(is_completion(answers@[k]@, b2));
                        assert(b2[position as int] == d as u8);
                    }
                }
                assert forall|k1: int, k2: int|
                    len0 <= k1 < k2 < answers@.len() implies answers@[k1]@ != answers@[k2]@ by {
                    if k2 < apre.len() {
                        assert(answers@[k1] == apre[k1] && answers@[k2] == apre[k2]);
                    } else if k1 < apre.len() {
                        assert(answers@[k1] == apre[k1]);
                        assert((answers@[k1]@)[position as int] < d);
                        assert(is_completion(answers@[k2]@, b2));
                        assert(b2[position as int] == d as u8);
                        assert((answers@[k2]@)[position as int] == d as u8);
                    }
                }
                if answers@.len() < n_answer {
                    assert forall|g: Seq<u8>|
                        is_completion(g, b) && 1 <= g[position as int] < d + 1 implies contains_grid(
                        answers@,
                        g,
                    ) by {
                        if g[position as int] < d {
                            assert(apre.len() <= answers@.len() < n_answer);
                            assert(contains_grid(apre, g));
                            lemma_contains_grid_extend(apre, answers@, g);
                        } else {
                            assert(g[position as int] == d);
                            assert(extends(g, b2)) by {
                                assert forall|q: int|
                                    0 <= q < 81 && b2[q] != 0 implies g[q] == b2[q] by {
                                    if q != position {
                                        assert(b2[q] == b[q]);
                                    }
                                }
                            }
                            assert(is_completion(g, b2));
                        }
                    }
                }
            }
            d = d + 1;
        }
        self.cells.set(position, 0);
        proof {
            assert(self.cells@ =~= b);
            if answers@.len() < n_answer {
                assert forall|g: Seq<u8>| is_completion(g, b) implies contains_grid(
                    answers@,
                    g,
                ) by {
                    assert(g[position as int] != 0);
                    assert(g[position as int] <= 9);
                    assert(1 <= g[position as int] < 10);
                }
            }
        }
    }

    /// Search all answers of the puzzle, up to `n_answer` answers, by
    /// backtracking from the first position. The returned grids are pairwise
    /// distinct, and the board is left unchanged.
    pub fn make_answer_list(&mut self, n_answer: usize) -> (answers: Vec<Vec<u8>>)
        requires
            old(self).wf(),
        ensures
            final(self).wf(),
            final(self).cells@ == old(self).cells@,
            final(self).fixed@ == old(self).fixed@,
            answers@.len() <= n_answer,
            forall|k: int|
                0 <= k < answers@.len() ==> is_completion(
                    #[trigger] answers@[k]@,
                    old(self).cells@,
                ),
            forall|k1: int, k2: int|
                0 <= k1 < k2 < answers@.len() ==> answers@[k1]@ != answers@[k2]@,
            answers@.len() < n_answer ==> forall|g: Seq<u8>|
                is_completion(g, old(self).cells@) ==> contains_grid(answers@, g),
            n_answer >= 1 ==> ((answers@.len() > 0) <==> exists|g: Seq<u8>|
                is_completion(g, old(self).cells@)),
            n_answer >= 1 && grid_finished(old(self).cells@) ==> answers@.len() == 1
                && answers@[0]@ == old(self).cells@,
            n_answer == 2 && answers@.len() == 1 ==> forall|g: Seq<u8>|
                is_completion(g, old(self).cells@) ==> g == answers@[0]@,
    {
        let ghost b = old(self).cells@;
        let mut v: Vec<Vec<u8>> = Vec::new();
        self.solve_core(n_answer, 0, &mut v);
        proof {
            if n_answer >= 1 {
                if v@.len() > 0 {
                    assert(is_completion(v@[0]@, b));
                } else {
                    if exists|g: Seq<u8>| is_completion(g, b) {
                        let g = choose|g: Seq<u8>| is_completion(g, b);
                        assert(contains_grid(v@, g));
                        let k = choose|k: int| 0 <= k < v@.len() && v@[k]@ == g;
                        assert(false);
                    }
                }
                if grid_finished(b) {
                    assert(extends(b, b));
                    assert(is_completion(b, b));
                    assert(v@.len() >= 1);
                    assert forall|k: int| 0 <= k < v@.len() implies #[trigger] v@[k]@ == b by {
                        lemma_full_board_extension_is_equal(b, v@[k]@);
                    }
                    assert(v@.len() == 1) by {
                        if v@.len() >= 2 {
                            assert(v@[0]@ == b && v@[1]@ == b);
                        }
                    }
                }
            }
            if n_answer == 2 && v@.len() == 1 {
                assert forall|g: Seq<u8>| is_completion(g, b) implies g == v@[0]@ by {
                    assert(contains_grid(v@, g));
                    let k = choose|k: int| 0 <= k < v@.len() && v@[k]@ == g;
                    assert(k == 0);
                }
            }
        }
        v
    }

    /// Solve the board in place: fill it with the first answer found, if the
    /// board admits one; leave it untouched otherwise. A board that is
    /// already finished stays exactly as it is.
    pub fn solve(&mut self)
        requires
            old(self).wf(),
        ensures
            final(self).wf(),
            final(self).fixed@ == old(self).fixed@,
            (exists|g: Seq<u8>| is_completion(g, old(self).cells@)) ==> is_completion(
                final(self).cells@,
                old(self).cells@,
            ),
            !(exists|g: Seq<u8>| is_completion(g, old(self).cells@)) ==> final(self).cells@ == old(
                self,
            ).cells@,
            forall|p: int|
                0 <= p < 81 && old(self).cells@[p] != 0 ==> final(self).cells@[p] == old(
                    self,
                ).cells@[p],
            grid_finished(old(self).cells@) ==> final(self).cells@ == old(self).cells@,
    {
        let mut answers = self.make_answer_list(1);
        if answers.len() > 0 {
            let first = answers.remove(0);
            self.cells = first;
        }
    }

    /// Replace the board's contents with a freshly generated puzzle: exactly
    /// one completion, no violation, at most 45 holes (so at least 36
    /// clues), and exactly the nonzero cells fixed. When fewer than 45 holes
    /// were punched, every surviving digit is critical: clearing it would
    /// leave an ambiguous puzzle.
    pub fn generate(&mut self)
        requires
            old(self).wf(),
        ensures
            final(self).wf(),
            exists|g: Seq<u8>| is_completion(g, final(self).cells@),
            forall|g1: Seq<u8>, g2: Seq<u8>|
                is_completion(g1, final(self).cells@) && is_completion(g2, final(self).cells@)
                    ==> g1 == g2,
            forall|p: int| 0 <= p < 81 ==> (final(self).fixed@[p] <==> final(self).cells@[p] != 0),
            !grid_invalid(final(self).cells@),
            num_empty(final(self).cells@, 81) <= 81 * 9 / 16,
            num_empty(final(self).cells@, 81) < 81 * 9 / 16 ==> forall|p: int|
                0 <= p < 81 && final(self).cells@[p] != 0 ==> two_completions(
                    final(self).cells@.update(p, 0),
                ),
    {
        let mut g = crate::generator::Generator::new();
        g.generate(self);
    }
}

} // verus!
