//! The generator: fills a board with one complete solution, then removes
//! digits in a shuffled order as long as the remaining puzzle keeps exactly
//! one solution, and finally marks every surviving digit as a fixed clue.

use vstd::prelude::*;

use crate::gameboard::Gameboard;
use crate::grid::extends;
use crate::grid::grid_full;
use crate::grid::grid_invalid;
use crate::grid::is_completion;
use crate::grid::lemma_blank_board_solvable;
use crate::grid::lemma_completable_not_invalid;
use crate::grid::lemma_completion_transfers;
use crate::grid::lemma_full_board_extension_is_equal;
use crate::grid::lemma_num_empty_all_nonzero;
use crate::grid::lemma_num_empty_clear;
use crate::grid::lemma_permutation_no_duplicates;
use crate::grid::num_empty;
use crate::grid::two_completions;
use crate::randsrc::shuffle_vec;
use crate::solver::Solver;

verus! {

/// A reordering of the listing of all 81 board positions still mentions
/// every position somewhere.
proof fn lemma_position_present(ps: Seq<usize>, base: Seq<usize>, p: int)
    requires
        base.len() == 81,
        forall|k: int| 0 <= k < 81 ==> #[trigger] base[k] == k,
        ps.to_multiset() == base.to_multiset(),
        0 <= p < 81,
    ensures
        exists|k: int| 0 <= k < ps.len() && (#[trigger] ps[k]) as int == p,
{
    base.to_multiset_ensures();
    ps.to_multiset_ensures();
    assert(base[p] == p as usize);
    assert(base.contains(p as usize));
    assert(ps.to_multiset().count(p as usize) > 0);
    assert(ps.contains(p as usize));
    let k = choose|k: int| 0 <= k < ps.len() && ps[k] == p as usize;
    assert(0 <= k < ps.len() && ps[k] as int == p);
}

/// Sudoku puzzle generator: holds the solver that fills the board and tests
/// uniqueness, whose generator also drives the removal-order shuffle.
pub struct Generator {
    /// The solver used during generation.
    pub solver: Solver,
}

impl Generator {
    /// Create a new generator seeded from the operating system.
    pub fn new() -> Generator {
        Generator { solver: Solver::new() }
    }

    /// Create a generator with a fixed seed, for reproducible puzzles.
    pub fn with_seed(seed: u64) -> Generator {
        Generator { solver: Solver::with_seed(seed) }
    }

    /// Create a new puzzle in place of the board's contents: the result has
    /// exactly one completion, carries no violation, holds at most 45 holes
    /// (so at least 36 clues), and fixes exactly its nonzero cells as clues.
    /// When fewer than 45 holes were punched, every surviving digit is
    /// critical: clearing it would leave an ambiguous puzzle.
    pub fn generate(&mut self, gb: &mut Gameboard)
        requires
            old(gb).wf(),
        ensures
            final(gb).wf(),
            exists|g: Seq<u8>| is_completion(g, final(gb).cells@),
            forall|g1: Seq<u8>, g2: Seq<u8>|
                is_completion(g1, final(gb).cells@) && is_completion(g2, final(gb).cells@) ==> g1
                    == g2,
            forall|p: int| 0 <= p < 81 ==> (final(gb).fixed@[p] <==> final(gb).cells@[p] != 0),
            !grid_invalid(final(gb).cells@),
            num_empty(final(gb).cells@, 81) <= 81 * 9 / 16,
            num_empty(final(gb).cells@, 81) < 81 * 9 / 16 ==> forall|p: int|
                0 <= p < 81 && final(gb).cells@[p] != 0 ==> two_completions(
                    final(gb).cells@.update(p, 0),
                ),
    {
        gb.reset();
        let mut n: usize = 0;
        while n < 81
            invariant
                gb.wf(),
                n <= 81,
                forall|p: int| 0 <= p < 81 ==> gb.cells@[p] == 0,
                forall|p: int| 0 <= p < n ==> !gb.fixed@[p],
            decreases 81 - n,
        {
            gb.set_readonly(n / 9, n % 9, false);
            proof {
                assert((n / 9) * 9 + n % 9 == n as int);
            }
            n = n + 1;
        }
        proof {
            lemma_blank_board_solvable(gb.cells@);
        }
        let mut answers = self.solver.make_answer_list(gb, 1);
        let first = answers.remove(0);
        gb.cells = first;
        proof {
            let f = gb.cells@;
            assert(extends(f, f));
            assert(is_completion(f, f));
            assert forall|g1: Seq<u8>, g2: Seq<u8>|
                is_completion(g1, f) && is_completion(g2, f) implies g1 == g2 by {
                lemma_full_board_extension_is_equal(f, g1);
                lemma_full_board_extension_is_equal(f, g2);
            }
        }
        proof {
            assert(grid_full(gb.cells@));
        }
        self.make_hole(gb, 81 * 9 / 16);
        self.set_readonly(gb);
        proof {
            let g = choose|g: Seq<u8>| is_completion(g, gb.cells@);
            lemma_completable_not_invalid(gb.cells@, g);
        }
    }

    /// Delete cells in a shuffled order: each removal is kept only when the
    /// solver still finds exactly one answer, and is reverted otherwise; the
    /// pass stops after `n_max_hole` kept removals or once every position was
    /// attempted. Cells are only ever cleared, never altered; and when the
    /// pass ends short of `n_max_hole` holes, every surviving digit is
    /// critical: clearing it would leave a board with two distinct solutions.
    fn make_hole(&mut self, gb: &mut Gameboard, n_max_hole: usize)
        requires
            old(gb).wf(),
            grid_full(old(gb).cells@),
            forall|p: int| 0 <= p < 81 ==> !old(gb).fixed@[p],
            exists|g: Seq<u8>| is_completion(g, old(gb).cells@),
            forall|g1: Seq<u8>, g2: Seq<u8>|
                is_completion(g1, old(gb).cells@) && is_completion(g2, old(gb).cells@) ==> g1
                    == g2,
        ensures
            final(gb).wf(),
            forall|p: int| 0 <= p < 81 ==> !final(gb).fixed@[p],
            exists|g: Seq<u8>| is_completion(g, final(gb).cells@),
            forall|g1: Seq<u8>, g2: Seq<u8>|
                is_completion(g1, final(gb).cells@) && is_completion(g2, final(gb).cells@) ==> g1
                    == g2,
            extends(old(gb).cells@, final(gb).cells@),
            num_empty(final(gb).cells@, 81) <= n_max_hole,
            num_empty(final(gb).cells@, 81) < n_max_hole ==> forall|p: int|
                0 <= p < 81 && final(gb).cells@[p] != 0 ==> two_completions(
                    final(gb).cells@.update(p, 0),
                ),
    {
        let mut positions: Vec<usize> = Vec::new();
        let mut n: usize = 0;
        while n < 81
            invariant
                n <= 81,
                positions@.len() == n,
                forall|k: int| 0 <= k < n ==> #[trigger] positions@[k] == k,
            decreases 81 - n,
        {
            positions.push(n);
            n = n + 1;
        }
        let ghost base = positions@;
        shuffle_vec(&mut self.solver.rng, &mut positions);
        proof {
            base.to_multiset_ensures();
            positions@.to_multiset_ensures();
            assert forall|k: int| 0 <= k < 81 implies #[trigger] positions@[k] < 81 by {
                assert(positions@.contains(positions@[k]));
                assert(base.to_multiset().count(positions@[k]) > 0);
                assert(base.contains(positions@[k]));
                let m = choose|m: int| 0 <= m < base.len() && base[m] == positions@[k];
            }
            assert(base.no_duplicates()) by {
                assert forall|k1: int, k2: int|
                    0 <= k1 < base.len() && 0 <= k2 < base.len() && k1 != k2 implies base[k1]
                    != base[k2] by {
                    assert(base[k1] == k1 && base[k2] == k2);
                }
            }
            lemma_permutation_no_duplicates(base, positions@);
            lemma_num_empty_all_nonzero(gb.cells@, 81);
        }
        let mut cnt: usize = 0;
        let mut idx: usize = 0;
        while idx < 81 && cnt < n_max_hole
            invariant
                gb.wf(),
                idx <= 81,
                cnt <= n_max_hole,
                positions@.len() == 81,
                positions@.no_duplicates(),
                base.len() == 81,
                forall|k: int| 0 <= k < 81 ==> #[trigger] base[k] == k,
                positions@.to_multiset() == base.to_multiset(),
                forall|k: int| 0 <= k < 81 ==> #[trigger] positions@[k] < 81,
                forall|p: int| 0 <= p < 81 ==> !gb.fixed@[p],
                exists|g: Seq<u8>| is_completion(g, gb.cells@),
                forall|g1: Seq<u8>, g2: Seq<u8>|
                    is_completion(g1, gb.cells@) && is_completion(g2, gb.cells@) ==> g1 == g2,
                extends(old(gb).cells@, gb.cells@),
                cnt == num_empty(gb.cells@, 81),
                forall|k: int| idx <= k < 81 ==> gb.cells@[#[trigger] positions@[k] as int] != 0,
                forall|k: int|
                    0 <= k < idx && gb.cells@[#[trigger] positions@[k] as int] != 0
                        ==> two_completions(gb.cells@.update(positions@[k] as int, 0)),
            decreases 81 - idx,
        {
            let ghost c0 = gb.cells@;
            let pos = positions[idx];
            let original = gb.get(pos / 9, pos % 9);
            gb.set(pos / 9, pos % 9, 0);
            proof {
                assert((pos / 9) * 9 + pos % 9 == pos as int);
                assert(c0[pos as int] != 0);
                assert(extends(c0, gb.cells@));
                let g0 = choose|g: Seq<u8>| is_completion(g, c0);
                lemma_completion_transfers(g0, c0, gb.cells@);
            }
            let answers = self.solver.make_answer_list(gb, 2);
            if answers.len() != 1 {
                proof {
                    assert(answers@.len() == 2);
                    assert(is_completion(answers@[0]@, gb.cells@));
                    assert(is_completion(answers@[1]@, gb.cells@));
                    assert(answers@[0]@ != answers@[1]@);
                    assert(two_completions(c0.update(pos as int, 0)));
                }
                gb.set(pos / 9, pos % 9, original);
                proof {
                    assert(gb.cells@ =~= c0);
                }
            } else {
                cnt = cnt + 1;
                proof {
                    assert(is_completion(answers@[0]@, gb.cells@));
                    lemma_num_empty_clear(c0, pos as int, 81);
                    assert forall|k: int|
                        0 <= k < idx + 1 && gb.cells@[#[trigger] positions@[k] as int] != 0
                            implies two_completions(gb.cells@.update(positions@[k] as int, 0)) by {
                        let pk = positions@[k] as int;
                        assert(pk != pos as int);
                        assert(c0[pk] != 0);
                        assert(two_completions(c0.update(pk, 0)));
                        let (g1, g2) = choose|g1: Seq<u8>, g2: Seq<u8>|
                            is_completion(g1, c0.update(pk, 0)) && is_completion(
                                g2,
                                c0.update(pk, 0),
                            ) && g1 != g2;
                        assert(extends(c0.update(pk, 0), gb.cells@.update(pk, 0))) by {
                            assert forall|q: int|
                                0 <= q < 81 && gb.cells@.update(pk, 0)[q] != 0 implies c0.update(
                                pk,
                                0,
                            )[q] == gb.cells@.update(pk, 0)[q] by {
                                assert(q != pk && q != pos as int);
                            }
                        }
                        lemma_completion_transfers(g1, c0.update(pk, 0), gb.cells@.update(pk, 0));
                        lemma_completion_transfers(g2, c0.update(pk, 0), gb.cells@.update(pk, 0));
                    }
                }
            }
            idx = idx + 1;
        }
        proof {
            if num_empty(gb.cells@, 81) < n_max_hole {
                assert(idx == 81);
                assert forall|p: int|
                    0 <= p < 81 && gb.cells@[p] != 0 implies two_completions(
                    gb.cells@.update(p, 0),
                ) by {
                    lemma_position_present(positions@, base, p);
                    let k = choose|k: int| 0 <= k < positions@.len() && (#[trigger] positions@[k]) as int == p;
                    assert(gb.cells@[positions@[k] as int] != 0);
                }
            }
        }
    }

    /// Mark every cell that still holds a nonzero digit as a fixed clue; the
    /// emptied cells remain freely editable.
    fn set_readonly(&self, gb: &mut Gameboard)
        requires
            old(gb).wf(),
        ensures
            final(gb).wf(),
            final(gb).cells@ == old(gb).cells@,
            forall|p: int| 0 <= p < 81 ==> (final(gb).fixed@[p] <==> final(gb).cells@[p] != 0),
    {
        let mut n: usize = 0;
        while n < 81
            invariant
                gb.wf(),
                n <= 81,
                gb.cells@ == old(gb).cells@,
                forall|p: int| 0 <= p < n ==> (gb.fixed@[p] <==> gb.cells@[p] != 0),
            decreases 81 - n,
        {
            let f = gb.get(n / 9, n % 9) != 0;
            gb.set_readonly(n / 9, n % 9, f);
            proof {
                assert((n / 9) * 9 + n % 9 == n as int);
            }
            n = n + 1;
        }
    }
}

} // verus!
