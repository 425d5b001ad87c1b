//! The solver: depth-first backtracking search over a board, with the
//! candidate digits of every empty cell tried in an order shuffled by the
//! solver's own seedable random generator. The shuffle changes which answer
//! is found first, never the set of answers a full search would reach.

use vstd::prelude::*;

use crate::gameboard::Gameboard;
use crate::grid::contains_grid;
use crate::grid::extends;
use crate::grid::grid_finished;
use crate::grid::grid_full;
use crate::grid::is_completion;
use crate::grid::lemma_contains_grid_extend;
use crate::grid::lemma_extends_keeps_invalid;
use crate::grid::lemma_full_board_extension_is_equal;
use crate::grid::lemma_permutation_no_duplicates;
use crate::grid::wf_grid;
use crate::randsrc::rng_from_entropy;
use crate::randsrc::rng_from_seed;
use crate::randsrc::shuffle_vec;

verus! {

/// Sudoku solver holding the generator that shuffles candidate digits.
pub struct Solver {
    /// The source of the candidate-digit shuffles.
    pub rng: rand::rngs::StdRng,
}

impl Solver {
    /// Create a new solver seeded from the operating system.
    pub fn new() -> Solver {
        Solver { rng: rng_from_entropy() }
    }

    /// Create a solver with a fixed seed, for reproducible searches.
    pub fn with_seed(seed: u64) -> Solver {
        Solver { rng: rng_from_seed(seed) }
    }

    /// Search all answers of the board, up to `n_answer` answers, by
    /// backtracking from the first position. The returned grids are pairwise
    /// distinct, and the board is left unchanged.
    pub fn make_answer_list(&mut self, gb: &mut Gameboard, n_answer: usize) -> (answers: Vec<
        Vec<u8>,
    >)
        requires
            old(gb).wf(),
        ensures
            final(gb).wf(),
            final(gb).cells@ == old(gb).cells@,
            final(gb).fixed@ == old(gb).fixed@,
            answers@.len() <= n_answer,
            forall|k: int|
                0 <= k < answers@.len() ==> is_completion(#[trigger] answers@[k]@, old(gb).cells@),
            forall|k1: int, k2: int|
                0 <= k1 < k2 < answers@.len() ==> answers@[k1]@ != answers@[k2]@,
            answers@.len() < n_answer ==> forall|g: Seq<u8>|
                is_completion(g, old(gb).cells@) ==> contains_grid(answers@, g),
            n_answer >= 1 ==> ((answers@.len() > 0) <==> exists|g: Seq<u8>|
                is_completion(g, old(gb).cells@)),
            n_answer >= 1 && grid_finished(old(gb).cells@) ==> answers@.len() == 1 && answers@[0]@
                == old(gb).cells@,
            n_answer == 2 && answers@.len() == 1 ==> forall|g: Seq<u8>|
                is_completion(g, old(gb).cells@) ==> g == answers@[0]@,
    {
        let ghost b = old(gb).cells@;
        let mut v: Vec<Vec<u8>> = Vec::new();
        self.solve_core(gb, n_answer, 0, &mut v);
        proof {
            if n_answer >= 1 {
                if v@.len() > 0 {
                    assert(is_completion(v@[0]@, b));
                } else {
                    if exists|g: Seq<u8>| is_completion(g, b) {
                        let g = choose|g: Seq<u8>| is_completion(g, b);
                        assert(contains_grid(v@, g));
                        let k = choose|k: int| 0 <= k < v@.len() && v@[k]@ == g;
                        assert(false);
                    }
                }
                if grid_finished(b) {
                    assert(extends(b, b));
                    assert(is_completion(b, b));
                    assert(v@.len() >= 1);
                    assert forall|k: int| 0 <= k < v@.len() implies #[trigger] v@[k]@ == b by {
                        lemma_full_board_extension_is_equal(b, v@[k]@);
                    }
                    assert(v@.len() == 1) by {
                        if v@.len() >= 2 {
                            assert(v@[0]@ == b && v@[1]@ == b);
                        }
                    }
                }
            }
            if n_answer == 2 && v@.len() == 1 {
                assert forall|g: Seq<u8>| is_completion(g, b) implies g == v@[0]@ by {
                    assert(contains_grid(v@, g));
                    let k = choose|k: int| 0 <= k < v@.len() && v@[k]@ == g;
                    assert(k == 0);
                }
            }
        }
        v
    }

    /// Core part of the solver: explores the positions from `position` on in
    /// row-major order, trying the nine digits of every empty cell in a
    /// freshly shuffled order, and appends to `answers` a copy of every
    /// complete, rule-consistent grid it reaches, until `answers` holds
    /// `n_answer` grids. The appended grids are pairwise distinct, and the
    /// board itself is left exactly as it was found.
    pub fn solve_core(
        &mut self,
        gb: &mut Gameboard,
        n_answer: usize,
        position: usize,
        answers: &mut Vec<Vec<u8>>,
    )
        requires
            old(gb).wf(),
            position <= 81,
            forall|p: int| 0 <= p < position ==> old(gb).cells@[p] != 0,
        ensures
            final(gb).wf(),
            final(gb).cells@ == old(gb).cells@,
            final(gb).fixed@ == old(gb).fixed@,
            final(answers)@.len() >= old(answers)@.len(),
            forall|k: int| 0 <= k < old(answers)@.len() ==> final(answers)@[k] == old(answers)@[k],
            forall|k: int|
                old(answers)@.len() <= k < final(answers)@.len() ==> is_completion(
                    #[trigger] final(answers)@[k]@,
                    old(gb).cells@,
                ),
            forall|k1: int, k2: int|
                old(answers)@.len() <= k1 < k2 < final(answers)@.len() ==> final(answers)@[k1]@
                    != final(answers)@[k2]@,
            old(answers)@.len() < n_answer ==> final(answers)@.len() <= n_answer,
            old(answers)@.len() >= n_answer ==> final(answers)@.len() == old(answers)@.len(),
            final(answers)@.len() < n_answer ==> forall|g: Seq<u8>|
                is_completion(g, old(gb).cells@) ==> contains_grid(final(answers)@, g),
        decreases 81 - position,
    {
        let ghost b = gb.cells@;
        let ghost len0 = answers@.len();
        if gb.invalid() {
            proof {
                assert forall|g: Seq<u8>| is_completion(g, b) implies contains_grid(
                    answers@,
                    g,
                ) by {
                    lemma_extends_keeps_invalid(b, g);
                }
            }
            return ;
        }
        if position == 81 {
            if answers.len() < n_answer {
                let copy = gb.copy_cells();
                answers.push(copy);
                proof {
                    assert(grid_full(b));
                    assert(extends(b, b));
                    assert(answers@[len0 as int]@ == b);
                    assert forall|g: Seq<u8>| is_completion(g, b) implies contains_grid(
                        answers@,
                        g,
                    ) by {
                        lemma_full_board_extension_is_equal(b, g);
                        assert(answers@[len0 as int]@ == g);
                    }
                }
            }
            return ;
        }
        let cur = gb.get(position / 9, position % 9);
        if cur != 0 {
            proof {
                assert forall|p: int| 0 <= p < position + 1 implies gb.cells@[p] != 0 by {
                    if p < position {
                        assert(b[p] != 0);
                    } else {
                        assert(p == (position / 9) * 9 + (position % 9));
                    }
                }
            }
            self.solve_core(gb, n_answer, position + 1, answers);
            return ;
        }
        let mut digits: Vec<u8> = Vec::new();
        let mut dd: u8 = 1;
        while dd <= 9
            invariant
                1 <= dd <= 10,
                digits@.len() == dd - 1,
                forall|k: int| 0 <= k < dd - 1 ==> #[trigger] digits@[k] as int == k + 1,
            decreases 10 - dd,
        {
            digits.push(dd);
            dd = dd + 1;
        }
        let ghost base = digits@;
        shuffle_vec(&mut self.rng, &mut digits);
        proof {
            base.to_multiset_ensures();
            digits@.to_multiset_ensures();
            assert forall|t: int| 0 <= t < 9 implies 1 <= #[trigger] digits@[t] <= 9 by {
                assert(digits@.contains(digits@[t]));
                assert(base.to_multiset().count(digits@[t]) > 0);
                assert(base.contains(digits@[t]));
                let k = choose|k: int| 0 <= k < base.len() && base[k] == digits@[t];
            }
            assert forall|dv: u8| 1 <= dv <= 9 implies digits@.contains(dv) by {
                assert(base[dv - 1] as int == dv as int);
                assert(base.contains(dv));
                assert(digits@.to_multiset().count(dv) > 0);
            }
            assert(base.no_duplicates()) by {
                assert forall|k1: int, k2: int|
                    0 <= k1 < base.len() && 0 <= k2 < base.len() && k1 != k2 implies base[k1]
                    != base[k2] by {
                    assert(base[k1] as int == k1 + 1 && base[k2] as int == k2 + 1);
                }
            }
            lemma_permutation_no_duplicates(base, digits@);
        }
        let mut t: usize = 0;
        while t < 9 && answers.len() < n_answer
            invariant
                gb.wf(),
                gb.fixed@ == old(gb).fixed@,
                gb.cells@.len() == 81,
                t <= 9,
                position < 81,
                digits@.len() == 9,
                forall|k: int| 0 <= k < 9 ==> 1 <= #[trigger] digits@[k] <= 9,
                forall|dv: u8| 1 <= dv <= 9 ==> digits@.contains(dv),
                digits@.no_duplicates(),
                b == old(gb).cells@,
                b.len() == 81,
                wf_grid(b),
                b[position as int] == 0,
                forall|p: int| 0 <= p < position ==> b[p] != 0,
                forall|q: int| 0 <= q < 81 && q != position ==> gb.cells@[q] == b[q],
                len0 == old(answers)@.len(),
                answers@.len() >= len0,
                forall|k: int| 0 <= k < len0 ==> answers@[k] == old(answers)@[k],
                forall|k: int|
                    len0 <= k < answers@.len() ==> is_completion(#[trigger] answers@[k]@, b),
                forall|k: int|
                    len0 <= k < answers@.len() ==> exists|m: int|
                        0 <= m < t && digits@[m] == (#[trigger] answers@[k]@)[position as int],
                forall|k1: int, k2: int|
                    len0 <= k1 < k2 < answers@.len() ==> answers@[k1]@ != answers@[k2]@,
                len0 < n_answer ==> answers@.len() <= n_answer,
                len0 >= n_answer ==> answers@.len() == len0,
                answers@.len() < n_answer ==> forall|g: Seq<u8>|
                    is_completion(g, b) && (exists|m: int|
                        0 <= m < t && digits@[m] == g[position as int]) ==> contains_grid(
                        answers@,
                        g,
                    ),
            decreases 9 - t,
        {
            let dv = digits[t];
            let row = position / 9;
            let col = position % 9;
            proof {
                assert(row * 9 + col == position);
            }
            gb.cells.set(position, dv);
            let ghost b2 = gb.cells@;
            let ghost apre = answers@;
            proof {
                assert forall|p: int| 0 <= p < position + 1 implies gb.cells@[p] != 0 by {
                    if p < position {
                        assert(gb.cells@[p] == b[p]);
                        assert(b[p] != 0);
                    }
                }
            }
            self.solve_core(gb, n_answer, position + 1, answers);
            proof {
                assert forall|k: int| len0 <= k < answers@.len() implies exists|m: int|
                    0 <= m < t + 1 && digits@[m] == (#[trigger] answers@[k]@)[position as int] by {
                    if k < apre.len() {
                        assert(answers@[k] == apre[k]);
                        let m = choose|m: int|
                            0 <= m < t && digits@[m] == (apre[k]@)[position as int];
                        assert(0 <= m < t + 1 && digits@[m] == (answers@[k]@)[position as int]);
                    } else {
                        assert(is_completion(answers@[k]@, b2));
                        assert(b2[position as int] == dv);
                        assert((answers@[k]@)[position as int] == dv);
                        assert(digits@[t as int] == dv);
                        assert(0 <= t < t + 1 && digits@[t as int] == (
                        answers@[k]@)[position as int]);
                    }
                }
                assert forall|k1: int, k2: int|
                    len0 <= k1 < k2 < answers@.len() implies answers@[k1]@ != answers@[k2]@ by {
                    if k2 < apre.len() {
                        assert(answers@[k1] == apre[k1] && answers@[k2] == apre[k2]);
                    } else if k1 < apre.len() {
                        assert(answers@[k1] == apre[k1]);
                        let m = choose|m: int|
                            0 <= m < t && digits@[m] == (apre[k1]@)[position as int];
                        assert(is_completion(answers@[k2]@, b2));
                        assert(b2[position as int] == dv);
                        assert((answers@[k2]@)[position as int] == dv);
                        assert(digits@[m] != digits@[t as int]);
                        assert((answers@[k1]@)[position as int] != (
                        answers@[k2]@)[position as int]);
                    }
                }
                if answers@.len() < n_answer {
                    assert forall|g: Seq<u8>|
                        is_completion(g, b) && (exists|m: int|
                            0 <= m < t + 1 && digits@[m] == g[position as int]) implies contains_grid(
                        answers@,
                        g,
                    ) by {
                        let m = choose|m: int|
                            0 <= m < t + 1 && digits@[m] == g[position as int];
                        if m < t {
                            assert(apre.len() <= answers@.len() < n_answer);
                            assert(contains_grid(apre, g));
                            lemma_contains_grid_extend(apre, answers@, g);
                        } else {
                            assert(g[position as int] == dv);
                            assert(extends(g, b2)) by {
                                assert forall|q: int|
                                    0 <= q < 81 && b2[q] != 0 implies g[q] == b2[q] by {
                                    if q != position {
                                        assert(b2[q] == b[q]);
                                    }
                                }
                            }
                            assert(is_completion(g, b2));
                        }
                    }
                }
            }
            t = t + 1;
        }
        gb.cells.set(position, 0);
        proof {
            assert(gb.cells@ =~= b);
            if answers@.len() < n_answer {
                assert forall|g: Seq<u8>| is_completion(g, b) implies contains_grid(
                    answers@,
                    g,
                ) by {
                    assert(g[position as int] != 0);
                    assert(g[position as int] <= 9);
                    assert(digits@.contains(g[position as int]));
                    let m = choose|m: int|
                        0 <= m < digits@.len() && digits@[m] == g[position as int];
                    assert(exists|m: int| 0 <= m < 9 && digits@[m] == g[position as int]);
                }
            }
        }
    }
}

} // verus!
