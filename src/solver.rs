use vstd::prelude::*;

use crate::guillotine::{
    best_choice, lemma_find_best_value, FreeRect, GuillotineBin, ScoreStrategy, ScoredPlacement,
};
use crate::plan::{
    area_lower_bound, best_bin, best_ok, best_view, bins_count, bins_from, bins_ok, demands_ok,
    directions_for, expansion, first_fewest, fresh_state, from_demands, from_pieces,
    greedy_choice, greedy_run, greedy_step, lemma_bins_count_push, lemma_bins_count_update,
    lemma_bins_len_le_count, lemma_bins_placed, lemma_bins_pushed, lemma_copied_bins,
    lemma_first_fewest_range, lemma_fresh_bin_takes, lemma_greedy_choice_empty,
    lemma_search_bins_copied, lemma_sheets_count_push, lemma_sheets_from_bins,
    lemma_strategy_runs, lemma_strategy_runs_len, lemma_swap_multiset, lemma_total_qty_push,
    only, open_area, orientation_at, orientation_count, packs, piece_of, piece_ok, pieces_ok,
    placed_state, placement_of, plan_for, rest_area, same_bin, search, search_bins_of,
    search_existing, search_new, search_plan, sheets_are, sheets_count, sheets_ok,
    sorted_by_area, state_of, states_of, strategy_list, strategy_runs, total_qty, Piece,
    SearchBin,
};
use crate::types::{
    demand_constraint, lemma_u32_product_fits, lemma_used_area_nonneg, placements_ok, used_area,
    CutDirection, Demand, Placement, Rect, RotationConstraint, SheetResult, Solution,
    StockGrain,
};

verus! {

/// The cutting problem: one stock size, a kerf, the cut direction and grain, and demands.
pub struct Solver {
    pub stock: Rect,
    pub kerf: u32,
    pub cut_direction: CutDirection,
    pub stock_grain: StockGrain,
    pub demands: Vec<Demand>,
}

/// The largest number of pieces for which the exhaustive phase runs.
pub const EXACT_SEARCH_LIMIT: usize = 20;

/// A copy of a bin.
fn copy_bin(bin: &GuillotineBin) -> (r: GuillotineBin)
    ensures
        same_bin(r, *bin),
{
    let mut frees: Vec<FreeRect> = Vec::new();
    let mut i: usize = 0;
    while i < bin.free_rects.len()
        invariant
            i <= bin.free_rects.len(),
            frees@ == bin.free_rects@.subrange(0, i as int),
        decreases bin.free_rects.len() - i,
    {
        frees.push(bin.free_rects[i]);
        i = i + 1;
    }
    assert(frees@ =~= bin.free_rects@);
    let placements = clone_placements(&bin.placements);
    let r = GuillotineBin {
        stock: bin.stock,
        kerf: bin.kerf,
        cut_direction: bin.cut_direction,
        free_rects: frees,
        placements,
    };
    r
}

/// A copy of a list of bins.
fn copy_bins(bins: &Vec<GuillotineBin>) -> (r: Vec<GuillotineBin>)
    ensures
        r.len() == bins.len(),
        forall|i: int| 0 <= i < bins.len() ==> same_bin(#[trigger] r@[i], bins@[i]),
{
    let mut r: Vec<GuillotineBin> = Vec::new();
    let mut i: usize = 0;
    while i < bins.len()
        invariant
            i <= bins.len(),
            r.len() == i,
            forall|k: int| 0 <= k < i ==> same_bin(#[trigger] r@[k], bins@[k]),
        decreases bins.len() - i,
    {
        let b = copy_bin(&bins[i]);
        r.push(b);
        i = i + 1;
    }
    r
}

/// `a / b` rounded up.
fn div_ceil(a: u128, b: u128) -> (r: u128)
    requires
        b > 0,
    ensures
        r == (a + b - 1) / b as int,
        r <= a,
{
    let q = a / b;
    proof {
        let ai = a as int;
        let bi = b as int;
        assert(ai == bi * (ai / bi) + ai % bi) by (nonlinear_arith)
            requires
                bi > 0,
        ;
        assert(0 <= ai % bi < bi) by (nonlinear_arith)
            requires
                bi > 0,
        ;
        assert((ai + bi - 1) / bi == if ai % bi != 0 {
            (ai / bi) + 1
        } else {
            (ai / bi)
        }) by (nonlinear_arith)
            requires
                bi > 0,
                ai == bi * (ai / bi) + ai % bi,
                0 <= ai % bi < bi,
        ;
        assert((ai / bi) <= ai) by (nonlinear_arith)
            requires
                bi > 0,
                ai >= 0,
        ;
        if ai % bi != 0 {
            assert((ai / bi) < ai) by (nonlinear_arith)
                requires
                    bi > 0,
                    ai >= 0,
                    ai == bi * (ai / bi) + ai % bi,
                    ai % bi != 0,
            ;
        }
    }
    let r = if a % b != 0 {
        q + 1
    } else {
        q
    };
    r
}

/// Whether a demand is a proper rectangle that fits the stock in an orientation its
/// rotation constraint allows: what `Solver::solve` asks of every demand.
pub fn demand_fits(d: &Demand, stock: Rect, stock_grain: StockGrain, cut_direction: CutDirection) -> (r: bool)
    ensures
        r == piece_ok(piece_of(*d, stock_grain, cut_direction), stock),
{
    if d.rect.length == 0 || d.rect.width == 0 {
        return false;
    }
    let rotation = RotationConstraint::from_grain(stock_grain, d.grain, d.allow_rotate).with_cut_direction(
        cut_direction,
        d.rect,
    );
    match rotation {
        RotationConstraint::NoRotate => d.rect.fits_in(&stock),
        RotationConstraint::ForceRotate => d.rect.rotated().fits_in(&stock),
        RotationConstraint::Free => d.rect.fits_in(&stock) || d.rect.rotated().fits_in(&stock),
    }
}

impl Solver {
    /// The problem of cutting `demands` from stock of the given size, kerf and grain.
    pub fn new(
        stock: Rect,
        kerf: u32,
        cut_direction: CutDirection,
        stock_grain: StockGrain,
        demands: Vec<Demand>,
    ) -> (r: Self)
        ensures
            r.stock == stock,
            r.kerf == kerf,
            r.cut_direction == cut_direction,
            r.stock_grain == stock_grain,
            r.demands@ == demands@,
    {
        Solver { stock, kerf, cut_direction, stock_grain, demands }
    }

    /// A cutting plan for the demands: the greedy plan, or the exhaustive search's when
    /// that one uses fewer sheets.
    pub fn solve(&self) -> (sol: Solution)
        requires
            self.stock.is_proper(),
            demands_ok(self.demands@, self.stock, self.stock_grain, self.cut_direction),
        ensures
            sol.stock == self.stock,
            sheets_ok(sol.sheets@, self.stock),
            sheets_count(sol.sheets@) == total_qty(self.demands@),
            forall|s: int, j: int|
                0 <= s < sol.sheets.len() && 0 <= j < sol.sheets@[s].placements.len()
                    ==> from_demands(
                    #[trigger] sol.sheets@[s].placements@[j],
                    self.demands@,
                    self.stock_grain,
                    self.cut_direction,
                ),
            sol.sheets.len() <= total_qty(self.demands@),
            sol.sheets.len() == 0 <==> total_qty(self.demands@) == 0,
            exists|pieces: Seq<Piece>|
                {
                    &&& pieces.to_multiset() == expansion(
                        self.demands@,
                        self.stock_grain,
                        self.cut_direction,
                    ).to_multiset()
                    &&& sorted_by_area(pieces)
                    &&& sheets_are(
                        sol.sheets@,
                        plan_for(
                            pieces,
                            self.stock,
                            self.kerf,
                            self.cut_direction,
                            EXACT_SEARCH_LIMIT as int,
                        ),
                    )
                },
    {
        let pieces = self.expand_demands();
        proof {
            assert forall|i: int| 0 <= i < pieces.len() implies piece_ok(
                #[trigger] pieces@[i],
                self.stock,
            ) by {
                let d = choose|d: int|
                    0 <= d < self.demands.len() && #[trigger] pieces@[i] == piece_of(
                        self.demands@[d],
                        self.stock_grain,
                        self.cut_direction,
                    );
                assert(piece_ok(piece_of(self.demands@[d], self.stock_grain, self.cut_direction), self.stock));
            }
        }
        let sol = if pieces.len() == 0 {
            let empty = Solution { sheets: Vec::new(), stock: self.stock };
            proof {
                assert(sheets_count(empty.sheets@) == 0);
                assert(packs(empty, self.stock, pieces@));
                assert(pieces@ =~= Seq::<Piece>::empty());
                lemma_greedy_choice_empty(self.stock, self.kerf, self.cut_direction);
                assert(sheets_are(
                    empty.sheets@,
                    plan_for(pieces@, self.stock, self.kerf, self.cut_direction, EXACT_SEARCH_LIMIT as int),
                ));
            }
            empty
        } else {
            let greedy = self.greedy_best(&pieces);
            let bb = self.branch_and_bound(&pieces, greedy.sheets.len());
            if bb.sheets.len() > 0 && bb.sheets.len() < greedy.sheets.len() {
                bb
            } else {
                greedy
            }
        };
        proof {
            assert(sheets_are(
                sol.sheets@,
                plan_for(pieces@, self.stock, self.kerf, self.cut_direction, EXACT_SEARCH_LIMIT as int),
            ));
            assert forall|s: int, j: int|
                0 <= s < sol.sheets.len() && 0 <= j < sol.sheets@[s].placements.len()
                    implies from_demands(
                #[trigger] sol.sheets@[s].placements@[j],
                self.demands@,
                self.stock_grain,
                self.cut_direction,
            ) by {
                let p = sol.sheets@[s].placements@[j];
                assert(from_pieces(p, pieces@));
                let i = choose|i: int| 0 <= i < pieces.len() && #[trigger] placement_of(pieces@[i], p);
                let d = choose|d: int|
                    0 <= d < self.demands.len() && #[trigger] pieces@[i] == piece_of(
                        self.demands@[d],
                        self.stock_grain,
                        self.cut_direction,
                    );
                assert(placement_of(piece_of(self.demands@[d], self.stock_grain, self.cut_direction), p));
            }
        }
        sol
    }

    /// The demands as one piece per copy, largest area first; equal areas keep demand order.
    fn expand_demands(&self) -> (pieces: Vec<Piece>)
        ensures
            pieces@.to_multiset() == expansion(
                self.demands@,
                self.stock_grain,
                self.cut_direction,
            ).to_multiset(),
            pieces.len() == total_qty(self.demands@),
            sorted_by_area(pieces@),
            forall|i: int|
                0 <= i < pieces.len() ==> exists|d: int|
                    0 <= d < self.demands.len() && #[trigger] pieces@[i] == piece_of(
                        self.demands@[d],
                        self.stock_grain,
                        self.cut_direction,
                    ),
    {
        let mut pieces: Vec<Piece> = Vec::new();
        let mut k: usize = 0;
        while k < self.demands.len()
            invariant
                k <= self.demands.len(),
                pieces.len() == total_qty(self.demands@.subrange(0, k as int)),
                pieces@ == expansion(
                    self.demands@.subrange(0, k as int),
                    self.stock_grain,
                    self.cut_direction,
                ),
                forall|i: int|
                    0 <= i < pieces.len() ==> exists|d: int|
                        0 <= d < self.demands.len() && #[trigger] pieces@[i] == piece_of(
                            self.demands@[d],
                            self.stock_grain,
                            self.cut_direction,
                        ),
            decreases self.demands.len() - k,
        {
            let d = self.demands[k];
            let rotation = RotationConstraint::from_grain(
                self.stock_grain,
                d.grain,
                d.allow_rotate,
            ).with_cut_direction(self.cut_direction, d.rect);
            let ghost start = pieces.len();
            let ghost done = pieces@;
            let ghost copy = piece_of(d, self.stock_grain, self.cut_direction);
            let mut c: u32 = 0;
            assert(pieces@ =~= done + Seq::new(c as nat, |_i: int| copy));
            while c < d.qty
                invariant
                    c <= d.qty,
                    d == self.demands@[k as int],
                    k < self.demands.len(),
                    rotation == demand_constraint(d, self.stock_grain, self.cut_direction),
                    pieces.len() == start + c,
                    copy == piece_of(d, self.stock_grain, self.cut_direction),
                    pieces@ == done + Seq::new(c as nat, |_i: int| copy),
                    forall|i: int|
                        0 <= i < pieces.len() ==> exists|e: int|
                            0 <= e < self.demands.len() && #[trigger] pieces@[i] == piece_of(
                                self.demands@[e],
                                self.stock_grain,
                                self.cut_direction,
                            ),
                decreases d.qty - c,
            {
                let ghost before = pieces@;
                pieces.push((d.rect, rotation));
                proof {
                    assert(pieces@ =~= done + Seq::new((c + 1) as nat, |_i: int| copy)) by {
                        assert(before == done + Seq::new(c as nat, |_i: int| copy));
                    }
                    let i = pieces.len() - 1;
                    assert(pieces@[i] == piece_of(
                        self.demands@[k as int],
                        self.stock_grain,
                        self.cut_direction,
                    ));
                }
                c = c + 1;
            }
            proof {
                let ds = self.demands@;
                assert(ds.subrange(0, k + 1) =~= ds.subrange(0, k as int).push(d));
                lemma_total_qty_push(ds.subrange(0, k as int), d);
                assert(ds.subrange(0, k + 1).drop_last() =~= ds.subrange(0, k as int));
                assert(ds.subrange(0, k + 1).last() == d);
            }
            k = k + 1;
        }
        proof {
            assert(self.demands@.subrange(0, k as int) =~= self.demands@);
        }
        let ghost unsorted = pieces@;
        sort_by_area(&mut pieces);
        pieces
    }

    /// One pass of best-fit-decreasing: each piece goes to the open bin that scores it
    /// best, or to a new bin cut in `direction` when none takes it.
    fn greedy_solve(&self, pieces: &Vec<Piece>, strategy: ScoreStrategy, direction: CutDirection) -> (sol:
        Solution)
        requires
            self.stock.is_proper(),
            pieces_ok(pieces@, self.stock),
        ensures
            packs(sol, self.stock, pieces@),
            sheets_are(sol.sheets@, greedy_run(pieces@, self.stock, self.kerf, strategy, direction)),
    {
        let mut bins: Vec<GuillotineBin> = Vec::new();
        let mut k: usize = 0;
        proof {
            assert(states_of(bins@) =~= greedy_run(
                pieces@.subrange(0, 0),
                self.stock,
                self.kerf,
                strategy,
                direction,
            ));
        }
        while k < pieces.len()
            invariant
                self.stock.is_proper(),
                pieces_ok(pieces@, self.stock),
                k <= pieces.len(),
                bins_ok(bins@, self.stock, self.kerf),
                bins_from(bins@, pieces@),
                bins_count(bins@) == k,
                bins.len() <= k,
                k > 0 ==> bins.len() > 0,
                forall|b: int| 0 <= b < bins.len() ==> (#[trigger] bins@[b]).cut_direction == direction,
                states_of(bins@) == greedy_run(
                    pieces@.subrange(0, k as int),
                    self.stock,
                    self.kerf,
                    strategy,
                    direction,
                ),
            decreases pieces.len() - k,
        {
            let (piece, rotation) = pieces[k];
            let ghost states = states_of(bins@);
            assert(piece_ok(pieces@[k as int], self.stock));
            let mut best: Option<(usize, ScoredPlacement)> = None;
            let mut bi: usize = 0;
            while bi < bins.len()
                invariant
                    bi <= bins.len(),
                    states == states_of(bins@),
                    match best {
                        None => best_bin(states, bi as int, piece, rotation, strategy).is_none(),
                        Some((b, s)) => b < bins.len() && best_choice(
                            bins@[b as int].free_rects@,
                            piece,
                            rotation,
                            strategy,
                            Some(s),
                        ) && best_bin(states, bi as int, piece, rotation, strategy) == Some(
                            (b as int, s),
                        ),
                    },
                decreases bins.len() - bi,
            {
                let found = bins[bi].find_best(piece, rotation, strategy);
                proof {
                    lemma_find_best_value(bins@[bi as int].free_rects@, piece, rotation, strategy, found);
                    assert(states[bi as int] == state_of(bins@[bi as int]));
                }
                if let Some(scored) = found {
                    let better = match best {
                        None => true,
                        Some((_, b)) => GuillotineBin::score_less(scored.score, b.score),
                    };
                    if better {
                        best = Some((bi, scored));
                    }
                }
                bi = bi + 1;
            }
            let ghost old_bins = bins@;
            match best {
                Some((b, scored)) => {
                    let ghost old_bin = bins@[b as int];
                    assert(old_bin.wf());
                    let mut bin = bins.remove(b);
                    let p = bin.place(scored, piece);
                    bins.insert(b, bin);
                    proof {
                        assert(bins@ =~= old_bins.update(b as int, bin));
                        lemma_bins_count_update(old_bins, b as int, bin);
                        assert(placement_of(pieces@[k as int], p));
                        lemma_bins_placed(old_bins, pieces@, b as int, bin, p, k as int);
                        assert(states[b as int] == state_of(old_bin));
                        assert(state_of(bin) == placed_state(states[b as int], scored, piece, self.kerf, direction));
                        assert(states_of(bins@) =~= greedy_step(
                            states,
                            pieces@[k as int],
                            self.stock,
                            self.kerf,
                            strategy,
                            direction,
                        ));
                    }
                },
                None => {
                    let mut bin = GuillotineBin::new(self.stock, self.kerf, direction);
                    let found = bin.find_best(piece, rotation, strategy);
                    proof {
                        lemma_fresh_bin_takes(bin, (piece, rotation), strategy, found);
                        lemma_find_best_value(bin.free_rects@, piece, rotation, strategy, found);
                        assert(bin.placements@ =~= Seq::<Placement>::empty());
                    }
                    let scored = found.unwrap();
                    let p = bin.place(scored, piece);
                    bins.push(bin);
                    proof {
                        assert(placement_of(pieces@[k as int], p));
                        assert(bin.placements@ =~= seq![p]);
                        lemma_bins_count_push(old_bins, bin);
                        lemma_bins_pushed(old_bins, pieces@, bin, p, k as int);
                        assert(state_of(bin) == placed_state(
                            fresh_state(self.stock),
                            scored,
                            piece,
                            self.kerf,
                            direction,
                        ));
                        assert(states_of(bins@) =~= greedy_step(
                            states,
                            pieces@[k as int],
                            self.stock,
                            self.kerf,
                            strategy,
                            direction,
                        ));
                    }
                },
            }
            proof {
                let pre = pieces@.subrange(0, k + 1);
                assert(pre.drop_last() =~= pieces@.subrange(0, k as int));
                assert(pre.last() == pieces@[k as int]);
            }
            k = k + 1;
        }
        let sol = self.bins_to_solution(bins);
        proof {
            lemma_sheets_from_bins(sol.sheets@, bins@, pieces@);
            assert(pieces@.subrange(0, k as int) =~= pieces@);
            assert forall|s: int| 0 <= s < sol.sheets.len() implies (#[trigger] sol.sheets@[s]).placements@
                == states_of(bins@)[s].1 by {
                assert(sol.sheets@[s].placements@ == bins@[s].placements@);
            }
        }
        sol
    }

    /// The split directions a new bin may use.
    fn bb_directions(&self) -> (r: Vec<CutDirection>)
        ensures
            r@ == directions_for(self.cut_direction),
    {
        match self.cut_direction {
            CutDirection::Auto => vec![CutDirection::AlongLength, CutDirection::AlongWidth],
            dir => vec![dir],
        }
    }

    /// The greedy pass under every scoring strategy and split direction; the first one with
    /// fewest sheets wins.
    fn greedy_best(&self, pieces: &Vec<Piece>) -> (sol: Solution)
        requires
            self.stock.is_proper(),
            pieces_ok(pieces@, self.stock),
        ensures
            packs(sol, self.stock, pieces@),
            sheets_are(sol.sheets@, greedy_choice(pieces@, self.stock, self.kerf, self.cut_direction)),
    {
        let strategies = vec![
            ScoreStrategy::BestAreaFit,
            ScoreStrategy::BestShortSideFit,
            ScoreStrategy::BestLongSideFit,
        ];
        let directions = self.bb_directions();
        let ghost runs = strategy_runs(pieces@, self.stock, self.kerf, directions@);
        proof {
            assert(strategies@ =~= strategy_list());
            lemma_strategy_runs_len(pieces@, self.stock, self.kerf, directions@);
        }
        let mut best: Option<Solution> = None;
        let mut best_len: usize = 0;
        let mut di: usize = 0;
        while di < directions.len()
            invariant
                self.stock.is_proper(),
                pieces_ok(pieces@, self.stock),
                strategies@ == strategy_list(),
                directions@ == directions_for(self.cut_direction),
                runs == strategy_runs(pieces@, self.stock, self.kerf, directions@),
                runs.len() == 3 * directions.len(),
                directions.len() >= 1,
                di <= directions.len(),
                di > 0 ==> best.is_some(),
                match best {
                    None => true,
                    Some(b) => packs(b, self.stock, pieces@) && b.sheets.len() == best_len
                        && sheets_are(b.sheets@, runs[first_fewest(runs, 3 * di as int)]),
                },
            decreases directions.len() - di,
        {
            let dir = directions[di];
            let mut si: usize = 0;
            while si < strategies.len()
                invariant
                    self.stock.is_proper(),
                    pieces_ok(pieces@, self.stock),
                    strategies@ == strategy_list(),
                    runs == strategy_runs(pieces@, self.stock, self.kerf, directions@),
                    runs.len() == 3 * directions.len(),
                    di < directions.len(),
                    dir == directions@[di as int],
                    si <= strategies.len(),
                    (di > 0 || si > 0) ==> best.is_some(),
                    match best {
                        None => true,
                        Some(b) => packs(b, self.stock, pieces@) && b.sheets.len() == best_len
                            && sheets_are(b.sheets@, runs[first_fewest(runs, 3 * di + si)]),
                    },
                decreases strategies.len() - si,
            {
                let sol = self.greedy_solve(pieces, strategies[si], dir);
                proof {
                    lemma_strategy_runs(pieces@, self.stock, self.kerf, directions@, di as int, si as int);
                    let t = 3 * di + si;
                    assert(runs[t] == greedy_run(pieces@, self.stock, self.kerf, strategies@[si as int], dir));
                    if t > 0 {
                        lemma_first_fewest_range(runs, t);
                    }
                }
                if best.is_none() || sol.sheets.len() < best_len {
                    best_len = sol.sheets.len();
                    best = Some(sol);
                }
                si = si + 1;
            }
            di = di + 1;
        }
        best.unwrap()
    }

    /// Exhaustive search for a packing with fewer sheets than `upper_bound`; no sheets when
    /// it finds none or there are too many pieces to search.
    fn branch_and_bound(&self, pieces: &Vec<Piece>, upper_bound: usize) -> (sol: Solution)
        requires
            self.stock.is_proper(),
            pieces_ok(pieces@, self.stock),
        ensures
            sol.stock == self.stock,
            sol.sheets.len() == 0 || (packs(sol, self.stock, pieces@) && sol.sheets.len()
                < upper_bound),
            match search_plan(
                pieces@,
                self.stock,
                self.kerf,
                self.cut_direction,
                upper_bound as int,
                EXACT_SEARCH_LIMIT as int,
            ) {
                None => sol.sheets.len() == 0,
                Some(b) => sheets_are(sol.sheets@, b),
            },
    {
        if pieces.len() > EXACT_SEARCH_LIMIT {
            return Solution { sheets: Vec::new(), stock: self.stock };
        }
        let mut best_bins: Option<Vec<GuillotineBin>> = None;
        let mut best_count: usize = upper_bound;
        let bins: Vec<GuillotineBin> = Vec::new();
        proof {
            assert(bins_count(bins@) == 0);
            assert(search_bins_of(bins@) =~= Seq::<SearchBin>::empty());
        }
        self.bb_recurse(pieces, 0, bins, &mut best_bins, &mut best_count);
        match best_bins {
            Some(bins) => {
                proof {
                    lemma_bins_len_le_count(bins@, self.stock, self.kerf);
                }
                let sol = self.bins_to_solution(bins);
                proof {
                    lemma_sheets_from_bins(sol.sheets@, bins@, pieces@);
                    let b = search_bins_of(bins@).map_values(|x: SearchBin| x.0);
                    assert forall|k: int| 0 <= k < sol.sheets.len() implies (#[trigger] sol.sheets@[k]).placements@
                        == b[k].1 by {
                        assert(sol.sheets@[k].placements@ == bins@[k].placements@);
                    }
                }
                sol
            },
            None => Solution { sheets: Vec::new(), stock: self.stock },
        }
    }

    /// Places the pieces from `idx` on in every way the search allows, recording each
    /// complete packing with fewer bins than the best so far.
    fn bb_recurse(
        &self,
        pieces: &Vec<Piece>,
        idx: usize,
        bins: Vec<GuillotineBin>,
        best_bins: &mut Option<Vec<GuillotineBin>>,
        best_count: &mut usize,
    )
        requires
            self.stock.is_proper(),
            pieces_ok(pieces@, self.stock),
            pieces.len() <= EXACT_SEARCH_LIMIT,
            idx <= pieces.len(),
            bins_ok(bins@, self.stock, self.kerf),
            bins_from(bins@, pieces@),
            bins_count(bins@) == idx,
            best_ok(*old(best_bins), *old(best_count), pieces@, self.stock, self.kerf),
        ensures
            best_ok(*final(best_bins), *final(best_count), pieces@, self.stock, self.kerf),
            *final(best_count) <= *old(best_count),
            final(best_bins).is_some() ==> old(best_bins).is_some() || *final(best_count)
                < *old(best_count),
            best_view(*final(best_bins), *final(best_count)) == search(
                pieces@,
                idx as int,
                search_bins_of(bins@),
                best_view(*old(best_bins), *old(best_count)),
                self.stock,
                self.kerf,
                self.cut_direction,
            ),
        decreases pieces.len() - idx,
    {
        let ghost sb = search_bins_of(bins@);
        let ghost start = best_view(*best_bins, *best_count);
        if idx == pieces.len() {
            if bins.len() < *best_count {
                *best_count = bins.len();
                *best_bins = Some(bins);
            }
            return;
        }
        if bins.len() >= *best_count {
            return;
        }
        let (piece, rotation) = pieces[idx];
        assert(piece_ok(pieces@[idx as int], self.stock));
        proof {
            lemma_bins_len_le_count(bins@, self.stock, self.kerf);
        }
        if self.bound_prunes(pieces, idx, &bins, *best_count) {
            return;
        }
        let ghost start_count = *best_count;
        let ghost start_best = *best_bins;
        let ghost after = search_existing(
            pieces@,
            idx as int,
            sb,
            0,
            0,
            start,
            self.stock,
            self.kerf,
            self.cut_direction,
        );
        let mut bi: usize = 0;
        while bi < bins.len()
            invariant
                self.stock.is_proper(),
                pieces_ok(pieces@, self.stock),
                pieces.len() <= EXACT_SEARCH_LIMIT,
                idx < pieces.len(),
                (piece, rotation) == pieces@[idx as int],
                bins_ok(bins@, self.stock, self.kerf),
                bins_from(bins@, pieces@),
                bins_count(bins@) == idx,
                sb == search_bins_of(bins@),
                bi <= bins.len(),
                best_ok(*best_bins, *best_count, pieces@, self.stock, self.kerf),
                *best_count <= start_count,
                best_bins.is_some() ==> start_best.is_some() || *best_count < start_count,
                search_existing(
                    pieces@,
                    idx as int,
                    sb,
                    bi as int,
                    0,
                    best_view(*best_bins, *best_count),
                    self.stock,
                    self.kerf,
                    self.cut_direction,
                ) == after,
            decreases bins.len() - bi,
        {
            let both = rotation == RotationConstraint::Free && piece.length != piece.width;
            let mut oi: usize = 0;
            let n_orient: usize = if both {
                2
            } else {
                1
            };
            while oi < n_orient
                invariant
                    self.stock.is_proper(),
                    pieces_ok(pieces@, self.stock),
                    pieces.len() <= EXACT_SEARCH_LIMIT,
                    idx < pieces.len(),
                    (piece, rotation) == pieces@[idx as int],
                    bins_ok(bins@, self.stock, self.kerf),
                    bins_from(bins@, pieces@),
                    bins_count(bins@) == idx,
                    sb == search_bins_of(bins@),
                    bi < bins.len(),
                    both == (rotation == RotationConstraint::Free && piece.length != piece.width),
                    n_orient == if both {
                        2usize
                    } else {
                        1usize
                    },
                    n_orient == orientation_count(pieces@[idx as int]),
                    oi <= n_orient,
                    best_ok(*best_bins, *best_count, pieces@, self.stock, self.kerf),
                    *best_count <= start_count,
                    best_bins.is_some() ==> start_best.is_some() || *best_count < start_count,
                    search_existing(
                        pieces@,
                        idx as int,
                        sb,
                        bi as int,
                        oi as int,
                        best_view(*best_bins, *best_count),
                        self.stock,
                        self.kerf,
                        self.cut_direction,
                    ) == after,
                decreases n_orient - oi,
            {
                let rotated = if both {
                    oi == 1
                } else {
                    rotation == RotationConstraint::ForceRotate
                };
                let only_one = if rotated {
                    RotationConstraint::ForceRotate
                } else {
                    RotationConstraint::NoRotate
                };
                let ghost before = best_view(*best_bins, *best_count);
                let found = bins[bi].find_best(piece, only_one, ScoreStrategy::BestAreaFit);
                proof {
                    lemma_find_best_value(
                        bins@[bi as int].free_rects@,
                        piece,
                        only_one,
                        ScoreStrategy::BestAreaFit,
                        found,
                    );
                    assert(rotated == orientation_at(pieces@[idx as int], oi as int));
                    assert(only_one == only(rotated));
                    assert(sb[bi as int] == (state_of(bins@[bi as int]), bins@[bi as int].cut_direction));
                }
                if let Some(scored) = found {
                    let mut new_bins = copy_bins(&bins);
                    let ghost c = new_bins@;
                    proof {
                        lemma_copied_bins(c, bins@, pieces@, self.stock, self.kerf);
                        assert(same_bin(c[bi as int], bins@[bi as int]));
                    }
                    let mut bin = new_bins.remove(bi);
                    let p = bin.place(scored, piece);
                    new_bins.insert(bi, bin);
                    proof {
                        assert(new_bins@ =~= c.update(bi as int, bin));
                        lemma_bins_count_update(c, bi as int, bin);
                        assert(placement_of(pieces@[idx as int], p));
                        lemma_bins_placed(c, pieces@, bi as int, bin, p, idx as int);
                        lemma_search_bins_copied(c, bins@, bi as int, bin);
                        assert(state_of(bin) == placed_state(
                            sb[bi as int].0,
                            scored,
                            piece,
                            self.kerf,
                            sb[bi as int].1,
                        ));
                    }
                    self.bb_recurse(pieces, idx + 1, new_bins, best_bins, best_count);
                }
                proof {
                    assert(search_existing(
                        pieces@,
                        idx as int,
                        sb,
                        bi as int,
                        oi as int,
                        before,
                        self.stock,
                        self.kerf,
                        self.cut_direction,
                    ) == search_existing(
                        pieces@,
                        idx as int,
                        sb,
                        bi as int,
                        oi + 1,
                        best_view(*best_bins, *best_count),
                        self.stock,
                        self.kerf,
                        self.cut_direction,
                    ));
                }
                oi = oi + 1;
            }
            proof {
                assert(search_existing(
                    pieces@,
                    idx as int,
                    sb,
                    bi as int,
                    oi as int,
                    best_view(*best_bins, *best_count),
                    self.stock,
                    self.kerf,
                    self.cut_direction,
                ) == search_existing(
                    pieces@,
                    idx as int,
                    sb,
                    bi + 1,
                    0,
                    best_view(*best_bins, *best_count),
                    self.stock,
                    self.kerf,
                    self.cut_direction,
                ));
            }
            bi = bi + 1;
        }
        proof {
            assert(after == best_view(*best_bins, *best_count));
        }
        if bins.len() + 1 < *best_count {
            let dirs = self.bb_directions();
            let ghost last = search_new(
                pieces@,
                idx as int,
                sb,
                0,
                after,
                self.stock,
                self.kerf,
                self.cut_direction,
            );
            let mut di: usize = 0;
            while di < dirs.len()
                invariant
                    self.stock.is_proper(),
                    pieces_ok(pieces@, self.stock),
                    pieces.len() <= EXACT_SEARCH_LIMIT,
                    idx < pieces.len(),
                    (piece, rotation) == pieces@[idx as int],
                    bins_ok(bins@, self.stock, self.kerf),
                    bins_from(bins@, pieces@),
                    bins_count(bins@) == idx,
                    sb == search_bins_of(bins@),
                    dirs@ == directions_for(self.cut_direction),
                    di <= dirs.len(),
                    best_ok(*best_bins, *best_count, pieces@, self.stock, self.kerf),
                    *best_count <= start_count,
                    best_bins.is_some() ==> start_best.is_some() || *best_count < start_count,
                    search_new(
                        pieces@,
                        idx as int,
                        sb,
                        di as int,
                        best_view(*best_bins, *best_count),
                        self.stock,
                        self.kerf,
                        self.cut_direction,
                    ) == last,
                decreases dirs.len() - di,
            {
                let ghost before = best_view(*best_bins, *best_count);
                let mut new_bins = copy_bins(&bins);
                let mut new_bin = GuillotineBin::new(self.stock, self.kerf, dirs[di]);
                let found = new_bin.find_best(piece, rotation, ScoreStrategy::BestAreaFit);
                proof {
                    lemma_find_best_value(
                        new_bin.free_rects@,
                        piece,
                        rotation,
                        ScoreStrategy::BestAreaFit,
                        found,
                    );
                    assert(new_bin.placements@ =~= Seq::<Placement>::empty());
                }
                if let Some(scored) = found {
                    let p = new_bin.place(scored, piece);
                    let ghost c = new_bins@;
                    proof {
                        lemma_copied_bins(c, bins@, pieces@, self.stock, self.kerf);
                        lemma_search_bins_copied(c, bins@, 0, new_bin);
                    }
                    new_bins.push(new_bin);
                    proof {
                        assert(new_bin.placements@ =~= seq![p]);
                        assert(placement_of(pieces@[idx as int], p));
                        lemma_bins_count_push(c, new_bin);
                        lemma_bins_pushed(c, pieces@, new_bin, p, idx as int);
                        assert(state_of(new_bin) == placed_state(
                            fresh_state(self.stock),
                            scored,
                            piece,
                            self.kerf,
                            dirs@[di as int],
                        ));
                    }
                    self.bb_recurse(pieces, idx + 1, new_bins, best_bins, best_count);
                }
                proof {
                    assert(search_new(
                        pieces@,
                        idx as int,
                        sb,
                        di as int,
                        before,
                        self.stock,
                        self.kerf,
                        self.cut_direction,
                    ) == search_new(
                        pieces@,
                        idx as int,
                        sb,
                        di + 1,
                        best_view(*best_bins, *best_count),
                        self.stock,
                        self.kerf,
                        self.cut_direction,
                    ));
                }
                di = di + 1;
            }
        }
    }

    /// Whether the area lower bound rules out beating `best_count` from this state: the
    /// remaining pieces need at least the sheets their area fills beyond the free area of
    /// the open bins, and at least as many as their area alone fills.
    fn bound_prunes(&self, pieces: &Vec<Piece>, idx: usize, bins: &Vec<GuillotineBin>, best_count: usize) -> (r: bool)
        requires
            self.stock.is_proper(),
            pieces.len() <= EXACT_SEARCH_LIMIT,
            idx <= pieces.len(),
            bins.len() <= idx,
            bins_ok(bins@, self.stock, self.kerf),
        ensures
            r == (area_lower_bound(pieces@, idx as int, search_bins_of(bins@), self.stock.spec_area())
                >= best_count),
    {
        let mut remaining_area: u128 = 0;
        let mut i: usize = idx;
        while i < pieces.len()
            invariant
                idx <= i <= pieces.len(),
                pieces.len() <= EXACT_SEARCH_LIMIT,
                remaining_area <= i * (u64::MAX as int),
                remaining_area + rest_area(pieces@, i as int) == rest_area(pieces@, idx as int),
            decreases pieces.len() - i,
        {
            let a = pieces[i].0.area();
            remaining_area = remaining_area + a as u128;
            i = i + 1;
        }
        let stock_area = self.stock.area() as u128;
        proof {
            assert(stock_area > 0) by (nonlinear_arith)
                requires
                    stock_area == self.stock.length * self.stock.width,
                    self.stock.length > 0,
                    self.stock.width > 0,
            ;
        }
        let min_extra_bins: u128 = if remaining_area > 0 {
            div_ceil(remaining_area, stock_area)
        } else {
            0
        };
        let mut open_free_area: u128 = 0;
        let mut b: usize = 0;
        while b < bins.len()
            invariant
                b <= bins.len(),
                bins.len() <= EXACT_SEARCH_LIMIT,
                bins_ok(bins@, self.stock, self.kerf),
                open_free_area <= b * (u64::MAX as int),
                open_free_area == open_area(search_bins_of(bins@).subrange(0, b as int)),
            decreases bins.len() - b,
        {
            proof {
                let sb = search_bins_of(bins@);
                assert(sb.subrange(0, b + 1).drop_last() =~= sb.subrange(0, b as int));
                assert(sb[b as int].0.0 == bins@[b as int].free_rects@);
            }
            let a = free_area_of(&bins[b]);
            open_free_area = open_free_area + a as u128;
            b = b + 1;
        }
        proof {
            assert(search_bins_of(bins@).subrange(0, b as int) =~= search_bins_of(bins@));
            assert(rest_area(pieces@, i as int) == 0);
        }
        let nb = bins.len() as u128;
        let needed: u128 = if remaining_area > open_free_area {
            nb + div_ceil(remaining_area - open_free_area, stock_area)
        } else {
            nb
        };
        let floor: u128 = nb + if min_extra_bins > nb {
            min_extra_bins - nb
        } else {
            0
        };
        let lower_bound = if needed >= floor {
            needed
        } else {
            floor
        };
        lower_bound >= best_count as u128
    }

    /// The bins as sheets of a solution.
    fn bins_to_solution(&self, bins: Vec<GuillotineBin>) -> (sol: Solution)
        requires
            bins_ok(bins@, self.stock, self.kerf),
        ensures
            sol.stock == self.stock,
            sol.sheets.len() == bins.len(),
            forall|s: int|
                0 <= s < bins.len() ==> (#[trigger] sol.sheets@[s]).placements@
                    == bins@[s].placements@,
            sheets_ok(sol.sheets@, self.stock),
            sheets_count(sol.sheets@) == bins_count(bins@),
    {
        let stock_area = self.stock.area();
        let mut sheets: Vec<SheetResult> = Vec::new();
        let mut i: usize = 0;
        while i < bins.len()
            invariant
                bins_ok(bins@, self.stock, self.kerf),
                stock_area == self.stock.spec_area(),
                i <= bins.len(),
                sheets.len() == i,
                forall|s: int|
                    0 <= s < i ==> (#[trigger] sheets@[s]).placements@ == bins@[s].placements@,
                sheets_ok(sheets@, self.stock),
                sheets_count(sheets@) == bins_count(bins@.subrange(0, i as int)),
            decreases bins.len() - i,
        {
            let bin = &bins[i];
            let used = bin.used_area();
            proof {
                lemma_used_area_nonneg(bin.placements@);
                crate::guillotine::lemma_free_area_nonneg(bin.free_rects@);
            }
            let placements = clone_placements(&bin.placements);
            let sheet = SheetResult { placements, waste_area: stock_area - used };
            let ghost before = sheets@;
            sheets.push(sheet);
            proof {
                assert(sheets@[i as int] == sheet);
                assert forall|s: int| 0 <= s < sheets.len() implies {
                    &&& placements_ok((#[trigger] sheets@[s]).placements@, self.stock)
                    &&& sheets@[s].placements.len() > 0
                    &&& sheets@[s].waste_area == self.stock.spec_area() - used_area(
                        sheets@[s].placements@,
                    )
                } by {
                    if s < i {
                        assert(sheets@[s] == before[s]);
                    }
                }
                lemma_sheets_count_push(before, sheet);
                assert(bins@.subrange(0, i + 1).drop_last() =~= bins@.subrange(0, i as int));
            }
            i = i + 1;
        }
        proof {
            assert(bins@.subrange(0, i as int) =~= bins@);
        }
        Solution { sheets, stock: self.stock }
    }
}

/// The total area of a bin's free rectangles.
fn free_area_of(bin: &GuillotineBin) -> (r: u64)
    requires
        bin.wf(),
    ensures
        r == crate::guillotine::free_area(bin.free_rects@),
{
    let fs = &bin.free_rects;
    let mut sum: u64 = 0;
    let mut i: usize = 0;
    proof {
        lemma_used_area_nonneg(bin.placements@);
        lemma_u32_product_fits(bin.stock.length, bin.stock.width);
    }
    while i < fs.len()
        invariant
            bin.wf(),
            fs == &bin.free_rects,
            i <= fs.len(),
            sum == crate::guillotine::free_area(fs@.subrange(0, i as int)),
            crate::guillotine::free_area(fs@) <= bin.stock.spec_area(),
            bin.stock.spec_area() < u64::MAX,
        decreases fs.len() - i,
    {
        proof {
            assert(fs@.subrange(0, i + 1).drop_last() =~= fs@.subrange(0, i as int));
            crate::layout::lemma_free_area_prefix(fs@, i + 1);
        }
        sum = sum + fs[i].rect.area();
        i = i + 1;
    }
    proof {
        assert(fs@.subrange(0, i as int) =~= fs@);
    }
    sum
}

/// A copy of a list of placements.
fn clone_placements(ps: &Vec<Placement>) -> (r: Vec<Placement>)
    ensures
        r@ == ps@,
{
    let mut r: Vec<Placement> = Vec::new();
    let mut i: usize = 0;
    while i < ps.len()
        invariant
            i <= ps.len(),
            r@ == ps@.subrange(0, i as int),
        decreases ps.len() - i,
    {
        r.push(ps[i]);
        i = i + 1;
    }
    r
}

/// Sorts pieces by non-increasing area, keeping the order of pieces of equal area.
fn sort_by_area(v: &mut Vec<Piece>)
    ensures
        final(v).len() == old(v).len(),
        final(v)@.to_multiset() == old(v)@.to_multiset(),
        sorted_by_area(final(v)@),
        forall|i: int| 0 <= i < final(v).len() ==> old(v)@.contains(#[trigger] final(v)@[i]),
{
    let n = v.len();
    if n == 0 {
        return;
    }
    let mut i: usize = 1;
    proof {
        assert forall|a: int| 0 <= a < n implies old(v)@.contains(#[trigger] v@[a]) by {
            assert(old(v)@[a] == v@[a]);
        }
    }
    while i < n
        invariant
            1 <= i <= n,
            v.len() == n,
            n == old(v).len(),
            v@.to_multiset() == old(v)@.to_multiset(),
            sorted_by_area(v@.subrange(0, i as int)),
            forall|a: int| 0 <= a < n ==> old(v)@.contains(#[trigger] v@[a]),
        decreases n - i,
    {
        let mut j: usize = i;
        proof {
            assert forall|a: int, b: int|
                0 <= a < b <= i && a != j && b != j implies #[trigger] v@[a].0.spec_area()
                >= #[trigger] v@[b].0.spec_area() by {
                assert(v@.subrange(0, i as int)[a] == v@[a]);
                assert(v@.subrange(0, i as int)[b] == v@[b]);
            }
        }
        while j > 0 && v[j - 1].0.area() < v[j].0.area()
            invariant
                0 <= j <= i < n,
                v.len() == n,
                n == old(v).len(),
                v@.to_multiset() == old(v)@.to_multiset(),
                forall|a: int, b: int|
                    0 <= a < b <= i && a != j && b != j ==> #[trigger] v@[a].0.spec_area()
                        >= #[trigger] v@[b].0.spec_area(),
                forall|b: int|
                    j < b <= i ==> v@[j as int].0.spec_area() > #[trigger] v@[b].0.spec_area(),
                forall|a: int| 0 <= a < n ==> old(v)@.contains(#[trigger] v@[a]),
            decreases j,
        {
            let ghost prev = v@;
            let lo = v[j - 1];
            let hi = v[j];
            v.set(j - 1, hi);
            let ghost mid = v@;
            v.set(j, lo);
            proof {
                lemma_swap_multiset(prev, j - 1, j as int);
                assert(v@ == prev.update(j - 1, hi).update(j as int, lo));
                assert forall|a: int| 0 <= a < n implies old(v)@.contains(#[trigger] v@[a]) by {
                    if a == j - 1 {
                        assert(v@[a] == prev[j as int]);
                    } else if a == j {
                        assert(v@[a] == prev[j - 1]);
                    } else {
                        assert(v@[a] == prev[a]);
                    }
                }
                let nj = j - 1;
                assert forall|a: int, b: int|
                    0 <= a < b <= i && a != nj && b != nj implies #[trigger] v@[a].0.spec_area()
                    >= #[trigger] v@[b].0.spec_area() by {
                    if b == j {
                        assert(v@[b] == prev[j - 1]);
                        assert(v@[a] == prev[a]);
                        assert(prev[a].0.spec_area() >= prev[j - 1].0.spec_area());
                    } else if a == j {
                        assert(v@[a] == prev[j - 1]);
                        assert(v@[b] == prev[b]);
                        assert(prev[j - 1].0.spec_area() >= prev[b].0.spec_area());
                    } else {
                        assert(v@[a] == prev[a] && v@[b] == prev[b]);
                        assert(prev[a].0.spec_area() >= prev[b].0.spec_area());
                    }
                }
                assert forall|b: int| nj < b <= i implies v@[nj].0.spec_area()
                    > #[trigger] v@[b].0.spec_area() by {
                    assert(v@[nj] == prev[j as int]);
                    if b == j {
                        assert(v@[b] == prev[j - 1]);
                    } else {
                        assert(v@[b] == prev[b]);
                        assert(prev[j as int].0.spec_area() > prev[b].0.spec_area());
                    }
                }
            }
            j = j - 1;
        }
        proof {
            assert forall|a: int, b: int|
                0 <= a < b < i + 1 implies #[trigger] v@.subrange(0, i + 1)[a].0.spec_area()
                >= #[trigger] v@.subrange(0, i + 1)[b].0.spec_area() by {
                assert(v@.subrange(0, i + 1)[a] == v@[a]);
                assert(v@.subrange(0, i + 1)[b] == v@[b]);
                if a == j {
                } else if b == j {
                    if a < j - 1 {
                        assert(v@[a].0.spec_area() >= v@[j - 1].0.spec_area());
                    }
                }
            }
        }
        i = i + 1;
    }
    proof {
        assert(v@.subrange(0, n as int) =~= v@);
    }
}

} // verus!
