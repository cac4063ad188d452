//! The model of a cutting plan: pieces, bins and sheets as the solver's contracts see them,
//! and the lemmas that carry the solver's proofs.

use vstd::prelude::*;

use crate::guillotine::{
    best_choice, free_area, is_candidate, lex_lt, merged, score_value, spec_find_best,
    split_remainders, swap_removed, FreeRect, GuillotineBin, ScoreStrategy, ScoredPlacement,
};
use crate::types::{
    demand_constraint, orientation_allowed, oriented, placements_ok, used_area, CutDirection,
    Demand, Placement, Rect, RotationConstraint, SheetResult, Solution, StockGrain,
};

verus! {

/// A piece to cut: its size as demanded, and the orientations it may take.
pub type Piece = (Rect, RotationConstraint);

/// The piece that each copy of a demand becomes.
pub open spec fn piece_of(d: Demand, stock_grain: StockGrain, cut_direction: CutDirection) -> Piece {
    (d.rect, demand_constraint(d, stock_grain, cut_direction))
}

/// Some orientation that `c` allows puts `r` inside the stock.
pub open spec fn fits_under(r: Rect, c: RotationConstraint, stock: Rect) -> bool {
    ||| orientation_allowed(c, false) && r.spec_fits_in(stock)
    ||| orientation_allowed(c, true) && r.spec_rotated().spec_fits_in(stock)
}

/// A piece that can be cut from the stock.
pub open spec fn piece_ok(pc: Piece, stock: Rect) -> bool {
    pc.0.is_proper() && fits_under(pc.0, pc.1, stock)
}

/// A placement is the piece in an orientation that the piece's constraint allows.
pub open spec fn placement_of(pc: Piece, p: Placement) -> bool {
    p.rect == oriented(pc.0, p.rotated) && orientation_allowed(pc.1, p.rotated)
}

/// The total quantity demanded.
pub open spec fn total_qty(ds: Seq<Demand>) -> int
    decreases ds.len(),
{
    if ds.len() == 0 {
        0
    } else {
        total_qty(ds.drop_last()) + ds.last().qty
    }
}

/// The demands as pieces, each demand repeated as often as its quantity, in demand order.
pub open spec fn expansion(
    ds: Seq<Demand>,
    stock_grain: StockGrain,
    cut_direction: CutDirection,
) -> Seq<Piece>
    decreases ds.len(),
{
    if ds.len() == 0 {
        Seq::empty()
    } else {
        expansion(ds.drop_last(), stock_grain, cut_direction) + Seq::new(
            ds.last().qty as nat,
            |_i: int| piece_of(ds.last(), stock_grain, cut_direction),
        )
    }
}

/// Pieces in order of non-increasing area.
pub open spec fn sorted_by_area(ps: Seq<Piece>) -> bool {
    forall|i: int, j: int| 0 <= i < j < ps.len() ==> #[trigger] ps[i].0.spec_area() >= #[trigger] ps[j].0.spec_area()
}

/// Every bin is valid, of the given stock and kerf, and holds at least one placement.
pub open spec fn bins_ok(bins: Seq<GuillotineBin>, stock: Rect, kerf: u32) -> bool {
    forall|b: int|
        0 <= b < bins.len() ==> {
            &&& (#[trigger] bins[b]).wf()
            &&& bins[b].stock == stock
            &&& bins[b].kerf == kerf
            &&& bins[b].placements.len() > 0
        }
}

/// The placement is one of the pieces, as placed.
pub open spec fn from_pieces(p: Placement, pieces: Seq<Piece>) -> bool {
    exists|i: int| 0 <= i < pieces.len() && #[trigger] placement_of(pieces[i], p)
}

/// Every placement in the bins is one of the pieces.
pub open spec fn bins_from(bins: Seq<GuillotineBin>, pieces: Seq<Piece>) -> bool {
    forall|b: int, j: int|
        0 <= b < bins.len() && 0 <= j < bins[b].placements.len() ==> from_pieces(
            #[trigger] bins[b].placements@[j],
            pieces,
        )
}

/// The number of placements over all bins.
pub open spec fn bins_count(bins: Seq<GuillotineBin>) -> int
    decreases bins.len(),
{
    if bins.len() == 0 {
        0
    } else {
        bins_count(bins.drop_last()) + bins.last().placements.len()
    }
}

/// Every sheet is valid for the stock, holds at least one placement, and records its
/// waste as the stock area less the area placed on it.
pub open spec fn sheets_ok(sheets: Seq<SheetResult>, stock: Rect) -> bool {
    forall|s: int|
        0 <= s < sheets.len() ==> {
            &&& placements_ok((#[trigger] sheets[s]).placements@, stock)
            &&& sheets[s].placements.len() > 0
            &&& sheets[s].waste_area == stock.spec_area() - used_area(sheets[s].placements@)
        }
}

/// Every placement on the sheets is one of the pieces.
pub open spec fn sheets_from(sheets: Seq<SheetResult>, pieces: Seq<Piece>) -> bool {
    forall|s: int, j: int|
        0 <= s < sheets.len() && 0 <= j < sheets[s].placements.len() ==> from_pieces(
            #[trigger] sheets[s].placements@[j],
            pieces,
        )
}

/// The number of placements over all sheets.
pub open spec fn sheets_count(sheets: Seq<SheetResult>) -> int
    decreases sheets.len(),
{
    if sheets.len() == 0 {
        0
    } else {
        sheets_count(sheets.drop_last()) + sheets.last().placements.len()
    }
}

/// A solution that cuts exactly the given pieces from stock of the given size.
pub open spec fn solution_of(sol: Solution, stock: Rect, pieces: Seq<Piece>) -> bool {
    &&& sol.stock == stock
    &&& sheets_ok(sol.sheets@, stock)
    &&& sheets_from(sol.sheets@, pieces)
    &&& sheets_count(sol.sheets@) == pieces.len()
}

pub proof fn lemma_bins_count_push(bins: Seq<GuillotineBin>, b: GuillotineBin)
    ensures
        bins_count(bins.push(b)) == bins_count(bins) + b.placements.len(),
{
    assert(bins.push(b).drop_last() =~= bins);
}

pub proof fn lemma_bins_count_update(bins: Seq<GuillotineBin>, k: int, b: GuillotineBin)
    requires
        0 <= k < bins.len(),
    ensures
        bins_count(bins.update(k, b)) == bins_count(bins) - bins[k].placements.len()
            + b.placements.len(),
    decreases bins.len(),
{
    if k == bins.len() - 1 {
        assert(bins.update(k, b).drop_last() =~= bins.drop_last());
    } else {
        lemma_bins_count_update(bins.drop_last(), k, b);
        assert(bins.update(k, b).drop_last() =~= bins.drop_last().update(k, b));
    }
}

pub proof fn lemma_sheets_count_push(sheets: Seq<SheetResult>, s: SheetResult)
    ensures
        sheets_count(sheets.push(s)) == sheets_count(sheets) + s.placements.len(),
{
    assert(sheets.push(s).drop_last() =~= sheets);
}

pub proof fn lemma_total_qty_push(ds: Seq<Demand>, d: Demand)
    ensures
        total_qty(ds.push(d)) == total_qty(ds) + d.qty,
{
    assert(ds.push(d).drop_last() =~= ds);
}

/// A fresh bin takes any piece that can be cut from its stock.
pub proof fn lemma_fresh_bin_takes(bin: GuillotineBin, pc: Piece, strategy: ScoreStrategy, r: Option<ScoredPlacement>)
    requires
        piece_ok(pc, bin.stock),
        bin.free_rects@ == seq![FreeRect { x: 0, y: 0, rect: bin.stock }],
        best_choice(bin.free_rects@, pc.0, pc.1, strategy, r),
    ensures
        r.is_some(),
{
    if r.is_none() {
        if orientation_allowed(pc.1, false) && pc.0.spec_fits_in(bin.stock) {
            assert(is_candidate(bin.free_rects@, pc.0, pc.1, 0, false));
        } else {
            assert(is_candidate(bin.free_rects@, pc.0, pc.1, 0, true));
        }
    }
}

/// The cut directions tried for a configured direction: both concrete ones for `Auto`.
pub open spec fn directions_for(cd: CutDirection) -> Seq<CutDirection> {
    match cd {
        CutDirection::Auto => seq![CutDirection::AlongLength, CutDirection::AlongWidth],
        _ => seq![cd],
    }
}

/// Every piece can be cut from the stock.
pub open spec fn pieces_ok(pieces: Seq<Piece>, stock: Rect) -> bool {
    forall|i: int| 0 <= i < pieces.len() ==> piece_ok(#[trigger] pieces[i], stock)
}

/// What every solution for the pieces guarantees; `solution_of` with the sheet count
/// bounded by the number of pieces, and at least one sheet when there is a piece.
pub open spec fn packs(sol: Solution, stock: Rect, pieces: Seq<Piece>) -> bool {
    &&& solution_of(sol, stock, pieces)
    &&& sol.sheets.len() <= pieces.len()
    &&& (pieces.len() > 0 ==> sol.sheets.len() > 0)
}

/// Placing one of the pieces into bin `b` keeps the bins valid and made of the pieces.
pub proof fn lemma_bins_placed(
    bins: Seq<GuillotineBin>,
    pieces: Seq<Piece>,
    b: int,
    bin: GuillotineBin,
    p: Placement,
    k: int,
)
    requires
        bins_ok(bins, bin.stock, bin.kerf),
        bins_from(bins, pieces),
        0 <= b < bins.len(),
        bin.wf(),
        bin.placements@ == bins[b].placements@.push(p),
        0 <= k < pieces.len(),
        placement_of(pieces[k], p),
    ensures
        bins_ok(bins.update(b, bin), bin.stock, bin.kerf),
        bins_from(bins.update(b, bin), pieces),
{
    let nb = bins.update(b, bin);
    assert forall|c: int, j: int|
        0 <= c < nb.len() && 0 <= j < nb[c].placements.len() implies from_pieces(
        #[trigger] nb[c].placements@[j],
        pieces,
    ) by {
        if c == b && j == bins[b].placements.len() {
            assert(nb[c].placements@[j] == p);
        } else if c == b {
            assert(nb[c].placements@[j] == bins[b].placements@[j]);
        }
    }
}

/// Opening a new bin for one of the pieces keeps the bins valid and made of the pieces.
pub proof fn lemma_bins_pushed(
    bins: Seq<GuillotineBin>,
    pieces: Seq<Piece>,
    bin: GuillotineBin,
    p: Placement,
    k: int,
)
    requires
        bins_ok(bins, bin.stock, bin.kerf),
        bins_from(bins, pieces),
        bin.wf(),
        bin.placements@ == seq![p],
        0 <= k < pieces.len(),
        placement_of(pieces[k], p),
    ensures
        bins_ok(bins.push(bin), bin.stock, bin.kerf),
        bins_from(bins.push(bin), pieces),
{
    let nb = bins.push(bin);
    assert forall|c: int| 0 <= c < nb.len() implies {
        &&& (#[trigger] nb[c]).wf()
        &&& nb[c].stock == bin.stock
        &&& nb[c].kerf == bin.kerf
        &&& nb[c].placements.len() > 0
    } by {
        if c < bins.len() {
            assert(nb[c] == bins[c]);
        }
    }
    assert forall|c: int, j: int|
        0 <= c < nb.len() && 0 <= j < nb[c].placements.len() implies from_pieces(
        #[trigger] nb[c].placements@[j],
        pieces,
    ) by {
        if c == bins.len() {
            assert(nb[c].placements@[j] == p);
        } else {
            assert(nb[c] == bins[c]);
        }
    }
}

/// Sheets that copy the bins' placements are made of the same pieces.
pub proof fn lemma_sheets_from_bins(sheets: Seq<SheetResult>, bins: Seq<GuillotineBin>, pieces: Seq<Piece>)
    requires
        bins_from(bins, pieces),
        sheets.len() == bins.len(),
        forall|s: int| 0 <= s < bins.len() ==> (#[trigger] sheets[s]).placements@ == bins[s].placements@,
    ensures
        sheets_from(sheets, pieces),
{
    assert forall|s: int, j: int|
        0 <= s < sheets.len() && 0 <= j < sheets[s].placements.len() implies from_pieces(
        #[trigger] sheets[s].placements@[j],
        pieces,
    ) by {
        assert(sheets[s].placements@ == bins[s].placements@);
        assert(from_pieces(bins[s].placements@[j], pieces));
    }
}

/// Every demand is a proper rectangle that can be cut from the stock in an orientation its
/// rotation constraint allows.
pub open spec fn demands_ok(
    ds: Seq<Demand>,
    stock: Rect,
    stock_grain: StockGrain,
    cut_direction: CutDirection,
) -> bool {
    forall|d: int| 0 <= d < ds.len() ==> piece_ok(piece_of(#[trigger] ds[d], stock_grain, cut_direction), stock)
}

/// The placement is a copy of one of the demands, in an orientation its constraint allows.
pub open spec fn from_demands(
    p: Placement,
    ds: Seq<Demand>,
    stock_grain: StockGrain,
    cut_direction: CutDirection,
) -> bool {
    exists|d: int|
        0 <= d < ds.len() && #[trigger] placement_of(piece_of(ds[d], stock_grain, cut_direction), p)
}

/// The best complete packing found so far, if any: valid bins holding every piece, as many
/// as the recorded count.
pub open spec fn best_ok(
    best: Option<Vec<GuillotineBin>>,
    count: usize,
    pieces: Seq<Piece>,
    stock: Rect,
    kerf: u32,
) -> bool {
    match best {
        None => true,
        Some(b) => {
            &&& bins_ok(b@, stock, kerf)
            &&& bins_from(b@, pieces)
            &&& bins_count(b@) == pieces.len()
            &&& b.len() == count
        },
    }
}

/// The area of the pieces from `idx` on.
pub open spec fn rest_area(pieces: Seq<Piece>, idx: int) -> int
    decreases pieces.len() - idx,
{
    if idx < 0 || idx >= pieces.len() {
        0
    } else {
        pieces[idx].0.spec_area() + rest_area(pieces, idx + 1)
    }
}

/// The free area over all bins.
pub open spec fn open_area(bins: Seq<SearchBin>) -> int
    decreases bins.len(),
{
    if bins.len() == 0 {
        0
    } else {
        open_area(bins.drop_last()) + free_area(bins.last().0.0)
    }
}

pub open spec fn ceil_div(a: int, b: int) -> int {
    (a + b - 1) / b
}

/// A lower bound on the sheets that any completion of the bins needs: the open bins, plus
/// the sheets the remaining area needs beyond the open bins' free area, and no fewer than
/// the remaining area alone needs.
pub open spec fn area_lower_bound(
    pieces: Seq<Piece>,
    idx: int,
    bins: Seq<SearchBin>,
    stock_area: int,
) -> int {
    let rem = rest_area(pieces, idx);
    let free = open_area(bins);
    let n = bins.len() as int;
    let needed = if rem > free {
        n + ceil_div(rem - free, stock_area)
    } else {
        n
    };
    let extra = if rem > 0 {
        ceil_div(rem, stock_area)
    } else {
        0
    };
    let floor = n + if extra > n {
        extra - n
    } else {
        0
    };
    if needed >= floor {
        needed
    } else {
        floor
    }
}

/// Bins that each hold a placement are no more than the placements.
pub proof fn lemma_bins_len_le_count(bins: Seq<GuillotineBin>, stock: Rect, kerf: u32)
    requires
        bins_ok(bins, stock, kerf),
    ensures
        bins.len() <= bins_count(bins),
    decreases bins.len(),
{
    if bins.len() > 0 {
        let d = bins.drop_last();
        assert forall|b: int| 0 <= b < d.len() implies {
            &&& (#[trigger] d[b]).wf()
            &&& d[b].stock == stock
            &&& d[b].kerf == kerf
            &&& d[b].placements.len() > 0
        } by {
            assert(d[b] == bins[b]);
        }
        lemma_bins_len_le_count(d, stock, kerf);
        assert(bins[bins.len() - 1].placements.len() > 0);
    }
}

/// Two bins with the same stock, kerf, cut direction, free rectangles and placements.
pub open spec fn same_bin(a: GuillotineBin, b: GuillotineBin) -> bool {
    &&& a.stock == b.stock
    &&& a.kerf == b.kerf
    &&& a.cut_direction == b.cut_direction
    &&& a.free_rects@ == b.free_rects@
    &&& a.placements@ == b.placements@
}

/// Copies of valid bins made of the pieces are valid and made of the pieces too.
pub proof fn lemma_copied_bins(
    c: Seq<GuillotineBin>,
    bins: Seq<GuillotineBin>,
    pieces: Seq<Piece>,
    stock: Rect,
    kerf: u32,
)
    requires
        c.len() == bins.len(),
        forall|i: int| 0 <= i < bins.len() ==> same_bin(#[trigger] c[i], bins[i]),
        bins_ok(bins, stock, kerf),
        bins_from(bins, pieces),
    ensures
        bins_ok(c, stock, kerf),
        bins_from(c, pieces),
        bins_count(c) == bins_count(bins),
    decreases bins.len(),
{
    assert forall|b: int| 0 <= b < c.len() implies {
        &&& (#[trigger] c[b]).wf()
        &&& c[b].stock == stock
        &&& c[b].kerf == kerf
        &&& c[b].placements.len() > 0
    } by {
        assert(same_bin(c[b], bins[b]));
        assert(bins[b].wf());
    }
    assert forall|b: int, j: int|
        0 <= b < c.len() && 0 <= j < c[b].placements.len() implies from_pieces(
        #[trigger] c[b].placements@[j],
        pieces,
    ) by {
        assert(same_bin(c[b], bins[b]));
        assert(from_pieces(bins[b].placements@[j], pieces));
    }
    if bins.len() > 0 {
        let cd = c.drop_last();
        let bd = bins.drop_last();
        assert forall|b: int| 0 <= b < bd.len() implies {
            &&& (#[trigger] bd[b]).wf()
            &&& bd[b].stock == stock
            &&& bd[b].kerf == kerf
            &&& bd[b].placements.len() > 0
        } by {
            assert(bd[b] == bins[b]);
        }
        assert forall|b: int, j: int|
            0 <= b < bd.len() && 0 <= j < bd[b].placements.len() implies from_pieces(
            #[trigger] bd[b].placements@[j],
            pieces,
        ) by {
            assert(bd[b] == bins[b]);
        }
        assert forall|i: int| 0 <= i < bd.len() implies same_bin(#[trigger] cd[i], bd[i]) by {
            assert(cd[i] == c[i] && bd[i] == bins[i]);
        }
        lemma_copied_bins(cd, bd, pieces, stock, kerf);
        assert(same_bin(c[bins.len() - 1], bins[bins.len() - 1]));
    }
}

/// Swapping two entries keeps the multiset of a sequence.
pub proof fn lemma_swap_multiset(s: Seq<Piece>, a: int, b: int)
    requires
        0 <= a < s.len(),
        0 <= b < s.len(),
    ensures
        s.update(a, s[b]).update(b, s[a]).to_multiset() == s.to_multiset(),
{
    broadcast use vstd::seq_lib::to_multiset_update;
    broadcast use vstd::multiset::group_multiset_axioms;
    broadcast use vstd::seq_lib::to_multiset_contains;

    let m = s.to_multiset();
    let mid = s.update(a, s[b]);
    assert(s.contains(s[a]));
    assert(m.count(s[a]) > 0);
    assert(mid.to_multiset() == m.insert(s[b]).remove(s[a]));
    if a != b {
        assert(mid[b] == s[b]);
    }
    assert(mid.update(b, s[a]).to_multiset() == mid.to_multiset().insert(s[a]).remove(mid[b]));
    assert(mid.update(b, s[a]).to_multiset() =~= m);
}

/// A bin's contents as values: its free rectangles and its placements.
pub type BinState = (Seq<FreeRect>, Seq<Placement>);

pub open spec fn state_of(b: GuillotineBin) -> BinState {
    (b.free_rects@, b.placements@)
}

pub open spec fn states_of(bins: Seq<GuillotineBin>) -> Seq<BinState> {
    bins.map_values(|b: GuillotineBin| state_of(b))
}

/// A bin's contents once `piece` is placed where `s` says, in a bin of the given kerf and
/// cut direction.
pub open spec fn placed_state(
    st: BinState,
    s: ScoredPlacement,
    piece: Rect,
    kerf: u32,
    cut_direction: CutDirection,
) -> BinState {
    let f = st.0[s.free_idx as int];
    let rect = oriented(piece, s.rotated);
    (
        merged(
            swap_removed(st.0, s.free_idx as int) + split_remainders(f, rect, kerf, cut_direction),
            cut_direction,
        ),
        st.1.push(Placement { rect, x: f.x, y: f.y, rotated: s.rotated }),
    )
}

/// The contents of a new bin.
pub open spec fn fresh_state(stock: Rect) -> BinState {
    (seq![FreeRect { x: 0, y: 0, rect: stock }], Seq::empty())
}

/// Among the first `n` bins, the first one whose best position for the piece scores least,
/// with that position; `None` when none of them takes the piece.
pub open spec fn best_bin(
    states: Seq<BinState>,
    n: int,
    piece: Rect,
    rotation: RotationConstraint,
    strategy: ScoreStrategy,
) -> Option<(int, ScoredPlacement)>
    decreases n,
{
    if n <= 0 {
        None
    } else {
        let before = best_bin(states, n - 1, piece, rotation, strategy);
        match spec_find_best(states[n - 1].0, piece, rotation, strategy) {
            None => before,
            Some(s) => match before {
                None => Some((n - 1, s)),
                Some((_, t)) => if lex_lt(score_value(s.score), score_value(t.score)) {
                    Some((n - 1, s))
                } else {
                    before
                },
            },
        }
    }
}

/// The bins after the greedy pass places one more piece: into the bin that scores it best,
/// or into a new bin cut in `direction`.
pub open spec fn greedy_step(
    states: Seq<BinState>,
    pc: Piece,
    stock: Rect,
    kerf: u32,
    strategy: ScoreStrategy,
    direction: CutDirection,
) -> Seq<BinState> {
    match best_bin(states, states.len() as int, pc.0, pc.1, strategy) {
        Some((b, s)) => states.update(b, placed_state(states[b], s, pc.0, kerf, direction)),
        None => {
            let fresh = fresh_state(stock);
            states.push(
                placed_state(
                    fresh,
                    spec_find_best(fresh.0, pc.0, pc.1, strategy).unwrap(),
                    pc.0,
                    kerf,
                    direction,
                ),
            )
        },
    }
}

/// The bins that the greedy pass fills with the pieces, taken in order.
pub open spec fn greedy_run(
    pieces: Seq<Piece>,
    stock: Rect,
    kerf: u32,
    strategy: ScoreStrategy,
    direction: CutDirection,
) -> Seq<BinState>
    decreases pieces.len(),
{
    if pieces.len() == 0 {
        Seq::empty()
    } else {
        greedy_step(
            greedy_run(pieces.drop_last(), stock, kerf, strategy, direction),
            pieces.last(),
            stock,
            kerf,
            strategy,
            direction,
        )
    }
}

/// The sheets hold the bins' placements, bin for bin.
pub open spec fn sheets_are(sheets: Seq<SheetResult>, states: Seq<BinState>) -> bool {
    &&& sheets.len() == states.len()
    &&& forall|s: int| 0 <= s < sheets.len() ==> (#[trigger] sheets[s]).placements@ == states[s].1
}

/// The scoring strategies, in the order the greedy phase tries them.
pub open spec fn strategy_list() -> Seq<ScoreStrategy> {
    seq![ScoreStrategy::BestAreaFit, ScoreStrategy::BestShortSideFit, ScoreStrategy::BestLongSideFit]
}

/// The greedy runs for each direction and, within it, each strategy.
pub open spec fn strategy_runs(
    pieces: Seq<Piece>,
    stock: Rect,
    kerf: u32,
    directions: Seq<CutDirection>,
) -> Seq<Seq<BinState>>
    decreases directions.len(),
{
    if directions.len() == 0 {
        Seq::empty()
    } else {
        let d = directions.last();
        strategy_runs(pieces, stock, kerf, directions.drop_last()) + strategy_list().map_values(
            |st: ScoreStrategy| greedy_run(pieces, stock, kerf, st, d),
        )
    }
}

/// The index of the first run, among the first `n`, with the fewest bins.
pub open spec fn first_fewest(runs: Seq<Seq<BinState>>, n: int) -> int
    decreases n,
{
    if n <= 1 {
        0
    } else {
        let b = first_fewest(runs, n - 1);
        if runs[n - 1].len() < runs[b].len() {
            n - 1
        } else {
            b
        }
    }
}

/// The greedy phase's result: the first run with the fewest bins.
pub open spec fn greedy_choice(
    pieces: Seq<Piece>,
    stock: Rect,
    kerf: u32,
    cut_direction: CutDirection,
) -> Seq<BinState> {
    let runs = strategy_runs(pieces, stock, kerf, directions_for(cut_direction));
    runs[first_fewest(runs, runs.len() as int)]
}

/// Run `3 * d + s` is the greedy run of direction `d` and strategy `s`.
pub proof fn lemma_strategy_runs(
    pieces: Seq<Piece>,
    stock: Rect,
    kerf: u32,
    directions: Seq<CutDirection>,
    d: int,
    s: int,
)
    requires
        0 <= d < directions.len(),
        0 <= s < 3,
    ensures
        strategy_runs(pieces, stock, kerf, directions).len() == 3 * directions.len(),
        strategy_runs(pieces, stock, kerf, directions)[3 * d + s] == greedy_run(
            pieces,
            stock,
            kerf,
            strategy_list()[s],
            directions[d],
        ),
    decreases directions.len(),
{
    let rest = directions.drop_last();
    lemma_strategy_runs_len(pieces, stock, kerf, rest);
    if d < directions.len() - 1 {
        lemma_strategy_runs(pieces, stock, kerf, rest, d, s);
    }
}

pub proof fn lemma_strategy_runs_len(
    pieces: Seq<Piece>,
    stock: Rect,
    kerf: u32,
    directions: Seq<CutDirection>,
)
    ensures
        strategy_runs(pieces, stock, kerf, directions).len() == 3 * directions.len(),
    decreases directions.len(),
{
    if directions.len() > 0 {
        lemma_strategy_runs_len(pieces, stock, kerf, directions.drop_last());
    }
}

/// The first fewest among the first `n` runs is one of them.
pub proof fn lemma_first_fewest_range(runs: Seq<Seq<BinState>>, n: int)
    requires
        1 <= n,
    ensures
        0 <= first_fewest(runs, n) < n,
    decreases n,
{
    if n > 1 {
        lemma_first_fewest_range(runs, n - 1);
    }
}

/// What the exhaustive phase finds below `upper_bound` bins: nothing when there are more
/// than `limit` pieces or no packing beats the bound, else the best packing of the search.
pub open spec fn search_plan(
    pieces: Seq<Piece>,
    stock: Rect,
    kerf: u32,
    cut_direction: CutDirection,
    upper_bound: int,
    limit: int,
) -> Option<Seq<BinState>> {
    if pieces.len() > limit {
        None
    } else {
        match search(pieces, 0, Seq::empty(), (upper_bound, None), stock, kerf, cut_direction).1 {
            None => None,
            Some(b) => Some(b.map_values(|x: SearchBin| x.0)),
        }
    }
}

/// The plan for the pieces: the greedy phase's, unless the exhaustive phase finds one with
/// fewer bins.
pub open spec fn plan_for(
    pieces: Seq<Piece>,
    stock: Rect,
    kerf: u32,
    cut_direction: CutDirection,
    limit: int,
) -> Seq<BinState> {
    let g = greedy_choice(pieces, stock, kerf, cut_direction);
    match search_plan(pieces, stock, kerf, cut_direction, g.len() as int, limit) {
        Some(b) => if 0 < b.len() < g.len() {
            b
        } else {
            g
        },
        None => g,
    }
}

/// With no pieces, the greedy phase fills no bins.
pub proof fn lemma_greedy_choice_empty(stock: Rect, kerf: u32, cut_direction: CutDirection)
    ensures
        greedy_choice(Seq::empty(), stock, kerf, cut_direction).len() == 0,
{
    let dirs = directions_for(cut_direction);
    let runs = strategy_runs(Seq::empty(), stock, kerf, dirs);
    lemma_strategy_runs_len(Seq::empty(), stock, kerf, dirs);
    lemma_first_fewest_range(runs, runs.len() as int);
    let i = first_fewest(runs, runs.len() as int);
    let d = i / 3;
    let s = i % 3;
    assert(i == 3 * d + s);
    lemma_strategy_runs(Seq::empty(), stock, kerf, dirs, d, s);
}

/// A bin in the exhaustive search: its contents and the direction it is cut in.
pub type SearchBin = (BinState, CutDirection);

pub open spec fn search_bins_of(bins: Seq<GuillotineBin>) -> Seq<SearchBin> {
    bins.map_values(|b: GuillotineBin| (state_of(b), b.cut_direction))
}

/// The best complete packing found so far: its number of bins, and its bins once one is
/// found.
pub type SearchBest = (int, Option<Seq<SearchBin>>);

pub open spec fn best_view(best: Option<Vec<GuillotineBin>>, count: usize) -> SearchBest {
    (
        count as int,
        match best {
            None => None,
            Some(b) => Some(search_bins_of(b@)),
        },
    )
}

/// How many orientations the search tries for a piece: both for a free non-square piece,
/// else one.
pub open spec fn orientation_count(pc: Piece) -> int {
    if pc.1 == RotationConstraint::Free && pc.0.length != pc.0.width {
        2
    } else {
        1
    }
}

/// Whether the `oi`-th orientation the search tries is the rotated one.
pub open spec fn orientation_at(pc: Piece, oi: int) -> bool {
    if pc.1 == RotationConstraint::Free && pc.0.length != pc.0.width {
        oi == 1
    } else {
        pc.1 == RotationConstraint::ForceRotate
    }
}

/// The constraint that admits exactly one orientation.
pub open spec fn only(rotated: bool) -> RotationConstraint {
    if rotated {
        RotationConstraint::ForceRotate
    } else {
        RotationConstraint::NoRotate
    }
}

/// The exhaustive search from piece `idx` on, with the bins so far and the best packing
/// found so far: a complete packing is kept when it uses fewer bins than the best; a state
/// is dropped when it cannot beat the best; otherwise the piece goes into each open bin in
/// each orientation it may take, then into a new bin of each direction.
pub open spec fn search(
    pieces: Seq<Piece>,
    idx: int,
    bins: Seq<SearchBin>,
    best: SearchBest,
    stock: Rect,
    kerf: u32,
    cut_direction: CutDirection,
) -> SearchBest
    decreases pieces.len() - idx, 2int, 0int, 0int,
{
    if idx >= pieces.len() {
        if bins.len() < best.0 {
            (bins.len() as int, Some(bins))
        } else {
            best
        }
    } else if bins.len() >= best.0 {
        best
    } else if area_lower_bound(pieces, idx, bins, stock.spec_area()) >= best.0 {
        best
    } else {
        let after = search_existing(pieces, idx, bins, 0, 0, best, stock, kerf, cut_direction);
        if bins.len() + 1 < after.0 {
            search_new(pieces, idx, bins, 0, after, stock, kerf, cut_direction)
        } else {
            after
        }
    }
}

/// The search over open bins from bin `bi`, orientation `oi` on.
pub open spec fn search_existing(
    pieces: Seq<Piece>,
    idx: int,
    bins: Seq<SearchBin>,
    bi: int,
    oi: int,
    best: SearchBest,
    stock: Rect,
    kerf: u32,
    cut_direction: CutDirection,
) -> SearchBest
    decreases pieces.len() - idx, 1int, bins.len() - bi, 2 - oi,
{
    if idx < 0 || idx >= pieces.len() || bi < 0 || bi >= bins.len() || oi < 0 || oi > 2 {
        best
    } else if oi >= orientation_count(pieces[idx]) {
        search_existing(pieces, idx, bins, bi + 1, 0, best, stock, kerf, cut_direction)
    } else {
        let pc = pieces[idx];
        let b = bins[bi];
        let next = match spec_find_best(
            b.0.0,
            pc.0,
            only(orientation_at(pc, oi)),
            ScoreStrategy::BestAreaFit,
        ) {
            Some(s) => search(
                pieces,
                idx + 1,
                bins.update(bi, (placed_state(b.0, s, pc.0, kerf, b.1), b.1)),
                best,
                stock,
                kerf,
                cut_direction,
            ),
            None => best,
        };
        search_existing(pieces, idx, bins, bi, oi + 1, next, stock, kerf, cut_direction)
    }
}

/// The search over new bins, from direction `di` on.
pub open spec fn search_new(
    pieces: Seq<Piece>,
    idx: int,
    bins: Seq<SearchBin>,
    di: int,
    best: SearchBest,
    stock: Rect,
    kerf: u32,
    cut_direction: CutDirection,
) -> SearchBest
    decreases pieces.len() - idx, 0int, directions_for(cut_direction).len() - di, 0int,
{
    let dirs = directions_for(cut_direction);
    if idx < 0 || idx >= pieces.len() || di < 0 || di >= dirs.len() {
        best
    } else {
        let pc = pieces[idx];
        let fresh = fresh_state(stock);
        let next = match spec_find_best(fresh.0, pc.0, pc.1, ScoreStrategy::BestAreaFit) {
            Some(s) => search(
                pieces,
                idx + 1,
                bins.push((placed_state(fresh, s, pc.0, kerf, dirs[di]), dirs[di])),
                best,
                stock,
                kerf,
                cut_direction,
            ),
            None => best,
        };
        search_new(pieces, idx, bins, di + 1, next, stock, kerf, cut_direction)
    }
}

/// Copies of bins carry the same search view, and so does the list after one of the copies
/// is replaced or a bin is added.
pub proof fn lemma_search_bins_copied(
    c: Seq<GuillotineBin>,
    bins: Seq<GuillotineBin>,
    k: int,
    bin: GuillotineBin,
)
    requires
        c.len() == bins.len(),
        forall|i: int| 0 <= i < bins.len() ==> same_bin(#[trigger] c[i], bins[i]),
    ensures
        search_bins_of(c) == search_bins_of(bins),
        0 <= k < c.len() ==> search_bins_of(c.update(k, bin)) == search_bins_of(bins).update(
            k,
            (state_of(bin), bin.cut_direction),
        ),
        search_bins_of(c.push(bin)) == search_bins_of(bins).push((state_of(bin), bin.cut_direction)),
{
    assert forall|i: int| 0 <= i < c.len() implies #[trigger] search_bins_of(c)[i] == search_bins_of(bins)[i] by {
        assert(same_bin(c[i], bins[i]));
    }
    assert(search_bins_of(c) =~= search_bins_of(bins));
    if 0 <= k < c.len() {
        assert(search_bins_of(c.update(k, bin)) =~= search_bins_of(bins).update(
            k,
            (state_of(bin), bin.cut_direction),
        ));
    }
    assert(search_bins_of(c.push(bin)) =~= search_bins_of(bins).push((state_of(bin), bin.cut_direction)));
}

} // verus!
