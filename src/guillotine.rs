use vstd::prelude::*;

use crate::layout::{lemma_cut_keeps_layout, lemma_merge_keeps_layout};
use crate::types::{
    boxes_overlap, lemma_fits_area, lemma_u32_product_fits, lemma_used_area_nonneg,
    lemma_used_area_prefix, orientation_allowed, oriented, placements_ok, used_area,
    CutDirection, Placement, Rect, RotationConstraint,
};

verus! {

/// A free region of a sheet: its origin and its size.
#[derive(Debug, Clone, Copy, PartialEq, Eq, Structural)]
pub struct FreeRect {
    pub x: u32,
    pub y: u32,
    pub rect: Rect,
}

/// How a candidate position is scored; a lower score is a better fit.
#[derive(Debug, Clone, Copy, PartialEq, Eq, Structural)]
pub enum ScoreStrategy {
    BestAreaFit,
    BestShortSideFit,
    BestLongSideFit,
}

/// A chosen free rectangle, the orientation of the piece in it, and the score of that choice.
#[derive(Debug, Clone, Copy)]
pub struct ScoredPlacement {
    pub free_idx: usize,
    pub rotated: bool,
    pub score: (u64, u64),
}

/// One stock sheet being filled: its free regions and what has been placed on it.
#[derive(Debug, Clone)]
pub struct GuillotineBin {
    pub stock: Rect,
    pub kerf: u32,
    pub cut_direction: CutDirection,
    pub free_rects: Vec<FreeRect>,
    pub placements: Vec<Placement>,
}

pub open spec fn free_within(f: FreeRect, stock: Rect) -> bool {
    f.x + f.rect.length <= stock.length && f.y + f.rect.width <= stock.width
}

pub open spec fn frees_overlap(a: FreeRect, b: FreeRect) -> bool {
    boxes_overlap(a.x, a.y, a.rect.length, a.rect.width, b.x, b.y, b.rect.length, b.rect.width)
}

pub open spec fn free_overlaps_placement(f: FreeRect, p: Placement) -> bool {
    boxes_overlap(f.x, f.y, f.rect.length, f.rect.width, p.x, p.y, p.rect.length, p.rect.width)
}

/// Every free rectangle is proper and inside the sheet, and no two of them overlap.
pub open spec fn frees_ok(fs: Seq<FreeRect>, stock: Rect) -> bool {
    &&& forall|i: int|
        0 <= i < fs.len() ==> (#[trigger] fs[i]).rect.is_proper() && free_within(fs[i], stock)
    &&& forall|i: int, j: int|
        0 <= i < fs.len() && 0 <= j < fs.len() && i != j ==> !#[trigger] frees_overlap(
            fs[i],
            fs[j],
        )
}

/// No free rectangle overlaps a placement.
pub open spec fn frees_clear(fs: Seq<FreeRect>, ps: Seq<Placement>) -> bool {
    forall|i: int, j: int|
        0 <= i < fs.len() && 0 <= j < ps.len() ==> !#[trigger] free_overlaps_placement(
            fs[i],
            ps[j],
        )
}

/// The total area of a list of free rectangles.
pub open spec fn free_area(fs: Seq<FreeRect>) -> int
    decreases fs.len(),
{
    if fs.len() == 0 {
        0
    } else {
        free_area(fs.drop_last()) + fs.last().rect.spec_area()
    }
}

/// The score pair of a piece (already oriented) in a free rectangle it fits in.
pub open spec fn score_of(piece: Rect, free: Rect, strategy: ScoreStrategy) -> (int, int) {
    let dl = free.length - piece.length;
    let dw = free.width - piece.width;
    let short = if dl <= dw {
        dl
    } else {
        dw
    };
    let long = if dl <= dw {
        dw
    } else {
        dl
    };
    match strategy {
        ScoreStrategy::BestAreaFit => (free.spec_area() - piece.spec_area(), short),
        ScoreStrategy::BestShortSideFit => (short, long),
        ScoreStrategy::BestLongSideFit => (long, short),
    }
}

/// Lexicographic order on score pairs.
pub open spec fn lex_lt(a: (int, int), b: (int, int)) -> bool {
    a.0 < b.0 || (a.0 == b.0 && a.1 < b.1)
}

pub open spec fn score_value(s: (u64, u64)) -> (int, int) {
    (s.0 as int, s.1 as int)
}

/// The position of a candidate in search order: free rectangles in list order, and in
/// each the unrotated orientation before the rotated one.
pub open spec fn search_pos(idx: int, rotated: bool) -> int {
    2 * idx + if rotated {
        1int
    } else {
        0int
    }
}

/// What is left of a dimension after a piece and a kerf, or zero when nothing is.
pub open spec fn leftover(total: u32, used: u32, kerf: u32) -> int {
    if total - used - kerf > 0 {
        total - used - kerf
    } else {
        0
    }
}

/// Whether the cut after a placement runs along the length, so that the bottom remainder
/// spans the free rectangle's full length.
pub open spec fn splits_along_length(cut_direction: CutDirection, free: Rect, placed: Rect) -> bool {
    match cut_direction {
        CutDirection::Auto => free.length - placed.length < free.width - placed.width,
        CutDirection::AlongLength => true,
        CutDirection::AlongWidth => false,
    }
}

/// The free rectangles that remain of `free` after `placed` is cut from its origin corner:
/// the right remainder first, then the bottom one, each only when non-empty.
pub open spec fn split_remainders(
    free: FreeRect,
    placed: Rect,
    kerf: u32,
    cut_direction: CutDirection,
) -> Seq<FreeRect> {
    let rl = leftover(free.rect.length, placed.length, kerf);
    let rw = leftover(free.rect.width, placed.width, kerf);
    let right_x = (free.x + placed.length + kerf) as u32;
    let bottom_y = (free.y + placed.width + kerf) as u32;
    if rl > 0 && rw > 0 {
        if splits_along_length(cut_direction, free.rect, placed) {
            seq![
                FreeRect { x: right_x, y: free.y, rect: Rect { length: rl as u32, width: placed.width } },
                FreeRect { x: free.x, y: bottom_y, rect: Rect { length: free.rect.length, width: rw as u32 } },
            ]
        } else {
            seq![
                FreeRect { x: right_x, y: free.y, rect: Rect { length: rl as u32, width: free.rect.width } },
                FreeRect { x: free.x, y: bottom_y, rect: Rect { length: placed.length, width: rw as u32 } },
            ]
        }
    } else if rl > 0 {
        seq![FreeRect { x: right_x, y: free.y, rect: Rect { length: rl as u32, width: free.rect.width } }]
    } else if rw > 0 {
        seq![FreeRect { x: free.x, y: bottom_y, rect: Rect { length: free.rect.length, width: rw as u32 } }]
    } else {
        seq![]
    }
}

/// The single rectangle that two free rectangles sharing a full edge form, if they do and
/// the cut direction allows joining them along that axis.
pub open spec fn merge_of(a: FreeRect, b: FreeRect, cut_direction: CutDirection) -> Option<FreeRect> {
    let rows = cut_direction != CutDirection::AlongWidth && a.y == b.y && a.rect.width == b.rect.width;
    let cols = cut_direction != CutDirection::AlongLength && a.x == b.x && a.rect.length == b.rect.length;
    let joined_l = Rect { length: (a.rect.length + b.rect.length) as u32, width: a.rect.width };
    let joined_w = Rect { length: a.rect.length, width: (a.rect.width + b.rect.width) as u32 };
    if rows && a.x + a.rect.length == b.x {
        Some(FreeRect { x: a.x, y: a.y, rect: joined_l })
    } else if rows && b.x + b.rect.length == a.x {
        Some(FreeRect { x: b.x, y: b.y, rect: joined_l })
    } else if cols && a.y + a.rect.width == b.y {
        Some(FreeRect { x: a.x, y: a.y, rect: joined_w })
    } else if cols && b.y + b.rect.width == a.y {
        Some(FreeRect { x: b.x, y: b.y, rect: joined_w })
    } else {
        None
    }
}

/// No two free rectangles of the list can be merged.
pub open spec fn merge_settled(fs: Seq<FreeRect>, cut_direction: CutDirection) -> bool {
    forall|i: int, j: int|
        0 <= i < j < fs.len() ==> #[trigger] merge_of(fs[i], fs[j], cut_direction).is_none()
}

/// No pair before `(i, j)`, in the order rows then columns, can be merged.
pub open spec fn no_merge_before(fs: Seq<FreeRect>, cut_direction: CutDirection, i: int, j: int) -> bool {
    forall|a: int, b: int|
        0 <= a < b < fs.len() && (a < i || (a == i && b < j)) ==> #[trigger] merge_of(
            fs[a],
            fs[b],
            cut_direction,
        ).is_none()
}

/// The free list after the pair `(i, j)` has been merged into `i` and `j` removed by moving
/// the last entry into its place.
pub open spec fn after_merge(fs: Seq<FreeRect>, i: int, j: int, m: FreeRect) -> Seq<FreeRect> {
    let s = fs.update(i, m);
    s.update(j, s.last()).drop_last()
}

/// `(i, j)` is the first pair, rows first, whose free rectangles merge.
pub open spec fn is_first_merge(fs: Seq<FreeRect>, cut_direction: CutDirection, i: int, j: int) -> bool {
    &&& 0 <= i < j < fs.len()
    &&& merge_of(fs[i], fs[j], cut_direction).is_some()
    &&& no_merge_before(fs, cut_direction, i, j)
}

/// The free list after merging the first mergeable pair, again and again, until no pair
/// merges.
pub open spec fn merged(fs: Seq<FreeRect>, cut_direction: CutDirection) -> Seq<FreeRect>
    decreases fs.len(),
{
    if exists|i: int, j: int| is_first_merge(fs, cut_direction, i, j) {
        let (i, j) = choose|i: int, j: int| is_first_merge(fs, cut_direction, i, j);
        merged(after_merge(fs, i, j, merge_of(fs[i], fs[j], cut_direction).unwrap()), cut_direction)
    } else {
        fs
    }
}

/// There is only one first mergeable pair.
pub proof fn lemma_first_merge_unique(
    fs: Seq<FreeRect>,
    cut_direction: CutDirection,
    i1: int,
    j1: int,
    i2: int,
    j2: int,
)
    requires
        is_first_merge(fs, cut_direction, i1, j1),
        is_first_merge(fs, cut_direction, i2, j2),
    ensures
        i1 == i2 && j1 == j2,
{
    if i1 < i2 || (i1 == i2 && j1 < j2) {
        assert(merge_of(fs[i1], fs[j1], cut_direction).is_none());
    } else if i2 < i1 || (i1 == i2 && j2 < j1) {
        assert(merge_of(fs[i2], fs[j2], cut_direction).is_none());
    }
}

/// Merging the first mergeable pair does not change where merging ends.
pub proof fn lemma_merged_step(fs: Seq<FreeRect>, cut_direction: CutDirection, i: int, j: int)
    requires
        is_first_merge(fs, cut_direction, i, j),
    ensures
        merged(fs, cut_direction) == merged(
            after_merge(fs, i, j, merge_of(fs[i], fs[j], cut_direction).unwrap()),
            cut_direction,
        ),
{
    let (ci, cj) = choose|a: int, b: int| is_first_merge(fs, cut_direction, a, b);
    lemma_first_merge_unique(fs, cut_direction, ci, cj, i, j);
}

/// A list in which no pair merges is its own merge result.
pub proof fn lemma_merged_settled(fs: Seq<FreeRect>, cut_direction: CutDirection)
    requires
        merge_settled(fs, cut_direction),
    ensures
        merged(fs, cut_direction) == fs,
{
    assert forall|i: int, j: int| !is_first_merge(fs, cut_direction, i, j) by {
        if 0 <= i < j < fs.len() {
            assert(merge_of(fs[i], fs[j], cut_direction).is_none());
        }
    }
}

/// The free list after entry `k` has been removed by moving the last entry into its place.
pub open spec fn swap_removed(fs: Seq<FreeRect>, k: int) -> Seq<FreeRect> {
    fs.update(k, fs.last()).drop_last()
}
/// Placing `piece` in orientation `rotated` in free rectangle `idx` is a valid candidate.
pub open spec fn is_candidate(
    fs: Seq<FreeRect>,
    piece: Rect,
    rotation: RotationConstraint,
    idx: int,
    rotated: bool,
) -> bool {
    &&& 0 <= idx < fs.len()
    &&& orientation_allowed(rotation, rotated)
    &&& oriented(piece, rotated).spec_fits_in(fs[idx].rect)
}

pub open spec fn candidate_score(
    fs: Seq<FreeRect>,
    piece: Rect,
    idx: int,
    rotated: bool,
    strategy: ScoreStrategy,
) -> (int, int) {
    score_of(oriented(piece, rotated), fs[idx].rect, strategy)
}

/// `best` is the first candidate of least score among those before search position
/// `bound`, or `None` when there is none.
pub open spec fn best_before(
    fs: Seq<FreeRect>,
    piece: Rect,
    rotation: RotationConstraint,
    strategy: ScoreStrategy,
    best: Option<ScoredPlacement>,
    bound: int,
) -> bool {
    match best {
        None => forall|i: int, r: bool|
            search_pos(i, r) < bound ==> !#[trigger] is_candidate(fs, piece, rotation, i, r),
        Some(s) => {
            &&& search_pos(s.free_idx as int, s.rotated) < bound
            &&& is_candidate(fs, piece, rotation, s.free_idx as int, s.rotated)
            &&& score_value(s.score) == candidate_score(fs, 
                piece,
                s.free_idx as int,
                s.rotated,
                strategy,
            )
            &&& forall|i: int, r: bool|
                search_pos(i, r) < bound && #[trigger] is_candidate(fs, 
                    piece,
                    rotation,
                    i,
                    r,
                ) ==> !lex_lt(candidate_score(fs, piece, i, r, strategy), score_value(s.score))
                    && (search_pos(i, r) < search_pos(s.free_idx as int, s.rotated)
                    ==> lex_lt(
                    score_value(s.score),
                    candidate_score(fs, piece, i, r, strategy),
                ))
        },
    }
}

/// `best` is what a full search returns: the first candidate of least score, or `None`
/// when the piece fits nowhere in an allowed orientation.
pub open spec fn best_choice(
    fs: Seq<FreeRect>,
    piece: Rect,
    rotation: RotationConstraint,
    strategy: ScoreStrategy,
    best: Option<ScoredPlacement>,
) -> bool {
    best_before(fs, piece, rotation, strategy, best, 2 * fs.len() as int)
}

/// The first candidate of least score, as a value.
pub open spec fn spec_find_best(
    fs: Seq<FreeRect>,
    piece: Rect,
    rotation: RotationConstraint,
    strategy: ScoreStrategy,
) -> Option<ScoredPlacement> {
    choose|r: Option<ScoredPlacement>| best_choice(fs, piece, rotation, strategy, r)
}

/// The search result is unique: two results that both satisfy `best_choice` are equal.
pub proof fn lemma_best_choice_unique(
    fs: Seq<FreeRect>,
    piece: Rect,
    rotation: RotationConstraint,
    strategy: ScoreStrategy,
    a: Option<ScoredPlacement>,
    b: Option<ScoredPlacement>,
)
    requires
        best_choice(fs, piece, rotation, strategy, a),
        best_choice(fs, piece, rotation, strategy, b),
    ensures
        a == b,
{
    match (a, b) {
        (Some(x), Some(y)) => {
            let xi = x.free_idx as int;
            let yi = y.free_idx as int;
            assert(is_candidate(fs, piece, rotation, xi, x.rotated));
            assert(is_candidate(fs, piece, rotation, yi, y.rotated));
            assert(!lex_lt(candidate_score(fs, piece, xi, x.rotated, strategy), score_value(y.score)));
            assert(!lex_lt(candidate_score(fs, piece, yi, y.rotated, strategy), score_value(x.score)));
            if search_pos(xi, x.rotated) < search_pos(yi, y.rotated) {
                assert(lex_lt(score_value(y.score), candidate_score(fs, piece, xi, x.rotated, strategy)));
            } else if search_pos(yi, y.rotated) < search_pos(xi, x.rotated) {
                assert(lex_lt(score_value(x.score), candidate_score(fs, piece, yi, y.rotated, strategy)));
            }
            assert(x.score == y.score);
        },
        (Some(x), None) => {
            assert(is_candidate(fs, piece, rotation, x.free_idx as int, x.rotated));
        },
        (None, Some(y)) => {
            assert(is_candidate(fs, piece, rotation, y.free_idx as int, y.rotated));
        },
        (None, None) => {},
    }
}

/// A search result is the value `spec_find_best` names.
pub proof fn lemma_find_best_value(
    fs: Seq<FreeRect>,
    piece: Rect,
    rotation: RotationConstraint,
    strategy: ScoreStrategy,
    r: Option<ScoredPlacement>,
)
    requires
        best_choice(fs, piece, rotation, strategy, r),
    ensures
        spec_find_best(fs, piece, rotation, strategy) == r,
{
    let c = spec_find_best(fs, piece, rotation, strategy);
    assert(best_choice(fs, piece, rotation, strategy, c));
    lemma_best_choice_unique(fs, piece, rotation, strategy, c, r);
}

impl GuillotineBin {
    /// The bin's invariant: free rectangles and placements are proper, inside the sheet and
    /// pairwise disjoint, and their areas together do not exceed the sheet's.
    pub open spec fn wf(&self) -> bool {
        &&& self.stock.is_proper()
        &&& frees_ok(self.free_rects@, self.stock)
        &&& placements_ok(self.placements@, self.stock)
        &&& frees_clear(self.free_rects@, self.placements@)
        &&& used_area(self.placements@) + free_area(self.free_rects@) <= self.stock.spec_area()
    }

    /// An empty sheet: one free rectangle covering the whole stock, nothing placed.
    pub fn new(stock: Rect, kerf: u32, cut_direction: CutDirection) -> (r: Self)
        requires
            stock.is_proper(),
        ensures
            r.wf(),
            r.stock == stock,
            r.kerf == kerf,
            r.cut_direction == cut_direction,
            r.free_rects@ == seq![FreeRect { x: 0, y: 0, rect: stock }],
            r.placements@.len() == 0,
    {
        let r = GuillotineBin {
            stock,
            kerf,
            cut_direction,
            free_rects: vec![FreeRect { x: 0, y: 0, rect: stock }],
            placements: Vec::new(),
        };
        proof {
            let fs = r.free_rects@;
            assert(fs.drop_last() =~= Seq::<FreeRect>::empty());
            assert(free_area(fs.drop_last()) == 0);
            assert(free_area(fs) == stock.spec_area());
        }
        r
    }

    /// The total area of the placements on this sheet.
    pub fn used_area(&self) -> (r: u64)
        requires
            self.wf(),
        ensures
            r == used_area(self.placements@),
    {
        let mut sum: u64 = 0;
        let mut i: usize = 0;
        proof {
            lemma_free_area_nonneg(self.free_rects@);
            lemma_u32_product_fits(self.stock.length, self.stock.width);
        }
        while i < self.placements.len()
            invariant
                self.wf(),
                i <= self.placements.len(),
                sum == used_area(self.placements@.subrange(0, i as int)),
                used_area(self.placements@) <= self.stock.spec_area(),
                self.stock.spec_area() < u64::MAX,
            decreases self.placements.len() - i,
        {
            proof {
                let ps = self.placements@;
                assert(ps.subrange(0, i + 1).drop_last() =~= ps.subrange(0, i as int));
                lemma_used_area_prefix(ps, i + 1);
            }
            sum = sum + self.placements[i].rect.area();
            i = i + 1;
        }
        proof {
            assert(self.placements@.subrange(0, i as int) =~= self.placements@);
        }
        sum
    }

    /// The best candidate position for `piece` under `rotation`, scored by `score_strategy`.
    pub fn find_best(
        &self,
        piece: Rect,
        rotation: RotationConstraint,
        score_strategy: ScoreStrategy,
    ) -> (r: Option<ScoredPlacement>)
        ensures
            best_choice(self.free_rects@, piece, rotation, score_strategy, r),
    {
        let try_normal = rotation != RotationConstraint::ForceRotate;
        let try_rotated = rotation != RotationConstraint::NoRotate;
        let rotated = piece.rotated();
        let mut best: Option<ScoredPlacement> = None;
        let mut idx: usize = 0;
        while idx < self.free_rects.len()
            invariant
                idx <= self.free_rects.len(),
                try_normal == orientation_allowed(rotation, false),
                try_rotated == orientation_allowed(rotation, true),
                rotated == piece.spec_rotated(),
                best_before(self.free_rects@, piece, rotation, score_strategy, best, 2 * idx),
            decreases self.free_rects.len() - idx,
        {
            let free = self.free_rects[idx];
            if try_normal && piece.fits_in(&free.rect) {
                let score = Self::score(piece, free.rect, score_strategy);
                if best.is_none() || Self::score_less(score, best.unwrap().score) {
                    best = Some(ScoredPlacement { free_idx: idx, rotated: false, score });
                }
            }
            assert(best_before(self.free_rects@, piece, rotation, score_strategy, best, 2 * idx + 1));
            if try_rotated && rotated.fits_in(&free.rect) {
                let score = Self::score(rotated, free.rect, score_strategy);
                if best.is_none() || Self::score_less(score, best.unwrap().score) {
                    best = Some(ScoredPlacement { free_idx: idx, rotated: true, score });
                }
            }
            assert(best_before(self.free_rects@, piece, rotation, score_strategy, best, 2 * idx + 2));
            idx = idx + 1;
        }
        best
    }

    pub(crate) fn score_less(a: (u64, u64), b: (u64, u64)) -> (r: bool)
        ensures
            r == lex_lt(score_value(a), score_value(b)),
    {
        a.0 < b.0 || (a.0 == b.0 && a.1 < b.1)
    }

    fn score(piece: Rect, free: Rect, strategy: ScoreStrategy) -> (r: (u64, u64))
        requires
            piece.spec_fits_in(free),
        ensures
            score_value(r) == score_of(piece, free, strategy),
    {
        let dl = free.length - piece.length;
        let dw = free.width - piece.width;
        let short = if dl <= dw {
            dl
        } else {
            dw
        };
        let long = if dl <= dw {
            dw
        } else {
            dl
        };
        match strategy {
            ScoreStrategy::BestAreaFit => {
                proof {
                    lemma_fits_area(piece, free);
                }
                (free.area() - piece.area(), short as u64)
            },
            ScoreStrategy::BestShortSideFit => (short as u64, long as u64),
            ScoreStrategy::BestLongSideFit => (long as u64, short as u64),
        }
    }

    /// Cuts the piece of size `placed` out of the origin corner of `free` and adds what
    /// remains to the free list.
    fn split(&mut self, free: FreeRect, placed: Rect)
        requires
            free_within(free, old(self).stock),
            placed.spec_fits_in(free.rect),
        ensures
            final(self).free_rects@ == old(self).free_rects@ + split_remainders(
                free,
                placed,
                old(self).kerf,
                old(self).cut_direction,
            ),
            final(self).placements == old(self).placements,
            final(self).stock == old(self).stock,
            final(self).kerf == old(self).kerf,
            final(self).cut_direction == old(self).cut_direction,
    {
        let ghost before = self.free_rects@;
        let need_l = placed.length as u64 + self.kerf as u64;
        let need_w = placed.width as u64 + self.kerf as u64;
        let right_l: u32 = if free.rect.length as u64 > need_l {
            (free.rect.length as u64 - need_l) as u32
        } else {
            0
        };
        let bottom_w: u32 = if free.rect.width as u64 > need_w {
            (free.rect.width as u64 - need_w) as u32
        } else {
            0
        };
        let ghost rem = split_remainders(free, placed, self.kerf, self.cut_direction);
        if right_l > 0 && bottom_w > 0 {
            let right_x = free.x + placed.length + self.kerf;
            let bottom_y = free.y + placed.width + self.kerf;
            let along_length = match self.cut_direction {
                CutDirection::Auto => free.rect.length - placed.length < free.rect.width
                    - placed.width,
                CutDirection::AlongLength => true,
                CutDirection::AlongWidth => false,
            };
            if along_length {
                self.free_rects.push(
                    FreeRect { x: right_x, y: free.y, rect: Rect::new(right_l, placed.width) },
                );
                self.free_rects.push(
                    FreeRect { x: free.x, y: bottom_y, rect: Rect::new(free.rect.length, bottom_w) },
                );
            } else {
                self.free_rects.push(
                    FreeRect { x: right_x, y: free.y, rect: Rect::new(right_l, free.rect.width) },
                );
                self.free_rects.push(
                    FreeRect { x: free.x, y: bottom_y, rect: Rect::new(placed.length, bottom_w) },
                );
            }
            assert(self.free_rects@ =~= before + rem);
        } else if right_l > 0 {
            let right_x = free.x + placed.length + self.kerf;
            self.free_rects.push(
                FreeRect { x: right_x, y: free.y, rect: Rect::new(right_l, free.rect.width) },
            );
            assert(self.free_rects@ =~= before + rem);
        } else if bottom_w > 0 {
            let bottom_y = free.y + placed.width + self.kerf;
            self.free_rects.push(
                FreeRect { x: free.x, y: bottom_y, rect: Rect::new(free.rect.length, bottom_w) },
            );
            assert(self.free_rects@ =~= before + rem);
        } else {
            assert(self.free_rects@ =~= before + rem);
        }
    }

    /// The rectangle that `a` and `b` form together, if they share a full edge along an
    /// axis that `cut_direction` lets them be joined on.
    fn try_merge(a: FreeRect, b: FreeRect, cut_direction: CutDirection) -> (r: Option<FreeRect>)
        requires
            a.x + a.rect.length <= u32::MAX,
            a.y + a.rect.width <= u32::MAX,
            b.x + b.rect.length <= u32::MAX,
            b.y + b.rect.width <= u32::MAX,
        ensures
            r == merge_of(a, b, cut_direction),
    {
        if cut_direction != CutDirection::AlongWidth && a.y == b.y && a.rect.width == b.rect.width {
            if a.x + a.rect.length == b.x {
                return Some(
                    FreeRect {
                        x: a.x,
                        y: a.y,
                        rect: Rect::new(a.rect.length + b.rect.length, a.rect.width),
                    },
                );
            }
            if b.x + b.rect.length == a.x {
                return Some(
                    FreeRect {
                        x: b.x,
                        y: b.y,
                        rect: Rect::new(a.rect.length + b.rect.length, a.rect.width),
                    },
                );
            }
        }
        if cut_direction != CutDirection::AlongLength && a.x == b.x && a.rect.length
            == b.rect.length {
            if a.y + a.rect.width == b.y {
                return Some(
                    FreeRect {
                        x: a.x,
                        y: a.y,
                        rect: Rect::new(a.rect.length, a.rect.width + b.rect.width),
                    },
                );
            }
            if b.y + b.rect.width == a.y {
                return Some(
                    FreeRect {
                        x: b.x,
                        y: b.y,
                        rect: Rect::new(a.rect.length, a.rect.width + b.rect.width),
                    },
                );
            }
        }
        None
    }

    /// The first pair `(i, j)` with `i < j`, rows first, whose free rectangles merge, and
    /// what they merge into.
    fn find_merge_pair(&self) -> (r: Option<(usize, usize, FreeRect)>)
        requires
            frees_ok(self.free_rects@, self.stock),
        ensures
            match r {
                None => merge_settled(self.free_rects@, self.cut_direction),
                Some((i, j, m)) => {
                    &&& i < j < self.free_rects.len()
                    &&& merge_of(self.free_rects@[i as int], self.free_rects@[j as int], self.cut_direction)
                        == Some(m)
                    &&& no_merge_before(self.free_rects@, self.cut_direction, i as int, j as int)
                },
            },
    {
        let n = self.free_rects.len();
        let mut i: usize = 0;
        while i < n
            invariant
                n == self.free_rects.len(),
                frees_ok(self.free_rects@, self.stock),
                i <= n,
                no_merge_before(self.free_rects@, self.cut_direction, i as int, 0),
            decreases n - i,
        {
            let mut j: usize = i + 1;
            while j < n
                invariant
                    n == self.free_rects.len(),
                    frees_ok(self.free_rects@, self.stock),
                    i < n,
                    i + 1 <= j <= n,
                    no_merge_before(self.free_rects@, self.cut_direction, i as int, j as int),
                decreases n - j,
            {
                proof {
                    self.stock_bounds(i as int);
                    self.stock_bounds(j as int);
                }
                let found = Self::try_merge(self.free_rects[i], self.free_rects[j], self.cut_direction);
                if let Some(m) = found {
                    return Some((i, j, m));
                }
                j = j + 1;
            }
            i = i + 1;
        }
        None
    }

    proof fn stock_bounds(&self, k: int)
        requires
            frees_ok(self.free_rects@, self.stock),
            0 <= k < self.free_rects.len(),
        ensures
            self.free_rects@[k].x + self.free_rects@[k].rect.length <= u32::MAX,
            self.free_rects@[k].y + self.free_rects@[k].rect.width <= u32::MAX,
    {
    }

    /// Merges free rectangles pairwise until no two of them can be merged.
    fn merge_free_rects(&mut self)
        requires
            old(self).wf(),
        ensures
            final(self).wf(),
            final(self).placements == old(self).placements,
            final(self).stock == old(self).stock,
            final(self).kerf == old(self).kerf,
            final(self).cut_direction == old(self).cut_direction,
            final(self).free_rects@ == merged(old(self).free_rects@, old(self).cut_direction),
            free_area(final(self).free_rects@) == free_area(old(self).free_rects@),
            merge_settled(final(self).free_rects@, final(self).cut_direction),
    {
        let mut found_pair = true;
        while found_pair
            invariant
                self.wf(),
                self.placements == old(self).placements,
                self.stock == old(self).stock,
                self.kerf == old(self).kerf,
                self.cut_direction == old(self).cut_direction,
                free_area(self.free_rects@) == free_area(old(self).free_rects@),
                merged(self.free_rects@, self.cut_direction) == merged(
                    old(self).free_rects@,
                    old(self).cut_direction,
                ),
                !found_pair ==> merge_settled(self.free_rects@, self.cut_direction),
            decreases self.free_rects.len() + if found_pair {
                1int
            } else {
                0int
            },
        {
            found_pair = false;
            if let Some((i, j, m)) = self.find_merge_pair() {
                proof {
                    lemma_merged_step(self.free_rects@, self.cut_direction, i as int, j as int);
                    lemma_merge_keeps_layout(
                        self.stock,
                        self.free_rects@,
                        self.placements@,
                        i as int,
                        j as int,
                        self.cut_direction,
                    );
                }
                let ghost fs = self.free_rects@;
                self.free_rects.set(i, m);
                self.free_rects.swap_remove(j);
                assert(self.free_rects@ =~= after_merge(fs, i as int, j as int, m));
                found_pair = true;
            }
        }
        proof {
            lemma_merged_settled(self.free_rects@, self.cut_direction);
        }
    }

    /// Places `piece` as `scored` says: in the chosen free rectangle's origin corner, in the
    /// chosen orientation; the rest of that rectangle is split off and free rectangles merged.
    pub fn place(&mut self, scored: ScoredPlacement, piece: Rect) -> (p: Placement)
        requires
            old(self).wf(),
            piece.is_proper(),
            scored.free_idx < old(self).free_rects.len(),
            oriented(piece, scored.rotated).spec_fits_in(
                old(self).free_rects@[scored.free_idx as int].rect,
            ),
        ensures
            final(self).wf(),
            p == (Placement {
                rect: oriented(piece, scored.rotated),
                x: old(self).free_rects@[scored.free_idx as int].x,
                y: old(self).free_rects@[scored.free_idx as int].y,
                rotated: scored.rotated,
            }),
            final(self).placements@ == old(self).placements@.push(p),
            final(self).stock == old(self).stock,
            final(self).kerf == old(self).kerf,
            final(self).cut_direction == old(self).cut_direction,
            final(self).free_rects@ == merged(
                swap_removed(old(self).free_rects@, scored.free_idx as int) + split_remainders(
                    old(self).free_rects@[scored.free_idx as int],
                    oriented(piece, scored.rotated),
                    old(self).kerf,
                    old(self).cut_direction,
                ),
                old(self).cut_direction,
            ),
            free_area(final(self).free_rects@) == free_area(old(self).free_rects@)
                - old(self).free_rects@[scored.free_idx as int].rect.spec_area() + free_area(
                split_remainders(
                    old(self).free_rects@[scored.free_idx as int],
                    oriented(piece, scored.rotated),
                    old(self).kerf,
                    old(self).cut_direction,
                ),
            ),
            merge_settled(final(self).free_rects@, final(self).cut_direction),
    {
        let free = self.free_rects[scored.free_idx];
        let placed = if scored.rotated {
            piece.rotated()
        } else {
            piece
        };
        let placement = Placement { rect: placed, x: free.x, y: free.y, rotated: scored.rotated };
        proof {
            lemma_cut_keeps_layout(
                self.stock,
                self.free_rects@,
                self.placements@,
                scored.free_idx as int,
                placement,
                self.kerf,
                self.cut_direction,
            );
        }
        let ghost fs = self.free_rects@;
        self.free_rects.swap_remove(scored.free_idx);
        assert(self.free_rects@ =~= swap_removed(fs, scored.free_idx as int));
        self.split(free, placed);
        self.placements.push(placement);
        self.merge_free_rects();
        placement
    }
}

pub proof fn lemma_free_area_nonneg(fs: Seq<FreeRect>)
    ensures
        free_area(fs) >= 0,
    decreases fs.len(),
{
    if fs.len() > 0 {
        lemma_free_area_nonneg(fs.drop_last());
        lemma_u32_product_fits(fs.last().rect.length, fs.last().rect.width);
    }
}

} // verus!
