use vstd::prelude::*;

verus! {

/// An axis-aligned rectangle: `length` runs along the x axis, `width` along the y axis.
#[derive(Debug, Clone, Copy, PartialEq, Eq, Hash, Structural)]
pub struct Rect {
    pub length: u32,
    pub width: u32,
}

/// The product of two `u32` values always fits in a `u64`.
pub proof fn lemma_u32_product_fits(a: u32, b: u32)
    ensures
        0 <= a * b <= u32::MAX * u32::MAX,
        u32::MAX * u32::MAX < u64::MAX,
{
    assert(0 <= a * b <= u32::MAX * u32::MAX) by (nonlinear_arith)
        requires
            0 <= a <= u32::MAX,
            0 <= b <= u32::MAX,
    ;
}

impl Rect {
    pub open spec fn spec_area(&self) -> int {
        self.length * self.width
    }

    pub open spec fn spec_rotated(&self) -> Rect {
        Rect { length: self.width, width: self.length }
    }

    pub open spec fn spec_fits_in(&self, outer: Rect) -> bool {
        self.length <= outer.length && self.width <= outer.width
    }

    /// Both dimensions are non-zero.
    pub open spec fn is_proper(&self) -> bool {
        self.length > 0 && self.width > 0
    }

    /// A rectangle of the given length and width.
    pub fn new(length: u32, width: u32) -> (r: Rect)
        ensures
            r.length == length,
            r.width == width,
    {
        Rect { length, width }
    }

    /// Length times width, which always fits in a `u64`.
    pub fn area(&self) -> (r: u64)
        ensures
            r == self.spec_area(),
    {
        proof {
            lemma_u32_product_fits(self.length, self.width);
        }
        self.length as u64 * self.width as u64
    }

    /// The rectangle turned by a quarter: length and width swapped.
    pub fn rotated(&self) -> (r: Rect)
        ensures
            r == self.spec_rotated(),
    {
        Rect { length: self.width, width: self.length }
    }

    /// Whether neither dimension exceeds the other rectangle's.
    pub fn fits_in(&self, other: &Rect) -> (r: bool)
        ensures
            r == self.spec_fits_in(*other),
    {
        self.length <= other.length && self.width <= other.width
    }
}

/// A piece that fits in another has no larger area.
pub proof fn lemma_fits_area(inner: Rect, outer: Rect)
    requires
        inner.spec_fits_in(outer),
    ensures
        inner.spec_area() <= outer.spec_area(),
{
    assert(inner.length * inner.width <= outer.length * outer.width) by (nonlinear_arith)
        requires
            0 <= inner.length <= outer.length,
            0 <= inner.width <= outer.width,
    ;
}

/// Grain direction of the stock sheets; with `NoGrain` the pieces' grain is ignored.
#[derive(Debug, Clone, Copy, PartialEq, Eq, Structural)]
pub enum StockGrain {
    NoGrain,
    AlongLength,
    AlongWidth,
}

/// Grain direction of a demanded piece; `Auto` leaves it unconstrained.
#[derive(Debug, Clone, Copy, PartialEq, Eq, Structural)]
pub enum PieceGrain {
    Auto,
    Length,
    Width,
}

/// Preferred direction of the cuts on a sheet.
#[derive(Debug, Clone, Copy, PartialEq, Eq, Structural)]
pub enum CutDirection {
    Auto,
    AlongLength,
    AlongWidth,
}

/// The orientations a piece may take on a sheet.
#[derive(Debug, Clone, Copy, PartialEq, Eq, Structural)]
pub enum RotationConstraint {
    NoRotate,
    ForceRotate,
    Free,
}

/// The constraint that grain alone imposes.
pub open spec fn grain_constraint(
    stock_grain: StockGrain,
    piece_grain: PieceGrain,
    allow_rotate: bool,
) -> RotationConstraint {
    match (stock_grain, piece_grain) {
        (StockGrain::NoGrain, _) | (_, PieceGrain::Auto) => if allow_rotate {
            RotationConstraint::Free
        } else {
            RotationConstraint::NoRotate
        },
        (StockGrain::AlongLength, PieceGrain::Length) | (
            StockGrain::AlongWidth,
            PieceGrain::Width,
        ) => RotationConstraint::NoRotate,
        _ => RotationConstraint::ForceRotate,
    }
}

/// A `Free` constraint on a non-square piece, narrowed by the cut direction.
pub open spec fn cut_bias(
    c: RotationConstraint,
    cut_direction: CutDirection,
    piece: Rect,
) -> RotationConstraint {
    if c != RotationConstraint::Free || piece.length == piece.width {
        c
    } else {
        match cut_direction {
            CutDirection::Auto => c,
            CutDirection::AlongLength => if piece.length < piece.width {
                RotationConstraint::ForceRotate
            } else {
                RotationConstraint::NoRotate
            },
            CutDirection::AlongWidth => if piece.width < piece.length {
                RotationConstraint::ForceRotate
            } else {
                RotationConstraint::NoRotate
            },
        }
    }
}

/// Whether a constraint admits the orientation given by `rotated`.
pub open spec fn orientation_allowed(c: RotationConstraint, rotated: bool) -> bool {
    if rotated {
        c != RotationConstraint::NoRotate
    } else {
        c != RotationConstraint::ForceRotate
    }
}

/// A piece in the orientation given by `rotated`.
pub open spec fn oriented(piece: Rect, rotated: bool) -> Rect {
    if rotated {
        piece.spec_rotated()
    } else {
        piece
    }
}

impl RotationConstraint {
    /// The constraint that grain alone imposes; `allow_rotate` decides where grain does not.
    pub fn from_grain(stock_grain: StockGrain, piece_grain: PieceGrain, allow_rotate: bool) -> (r:
        RotationConstraint)
        ensures
            r == grain_constraint(stock_grain, piece_grain, allow_rotate),
    {
        match (stock_grain, piece_grain) {
            (StockGrain::NoGrain, _) | (_, PieceGrain::Auto) => {
                if allow_rotate {
                    RotationConstraint::Free
                } else {
                    RotationConstraint::NoRotate
                }
            },
            (StockGrain::AlongLength, PieceGrain::Length) | (
                StockGrain::AlongWidth,
                PieceGrain::Width,
            ) => RotationConstraint::NoRotate,
            _ => RotationConstraint::ForceRotate,
        }
    }

    /// The constraint narrowed by the cut direction, for a piece of the given size.
    pub fn with_cut_direction(self, cut_direction: CutDirection, piece: Rect) -> (r:
        RotationConstraint)
        ensures
            r == cut_bias(self, cut_direction, piece),
    {
        if self != RotationConstraint::Free || piece.length == piece.width {
            return self;
        }
        match cut_direction {
            CutDirection::Auto => self,
            CutDirection::AlongLength => {
                if piece.length < piece.width {
                    RotationConstraint::ForceRotate
                } else {
                    RotationConstraint::NoRotate
                }
            },
            CutDirection::AlongWidth => {
                if piece.width < piece.length {
                    RotationConstraint::ForceRotate
                } else {
                    RotationConstraint::NoRotate
                }
            },
        }
    }
}

/// A demanded piece: its size, how many are needed, and how it may be turned.
#[derive(Debug, Clone, Copy)]
pub struct Demand {
    pub rect: Rect,
    pub qty: u32,
    pub allow_rotate: bool,
    pub grain: PieceGrain,
}

/// The rotation constraint that a demand gets on stock of the given grain under the
/// given cut direction.
pub open spec fn demand_constraint(
    d: Demand,
    stock_grain: StockGrain,
    cut_direction: CutDirection,
) -> RotationConstraint {
    cut_bias(grain_constraint(stock_grain, d.grain, d.allow_rotate), cut_direction, d.rect)
}

/// A piece as placed on a sheet: its oriented size and its origin.
#[derive(Debug, Clone, Copy, PartialEq, Eq, Structural)]
pub struct Placement {
    pub rect: Rect,
    pub x: u32,
    pub y: u32,
    pub rotated: bool,
}

/// Two boxes, each given by its origin and extent, share interior points.
pub open spec fn boxes_overlap(
    ax: u32,
    ay: u32,
    al: u32,
    aw: u32,
    bx: u32,
    by: u32,
    bl: u32,
    bw: u32,
) -> bool {
    ax < bx + bl && bx < ax + al && ay < by + bw && by < ay + aw
}

/// A placement lies within a sheet of the given stock size.
pub open spec fn placement_within(p: Placement, stock: Rect) -> bool {
    p.x + p.rect.length <= stock.length && p.y + p.rect.width <= stock.width
}

pub open spec fn placements_overlap(a: Placement, b: Placement) -> bool {
    boxes_overlap(a.x, a.y, a.rect.length, a.rect.width, b.x, b.y, b.rect.length, b.rect.width)
}

/// Every placement is a proper rectangle inside the sheet, and no two of them overlap.
pub open spec fn placements_ok(ps: Seq<Placement>, stock: Rect) -> bool {
    &&& forall|i: int|
        0 <= i < ps.len() ==> (#[trigger] ps[i]).rect.is_proper() && placement_within(ps[i], stock)
    &&& forall|i: int, j: int|
        0 <= i < ps.len() && 0 <= j < ps.len() && i != j ==> !#[trigger] placements_overlap(
            ps[i],
            ps[j],
        )
}

/// The total area of a list of placements.
pub open spec fn used_area(ps: Seq<Placement>) -> int
    decreases ps.len(),
{
    if ps.len() == 0 {
        0
    } else {
        used_area(ps.drop_last()) + ps.last().rect.spec_area()
    }
}

pub proof fn lemma_used_area_push(ps: Seq<Placement>, p: Placement)
    ensures
        used_area(ps.push(p)) == used_area(ps) + p.rect.spec_area(),
{
    assert(ps.push(p).drop_last() =~= ps);
}

/// The area of every prefix of a list of placements is at most the area of the whole.
pub proof fn lemma_used_area_prefix(ps: Seq<Placement>, n: int)
    requires
        0 <= n <= ps.len(),
    ensures
        0 <= used_area(ps.subrange(0, n)) <= used_area(ps),
    decreases ps.len(),
{
    if n == ps.len() {
        assert(ps.subrange(0, n) =~= ps);
        lemma_used_area_nonneg(ps);
    } else {
        lemma_used_area_prefix(ps.drop_last(), n);
        assert(ps.drop_last().subrange(0, n) =~= ps.subrange(0, n));
        lemma_u32_product_fits(ps.last().rect.length, ps.last().rect.width);
    }
}

pub proof fn lemma_used_area_nonneg(ps: Seq<Placement>)
    ensures
        used_area(ps) >= 0,
    decreases ps.len(),
{
    if ps.len() > 0 {
        lemma_used_area_nonneg(ps.drop_last());
        lemma_u32_product_fits(ps.last().rect.length, ps.last().rect.width);
    }
}

/// One stock sheet of a solution: what was placed on it and the area left over.
#[derive(Debug, Clone)]
pub struct SheetResult {
    pub placements: Vec<Placement>,
    pub waste_area: u64,
}

/// A cutting plan: the sheets used, all of one stock size.
#[derive(Debug, Clone)]
pub struct Solution {
    pub sheets: Vec<SheetResult>,
    pub stock: Rect,
}

/// The area placed over all sheets.
pub open spec fn placed_area(sheets: Seq<SheetResult>) -> int
    decreases sheets.len(),
{
    if sheets.len() == 0 {
        0
    } else {
        placed_area(sheets.drop_last()) + used_area(sheets.last().placements@)
    }
}

/// The waste recorded over all sheets.
pub open spec fn total_waste(sheets: Seq<SheetResult>) -> int
    decreases sheets.len(),
{
    if sheets.len() == 0 {
        0
    } else {
        total_waste(sheets.drop_last()) + sheets.last().waste_area
    }
}

impl Solution {
    /// The number of sheets used.
    pub fn sheet_count(&self) -> (r: usize)
        ensures
            r == self.sheets.len(),
    {
        self.sheets.len()
    }

    /// The area of all sheets used.
    pub fn total_stock_area(&self) -> (r: u128)
        ensures
            r == self.stock.spec_area() * self.sheets.len(),
    {
        let a = self.stock.area();
        let n = self.sheets.len();
        proof {
            assert(a * n <= u64::MAX * u64::MAX) by (nonlinear_arith)
                requires
                    a <= u64::MAX,
                    n <= u64::MAX,
            ;
        }
        a as u128 * n as u128
    }

    /// The waste recorded over all sheets.
    pub fn total_waste_area(&self) -> (r: u128)
        ensures
            r == total_waste(self.sheets@),
    {
        let mut sum: u128 = 0;
        let mut i: usize = 0;
        while i < self.sheets.len()
            invariant
                i <= self.sheets.len(),
                sum == total_waste(self.sheets@.subrange(0, i as int)),
                sum <= i * (u64::MAX as int),
            decreases self.sheets.len() - i,
        {
            proof {
                assert(self.sheets@.subrange(0, i + 1).drop_last() =~= self.sheets@.subrange(
                    0,
                    i as int,
                ));
                assert((i + 1) * (u64::MAX as int) <= u64::MAX * u64::MAX) by (nonlinear_arith)
                    requires
                        i < u64::MAX,
                ;
            }
            sum = sum + self.sheets[i].waste_area as u128;
            i = i + 1;
        }
        proof {
            assert(self.sheets@.subrange(0, i as int) =~= self.sheets@);
        }
        sum
    }
}

} // verus!
