use vstd::prelude::*;

use crate::plan::sheets_ok;
use crate::types::{
    lemma_u32_product_fits, lemma_used_area_nonneg, placed_area, total_waste, used_area,
    Placement, Rect, SheetResult,
};

verus! {

/// A non-empty list of proper placements covers a positive area.
pub proof fn lemma_used_area_positive(ps: Seq<Placement>)
    requires
        ps.len() > 0,
        forall|i: int| 0 <= i < ps.len() ==> (#[trigger] ps[i]).rect.is_proper(),
    ensures
        used_area(ps) > 0,
{
    let l = ps.last();
    assert(l.rect.is_proper());
    lemma_used_area_nonneg(ps.drop_last());
    assert(l.rect.length * l.rect.width > 0) by (nonlinear_arith)
        requires
            l.rect.length > 0,
            l.rect.width > 0,
    ;
}

/// Valid sheets: every sheet's placed area is positive and at most the stock area, the
/// waste over the sheets is what the sheets' area leaves unplaced, and the placed area is
/// positive when there is a sheet.
pub proof fn lemma_sheets_area(sheets: Seq<SheetResult>, stock: Rect)
    requires
        stock.is_proper(),
        sheets_ok(sheets, stock),
    ensures
        placed_area(sheets) <= sheets.len() * stock.spec_area(),
        total_waste(sheets) == sheets.len() * stock.spec_area() - placed_area(sheets),
        sheets.len() > 0 ==> placed_area(sheets) > 0,
    decreases sheets.len(),
{
    if sheets.len() > 0 {
        let d = sheets.drop_last();
        assert forall|s: int| 0 <= s < d.len() implies {
            &&& crate::types::placements_ok((#[trigger] d[s]).placements@, stock)
            &&& d[s].placements.len() > 0
            &&& d[s].waste_area == stock.spec_area() - used_area(d[s].placements@)
        } by {
            assert(d[s] == sheets[s]);
        }
        lemma_sheets_area(d, stock);
        let l = sheets.last();
        assert(sheets[sheets.len() - 1] == l);
        assert(l.waste_area == stock.spec_area() - used_area(l.placements@));
        lemma_used_area_positive(l.placements@);
        assert(sheets.len() * stock.spec_area() == d.len() * stock.spec_area()
            + stock.spec_area()) by (nonlinear_arith)
            requires
                sheets.len() == d.len() + 1,
        ;
    } else {
        assert(sheets.len() * stock.spec_area() == 0) by (nonlinear_arith)
            requires
                sheets.len() == 0,
        ;
    }
}

/// The sheet count is at least the placed area divided by the stock area, rounded up.
pub proof fn lemma_sheet_count_area_bound(sheets: Seq<SheetResult>, stock: Rect)
    requires
        stock.is_proper(),
        sheets_ok(sheets, stock),
    ensures
        sheets.len() >= (placed_area(sheets) + stock.spec_area() - 1) / stock.spec_area(),
{
    lemma_sheets_area(sheets, stock);
    let a = stock.spec_area();
    let p = placed_area(sheets);
    let n = sheets.len() as int;
    assert(a > 0) by (nonlinear_arith)
        requires
            a == stock.length * stock.width,
            stock.length > 0,
            stock.width > 0,
    ;
    assert((p + a - 1) / a <= n) by (nonlinear_arith)
        requires
            a > 0,
            0 <= p <= n * a,
    ;
}

/// The waste share of valid sheets, waste over the sheets' area, lies in `[0, 1)` when
/// there is a sheet, and is zero exactly when the placed area fills every sheet.
pub proof fn lemma_waste_share(sheets: Seq<SheetResult>, stock: Rect)
    requires
        stock.is_proper(),
        sheets_ok(sheets, stock),
    ensures
        sheets.len() > 0 ==> 0 <= total_waste(sheets) < sheets.len() * stock.spec_area(),
        total_waste(sheets) == 0 <==> placed_area(sheets) == sheets.len() * stock.spec_area(),
{
    lemma_sheets_area(sheets, stock);
}

} // verus!
