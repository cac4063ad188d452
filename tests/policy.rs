use cut_optimizer::solver::Solver;
use cut_optimizer::types::{
    CutDirection, Demand, PieceGrain, Rect, RotationConstraint, SheetResult, Solution, StockGrain,
};

fn demand(length: u32, width: u32, qty: u32, allow_rotate: bool, grain: PieceGrain) -> Demand {
    Demand { rect: Rect::new(length, width), qty, allow_rotate, grain }
}

#[test]
fn rect_basics() {
    let r = Rect::new(30, 50);
    assert_eq!(r.area(), 1500);
    assert_eq!(r.rotated(), Rect::new(50, 30));
    assert!(r.fits_in(&Rect::new(30, 50)));
    assert!(!r.fits_in(&Rect::new(50, 30)));
    assert!(r.rotated().fits_in(&Rect::new(50, 30)));
    assert_eq!(Rect::new(u32::MAX, u32::MAX).area(), (u32::MAX as u64) * (u32::MAX as u64));
}

#[test]
fn grain_reconciliation() {
    assert_eq!(RotationConstraint::from_grain(StockGrain::NoGrain, PieceGrain::Length, true), RotationConstraint::Free);
    assert_eq!(RotationConstraint::from_grain(StockGrain::NoGrain, PieceGrain::Width, false), RotationConstraint::NoRotate);
    assert_eq!(RotationConstraint::from_grain(StockGrain::AlongLength, PieceGrain::Auto, true), RotationConstraint::Free);
    assert_eq!(RotationConstraint::from_grain(StockGrain::AlongWidth, PieceGrain::Auto, false), RotationConstraint::NoRotate);
    assert_eq!(RotationConstraint::from_grain(StockGrain::AlongLength, PieceGrain::Length, true), RotationConstraint::NoRotate);
    assert_eq!(RotationConstraint::from_grain(StockGrain::AlongWidth, PieceGrain::Width, true), RotationConstraint::NoRotate);
    assert_eq!(RotationConstraint::from_grain(StockGrain::AlongLength, PieceGrain::Width, true), RotationConstraint::ForceRotate);
    assert_eq!(RotationConstraint::from_grain(StockGrain::AlongWidth, PieceGrain::Length, false), RotationConstraint::ForceRotate);
}

#[test]
fn cut_direction_bias() {
    let tall = Rect::new(30, 50);
    let wide = Rect::new(50, 30);
    let square = Rect::new(40, 40);
    let free = RotationConstraint::Free;
    assert_eq!(free.with_cut_direction(CutDirection::AlongLength, tall), RotationConstraint::ForceRotate);
    assert_eq!(free.with_cut_direction(CutDirection::AlongLength, wide), RotationConstraint::NoRotate);
    assert_eq!(free.with_cut_direction(CutDirection::AlongWidth, wide), RotationConstraint::ForceRotate);
    assert_eq!(free.with_cut_direction(CutDirection::AlongWidth, tall), RotationConstraint::NoRotate);
    assert_eq!(free.with_cut_direction(CutDirection::Auto, tall), RotationConstraint::Free);
    assert_eq!(free.with_cut_direction(CutDirection::AlongLength, square), RotationConstraint::Free);
    // grain decisions are kept
    assert_eq!(
        RotationConstraint::NoRotate.with_cut_direction(CutDirection::AlongLength, tall),
        RotationConstraint::NoRotate
    );
    assert_eq!(
        RotationConstraint::ForceRotate.with_cut_direction(CutDirection::AlongWidth, tall),
        RotationConstraint::ForceRotate
    );
}

#[test]
fn single_piece_quarter_sheet() {
    let sol = Solver::new(
        Rect::new(100, 100),
        0,
        CutDirection::Auto,
        StockGrain::NoGrain,
        vec![demand(50, 50, 1, true, PieceGrain::Auto)],
    )
    .solve();
    assert_eq!(sol.sheet_count(), 1);
    assert_eq!(sol.sheets[0].placements.len(), 1);
    let p = sol.sheets[0].placements[0];
    assert_eq!((p.x, p.y), (0, 0));
    assert_eq!(sol.sheets[0].waste_area, 7500);
    assert_eq!(sol.total_stock_area(), 10000);
    assert_eq!(sol.total_waste_area(), 7500);
    assert_eq!(sol.total_waste_area() as f64 / sol.total_stock_area() as f64 * 100.0, 75.0);
}

#[test]
fn four_quarters_tile_the_sheet() {
    let sol = Solver::new(
        Rect::new(100, 100),
        0,
        CutDirection::Auto,
        StockGrain::NoGrain,
        vec![demand(50, 50, 4, false, PieceGrain::Auto)],
    )
    .solve();
    assert_eq!(sol.sheet_count(), 1);
    let mut origins: Vec<(u32, u32)> = sol.sheets[0].placements.iter().map(|p| (p.x, p.y)).collect();
    origins.sort();
    assert_eq!(origins, vec![(0, 0), (0, 50), (50, 0), (50, 50)]);
    assert_eq!(sol.sheets[0].waste_area, 0);
    assert_eq!(sol.total_waste_area(), 0);
}

#[test]
fn oversized_quarters_one_per_sheet() {
    let sol = Solver::new(
        Rect::new(100, 100),
        0,
        CutDirection::Auto,
        StockGrain::NoGrain,
        vec![demand(60, 60, 4, false, PieceGrain::Auto)],
    )
    .solve();
    assert_eq!(sol.sheet_count(), 4);
    for s in &sol.sheets {
        assert_eq!(s.placements.len(), 1);
        assert_eq!(s.waste_area, 10000 - 3600);
    }
}

#[test]
fn grain_forces_rotation() {
    let stock = Rect::new(100, 50);
    let d = demand(50, 100, 1, true, PieceGrain::Width);
    assert_eq!(
        RotationConstraint::from_grain(StockGrain::AlongLength, d.grain, d.allow_rotate)
            .with_cut_direction(CutDirection::Auto, d.rect),
        RotationConstraint::ForceRotate
    );
    let sol = Solver::new(stock, 0, CutDirection::Auto, StockGrain::AlongLength, vec![d]).solve();
    assert_eq!(sol.sheet_count(), 1);
    let p = sol.sheets[0].placements[0];
    assert!(p.rotated);
    assert_eq!(p.rect, Rect::new(100, 50));
}

#[test]
fn no_rotate_pieces_never_rotated() {
    let sol = Solver::new(
        Rect::new(300, 200),
        2,
        CutDirection::Auto,
        StockGrain::NoGrain,
        vec![demand(120, 80, 5, false, PieceGrain::Auto), demand(90, 60, 4, false, PieceGrain::Auto)],
    )
    .solve();
    let total: usize = sol.sheets.iter().map(|s| s.placements.len()).sum();
    assert_eq!(total, 9);
    for s in &sol.sheets {
        for p in &s.placements {
            assert!(!p.rotated);
        }
    }
}

#[test]
fn force_rotate_pieces_always_rotated() {
    let sol = Solver::new(
        Rect::new(300, 200),
        0,
        CutDirection::Auto,
        StockGrain::AlongLength,
        vec![demand(80, 120, 6, true, PieceGrain::Width)],
    )
    .solve();
    let total: usize = sol.sheets.iter().map(|s| s.placements.len()).sum();
    assert_eq!(total, 6);
    for s in &sol.sheets {
        for p in &s.placements {
            assert!(p.rotated);
            assert_eq!(p.rect, Rect::new(120, 80));
        }
    }
}

#[test]
fn larger_kerf_needs_no_fewer_sheets() {
    let make = |kerf: u32| {
        Solver::new(
            Rect::new(100, 100),
            kerf,
            CutDirection::Auto,
            StockGrain::NoGrain,
            vec![demand(50, 100, 2, false, PieceGrain::Auto), demand(30, 30, 3, false, PieceGrain::Auto)],
        )
        .solve()
        .sheet_count()
    };
    assert!(make(0) <= make(5));
    assert!(make(5) <= make(10));
}

#[test]
fn rotation_needs_no_more_sheets() {
    let make = |allow_rotate: bool| {
        Solver::new(
            Rect::new(200, 100),
            0,
            CutDirection::Auto,
            StockGrain::NoGrain,
            vec![
                demand(120, 60, 2, allow_rotate, PieceGrain::Auto),
                demand(60, 100, 2, allow_rotate, PieceGrain::Auto),
                demand(90, 40, 3, allow_rotate, PieceGrain::Auto),
            ],
        )
        .solve()
        .sheet_count()
    };
    assert!(make(true) <= make(false));
}

#[test]
fn sheet_count_covers_placed_area() {
    let sol = Solver::new(
        Rect::new(500, 400),
        3,
        CutDirection::AlongWidth,
        StockGrain::NoGrain,
        vec![demand(200, 150, 5, true, PieceGrain::Auto), demand(250, 180, 4, true, PieceGrain::Auto)],
    )
    .solve();
    let placed: u64 = sol.sheets.iter().flat_map(|s| &s.placements).map(|p| p.rect.area()).sum();
    let stock_area = sol.stock.area();
    assert!(sol.sheet_count() as u64 >= placed.div_ceil(stock_area));
    let waste: u64 = sol.sheets.iter().map(|s| s.waste_area).sum();
    assert_eq!(waste as u128, sol.total_waste_area());
    assert_eq!(sol.total_stock_area(), stock_area as u128 * sol.sheet_count() as u128);
    assert_eq!(placed as u128 + sol.total_waste_area(), sol.total_stock_area());
    assert!(sol.total_waste_area() < sol.total_stock_area());
}

#[test]
fn empty_solution_totals() {
    let sol = Solution { sheets: vec![], stock: Rect::new(10, 10) };
    assert_eq!(sol.sheet_count(), 0);
    assert_eq!(sol.total_stock_area(), 0);
    assert_eq!(sol.total_waste_area(), 0);
    let one = Solution {
        sheets: vec![SheetResult { placements: vec![], waste_area: 42 }],
        stock: Rect::new(10, 10),
    };
    assert_eq!(one.total_waste_area(), 42);
    assert_eq!(one.total_stock_area(), 100);
}
