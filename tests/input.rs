use cut_optimizer::input::{parse_cut, parse_cut_direction, parse_dimensions, InputError};
use cut_optimizer::types::{CutDirection, PieceGrain, Rect};

#[test]
fn dimensions_read() {
    assert_eq!(parse_dimensions("2400x1200"), Ok(Rect::new(2400, 1200)));
    assert_eq!(parse_dimensions("+5x+3"), Ok(Rect::new(5, 3)));
    assert_eq!(parse_dimensions("4294967295x1"), Ok(Rect::new(u32::MAX, 1)));
}

#[test]
fn dimensions_refused() {
    assert_eq!(parse_dimensions("2400"), Err(InputError::DimensionsShape));
    assert_eq!(parse_dimensions("1x2x3"), Err(InputError::DimensionsShape));
    assert_eq!(parse_dimensions(""), Err(InputError::DimensionsShape));
    assert_eq!(parse_dimensions("x5"), Err(InputError::Length));
    assert_eq!(parse_dimensions("5x"), Err(InputError::Width));
    assert_eq!(parse_dimensions("-5x5"), Err(InputError::Length));
    assert_eq!(parse_dimensions("5x 5"), Err(InputError::Width));
    assert_eq!(parse_dimensions("+x5"), Err(InputError::Length));
    assert_eq!(parse_dimensions("4294967296x1"), Err(InputError::Length));
    assert_eq!(parse_dimensions("0x5"), Err(InputError::ZeroDimension));
    assert_eq!(parse_dimensions("5x0"), Err(InputError::ZeroDimension));
}

#[test]
fn cuts_read() {
    let d = parse_cut("800x600:3", true).unwrap();
    assert_eq!(d.rect, Rect::new(800, 600));
    assert_eq!(d.qty, 3);
    assert!(d.allow_rotate);
    assert_eq!(d.grain, PieceGrain::Auto);
    let d = parse_cut("40x30:12", false).unwrap();
    assert_eq!((d.rect, d.qty, d.allow_rotate), (Rect::new(40, 30), 12, false));
}

#[test]
fn cuts_refused() {
    assert_eq!(parse_cut("800x600", true).err(), Some(InputError::CutShape));
    assert_eq!(parse_cut("800x600:3:1", true).err(), Some(InputError::CutShape));
    assert_eq!(parse_cut("800:3", true).err(), Some(InputError::DimensionsShape));
    assert_eq!(parse_cut("ax600:3", true).err(), Some(InputError::Length));
    assert_eq!(parse_cut("800x600:", true).err(), Some(InputError::Quantity));
    assert_eq!(parse_cut("800x600:three", true).err(), Some(InputError::Quantity));
    assert_eq!(parse_cut("800x600:0", true).err(), Some(InputError::ZeroQuantity));
    assert_eq!(parse_cut("0x600:2", true).err(), Some(InputError::ZeroDimension));
}

#[test]
fn cut_direction_names() {
    assert_eq!(parse_cut_direction("auto"), Ok(CutDirection::Auto));
    assert_eq!(parse_cut_direction("along-length"), Ok(CutDirection::AlongLength));
    assert_eq!(parse_cut_direction("along-width"), Ok(CutDirection::AlongWidth));
    assert_eq!(parse_cut_direction("Auto"), Err(InputError::CutDirectionName));
    assert_eq!(parse_cut_direction("along"), Err(InputError::CutDirectionName));
    assert_eq!(parse_cut_direction(""), Err(InputError::CutDirectionName));
}
