//! Reading the command line's textual inputs: dimensions `LxW`, cuts `LxW:qty` and cut
//! direction names.

use vstd::prelude::*;
use vstd::string::StringSliceAdditionalSpecFns;

use crate::types::{CutDirection, Demand, PieceGrain, Rect};

verus! {

/// Why a textual input was refused.
#[derive(Debug, Clone, Copy, PartialEq, Eq, Structural)]
pub enum InputError {
    /// Dimensions are not two parts joined by one `x`.
    DimensionsShape,
    /// The length is not a `u32`.
    Length,
    /// The width is not a `u32`.
    Width,
    /// A dimension is zero.
    ZeroDimension,
    /// A cut is not two parts joined by one `:`.
    CutShape,
    /// The quantity is not a `u32`.
    Quantity,
    /// The quantity is zero.
    ZeroQuantity,
    /// Not one of `auto`, `along-length`, `along-width`.
    CutDirectionName,
}

/// ASCII `0`.
pub const DIGIT_0: u8 = 48;

/// ASCII `9`.
pub const DIGIT_9: u8 = 57;

/// ASCII `+`.
pub const PLUS: u8 = 43;

/// ASCII `x`, between length and width.
pub const DIMENSION_SEPARATOR: u8 = 120;

/// ASCII `:`, between dimensions and quantity.
pub const QUANTITY_SEPARATOR: u8 = 58;

/// The ASCII bytes of `auto`.
pub open spec fn auto_name() -> Seq<u8> {
    seq![97u8, 117, 116, 111]
}

/// The ASCII bytes of `along-length`.
pub open spec fn along_length_name() -> Seq<u8> {
    seq![97u8, 108, 111, 110, 103, 45, 108, 101, 110, 103, 116, 104]
}

/// The ASCII bytes of `along-width`.
pub open spec fn along_width_name() -> Seq<u8> {
    seq![97u8, 108, 111, 110, 103, 45, 119, 105, 100, 116, 104]
}

pub open spec fn is_digit(b: u8) -> bool {
    DIGIT_0 <= b <= DIGIT_9
}

/// The number that a string of decimal digits writes.
pub open spec fn digits_value(d: Seq<u8>) -> int
    decreases d.len(),
{
    if d.len() == 0 {
        0
    } else {
        digits_value(d.drop_last()) * 10 + (d.last() - DIGIT_0)
    }
}

/// A `u32` written in decimal: an optional `+`, then one or more digits, with a value that
/// fits.
pub open spec fn decimal_u32(b: Seq<u8>) -> Option<u32> {
    let d = unsigned_part(b);
    if d.len() > 0 && all_digits(d) && digits_value(d) <= u32::MAX {
        Some(digits_value(d) as u32)
    } else {
        None
    }
}

/// The text after an optional leading `+`.
pub open spec fn unsigned_part(b: Seq<u8>) -> Seq<u8> {
    if b.len() > 0 && b[0] == PLUS {
        b.drop_first()
    } else {
        b
    }
}

pub open spec fn all_digits(d: Seq<u8>) -> bool {
    forall|i: int| 0 <= i < d.len() ==> is_digit(#[trigger] d[i])
}

/// How often byte `c` occurs in `b`.
pub open spec fn occurrences(b: Seq<u8>, c: u8) -> int
    decreases b.len(),
{
    if b.len() == 0 {
        0
    } else {
        occurrences(b.drop_last(), c) + if b.last() == c {
            1int
        } else {
            0int
        }
    }
}

/// `b` has exactly one `sep`, at position `k`.
pub open spec fn splits_once_at(b: Seq<u8>, sep: u8, k: int) -> bool {
    0 <= k < b.len() && b[k] == sep && occurrences(b, sep) == 1
}

/// The rectangle that text `LxW` gives, or why it gives none.
pub open spec fn dimensions_of(b: Seq<u8>) -> Result<Rect, InputError> {
    if occurrences(b, DIMENSION_SEPARATOR) != 1 {
        Err(InputError::DimensionsShape)
    } else {
        let k = choose|k: int| splits_once_at(b, DIMENSION_SEPARATOR, k);
        let l = decimal_u32(b.subrange(0, k));
        let w = decimal_u32(b.subrange(k + 1, b.len() as int));
        if l.is_none() {
            Err(InputError::Length)
        } else if w.is_none() {
            Err(InputError::Width)
        } else if l.unwrap() == 0 || w.unwrap() == 0 {
            Err(InputError::ZeroDimension)
        } else {
            Ok(Rect { length: l.unwrap(), width: w.unwrap() })
        }
    }
}

/// The demand that text `LxW:qty` gives, or why it gives none.
pub open spec fn cut_of(b: Seq<u8>, allow_rotate: bool) -> Result<Demand, InputError> {
    if occurrences(b, QUANTITY_SEPARATOR) != 1 {
        Err(InputError::CutShape)
    } else {
        let k = choose|k: int| splits_once_at(b, QUANTITY_SEPARATOR, k);
        let q = decimal_u32(b.subrange(k + 1, b.len() as int));
        match dimensions_of(b.subrange(0, k)) {
            Err(e) => Err(e),
            Ok(rect) => if q.is_none() {
                Err(InputError::Quantity)
            } else if q.unwrap() == 0 {
                Err(InputError::ZeroQuantity)
            } else {
                Ok(Demand { rect, qty: q.unwrap(), allow_rotate, grain: PieceGrain::Auto })
            },
        }
    }
}

/// The cut direction that a name gives, or why it gives none.
pub open spec fn cut_direction_of(b: Seq<u8>) -> Result<CutDirection, InputError> {
    if b == auto_name() {
        Ok(CutDirection::Auto)
    } else if b == along_length_name() {
        Ok(CutDirection::AlongLength)
    } else if b == along_width_name() {
        Ok(CutDirection::AlongWidth)
    } else {
        Err(InputError::CutDirectionName)
    }
}

proof fn lemma_digits_value_nonneg(d: Seq<u8>)
    requires
        forall|i: int| 0 <= i < d.len() ==> is_digit(#[trigger] d[i]),
    ensures
        digits_value(d) >= 0,
    decreases d.len(),
{
    if d.len() > 0 {
        let p = d.drop_last();
        assert(forall|i: int| 0 <= i < p.len() ==> p[i] == d[i]);
        lemma_digits_value_nonneg(p);
        assert(is_digit(d[d.len() - 1]));
    }
}

/// Digits after a prefix never make its value smaller.
proof fn lemma_digits_value_grows(d: Seq<u8>, n: int)
    requires
        0 <= n <= d.len(),
        forall|i: int| 0 <= i < d.len() ==> is_digit(#[trigger] d[i]),
    ensures
        digits_value(d.subrange(0, n)) <= digits_value(d),
    decreases d.len(),
{
    if n == d.len() {
        assert(d.subrange(0, n) =~= d);
    } else {
        let p = d.drop_last();
        assert(forall|i: int| 0 <= i < p.len() ==> p[i] == d[i]);
        lemma_digits_value_grows(p, n);
        assert(p.subrange(0, n) =~= d.subrange(0, n));
        lemma_digits_value_nonneg(p);
        assert(is_digit(d[d.len() - 1]));
    }
}

proof fn lemma_occurrences_prefix(b: Seq<u8>, c: u8, n: int)
    requires
        0 <= n < b.len(),
    ensures
        occurrences(b.subrange(0, n + 1), c) == occurrences(b.subrange(0, n), c) + if b[n] == c {
            1int
        } else {
            0int
        },
{
    assert(b.subrange(0, n + 1).drop_last() =~= b.subrange(0, n));
}

/// The occurrences of `c` before position `n` and from it on add up.
proof fn lemma_occurrences_split(b: Seq<u8>, c: u8, n: int)
    requires
        0 <= n <= b.len(),
    ensures
        occurrences(b, c) == occurrences(b.subrange(0, n), c) + occurrences(
            b.subrange(n, b.len() as int),
            c,
        ),
    decreases b.len() - n,
{
    if n == b.len() {
        assert(b.subrange(0, n) =~= b);
        assert(b.subrange(n, b.len() as int).len() == 0);
    } else {
        lemma_occurrences_split(b, c, n + 1);
        lemma_occurrences_prefix(b, c, n);
        let t = b.subrange(n, b.len() as int);
        let t1 = b.subrange(n + 1, b.len() as int);
        lemma_occurrences_first(t, c);
        assert(t.drop_first() =~= t1);
    }
}

/// Occurrences counted from the front.
proof fn lemma_occurrences_first(b: Seq<u8>, c: u8)
    requires
        b.len() > 0,
    ensures
        occurrences(b, c) == occurrences(b.drop_first(), c) + if b[0] == c {
            1int
        } else {
            0int
        },
    decreases b.len(),
{
    if b.len() > 1 {
        lemma_occurrences_first(b.drop_last(), c);
        assert(b.drop_last().drop_first() =~= b.drop_first().drop_last());
        assert(b.drop_first().last() == b.last());
        assert(b.drop_last()[0] == b[0]);
    } else {
        assert(occurrences(b.drop_first(), c) == 0);
        assert(occurrences(b.drop_last(), c) == 0);
        assert(b.last() == b[0]);
    }
}

/// Where `sep` occurs once, that is its only position.
proof fn lemma_split_unique(b: Seq<u8>, sep: u8, k: int, j: int)
    requires
        splits_once_at(b, sep, k),
        0 <= j < b.len(),
        b[j] == sep,
    ensures
        j == k,
{
    if j != k {
        let lo = if j < k {
            j
        } else {
            k
        };
        let hi = if j < k {
            k
        } else {
            j
        };
        lemma_occurrences_split(b, sep, hi);
        lemma_occurrences_split(b.subrange(0, hi), sep, lo);
        let mid = b.subrange(0, hi).subrange(lo, hi);
        lemma_occurrences_first(mid, sep);
        assert(mid[0] == sep);
        let rest = b.subrange(hi, b.len() as int);
        lemma_occurrences_first(rest, sep);
        assert(rest[0] == sep);
        lemma_occurrences_nonneg(b.subrange(0, hi).subrange(0, lo), sep);
        lemma_occurrences_nonneg(mid.drop_first(), sep);
        lemma_occurrences_nonneg(rest.drop_first(), sep);
    }
}

proof fn lemma_occurrences_nonneg(b: Seq<u8>, c: u8)
    ensures
        occurrences(b, c) >= 0,
    decreases b.len(),
{
    if b.len() > 0 {
        lemma_occurrences_nonneg(b.drop_last(), c);
    }
}

/// The position of the first `sep` in `b` and how often it occurs, in one scan.
fn find_separator(b: &[u8], sep: u8) -> (r: (usize, usize))
    ensures
        r.1 == occurrences(b@, sep),
        r.1 == 1 ==> splits_once_at(b@, sep, r.0 as int),
{
    let mut count: usize = 0;
    let mut at: usize = 0;
    let mut i: usize = 0;
    while i < b.len()
        invariant
            i <= b.len(),
            count == occurrences(b@.subrange(0, i as int), sep),
            count <= i,
            count >= 1 ==> at < i && b@[at as int] == sep,
        decreases b.len() - i,
    {
        proof {
            lemma_occurrences_prefix(b@, sep, i as int);
        }
        if b[i] == sep {
            if count == 0 {
                at = i;
            }
            count = count + 1;
        }
        i = i + 1;
    }
    proof {
        assert(b@.subrange(0, i as int) =~= b@);
    }
    (at, count)
}

/// Reads a `u32` written in decimal, as `str::parse` does.
fn read_u32(b: &[u8], start: usize, end: usize) -> (r: Option<u32>)
    requires
        start <= end <= b.len(),
    ensures
        r == decimal_u32(b@.subrange(start as int, end as int)),
{
    let ghost s = b@.subrange(start as int, end as int);
    let mut i = start;
    if i < end && b[i] == PLUS {
        i = i + 1;
    }
    let ghost d = b@.subrange(i as int, end as int);
    proof {
        if s.len() > 0 && s[0] == PLUS {
            assert(d =~= s.drop_first());
        } else {
            assert(d =~= s);
        }
    }
    if i == end {
        return None;
    }
    let first = i;
    let mut value: u64 = 0;
    while i < end
        invariant
            start <= first <= i <= end <= b.len(),
            d == b@.subrange(first as int, end as int),
            d.len() > 0,
            s == b@.subrange(start as int, end as int),
            d == unsigned_part(s),
            forall|k: int| first <= k < i ==> is_digit(#[trigger] b@[k]),
            value == digits_value(b@.subrange(first as int, i as int)),
            value <= u32::MAX,
        decreases end - i,
    {
        let c = b[i];
        if c < DIGIT_0 || c > DIGIT_9 {
            proof {
                assert(d[i - first] == c);
                assert(!is_digit(d[i - first]));
                assert(!all_digits(d));
            }
            return None;
        }
        proof {
            assert(b@.subrange(first as int, i + 1).drop_last() =~= b@.subrange(
                first as int,
                i as int,
            ));
        }
        value = value * 10 + (c - DIGIT_0) as u64;
        i = i + 1;
        if value > u32::MAX as u64 {
            proof {
                if all_digits(d) {
                    assert(d.subrange(0, i - first) =~= b@.subrange(first as int, i as int));
                    lemma_digits_value_grows(d, i - first);
                    assert(digits_value(d) > u32::MAX);
                }
            }
            return None;
        }
    }
    proof {
        assert(b@.subrange(first as int, i as int) =~= d);
        assert forall|k: int| 0 <= k < d.len() implies is_digit(#[trigger] d[k]) by {
            assert(d[k] == b@[first + k]);
        }
        assert(all_digits(d));
    }
    Some(value as u32)
}

/// Reads dimensions `LxW` from `b[start..end]`.
fn read_dimensions(b: &[u8], start: usize, end: usize) -> (r: Result<Rect, InputError>)
    requires
        start <= end <= b.len(),
    ensures
        r == dimensions_of(b@.subrange(start as int, end as int)),
{
    let ghost s = b@.subrange(start as int, end as int);
    let mut count: usize = 0;
    let mut at: usize = start;
    let mut i: usize = start;
    while i < end
        invariant
            start <= i <= end <= b.len(),
            s == b@.subrange(start as int, end as int),
            count == occurrences(s.subrange(0, i - start), DIMENSION_SEPARATOR),
            count <= i - start,
            count >= 1 ==> start <= at < i && b@[at as int] == DIMENSION_SEPARATOR,
        decreases end - i,
    {
        proof {
            lemma_occurrences_prefix(s, DIMENSION_SEPARATOR, i - start);
            assert(s[i - start] == b@[i as int]);
        }
        if b[i] == DIMENSION_SEPARATOR {
            if count == 0 {
                at = i;
            }
            count = count + 1;
        }
        i = i + 1;
    }
    proof {
        assert(s.subrange(0, i - start) =~= s);
    }
    if count != 1 {
        return Err(InputError::DimensionsShape);
    }
    proof {
        let k = at - start;
        assert(s[k] == DIMENSION_SEPARATOR);
        assert(splits_once_at(s, DIMENSION_SEPARATOR, k));
        let c = choose|c: int| splits_once_at(s, DIMENSION_SEPARATOR, c);
        lemma_split_unique(s, DIMENSION_SEPARATOR, k, c);
        assert(s.subrange(0, k) =~= b@.subrange(start as int, at as int));
        assert(s.subrange(k + 1, s.len() as int) =~= b@.subrange(at + 1, end as int));
    }
    let l = read_u32(b, start, at);
    let w = read_u32(b, at + 1, end);
    match (l, w) {
        (None, _) => Err(InputError::Length),
        (_, None) => Err(InputError::Width),
        (Some(length), Some(width)) => {
            if length == 0 || width == 0 {
                Err(InputError::ZeroDimension)
            } else {
                Ok(Rect::new(length, width))
            }
        },
    }
}

/// Reads dimensions written `LxW`, such as `2400x1200`.
pub fn parse_dimensions(s: &str) -> (r: Result<Rect, InputError>)
    ensures
        r == dimensions_of(s.spec_bytes()),
{
    let b = s.as_bytes();
    proof {
        assert(b@.subrange(0, b@.len() as int) =~= b@);
    }
    read_dimensions(b, 0, b.len())
}

/// Reads a cut written `LxW:qty`, such as `800x600:3`; its grain is unconstrained.
pub fn parse_cut(s: &str, allow_rotate: bool) -> (r: Result<Demand, InputError>)
    ensures
        r == cut_of(s.spec_bytes(), allow_rotate),
{
    let b = s.as_bytes();
    let (at, count) = find_separator(b, QUANTITY_SEPARATOR);
    if count != 1 {
        return Err(InputError::CutShape);
    }
    proof {
        let c = choose|c: int| splits_once_at(b@, QUANTITY_SEPARATOR, c);
        lemma_split_unique(b@, QUANTITY_SEPARATOR, at as int, c);
    }
    let dims = read_dimensions(b, 0, at);
    let q = read_u32(b, at + 1, b.len());
    match dims {
        Err(e) => Err(e),
        Ok(rect) => match q {
            None => Err(InputError::Quantity),
            Some(qty) => {
                if qty == 0 {
                    Err(InputError::ZeroQuantity)
                } else {
                    Ok(Demand { rect, qty, allow_rotate, grain: PieceGrain::Auto })
                }
            },
        },
    }
}

/// Whether `b` holds exactly the bytes of `lit`.
fn bytes_are(b: &[u8], lit: &[u8]) -> (r: bool)
    ensures
        r == (b@ == lit@),
{
    if b.len() != lit.len() {
        return false;
    }
    let mut i: usize = 0;
    while i < b.len()
        invariant
            i <= b.len(),
            b.len() == lit.len(),
            forall|k: int| 0 <= k < i ==> b@[k] == lit@[k],
        decreases b.len() - i,
    {
        if b[i] != lit[i] {
            return false;
        }
        i = i + 1;
    }
    assert(b@ =~= lit@);
    true
}

/// Reads a cut direction name: `auto`, `along-length` or `along-width`.
pub fn parse_cut_direction(s: &str) -> (r: Result<CutDirection, InputError>)
    ensures
        r == cut_direction_of(s.spec_bytes()),
{
    let b = s.as_bytes();
    let auto: [u8; 4] = [97, 117, 116, 111];
    let along_length: [u8; 12] = [97, 108, 111, 110, 103, 45, 108, 101, 110, 103, 116, 104];
    let along_width: [u8; 11] = [97, 108, 111, 110, 103, 45, 119, 105, 100, 116, 104];
    assert(auto@ =~= auto_name());
    assert(along_length@ =~= along_length_name());
    assert(along_width@ =~= along_width_name());
    if bytes_are(b, auto.as_slice()) {
        Ok(CutDirection::Auto)
    } else if bytes_are(b, along_length.as_slice()) {
        Ok(CutDirection::AlongLength)
    } else if bytes_are(b, along_width.as_slice()) {
        Ok(CutDirection::AlongWidth)
    } else {
        Err(InputError::CutDirectionName)
    }
}

} // verus!
