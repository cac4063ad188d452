use vstd::prelude::*;

use crate::guillotine::{
    after_merge, free_area, free_overlaps_placement, free_within, frees_clear, frees_ok,
    frees_overlap, leftover, lemma_free_area_nonneg, merge_of, split_remainders,
    splits_along_length, swap_removed, FreeRect,
};
use crate::types::{
    boxes_overlap, lemma_u32_product_fits, lemma_used_area_push, placement_within,
    placements_ok, placements_overlap, used_area, CutDirection, Placement, Rect,
};

verus! {

/// `inner` lies within `outer`.
pub open spec fn free_inside(inner: FreeRect, outer: FreeRect) -> bool {
    &&& outer.x <= inner.x
    &&& outer.y <= inner.y
    &&& inner.x + inner.rect.length <= outer.x + outer.rect.length
    &&& inner.y + inner.rect.width <= outer.y + outer.rect.width
}

pub proof fn lemma_free_area_concat(a: Seq<FreeRect>, b: Seq<FreeRect>)
    ensures
        free_area(a + b) == free_area(a) + free_area(b),
    decreases b.len(),
{
    if b.len() == 0 {
        assert(a + b =~= a);
    } else {
        lemma_free_area_concat(a, b.drop_last());
        assert((a + b).drop_last() =~= a + b.drop_last());
    }
}

pub proof fn lemma_free_area_update(fs: Seq<FreeRect>, k: int, f: FreeRect)
    requires
        0 <= k < fs.len(),
    ensures
        free_area(fs.update(k, f)) == free_area(fs) - fs[k].rect.spec_area() + f.rect.spec_area(),
    decreases fs.len(),
{
    if k == fs.len() - 1 {
        assert(fs.update(k, f).drop_last() =~= fs.drop_last());
    } else {
        lemma_free_area_update(fs.drop_last(), k, f);
        assert(fs.update(k, f).drop_last() =~= fs.drop_last().update(k, f));
    }
}

pub proof fn lemma_free_area_swap_removed(fs: Seq<FreeRect>, k: int)
    requires
        0 <= k < fs.len(),
    ensures
        free_area(swap_removed(fs, k)) == free_area(fs) - fs[k].rect.spec_area(),
{
    lemma_free_area_update(fs, k, fs.last());
}

/// The area of every prefix of a list of free rectangles is at most the area of the whole.
pub proof fn lemma_free_area_prefix(fs: Seq<FreeRect>, n: int)
    requires
        0 <= n <= fs.len(),
    ensures
        0 <= free_area(fs.subrange(0, n)) <= free_area(fs),
    decreases fs.len(),
{
    if n == fs.len() {
        assert(fs.subrange(0, n) =~= fs);
        lemma_free_area_nonneg(fs);
    } else {
        lemma_free_area_prefix(fs.drop_last(), n);
        assert(fs.drop_last().subrange(0, n) =~= fs.subrange(0, n));
        lemma_u32_product_fits(fs.last().rect.length, fs.last().rect.width);
    }
}

/// The area of a list of at most two free rectangles.
proof fn lemma_free_area_short(fs: Seq<FreeRect>)
    requires
        fs.len() <= 2,
    ensures
        fs.len() == 0 ==> free_area(fs) == 0,
        fs.len() == 1 ==> free_area(fs) == fs[0].rect.spec_area(),
        fs.len() == 2 ==> free_area(fs) == fs[0].rect.spec_area() + fs[1].rect.spec_area(),
{
    if fs.len() >= 1 {
        let d = fs.drop_last();
        if fs.len() == 2 {
            let dd = d.drop_last();
            assert(free_area(dd) == 0);
            assert(free_area(d) == free_area(dd) + d.last().rect.spec_area());
            assert(d.last() == fs[0]);
        } else {
            assert(free_area(d) == 0);
        }
    }
}

/// What is split off a free rectangle: proper rectangles inside it, clear of the piece and
/// of each other, whose areas with the piece's do not exceed the rectangle's.
pub proof fn lemma_remainders(f: FreeRect, p: Placement, kerf: u32, cd: CutDirection)
    requires
        f.x + f.rect.length <= u32::MAX,
        f.y + f.rect.width <= u32::MAX,
        p.rect.is_proper(),
        p.rect.spec_fits_in(f.rect),
        p.x == f.x,
        p.y == f.y,
    ensures
        split_remainders(f, p.rect, kerf, cd).len() <= 2,
        forall|t: int|
            0 <= t < split_remainders(f, p.rect, kerf, cd).len() ==> {
                &&& (#[trigger] split_remainders(f, p.rect, kerf, cd)[t]).rect.is_proper()
                &&& free_inside(split_remainders(f, p.rect, kerf, cd)[t], f)
                &&& !free_overlaps_placement(split_remainders(f, p.rect, kerf, cd)[t], p)
            },
        forall|t: int, u: int|
            0 <= t < split_remainders(f, p.rect, kerf, cd).len() && 0 <= u < split_remainders(
                f,
                p.rect,
                kerf,
                cd,
            ).len() && t != u ==> !#[trigger] frees_overlap(
                split_remainders(f, p.rect, kerf, cd)[t],
                split_remainders(f, p.rect, kerf, cd)[u],
            ),
        p.rect.spec_area() + free_area(split_remainders(f, p.rect, kerf, cd))
            <= f.rect.spec_area(),
{
    let rem = split_remainders(f, p.rect, kerf, cd);
    let fl = f.rect.length as int;
    let fw = f.rect.width as int;
    let pl = p.rect.length as int;
    let pw = p.rect.width as int;
    let rl = leftover(f.rect.length, p.rect.length, kerf);
    let rw = leftover(f.rect.width, p.rect.width, kerf);
    lemma_free_area_short(rem);
    assert(0 <= rl && pl + rl <= fl);
    assert(0 <= rw && pw + rw <= fw);
    if rl > 0 && rw > 0 {
        assert(rem.len() == 2);
        assert(rem[0].rect.length == rl && rem[1].rect.width == rw);
        if splits_along_length(cd, f.rect, p.rect) {
            assert(rem[0].rect.width == pw && rem[1].rect.length == fl);
            assert(pl * pw + rl * pw + fl * rw <= fl * fw) by (nonlinear_arith)
                requires
                    0 <= pl,
                    0 <= pw,
                    0 <= rl,
                    0 <= rw,
                    pl + rl <= fl,
                    pw + rw <= fw,
            ;
        } else {
            assert(rem[0].rect.width == fw && rem[1].rect.length == pl);
            assert(pl * pw + rl * fw + pl * rw <= fl * fw) by (nonlinear_arith)
                requires
                    0 <= pl,
                    0 <= pw,
                    0 <= rl,
                    0 <= rw,
                    pl + rl <= fl,
                    pw + rw <= fw,
            ;
        }
    } else if rl > 0 {
        assert(rem.len() == 1 && rem[0].rect.length == rl && rem[0].rect.width == fw);
        assert(pl * pw + rl * fw <= fl * fw) by (nonlinear_arith)
            requires
                0 <= pl,
                0 <= pw,
                0 <= rl,
                pl + rl <= fl,
                pw <= fw,
        ;
    } else if rw > 0 {
        assert(rem.len() == 1 && rem[0].rect.length == fl && rem[0].rect.width == rw);
        assert(pl * pw + fl * rw <= fl * fw) by (nonlinear_arith)
            requires
                0 <= pl,
                0 <= pw,
                0 <= rw,
                pl <= fl,
                pw + rw <= fw,
        ;
    } else {
        assert(pl * pw <= fl * fw) by (nonlinear_arith)
            requires
                0 <= pl <= fl,
                0 <= pw <= fw,
        ;
    }
}

/// Cutting a placed piece out of free rectangle `k` keeps the layout valid, and the free
/// area drops by the chosen rectangle's area and gains the remainders'.
pub proof fn lemma_cut_keeps_layout(
    stock: Rect,
    fs: Seq<FreeRect>,
    ps: Seq<Placement>,
    k: int,
    p: Placement,
    kerf: u32,
    cd: CutDirection,
)
    requires
        stock.is_proper(),
        frees_ok(fs, stock),
        placements_ok(ps, stock),
        frees_clear(fs, ps),
        used_area(ps) + free_area(fs) <= stock.spec_area(),
        0 <= k < fs.len(),
        p.rect.is_proper(),
        p.rect.spec_fits_in(fs[k].rect),
        p.x == fs[k].x,
        p.y == fs[k].y,
    ensures
        ({
            let rem = split_remainders(fs[k], p.rect, kerf, cd);
            let nf = swap_removed(fs, k) + rem;
            &&& frees_ok(nf, stock)
            &&& placements_ok(ps.push(p), stock)
            &&& frees_clear(nf, ps.push(p))
            &&& used_area(ps.push(p)) + free_area(nf) <= stock.spec_area()
            &&& free_area(nf) == free_area(fs) - fs[k].rect.spec_area() + free_area(rem)
        }),
{
    let f = fs[k];
    let n = fs.len();
    let rest = swap_removed(fs, k);
    let rem = split_remainders(f, p.rect, kerf, cd);
    let nf = rest + rem;
    let nps = ps.push(p);
    assert(f.rect.is_proper() && free_within(f, stock));
    lemma_remainders(f, p, kerf, cd);
    assert forall|t: int| 0 <= t < rest.len() implies #[trigger] rest[t] == fs[if t == k {
        n - 1
    } else {
        t
    }] by {}
    // every entry of the new free list is proper and inside the sheet
    assert forall|t: int| 0 <= t < nf.len() implies #[trigger] nf[t].rect.is_proper()
        && free_within(nf[t], stock) by {
        if t < rest.len() {
            let s = if t == k {
                n - 1
            } else {
                t
            };
            assert(nf[t] == fs[s]);
        } else {
            assert(nf[t] == rem[t - rest.len()]);
        }
    }
    assert forall|t: int, u: int|
        0 <= t < nf.len() && 0 <= u < nf.len() && t != u implies !#[trigger] frees_overlap(
        nf[t],
        nf[u],
    ) by {
        let st = if t == k {
            n - 1
        } else {
            t
        };
        let su = if u == k {
            n - 1
        } else {
            u
        };
        if t < rest.len() && u < rest.len() {
            assert(nf[t] == fs[st] && nf[u] == fs[su]);
            assert(!frees_overlap(fs[st], fs[su]));
        } else if t < rest.len() {
            let r = rem[u - rest.len()];
            assert(nf[t] == fs[st] && nf[u] == r);
            assert(!frees_overlap(fs[st], f));
            assert(free_inside(r, f));
        } else if u < rest.len() {
            let r = rem[t - rest.len()];
            assert(nf[u] == fs[su] && nf[t] == r);
            assert(!frees_overlap(fs[su], f));
            assert(free_inside(r, f));
        } else {
            assert(nf[t] == rem[t - rest.len()] && nf[u] == rem[u - rest.len()]);
            assert(!frees_overlap(rem[t - rest.len()], rem[u - rest.len()]));
        }
    }
    // the new placement
    assert forall|j: int| 0 <= j < nps.len() implies #[trigger] nps[j].rect.is_proper()
        && placement_within(nps[j], stock) by {
        if j < ps.len() {
            assert(nps[j] == ps[j]);
        }
    }
    assert forall|a: int, b: int|
        0 <= a < nps.len() && 0 <= b < nps.len() && a != b implies !#[trigger] placements_overlap(
        nps[a],
        nps[b],
    ) by {
        if a < ps.len() && b < ps.len() {
            assert(nps[a] == ps[a] && nps[b] == ps[b]);
        } else if a < ps.len() {
            assert(!free_overlaps_placement(f, ps[a]));
        } else {
            assert(!free_overlaps_placement(f, ps[b]));
        }
    }
    assert forall|t: int, j: int|
        0 <= t < nf.len() && 0 <= j < nps.len() implies !#[trigger] free_overlaps_placement(
        nf[t],
        nps[j],
    ) by {
        let st = if t == k {
            n - 1
        } else {
            t
        };
        if t < rest.len() {
            assert(nf[t] == fs[st]);
            if j < ps.len() {
                assert(nps[j] == ps[j]);
            } else {
                assert(!frees_overlap(fs[st], f));
            }
        } else {
            let r = rem[t - rest.len()];
            assert(nf[t] == r);
            assert(free_inside(r, f));
            if j < ps.len() {
                assert(nps[j] == ps[j]);
                assert(!free_overlaps_placement(f, ps[j]));
            }
        }
    }
    lemma_free_area_swap_removed(fs, k);
    lemma_free_area_concat(rest, rem);
    lemma_used_area_push(ps, p);
}

/// Two free rectangles that merge form a proper rectangle inside the sheet, of their joint
/// area.
pub proof fn lemma_merge_union(a: FreeRect, b: FreeRect, cd: CutDirection, stock: Rect)
    requires
        a.rect.is_proper(),
        b.rect.is_proper(),
        free_within(a, stock),
        free_within(b, stock),
        merge_of(a, b, cd).is_some(),
    ensures
        ({
            let m = merge_of(a, b, cd).unwrap();
            &&& m.rect.is_proper()
            &&& free_within(m, stock)
            &&& m.rect.spec_area() == a.rect.spec_area() + b.rect.spec_area()
        }),
{
    let m = merge_of(a, b, cd).unwrap();
    let al = a.rect.length as int;
    let aw = a.rect.width as int;
    let bl = b.rect.length as int;
    let bw = b.rect.width as int;
    if m.rect.width == a.rect.width && aw == bw && m.rect.length == al + bl {
        assert((al + bl) * aw == al * aw + bl * bw) by (nonlinear_arith)
            requires
                aw == bw,
        ;
    } else {
        assert(m.rect.length == al && al == bl && m.rect.width == aw + bw);
        assert(al * (aw + bw) == al * aw + bl * bw) by (nonlinear_arith)
            requires
                al == bl,
        ;
    }
}

/// A box clear of both merged rectangles, and not degenerate, is clear of their union.
pub proof fn lemma_merge_clear(
    a: FreeRect,
    b: FreeRect,
    cd: CutDirection,
    stock: Rect,
    cx: u32,
    cy: u32,
    cl: u32,
    cw: u32,
)
    requires
        free_within(a, stock),
        free_within(b, stock),
        merge_of(a, b, cd).is_some(),
        cl > 0,
        cw > 0,
        !boxes_overlap(a.x, a.y, a.rect.length, a.rect.width, cx, cy, cl, cw),
        !boxes_overlap(b.x, b.y, b.rect.length, b.rect.width, cx, cy, cl, cw),
    ensures
        ({
            let m = merge_of(a, b, cd).unwrap();
            !boxes_overlap(m.x, m.y, m.rect.length, m.rect.width, cx, cy, cl, cw)
        }),
{
}

/// Merging the pair `(i, j)` keeps the layout valid and the free area unchanged.
pub proof fn lemma_merge_keeps_layout(
    stock: Rect,
    fs: Seq<FreeRect>,
    ps: Seq<Placement>,
    i: int,
    j: int,
    cd: CutDirection,
)
    requires
        frees_ok(fs, stock),
        placements_ok(ps, stock),
        frees_clear(fs, ps),
        0 <= i < j < fs.len(),
        merge_of(fs[i], fs[j], cd).is_some(),
    ensures
        ({
            let nf = after_merge(fs, i, j, merge_of(fs[i], fs[j], cd).unwrap());
            &&& frees_ok(nf, stock)
            &&& frees_clear(nf, ps)
            &&& free_area(nf) == free_area(fs)
        }),
{
    let a = fs[i];
    let b = fs[j];
    let m = merge_of(a, b, cd).unwrap();
    let n = fs.len();
    let s1 = fs.update(i, m);
    let nf = after_merge(fs, i, j, m);
    assert(a.rect.is_proper() && free_within(a, stock));
    assert(b.rect.is_proper() && free_within(b, stock));
    assert(!frees_overlap(a, b));
    lemma_merge_union(a, b, cd, stock);
    assert forall|t: int| 0 <= t < nf.len() && t != i implies #[trigger] nf[t] == fs[if t == j {
        n - 1
    } else {
        t
    }] by {}
    assert(nf[i] == m);
    assert forall|t: int| 0 <= t < nf.len() implies #[trigger] nf[t].rect.is_proper()
        && free_within(nf[t], stock) by {
        if t != i {
            let s = if t == j {
                n - 1
            } else {
                t
            };
            assert(nf[t] == fs[s]);
        }
    }
    assert forall|t: int, u: int|
        0 <= t < nf.len() && 0 <= u < nf.len() && t != u implies !#[trigger] frees_overlap(
        nf[t],
        nf[u],
    ) by {
        let st = if t == j {
            n - 1
        } else {
            t
        };
        let su = if u == j {
            n - 1
        } else {
            u
        };
        if t == i {
            let c = fs[su];
            assert(nf[u] == c);
            assert(c.rect.is_proper());
            assert(!frees_overlap(a, c) && !frees_overlap(b, c));
            lemma_merge_clear(a, b, cd, stock, c.x, c.y, c.rect.length, c.rect.width);
        } else if u == i {
            let c = fs[st];
            assert(nf[t] == c);
            assert(c.rect.is_proper());
            assert(!frees_overlap(a, c) && !frees_overlap(b, c));
            lemma_merge_clear(a, b, cd, stock, c.x, c.y, c.rect.length, c.rect.width);
        } else {
            assert(nf[t] == fs[st] && nf[u] == fs[su]);
            assert(!frees_overlap(fs[st], fs[su]));
        }
    }
    assert forall|t: int, q: int|
        0 <= t < nf.len() && 0 <= q < ps.len() implies !#[trigger] free_overlaps_placement(
        nf[t],
        ps[q],
    ) by {
        if t == i {
            let c = ps[q];
            assert(c.rect.is_proper());
            assert(!free_overlaps_placement(a, c) && !free_overlaps_placement(b, c));
            lemma_merge_clear(a, b, cd, stock, c.x, c.y, c.rect.length, c.rect.width);
        } else {
            let s = if t == j {
                n - 1
            } else {
                t
            };
            assert(nf[t] == fs[s]);
        }
    }
    lemma_free_area_update(fs, i, m);
    lemma_free_area_update(s1, j, s1.last());
    let s2 = s1.update(j, s1.last());
    assert(s2.last() == fs.last());
    assert(s2.drop_last() =~= nf);
}

/// When a placement leaves room both beside and below it, cutting along the length and
/// cutting along the width leave different free rectangles.
pub proof fn lemma_cut_directions_differ(free: FreeRect, placed: Rect, kerf: u32)
    requires
        free.x + free.rect.length <= u32::MAX,
        free.y + free.rect.width <= u32::MAX,
        placed.spec_fits_in(free.rect),
        leftover(free.rect.length, placed.length, kerf) > 0,
        leftover(free.rect.width, placed.width, kerf) > 0,
    ensures
        split_remainders(free, placed, kerf, CutDirection::AlongLength) != split_remainders(
            free,
            placed,
            kerf,
            CutDirection::AlongWidth,
        ),
{
    let a = split_remainders(free, placed, kerf, CutDirection::AlongLength);
    let b = split_remainders(free, placed, kerf, CutDirection::AlongWidth);
    assert(a[0].rect.width == placed.width);
    assert(b[0].rect.width == free.rect.width);
    assert(a[0] != b[0]);
}

} // verus!
