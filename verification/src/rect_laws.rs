//! Laws of the removal of near duplicates.

use crate::geometry::PdfRect;
use crate::grid::{grid, near};
use crate::rects::{
    deduplicated, lemma_sort_is, near_any, near_rects, rank, ranked, ranked_fn, ranks,
    sorted_rects, thinned,
};
use crate::rounding::{last_place, round_magnitude, INFINITY_BITS};
use crate::single::{magnitude_units, significand, scale, Single, HALF};
use vstd::arithmetic::power2::{lemma_pow2_pos, pow2};
use vstd::prelude::*;
use vstd::seq_lib::group_to_multiset_ensures;

verus! {

/// Whether the grid coordinates of rectangles ascend.
spec fn ascending(rects: Seq<PdfRect>) -> bool {
    forall|i: int, j: int|
        0 <= i < j < rects.len() ==> #[trigger] ranked(rank(rects[i], 0), rank(rects[j], 0))
}

/// Whether no rectangle is near one before it.
spec fn apart(rects: Seq<PdfRect>) -> bool {
    forall|i: int, j: int|
        0 <= i < j < rects.len() ==> !near_rects(#[trigger] rects[j], #[trigger] rects[i])
}

proof fn lemma_sorted_facts(rects: Seq<PdfRect>)
    requires
        rects.len() <= usize::MAX,
    ensures
        sorted_rects(rects).len() == rects.len(),
        ascending(sorted_rects(rects)),
        forall|r: PdfRect| sorted_rects(rects).contains(r) <==> rects.contains(r),
{
    broadcast use group_to_multiset_ensures;

    let v = ranks(rects);
    let leq = ranked_fn();
    crate::rects::lemma_ranked_total();
    v.lemma_sort_by_ensures(leq);
    let sorted = v.sort_by(leq);
    assert forall|i: int, j: int| 0 <= i < j < sorted.len() implies #[trigger] ranked(
        sorted[i],
        sorted[j],
    ) by {
        assert(leq(sorted[i], sorted[j]));
    }
    lemma_sort_is(rects, sorted);
    let s = sorted_rects(rects);
    assert forall|i: int, j: int| 0 <= i < j < s.len() implies #[trigger] ranked(
        rank(s[i], 0),
        rank(s[j], 0),
    ) by {
        assert(ranked(sorted[i], sorted[j]));
    }
    assert forall|r: PdfRect| s.contains(r) <==> rects.contains(r) by {
        if s.contains(r) {
            let i = choose|i: int| 0 <= i < s.len() && s[i] == r;
            assert(rects[sorted[i].position as int] == r);
        }
        if rects.contains(r) {
            let i = choose|i: int| 0 <= i < rects.len() && rects[i] == r;
            assert(v[i] == rank(r, i));
            assert(v.to_multiset().count(v[i]) > 0);
            assert(sorted.to_multiset().count(v[i]) > 0);
            assert(sorted.contains(v[i]));
            let m = choose|m: int| 0 <= m < sorted.len() && sorted[m] == v[i];
            assert(s[m] == r);
        }
    }
}

/// What thinning keeps: some of the rectangles, in their order, each apart from
/// those before it, and for each one that goes, one that is near it.
proof fn lemma_thinned_facts(rects: Seq<PdfRect>)
    requires
        ascending(rects),
    ensures
        thinned(rects).len() <= rects.len(),
        rects.len() > 0 ==> thinned(rects).len() > 0,
        ascending(thinned(rects)),
        apart(thinned(rects)),
        forall|i: int| 0 <= i < thinned(rects).len() ==> rects.contains(#[trigger] thinned(rects)[i]),
        forall|i: int|
            0 <= i < rects.len() ==> represented(#[trigger] rects[i], thinned(rects)),
    decreases rects.len(),
{
    if rects.len() > 0 {
        let front = rects.drop_last();
        assert forall|i: int, j: int| 0 <= i < j < front.len() implies #[trigger] ranked(
            rank(front[i], 0),
            rank(front[j], 0),
        ) by {
            assert(ranked(rank(rects[i], 0), rank(rects[j], 0)));
        }
        lemma_thinned_facts(front);
        let kept = thinned(front);
        let all = thinned(rects);
        assert forall|i: int| 0 <= i < all.len() implies rects.contains(#[trigger] all[i]) by {
            if i < kept.len() {
                assert(front.contains(kept[i]));
                let k = choose|k: int| 0 <= k < front.len() && front[k] == kept[i];
                assert(rects[k] == all[i]);
            } else {
                assert(rects[rects.len() - 1] == all[i]);
            }
        }
        assert forall|i: int, j: int| 0 <= i < j < all.len() implies #[trigger] ranked(
            rank(all[i], 0),
            rank(all[j], 0),
        ) by {
            if j < kept.len() {
                assert(ranked(rank(kept[i], 0), rank(kept[j], 0)));
            } else {
                assert(front.contains(kept[i]));
                let k = choose|k: int| 0 <= k < front.len() && front[k] == kept[i];
                assert(ranked(rank(rects[k], 0), rank(rects[rects.len() - 1], 0)));
            }
        }
        assert forall|i: int| 0 <= i < rects.len() implies represented(#[trigger] rects[i], all) by {
            if i < front.len() {
                assert(represented(front[i], kept));
                let k = choose|k: int|
                    0 <= k < kept.len() && ((#[trigger] kept[k]) == front[i] || near_rects(
                        front[i],
                        kept[k],
                    ));
                assert(all[k] == kept[k]);
            } else if near_any(rects.last(), kept) {
                let k = choose|k: int|
                    0 <= k < kept.len() && near_rects(rects.last(), #[trigger] kept[k]);
                assert(near_rects(rects.last(), all[k]));
            } else {
                assert(all[kept.len() as int] == rects[i]);
            }
        }
    }
}

/// Whether a list holds a rectangle, or one that is near it.
pub open spec fn represented(rect: PdfRect, rects: Seq<PdfRect>) -> bool {
    exists|k: int|
        0 <= k < rects.len() && ((#[trigger] rects[k]) == rect || near_rects(rect, rects[k]))
}

proof fn lemma_apart_stays(rects: Seq<PdfRect>)
    requires
        apart(rects),
    ensures
        thinned(rects) == rects,
    decreases rects.len(),
{
    if rects.len() > 0 {
        let front = rects.drop_last();
        assert forall|i: int, j: int| 0 <= i < j < front.len() implies !near_rects(
            #[trigger] front[j],
            #[trigger] front[i],
        ) by {
            assert(!near_rects(rects[j], rects[i]));
        }
        lemma_apart_stays(front);
        assert forall|k: int| 0 <= k < front.len() implies !near_rects(
            rects.last(),
            #[trigger] front[k],
        ) by {
            assert(!near_rects(rects[rects.len() - 1], rects[k]));
        }
        assert(front.push(rects.last()) =~= rects);
    } else {
        assert(rects =~= Seq::empty());
    }
}

proof fn lemma_ascending_stays(rects: Seq<PdfRect>)
    requires
        ascending(rects),
        rects.len() <= usize::MAX,
    ensures
        sorted_rects(rects) == rects,
{
    let v = ranks(rects);
    assert forall|i: int, j: int| 0 <= i < j < v.len() implies #[trigger] ranked(v[i], v[j]) by {
        assert(ranked(rank(rects[i], 0), rank(rects[j], 0)));
    }
    lemma_sort_is(rects, v);
    assert(sorted_rects(rects) =~= rects);
}

/// Removing near duplicates twice removes no more than doing it once.
pub proof fn law_dedup_idempotent(rects: Seq<PdfRect>)
    requires
        rects.len() <= usize::MAX,
    ensures
        deduplicated(deduplicated(rects)) == deduplicated(rects),
{
    if rects.len() > 1 {
        lemma_sorted_facts(rects);
        let s = sorted_rects(rects);
        lemma_thinned_facts(s);
        lemma_ascending_stays(thinned(s));
        lemma_apart_stays(thinned(s));
    }
}

/// What is left is part of what there was, and nothing goes without a trace: each
/// rectangle is still there, or one of its page that is the same within half a
/// point. No rectangle becomes more, and a page that had one keeps one.
pub proof fn law_dedup_represents(rects: Seq<PdfRect>)
    requires
        rects.len() <= usize::MAX,
    ensures
        deduplicated(rects).len() <= rects.len(),
        forall|i: int|
            0 <= i < deduplicated(rects).len() ==> rects.contains(#[trigger] deduplicated(rects)[i]),
        forall|i: int| 0 <= i < rects.len() ==> represented(#[trigger] rects[i], deduplicated(rects)),
{
    if rects.len() > 1 {
        lemma_sorted_facts(rects);
        let s = sorted_rects(rects);
        lemma_thinned_facts(s);
        assert forall|i: int| 0 <= i < deduplicated(rects).len() implies rects.contains(
            #[trigger] deduplicated(rects)[i],
        ) by {
            assert(s.contains(thinned(s)[i]));
        }
        assert forall|i: int| 0 <= i < rects.len() implies represented(
            #[trigger] rects[i],
            deduplicated(rects),
        ) by {
            assert(rects.contains(rects[i]));
            assert(s.contains(rects[i]));
            let k = choose|k: int| 0 <= k < s.len() && s[k] == rects[i];
            assert(represented(s[k], thinned(s)));
        }
    } else {
        assert forall|i: int| 0 <= i < rects.len() implies represented(
            #[trigger] rects[i],
            rects,
        ) by {
            assert(rects[i] == rects[i]);
        }
    }
}

/// Whether rectangles stand in order: by page, then by their places on the grid, x
/// before y, and then by their widths and heights on it.
pub open spec fn in_grid_order(a: PdfRect, b: PdfRect) -> bool {
    if a.page != b.page {
        a.page < b.page
    } else if grid(a.x) != grid(b.x) {
        grid(a.x) < grid(b.x)
    } else if grid(a.y) != grid(b.y) {
        grid(a.y) < grid(b.y)
    } else if grid(a.width) != grid(b.width) {
        grid(a.width) < grid(b.width)
    } else {
        grid(a.height) <= grid(b.height)
    }
}

/// No two of the rectangles that are left are near each other, and they are sorted by
/// page and by their four grid coordinates.
pub proof fn law_dedup_apart(rects: Seq<PdfRect>, i: int, j: int)
    requires
        rects.len() <= usize::MAX,
        0 <= i < j < deduplicated(rects).len(),
    ensures
        !near_rects(deduplicated(rects)[i], deduplicated(rects)[j]),
        !near_rects(deduplicated(rects)[j], deduplicated(rects)[i]),
        in_grid_order(deduplicated(rects)[i], deduplicated(rects)[j]),
{
    lemma_sorted_facts(rects);
    let kept = thinned(sorted_rects(rects));
    lemma_thinned_facts(sorted_rects(rects));
    assert(!near_rects(kept[j], kept[i]));
    law_near_symmetric(kept[i], kept[j]);
    assert(ranked(rank(kept[i], 0), rank(kept[j], 0)));
}

proof fn lemma_near_symmetric(a: Single, b: Single)
    ensures
        near(a, b) == near(b, a),
{
    reveal(Single::plus);
    let c = a.negated();
    let d = b.negated();
    assert(c.mag() == a.mag() && c.is_negative() != a.is_negative());
    assert(d.mag() == b.mag() && d.is_negative() != b.is_negative());
    let x = a.minus(b);
    let y = b.minus(a);
    if a.is_finite() && b.is_finite() {
        let sum = a.units() + d.units();
        assert(b.units() + c.units() == -sum);
        lemma_rounded(sum);
        lemma_rounded(-sum);
    }
    assert(x.mag() == y.mag());
    assert(x.absolute() == y.absolute());
}

/// The magnitude of a rounded sum is one of a single.
proof fn lemma_rounded(sum: int)
    ensures
        sum > 0 ==> 0 <= round_magnitude(sum, 1) <= INFINITY_BITS,
{
    let k = last_place(sum, 1);
    lemma_pow2_pos(k);
    let p = 1 * pow2(k) as int;
    if sum > 0 {
        assert(sum / p >= 0) by (nonlinear_arith)
            requires
                sum > 0,
                p > 0,
        ;
    }
}

/// Being near goes both ways.
pub proof fn law_near_symmetric(a: PdfRect, b: PdfRect)
    ensures
        near_rects(a, b) == near_rects(b, a),
{
    lemma_near_symmetric(a.x, b.x);
    lemma_near_symmetric(a.y, b.y);
    lemma_near_symmetric(a.width, b.width);
    lemma_near_symmetric(a.height, b.height);
}

/// A page that has a rectangle keeps one.
pub proof fn law_dedup_keeps_pages(rects: Seq<PdfRect>, i: int)
    requires
        rects.len() <= usize::MAX,
        0 <= i < rects.len(),
    ensures
        exists|k: int|
            0 <= k < deduplicated(rects).len() && (#[trigger] deduplicated(rects)[k]).page
                == rects[i].page,
{
    law_dedup_represents(rects);
    let kept = deduplicated(rects);
    assert(represented(rects[i], kept));
    let k = choose|k: int|
        0 <= k < kept.len() && ((#[trigger] kept[k]) == rects[i] || near_rects(rects[i], kept[k]));
    assert(kept[k].page == rects[i].page);
}

/// A finite coordinate is near itself.
pub proof fn lemma_near_self(x: Single)
    requires
        x.is_finite(),
    ensures
        near(x, x),
{
    reveal(Single::plus);
    reveal(Single::less_than);
    let y = x.negated();
    assert(y.mag() == x.mag());
    assert(y.is_negative() != x.is_negative());
    assert(x.units() + y.units() == 0);
    let zero = Single { bits: 0 };
    assert(x.minus(x) == zero);
    assert(zero.absolute() == zero);
    let half = Single { bits: HALF };
    assert(half.mag() == 0x3f00_0000);
    assert(significand(0x3f00_0000int) == 0x80_0000);
    lemma_pow2_pos(scale(0x3f00_0000int));
    assert(magnitude_units(0x3f00_0000int) > 0) by (nonlinear_arith)
        requires
            magnitude_units(0x3f00_0000int) == 0x80_0000 * pow2(
                scale(0x3f00_0000int),
            ),
            pow2(scale(0x3f00_0000int)) > 0,
    ;
    assert(magnitude_units(0) == 0) by {
        assert(significand(0) == 0);
    }
}

/// Equal rectangles, however many, collapse to one.
pub proof fn law_dedup_identical(rects: Seq<PdfRect>, rect: PdfRect)
    requires
        0 < rects.len() <= usize::MAX,
        forall|i: int| 0 <= i < rects.len() ==> rects[i] == rect,
        rect.x.is_finite(),
        rect.y.is_finite(),
        rect.width.is_finite(),
        rect.height.is_finite(),
    ensures
        deduplicated(rects) == seq![rect],
{
    lemma_near_self(rect.x);
    lemma_near_self(rect.y);
    lemma_near_self(rect.width);
    lemma_near_self(rect.height);
    if rects.len() > 1 {
        lemma_sorted_facts(rects);
        let s = sorted_rects(rects);
        assert forall|i: int| 0 <= i < s.len() implies s[i] == rect by {
            assert(s.contains(s[i]));
            assert(rects.contains(s[i]));
        }
        lemma_thinned_equal(s, rect);
    } else {
        assert(rects =~= seq![rect]);
    }
}

proof fn lemma_thinned_equal(rects: Seq<PdfRect>, rect: PdfRect)
    requires
        rects.len() > 0,
        forall|i: int| 0 <= i < rects.len() ==> rects[i] == rect,
        near_rects(rect, rect),
    ensures
        thinned(rects) == seq![rect],
    decreases rects.len(),
{
    let front = rects.drop_last();
    if front.len() > 0 {
        lemma_thinned_equal(front, rect);
        assert(near_rects(rects.last(), thinned(front)[0]));
    } else {
        assert(thinned(front) =~= Seq::empty());
        assert(Seq::empty().push(rect) =~= seq![rect]);
    }
}

/// Two rectangles are near where they are on one page and none of their four measures
/// differs by half a point or more.
pub proof fn law_near_rects(a: PdfRect, b: PdfRect)
    ensures
        ({
            let half = Single { bits: 0x3f00_0000 };
            near_rects(a, b) <==> a.page == b.page && a.x.minus(b.x).absolute().less_than(half)
                && a.y.minus(b.y).absolute().less_than(half) && a.width.minus(
                b.width,
            ).absolute().less_than(half) && a.height.minus(b.height).absolute().less_than(half)
        }),
{
}

/// A coordinate on the grid is its double, cut to an integer of 32 bits.
pub proof fn law_grid_coordinates(x: Single)
    ensures
        grid(x) == x.times(Single::from_bits(0x4000_0000)).integer_part(-0x8000_0000, 0x7fff_ffff),
{
    reveal(Single::integer_part);
}

/// Of rectangles in grid order the first of near ones stays: one more behind them goes
/// where it is near one that is left, and stays where it is not.
pub proof fn law_dedup_keeps_the_first(rects: Seq<PdfRect>, rect: PdfRect)
    requires
        0 < rects.len() < usize::MAX,
        forall|i: int, j: int|
            0 <= i < j <= rects.len() ==> #[trigger] in_grid_order(
                rects.push(rect)[i],
                rects.push(rect)[j],
            ),
    ensures
        ({
            let kept = deduplicated(rects);
            let near_one = exists|k: int|
                0 <= k < kept.len() && near_rects(rect, #[trigger] kept[k]);
            &&& near_one ==> deduplicated(rects.push(rect)) == kept
            &&& !near_one ==> deduplicated(rects.push(rect)) == kept.push(rect)
        }),
{
    let all = rects.push(rect);
    assert forall|i: int, j: int| 0 <= i < j < all.len() implies #[trigger] ranked(
        rank(all[i], 0),
        rank(all[j], 0),
    ) by {
        assert(in_grid_order(all[i], all[j]));
    }
    lemma_ascending_stays(all);
    assert forall|i: int, j: int| 0 <= i < j < rects.len() implies #[trigger] ranked(
        rank(rects[i], 0),
        rank(rects[j], 0),
    ) by {
        assert(rects[i] == all[i] && rects[j] == all[j]);
        assert(ranked(rank(all[i], 0), rank(all[j], 0)));
    }
    lemma_ascending_stays(rects);
    assert(all.drop_last() =~= rects);
    if rects.len() == 1 {
        let none = rects.drop_last();
        assert(none.len() == 0);
        assert(thinned(none) =~= Seq::empty());
        assert(thinned(rects) =~= rects);
    }
}

/// Whether rectangles are others in a new order: `from` tells where each one stood, no two
/// in the same place, and those with the same grid coordinates stand as they stood.
pub open spec fn are_reordered(
    sorted: Seq<PdfRect>,
    rects: Seq<PdfRect>,
    from: Seq<int>,
) -> bool {
    &&& sorted.len() == rects.len() && from.len() == rects.len()
    &&& forall|i: int|
        0 <= i < from.len() ==> 0 <= #[trigger] from[i] < rects.len() && sorted[i]
            == rects[from[i]]
    &&& forall|i: int, j: int|
        0 <= i < j < from.len() ==> #[trigger] from[i] != #[trigger] from[j] && (in_grid_order(
            sorted[j],
            sorted[i],
        ) ==> from[i] < from[j])
}

/// Rectangles are put in grid order, where those with the same grid coordinates keep the
/// order that they had, before near duplicates are removed.
pub proof fn law_dedup_sorts(rects: Seq<PdfRect>)
    requires
        rects.len() <= usize::MAX,
    ensures
        rects.len() > 1 ==> deduplicated(rects) == deduplicated(sorted_rects(rects)),
        forall|i: int, j: int|
            0 <= i < j < rects.len() ==> #[trigger] in_grid_order(
                sorted_rects(rects)[i],
                sorted_rects(rects)[j],
            ),
        exists|from: Seq<int>| #[trigger] are_reordered(sorted_rects(rects), rects, from),
{
    broadcast use group_to_multiset_ensures;

    lemma_sorted_facts(rects);
    let s = sorted_rects(rects);
    lemma_ascending_stays(s);
    assert forall|i: int, j: int| 0 <= i < j < rects.len() implies #[trigger] in_grid_order(
        s[i],
        s[j],
    ) by {
        assert(ranked(rank(s[i], 0), rank(s[j], 0)));
    }
    let v = ranks(rects);
    let leq = ranked_fn();
    crate::rects::lemma_ranked_total();
    v.lemma_sort_by_ensures(leq);
    let sorted = v.sort_by(leq);
    assert forall|i: int, j: int| 0 <= i < j < sorted.len() implies #[trigger] ranked(
        sorted[i],
        sorted[j],
    ) by {
        assert(leq(sorted[i], sorted[j]));
    }
    lemma_sort_is(rects, sorted);
    assert(v.no_duplicates()) by {
        assert forall|i: int, j: int| 0 <= i < j < v.len() implies v[i] != v[j] by {
            assert(v[i].position == i && v[j].position == j);
        }
    }
    v.lemma_multiset_has_no_duplicates();
    sorted.lemma_multiset_has_no_duplicates_conv();
    let from = Seq::new(sorted.len(), |i: int| sorted[i].position as int);
    assert forall|i: int| 0 <= i < from.len() implies 0 <= #[trigger] from[i] < rects.len() && s[i]
        == rects[from[i]] by {
        assert(sorted[i].position < rects.len());
    }
    assert forall|i: int, j: int| 0 <= i < j < from.len() implies #[trigger] from[i]
        != #[trigger] from[j] && (in_grid_order(s[j], s[i]) ==> from[i] < from[j]) by {
        assert(sorted[i] == rank(rects[from[i]], from[i]));
        assert(sorted[j] == rank(rects[from[j]], from[j]));
        assert(sorted[i] != sorted[j]);
        assert(ranked(sorted[i], sorted[j]));
    }
    assert(are_reordered(s, rects, from));
}

} // verus!
