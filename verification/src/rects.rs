//! Near-duplicate rectangles, and the choice of the rectangles of a page.

use crate::geometry::PdfRect;
use crate::grid::{grid, is_near, lemma_near_cells, near, to_grid};
use vstd::prelude::*;
use vstd::relations::{antisymmetric, reflexive, strongly_connected, total_ordering, transitive};
use vstd::seq_lib::{group_to_multiset_ensures, lemma_multiset_commutative, lemma_sorted_unique};

verus! {

/// The page and the coordinates of a rectangle on a grid of half points, and its
/// position in a list.
#[derive(Clone, Copy, Debug, PartialEq, Eq, Structural)]
pub struct Rank {
    pub page: u32,
    pub x: i32,
    pub y: i32,
    pub width: i32,
    pub height: i32,
    pub position: usize,
}

pub open spec fn rank(rect: PdfRect, position: int) -> Rank {
    Rank {
        page: rect.page,
        x: grid(rect.x),
        y: grid(rect.y),
        width: grid(rect.width),
        height: grid(rect.height),
        position: position as usize,
    }
}

/// The order of ranks: by page, x, y, width, height, and position last.
pub open spec fn ranked(a: Rank, b: Rank) -> bool {
    if a.page != b.page {
        a.page < b.page
    } else if a.x != b.x {
        a.x < b.x
    } else if a.y != b.y {
        a.y < b.y
    } else if a.width != b.width {
        a.width < b.width
    } else if a.height != b.height {
        a.height < b.height
    } else {
        a.position <= b.position
    }
}

pub open spec fn ranked_fn() -> spec_fn(Rank, Rank) -> bool {
    |a: Rank, b: Rank| ranked(a, b)
}

/// The ranks of a list of rectangles.
pub open spec fn ranks(rects: Seq<PdfRect>) -> Seq<Rank> {
    Seq::new(rects.len(), |i: int| rank(rects[i], i))
}

/// The rectangles sorted by their grid coordinates; those with the same
/// coordinates keep their order.
pub open spec fn sorted_rects(rects: Seq<PdfRect>) -> Seq<PdfRect> {
    ranks(rects).sort_by(ranked_fn()).map_values(|r: Rank| rects[r.position as int])
}

/// Whether two rectangles of a page are the same within half a point.
pub open spec fn near_rects(a: PdfRect, b: PdfRect) -> bool {
    a.page == b.page && near(a.x, b.x) && near(a.y, b.y) && near(a.width, b.width) && near(
        a.height,
        b.height,
    )
}

/// Whether a rectangle is near one of a list.
pub open spec fn near_any(rect: PdfRect, rects: Seq<PdfRect>) -> bool {
    exists|k: int| 0 <= k < rects.len() && near_rects(rect, #[trigger] rects[k])
}

/// A list without the rectangles that are near one kept before them.
pub open spec fn thinned(rects: Seq<PdfRect>) -> Seq<PdfRect>
    decreases rects.len(),
{
    if rects.len() == 0 {
        Seq::empty()
    } else {
        let kept = thinned(rects.drop_last());
        if near_any(rects.last(), kept) {
            kept
        } else {
            kept.push(rects.last())
        }
    }
}

/// The rectangles without near duplicates, sorted; a list of one or none as it is.
pub open spec fn deduplicated(rects: Seq<PdfRect>) -> Seq<PdfRect> {
    if rects.len() <= 1 {
        rects
    } else {
        thinned(sorted_rects(rects))
    }
}

pub proof fn lemma_ranked_total()
    ensures
        total_ordering(ranked_fn()),
{
    let leq = ranked_fn();
    assert(reflexive(leq));
    assert(antisymmetric(leq)) by {
        assert forall|a: Rank, b: Rank| #[trigger] leq(a, b) && #[trigger] leq(b, a) implies a
            == b by {}
    }
    assert(transitive(leq));
    assert(strongly_connected(leq));
}

fn ranks_before(a: &Rank, b: &Rank) -> (r: bool)
    ensures
        r == ranked(*a, *b),
{
    if a.page != b.page {
        a.page < b.page
    } else if a.x != b.x {
        a.x < b.x
    } else if a.y != b.y {
        a.y < b.y
    } else if a.width != b.width {
        a.width < b.width
    } else if a.height != b.height {
        a.height < b.height
    } else {
        a.position <= b.position
    }
}

/// Whether ranks stand in their order.
pub open spec fn in_order(s: Seq<Rank>) -> bool {
    forall|i: int, j: int| 0 <= i < j < s.len() ==> #[trigger] ranked(s[i], s[j])
}

/// Whether no rank of `s` from `from` on comes before one of `done`.
spec fn all_before(done: Seq<Rank>, s: Seq<Rank>, from: int) -> bool {
    forall|k: int, m: int|
        0 <= k < done.len() && from <= m < s.len() ==> #[trigger] ranked(done[k], s[m])
}

proof fn lemma_ranked_transitive(a: Rank, b: Rank, c: Rank)
    requires
        ranked(a, b),
        ranked(b, c),
    ensures
        ranked(a, c),
{
}

/// The next rank that two runs give: it keeps the order.
proof fn lemma_next(done: Seq<Rank>, one: Seq<Rank>, i: int, other: Seq<Rank>, j: int)
    requires
        in_order(done),
        in_order(one),
        in_order(other),
        0 <= i < one.len(),
        0 <= j <= other.len(),
        all_before(done, one, i),
        all_before(done, other, j),
        j < other.len() ==> ranked(one[i], other[j]),
    ensures
        in_order(done.push(one[i])),
        all_before(done.push(one[i]), one, i + 1),
        all_before(done.push(one[i]), other, j),
{
    let next = done.push(one[i]);
    assert forall|k: int, m: int| 0 <= k < m < next.len() implies #[trigger] ranked(
        next[k],
        next[m],
    ) by {
        if m == done.len() {
            assert(ranked(done[k], one[i]));
        } else {
            assert(ranked(done[k], done[m]));
        }
    }
    assert forall|k: int, m: int| 0 <= k < next.len() && i + 1 <= m < one.len() implies #[trigger] ranked(
        next[k],
        one[m],
    ) by {
        if k == done.len() {
            assert(ranked(one[i], one[m]));
        } else {
            assert(ranked(done[k], one[m]));
        }
    }
    assert forall|k: int, m: int| 0 <= k < next.len() && j <= m < other.len() implies #[trigger] ranked(
        next[k],
        other[m],
    ) by {
        if k == done.len() {
            if m > j {
                assert(ranked(other[j], other[m]));
                lemma_ranked_transitive(one[i], other[j], other[m]);
            }
        } else {
            assert(ranked(done[k], other[m]));
        }
    }
}

/// Merges two sorted runs.
fn merge(left: &Vec<Rank>, right: &Vec<Rank>) -> (r: Vec<Rank>)
    requires
        in_order(left@),
        in_order(right@),
    ensures
        in_order(r@),
        r@.to_multiset() == left@.to_multiset().add(right@.to_multiset()),
{
    let mut r: Vec<Rank> = Vec::new();
    let mut i: usize = 0;
    let mut j: usize = 0;
    proof {
        broadcast use group_to_multiset_ensures;

        assert(r@ =~= Seq::empty());
        assert(left@.take(0) =~= Seq::empty());
        assert(right@.take(0) =~= Seq::empty());
        assert(r@.to_multiset() =~= left@.take(0).to_multiset().add(right@.take(0).to_multiset()));
    }
    while i < left.len() || j < right.len()
        invariant
            in_order(left@),
            in_order(right@),
            i <= left@.len(),
            j <= right@.len(),
            in_order(r@),
            all_before(r@, left@, i as int),
            all_before(r@, right@, j as int),
            r@.to_multiset() =~= left@.take(i as int).to_multiset().add(
                right@.take(j as int).to_multiset(),
            ),
        decreases left@.len() - i + right@.len() - j,
    {
        broadcast use group_to_multiset_ensures;

        let from_left = if i >= left.len() {
            false
        } else if j >= right.len() {
            true
        } else {
            ranks_before(&left[i], &right[j])
        };
        if from_left {
            proof {
                lemma_next(r@, left@, i as int, right@, j as int);
                assert(left@.take(i + 1) =~= left@.take(i as int).push(left@[i as int]));
            }
            r.push(left[i]);
            i = i + 1;
        } else {
            proof {
                lemma_next(r@, right@, j as int, left@, i as int);
                assert(right@.take(j + 1) =~= right@.take(j as int).push(right@[j as int]));
            }
            r.push(right[j]);
            j = j + 1;
        }
    }
    assert(left@.take(i as int) =~= left@);
    assert(right@.take(j as int) =~= right@);
    r
}

/// Sorts the ranks from `from` up to `to`.
fn merge_sort(v: &Vec<Rank>, from: usize, to: usize) -> (r: Vec<Rank>)
    requires
        from <= to <= v@.len(),
    ensures
        in_order(r@),
        r@.to_multiset() == v@.subrange(from as int, to as int).to_multiset(),
    decreases to - from,
{
    if to - from <= 1 {
        let mut r: Vec<Rank> = Vec::new();
        if from < to {
            r.push(v[from]);
        }
        assert(r@ =~= v@.subrange(from as int, to as int));
        r
    } else {
        let mid: usize = from + (to - from) / 2;
        let left = merge_sort(v, from, mid);
        let right = merge_sort(v, mid, to);
        proof {
            let l = v@.subrange(from as int, mid as int);
            let h = v@.subrange(mid as int, to as int);
            assert(l + h =~= v@.subrange(from as int, to as int));
            lemma_multiset_commutative(l, h);
        }
        merge(&left, &right)
    }
}

fn are_near(a: &PdfRect, b: &PdfRect) -> (r: bool)
    ensures
        r == near_rects(*a, *b),
{
    a.page == b.page && is_near(a.x, b.x) && is_near(a.y, b.y) && is_near(a.width, b.width)
        && is_near(a.height, b.height)
}

/// Whether a rank has the grid coordinates of a rectangle.
spec fn is_rank_of(at: Rank, rect: PdfRect) -> bool {
    rank(rect, at.position as int) == at
}

/// Whether two ranks are on one page, in the same or in neighbouring cells.
spec fn are_neighbours(a: Rank, b: Rank) -> bool {
    a.page == b.page && -1 <= a.x - b.x <= 1 && -1 <= a.y - b.y <= 1 && -1 <= a.width - b.width
        <= 1 && -1 <= a.height - b.height <= 1
}

proof fn lemma_near_neighbours(a: Rank, one: PdfRect, b: Rank, other: PdfRect)
    requires
        is_rank_of(a, one),
        is_rank_of(b, other),
        near_rects(one, other),
    ensures
        are_neighbours(a, b),
{
    lemma_near_cells(one.x, other.x);
    lemma_near_cells(one.y, other.y);
    lemma_near_cells(one.width, other.width);
    lemma_near_cells(one.height, other.height);
}

fn is_next(a: i32, b: i32) -> (r: bool)
    ensures
        r == (-1 <= a - b <= 1),
{
    let d: i64 = a as i64 - b as i64;
    -1 <= d && d <= 1
}

/// Whether a rectangle is near one of a list that is sorted by its ranks. Only those
/// in neighbouring cells are compared, from the end of the list to where the cells
/// are too far left.
fn is_near_any(rect: &PdfRect, at: &Rank, kept: &Vec<PdfRect>, ranks: &Vec<Rank>) -> (r: bool)
    requires
        is_rank_of(*at, *rect),
        ranks@.len() == kept@.len(),
        in_order(ranks@),
        forall|k: int| 0 <= k < kept@.len() ==> is_rank_of(#[trigger] ranks@[k], kept@[k]),
    ensures
        r == near_any(*rect, kept@),
{
    let mut k: usize = kept.len();
    while k > 0
        invariant
            k <= kept@.len(),
            is_rank_of(*at, *rect),
            ranks@.len() == kept@.len(),
            in_order(ranks@),
            forall|m: int| 0 <= m < kept@.len() ==> is_rank_of(#[trigger] ranks@[m], kept@[m]),
            forall|m: int| k <= m < kept@.len() ==> !near_rects(*rect, #[trigger] kept@[m]),
        decreases k,
    {
        k = k - 1;
        let cell = ranks[k];
        assert(is_rank_of(ranks@[k as int], kept@[k as int]));
        if cell.page < at.page || (cell.page == at.page && (cell.x as i64) < at.x as i64 - 1) {
            assert forall|m: int| 0 <= m < kept@.len() implies !near_rects(
                *rect,
                #[trigger] kept@[m],
            ) by {
                if m <= k {
                    assert(is_rank_of(ranks@[m], kept@[m]));
                    if m < k {
                        assert(ranked(ranks@[m], ranks@[k as int]));
                    }
                    if near_rects(*rect, kept@[m]) {
                        lemma_near_neighbours(*at, *rect, ranks@[m], kept@[m]);
                    }
                }
            }
            return false;
        }
        if cell.page == at.page && is_next(at.x, cell.x) && is_next(at.y, cell.y) && is_next(
            at.width,
            cell.width,
        ) && is_next(at.height, cell.height) {
            if are_near(rect, &kept[k]) {
                return true;
            }
        } else {
            proof {
                if near_rects(*rect, kept@[k as int]) {
                    lemma_near_neighbours(*at, *rect, ranks@[k as int], kept@[k as int]);
                }
            }
        }
    }
    false
}

/// Removes near duplicates: rectangles of a page whose coordinates are the same
/// within half a point.
///
/// The rectangles are sorted by page and by their coordinates on a grid of half
/// points; then each one that is near one kept before it goes. A page with a clip
/// path around every text yields thousands of equal rectangles: one is left.
pub fn dedup_rects(rects: &mut Vec<PdfRect>)
    ensures
        final(rects)@ == deduplicated(old(rects)@),
{
    if rects.len() <= 1 {
        return;
    }
    let ghost rects0 = rects@;
    let mut v: Vec<Rank> = Vec::new();
    let mut i: usize = 0;
    while i < rects.len()
        invariant
            rects@ == rects0,
            i <= rects0.len(),
            v@ =~= ranks(rects0).take(i as int),
        decreases rects0.len() - i,
    {
        let r = rects[i];
        v.push(
            Rank {
                page: r.page,
                x: to_grid(r.x),
                y: to_grid(r.y),
                width: to_grid(r.width),
                height: to_grid(r.height),
                position: i,
            },
        );
        i = i + 1;
    }
    assert(v@ =~= ranks(rects0));
    let sorted = merge_sort(&v, 0, v.len());
    proof {
        assert(v@.subrange(0, v@.len() as int) =~= v@);
        lemma_sort_is(rects0, sorted@);
    }
    let mut kept: Vec<PdfRect> = Vec::new();
    let mut kept_ranks: Vec<Rank> = Vec::new();
    let mut k: usize = 0;
    let ghost target = sorted_rects(rects0);
    assert(target.take(0) =~= Seq::empty());
    while k < sorted.len()
        invariant
            rects@ == rects0,
            k <= sorted@.len(),
            target == sorted_rects(rects0),
            target.len() == sorted@.len(),
            forall|m: int|
                0 <= m < sorted@.len() ==> (#[trigger] sorted@[m]).position < rects0.len()
                    && rects0[sorted@[m].position as int] == target[m] && is_rank_of(
                    sorted@[m],
                    target[m],
                ),
            kept@ == thinned(target.take(k as int)),
            in_order(sorted@),
            in_order(kept_ranks@),
            all_before(kept_ranks@, sorted@, k as int),
            kept_ranks@.len() == kept@.len(),
            forall|m: int| 0 <= m < kept@.len() ==> is_rank_of(#[trigger] kept_ranks@[m], kept@[m]),
        decreases sorted@.len() - k,
    {
        let p: usize = sorted[k].position;
        let rect = rects[p];
        assert(target.take(k + 1).drop_last() =~= target.take(k as int));
        assert(target.take(k + 1).last() == rect);
        let at = sorted[k];
        let ghost before = kept_ranks@;
        if !is_near_any(&rect, &at, &kept, &kept_ranks) {
            proof {
                lemma_next(before, sorted@, k as int, Seq::empty(), 0);
            }
            kept.push(rect);
            kept_ranks.push(at);
        }
        k = k + 1;
    }
    assert(target.take(k as int) =~= target);
    *rects = kept;
}

/// The rectangles of a page: those that it draws, where there are any; else its
/// filled ones where they outnumber the clip paths three to one; else the clip
/// paths, without near duplicates, where there are four or more; else the filled
/// ones, and the clip paths only where there is nothing else.
pub open spec fn chosen_rects(
    rects: Seq<PdfRect>,
    clip_rects: Seq<PdfRect>,
    fill_rects: Seq<PdfRect>,
) -> Seq<PdfRect> {
    let clips = deduplicated(clip_rects);
    if rects.len() > 0 {
        rects
    } else if fill_rects.len() > 0 && (fill_rects.len() >= clips.len() * 3 || clips.len() < 4) {
        fill_rects
    } else {
        clips
    }
}

/// Chooses the rectangles of a page.
///
/// Clip and fill rectangles count only where no rectangle is drawn. Clip paths
/// come first, without near duplicates. Too few of them, or three times as many
/// filled rectangles, and these are taken instead: then the clip paths are
/// wrappers of sections, and the filled rectangles the cells of a table.
pub fn choose_rects(
    rects: Vec<PdfRect>,
    clip_rects: Vec<PdfRect>,
    fill_rects: Vec<PdfRect>,
) -> (r: Vec<PdfRect>)
    ensures
        r@ == chosen_rects(rects@, clip_rects@, fill_rects@),
{
    if rects.len() > 0 {
        return rects;
    }
    let mut clips = clip_rects;
    dedup_rects(&mut clips);
    let prefer_fills = fill_rects.len() > 0 && fill_rects.len() as u128 >= clips.len() as u128 * 3;
    if prefer_fills {
        fill_rects
    } else if clips.len() >= 4 {
        clips
    } else if fill_rects.len() > 0 {
        fill_rects
    } else {
        clips
    }
}

/// A sorted list of the ranks is the sorted list of the ranks.
pub proof fn lemma_sort_is(rects: Seq<PdfRect>, sorted: Seq<Rank>)
    requires
        in_order(sorted),
        sorted.to_multiset() == ranks(rects).to_multiset(),
        rects.len() <= usize::MAX,
    ensures
        ranks(rects).sort_by(ranked_fn()) == sorted,
        sorted_rects(rects).len() == rects.len(),
        sorted.len() == rects.len(),
        forall|m: int|
            0 <= m < sorted.len() ==> (#[trigger] sorted[m]).position < rects.len()
                && rects[sorted[m].position as int] == sorted_rects(rects)[m] && sorted[m] == rank(
                rects[sorted[m].position as int],
                sorted[m].position as int,
            ),
{
    broadcast use group_to_multiset_ensures;

    lemma_ranked_total();
    let v = ranks(rects);
    v.lemma_sort_by_ensures(ranked_fn());
    let leq = ranked_fn();
    assert forall|i: int, j: int| 0 <= i < j < sorted.len() implies #[trigger] leq(
        sorted[i],
        sorted[j],
    ) by {
        assert(ranked(sorted[i], sorted[j]));
    }
    lemma_sorted_unique(v.sort_by(leq), sorted, leq);
    assert(sorted.len() == sorted.to_multiset().len());
    assert(v.len() == v.to_multiset().len());
    assert forall|m: int| 0 <= m < sorted.len() implies (#[trigger] sorted[m]).position
        < rects.len() && rects[sorted[m].position as int] == sorted_rects(rects)[m] && sorted[m]
        == rank(rects[sorted[m].position as int], sorted[m].position as int) by {
        assert(sorted.to_multiset().count(sorted[m]) > 0);
        assert(v.to_multiset().count(sorted[m]) > 0);
        assert(v.contains(sorted[m]));
        let i = choose|i: int| 0 <= i < v.len() && v[i] == sorted[m];
        assert(v[i] == rank(rects[i], i));
    }
}

} // verus!
