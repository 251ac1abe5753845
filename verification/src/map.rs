//! Lookups on a map's area: the screen's pixels, each a shared handle.
use vstd::prelude::*;
use crate::sr::{Sr, SrStore, Slots, is_live, count_at, cloned, value_at, written};
use crate::grid::{Vec2Integer, SCREEN_HEIGHT, point_in_bounds, in_bounds};

verus! {

/// The store after one more handle has been made to each slot in `ids`, in order.
pub open spec fn cloned_each<T>(s: Slots<T>, ids: Seq<int>) -> Slots<T>
    decreases ids.len(),
{
    if ids.len() == 0 {
        s
    } else {
        cloned(cloned_each(s, ids.drop_last()), ids.last())
    }
}

/// Area indices that [`find_nearby_pixels`] picks for position `p`: the
/// pixel just before it, when that index is in bounds.
pub open spec fn nearby_indices(p: int) -> Seq<int> {
    if point_in_bounds(p - 1) {
        seq![p - 1]
    } else {
        seq![]
    }
}

/// Area indices that [`find_adjacent_pixels`] picks for position `p`: the
/// two pixels one row back (`p - SCREEN_HEIGHT - 1` and `p - SCREEN_HEIGHT`),
/// always, then the nearby one.
pub open spec fn adjacent_indices(p: int) -> Seq<int> {
    seq![p - SCREEN_HEIGHT - 1, p - SCREEN_HEIGHT] + nearby_indices(p)
}

/// The slots behind the area's handles at `idx`.
pub open spec fn slots_of<T>(area: Seq<Sr<T>>, idx: Seq<int>) -> Seq<int> {
    idx.map_values(|i: int| area[i]@ as int)
}

/// Every index in `idx` is an index of `area` whose handle is live in `s`
/// with room for `room` more handles.
pub open spec fn can_pick<T>(s: Slots<T>, area: Seq<Sr<T>>, idx: Seq<int>, room: int) -> bool {
    forall|k: int|
        0 <= k < idx.len() ==> {
            &&& 0 <= #[trigger] idx[k] < area.len()
            &&& is_live(s, area[idx[k]]@ as int)
            &&& count_at(s, area[idx[k]]@ as int) + room <= u64::MAX
        }
}

/// Whether the scan offset `(scan_x, scan_y)` landing on `point` is taken.
fn scan_takes(scan_x: i64, scan_y: i64, point: i64) -> (b: bool)
    ensures
        b == (scan_x != 0 || (scan_y != 0 && point_in_bounds(point as int))),
{
    scan_x != 0 || scan_y != 0 && in_bounds(point)
}

proof fn lemma_cloned_keeps_live<T>(s: Slots<T>, i: int, j: int)
    requires
        is_live(s, i),
        count_at(s, i) < u64::MAX,
    ensures
        cloned(s, i).len() == s.len(),
        is_live(cloned(s, i), j) == is_live(s, j),
        0 <= j < s.len() && j != i ==> cloned(s, i)[j] == s[j],
        count_at(cloned(s, i), i) == count_at(s, i) + 1,
{
}

/// The handles' slots, in order.
pub open spec fn ids_of<T>(hs: Seq<Sr<T>>) -> Seq<int> {
    hs.map_values(|h: Sr<T>| h@ as int)
}

/// Takes one more handle to the pixel at area index `idx` and appends it.
fn take_handle<T>(
    out: &mut Vec<Sr<T>>,
    area: &[Sr<T>],
    idx: usize,
    store: &mut SrStore<T>,
    Ghost(start): Ghost<Slots<T>>,
)
    requires
        old(store).wf(),
        old(store)@ == cloned_each(start, ids_of(old(out)@)),
        idx < area@.len(),
        is_live(old(store)@, area@[idx as int]@ as int),
        count_at(old(store)@, area@[idx as int]@ as int) < u64::MAX,
    ensures
        final(store).wf(),
        ids_of(final(out)@) == ids_of(old(out)@).push(area@[idx as int]@ as int),
        final(store)@ == cloned(old(store)@, area@[idx as int]@ as int),
        final(store)@ == cloned_each(start, ids_of(final(out)@)),
{
    let h = area[idx].clone(store);
    out.push(h);
    proof {
        let ids = ids_of(final(out)@);
        assert(ids =~= ids_of(old(out)@).push(area@[idx as int]@ as int));
        assert(ids.drop_last() =~= ids_of(old(out)@));
    }
}

/// Handles to the pixels near position `pos` (see [`nearby_indices`]); each
/// picked pixel gains one handle.
pub fn find_nearby_pixels<T>(pos: usize, area: &[Sr<T>], store: &mut SrStore<T>) -> (pixels: Vec<Sr<T>>)
    requires
        old(store).wf(),
        pos as i64 > i64::MIN,
        can_pick(old(store)@, area@, nearby_indices(pos as i64 as int), 1),
    ensures
        final(store).wf(),
        ids_of(pixels@) == slots_of(area@, nearby_indices(pos as i64 as int)),
        final(store)@ == cloned_each(old(store)@, slots_of(area@, nearby_indices(pos as i64 as int))),
        1 <= pos <= 16 ==> pixels@.len() == 1 && pixels@[0]@ == area@[pos - 1]@,
        (pos == 0 || 16 < pos <= i64::MAX) ==> pixels@.len() == 0,
{
    proof {
        lemma_nearby_exact(pos as i64 as int);
    }
    let ghost idx = nearby_indices(pos as i64 as int);
    let ghost s0 = store@;
    let mut pixels: Vec<Sr<T>> = Vec::new();
    assert(ids_of(pixels@) =~= Seq::<int>::empty());
    let p = pos as i64;
    let point = p + 0 * SCREEN_HEIGHT - 1;
    if scan_takes(0, -1, point) {
        assert(idx[0] == point);
        take_handle(&mut pixels, area, point as usize, store, Ghost(s0));
    }
    // The offset (0, 0), the pixel itself, is never taken.
    assert(ids_of(pixels@) =~= slots_of(area@, idx));
    pixels
}

/// Handles to the pixels adjacent to position `pos` (see
/// [`adjacent_indices`]); each picked pixel gains one handle.
pub fn find_adjacent_pixels<T>(area: &[Sr<T>], pos: usize, store: &mut SrStore<T>) -> (pixels: Vec<Sr<T>>)
    requires
        old(store).wf(),
        can_pick(old(store)@, area@, adjacent_indices(pos as i64 as int), 3),
    ensures
        final(store).wf(),
        ids_of(pixels@) == slots_of(area@, adjacent_indices(pos as i64 as int)),
        final(store)@ == cloned_each(old(store)@, slots_of(area@, adjacent_indices(pos as i64 as int))),
        4 <= pos <= 16 ==> pixels@.len() == 3 && pixels@[0]@ == area@[pos - 4]@ && pixels@[1]@ == area@[pos
            - 3]@ && pixels@[2]@ == area@[pos - 1]@,
        16 < pos <= i64::MAX ==> pixels@.len() == 2 && pixels@[0]@ == area@[pos - 4]@ && pixels@[1]@
            == area@[pos - 3]@,
{
    proof {
        lemma_adjacent_exact(pos as i64 as int);
    }
    let ghost idx = adjacent_indices(pos as i64 as int);
    let ghost ids = slots_of(area@, idx);
    let ghost s0 = store@;
    assert(idx[0] == pos as i64 - SCREEN_HEIGHT - 1);
    assert(idx[1] == pos as i64 - SCREEN_HEIGHT);
    assert(0 <= idx[0] < area@.len());
    assert(0 <= idx[1] < area@.len());
    let mut pixels: Vec<Sr<T>> = Vec::new();
    assert(ids_of(pixels@) =~= Seq::<int>::empty());
    let p = pos as i64;
    let place = p + (-1 * SCREEN_HEIGHT + -1);
    if scan_takes(-1, -1, place) {
        take_handle(&mut pixels, area, place as usize, store, Ghost(s0));
    }
    proof {
        lemma_cloned_keeps_live(s0, ids[0], ids[1]);
        if idx.len() == 3 {
            lemma_cloned_keeps_live(s0, ids[0], ids[2]);
        }
    }
    let ghost s1 = store@;
    let place = p + (-1 * SCREEN_HEIGHT + 0);
    if scan_takes(-1, 0, place) {
        take_handle(&mut pixels, area, place as usize, store, Ghost(s0));
    }
    proof {
        if idx.len() == 3 {
            lemma_cloned_keeps_live(s1, ids[1], ids[2]);
        }
    }
    let place = p + (0 * SCREEN_HEIGHT + -1);
    if scan_takes(0, -1, place) {
        take_handle(&mut pixels, area, place as usize, store, Ghost(s0));
    }
    // The offset (0, 0), the pixel itself, is never taken.
    assert(ids_of(pixels@) =~= ids);
    pixels
}

/// Mutable access to the pixel at area index `point.x * point.y`.
pub fn index_pixel<'a, T>(point: Vec2Integer, area: &[Sr<T>], store: &'a mut SrStore<T>) -> (r: &'a mut T)
    requires
        old(store).wf(),
        0 <= point.x * point.y <= i64::MAX,
        point.x * point.y < area@.len(),
        is_live(old(store)@, area@[point.x * point.y]@ as int),
    ensures
        final(store).wf(),
        *r == value_at(old(store)@, area@[point.x * point.y]@ as int),
        final(store)@ == written(old(store)@, area@[point.x * point.y]@ as int, *final(r)),
{
    let i = point.x * point.y;
    area[i as usize].get_mut(store)
}

/// The nearby pixel of position `p` is the one just before it, for
/// `1 <= p <= 16`; there is none for other positions.
pub proof fn lemma_nearby_exact(p: int)
    ensures
        1 <= p <= 16 ==> nearby_indices(p) == seq![p - 1],
        !(1 <= p <= 16) ==> nearby_indices(p).len() == 0,
{
}

/// The adjacent pixels of position `p` are, in order, `p - 4`, `p - 3`
/// and, for `1 <= p <= 16`, `p - 1`.
pub proof fn lemma_adjacent_exact(p: int)
    ensures
        1 <= p <= 16 ==> adjacent_indices(p) == seq![p - 4, p - 3, p - 1],
        !(1 <= p <= 16) ==> adjacent_indices(p) == seq![p - 4, p - 3],
{
    assert(seq![p - 4, p - 3] + seq![p - 1] =~= seq![p - 4, p - 3, p - 1]);
    assert(seq![p - 4, p - 3] + Seq::<int>::empty() =~= seq![p - 4, p - 3]);
}

} // verus!
