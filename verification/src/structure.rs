//! Rigid structures of pixels.
//!
//! A structure is a grid of slots; a slot holds a pixel together with the
//! slots it is connected to. The first pixel after slot 0 is the structure's
//! root. Pixels that can no longer be reached from the root break away and
//! form new structures of their own.
use vstd::prelude::*;
use crate::grid::Vec2Integer;

verus! {

/// A pixel's place in a structure: the pixel, the slots it is connected to,
/// and whether it has been found connected to the root.
pub struct PixelStructureRef<P> {
    pub pixel: P,
    pub connections: Vec<usize>,
    pub connected_to_root: bool,
}

/// A structure: its slots, the size it was made with, and its root slot.
pub struct PixelStructure<P> {
    pub pixels: Vec<Option<PixelStructureRef<P>>>,
    pub size: Vec2Integer,
    pub root: usize,
}

/// Why a structure could not be checked.
#[derive(Copy, Clone, PartialEq, Eq, Structural, Debug)]
pub enum StructureError {
    /// A connection reachable from the root leads to an empty slot or past
    /// the last slot.
    FalseConnection,
    /// The connections reachable from the root go round a cycle, so the
    /// search for the pixels connected to the root would never end.
    EndlessConnection,
}

/// The slots of a structure.
pub type Cells<P> = Seq<Option<PixelStructureRef<P>>>;

/// A structure as its slots, root and size.
pub type StructureView<P> = (Cells<P>, usize, Vec2Integer);

impl<P> PixelStructure<P> {
    pub open spec fn view(&self) -> StructureView<P> {
        (self.pixels@, self.root, self.size)
    }
}

/// The views of a list of structures.
pub open spec fn views_of<P>(s: Seq<PixelStructure<P>>) -> Seq<StructureView<P>> {
    s.map_values(|x: PixelStructure<P>| x.view())
}

/// Slot `i` holds a pixel.
pub open spec fn holds<P>(g: Cells<P>, i: int) -> bool {
    0 <= i < g.len() && g[i] is Some
}

/// The slot that the pixel in slot `a` is connected to includes `b`.
pub open spec fn linked<P>(g: Cells<P>, a: int, b: int) -> bool {
    holds(g, a) && 0 <= b <= usize::MAX && g[a]->Some_0.connections@.contains(b as usize)
}

/// Step `k` of `path` follows a connection.
pub open spec fn step_ok<P>(g: Cells<P>, path: Seq<int>, k: int) -> bool {
    linked(g, path[k], path[k + 1])
}

/// `path` is a non-empty walk along connections.
pub open spec fn is_path<P>(g: Cells<P>, path: Seq<int>) -> bool {
    &&& path.len() >= 1
    &&& forall|k: int| 0 <= k < path.len() - 1 ==> #[trigger] step_ok(g, path, k)
}

/// Slot `i` can be reached from `root` by following connections.
pub open spec fn reachable<P>(g: Cells<P>, root: int, i: int) -> bool {
    exists|path: Seq<int>| #[trigger] is_path(g, path) && path[0] == root && path.last() == i
}

/// Slot `i` is past the last slot or holds no pixel.
pub open spec fn broken<P>(g: Cells<P>, i: int) -> bool {
    !holds(g, i)
}

/// Some slot reachable from `root` is broken (the root itself included).
pub open spec fn false_connection<P>(g: Cells<P>, root: int) -> bool {
    exists|i: int| #[trigger] reachable(g, root, i) && broken(g, i)
}

/// Why a check from `root` cannot complete, if it cannot: a false
/// connection is found first (it is reached after finitely many rounds of
/// the search); otherwise a reachable cycle keeps the search going forever.
pub open spec fn check_failure<P>(g: Cells<P>, root: int) -> Option<StructureError> {
    if false_connection(g, root) {
        Some(StructureError::FalseConnection)
    } else if endless(g, root) {
        Some(StructureError::EndlessConnection)
    } else {
        None
    }
}

/// The slots with every pixel reachable from `root` marked as connected;
/// other marks stay as they were.
pub open spec fn marked<P>(g: Cells<P>, root: int) -> Cells<P> {
    Seq::new(
        g.len(),
        |i: int|
            match g[i] {
                Some(c) => Some(
                    PixelStructureRef {
                        pixel: c.pixel,
                        connections: c.connections,
                        connected_to_root: c.connected_to_root || reachable(g, root, i),
                    },
                ),
                None => None,
            },
    )
}

/// The first slot from `i` on that holds a pixel, or 0 when there is none.
pub open spec fn first_held_from<P>(g: Cells<P>, i: int) -> int
    decreases g.len() - i,
{
    if i < 0 || i >= g.len() {
        0
    } else if g[i] is Some {
        i
    } else {
        first_held_from(g, i + 1)
    }
}

/// The root of a structure: the first slot after slot 0 that holds a
/// pixel, or 0 when there is none.
pub open spec fn root_of<P>(g: Cells<P>) -> int {
    first_held_from(g, 1)
}

proof fn lemma_first_held_from<P>(g: Cells<P>, i: int, r: int)
    requires
        0 <= i,
        (r == 0 && forall|j: int| i <= j < g.len() ==> #[trigger] g[j] is None) || (i <= r < g.len()
            && g[r] is Some && forall|j: int| i <= j < r ==> #[trigger] g[j] is None),
    ensures
        first_held_from(g, i) == r,
    decreases g.len() - i,
{
    if i < g.len() {
        if g[i] is None {
            lemma_first_held_from(g, i + 1, r);
        }
    }
}

/// The root of the structure with slots `pixels`.
pub fn find_root<P>(pixels: &Vec<Option<PixelStructureRef<P>>>) -> (root: usize)
    ensures
        root == root_of(pixels@),
{
    let mut root: usize = 0;
    let n = pixels.len();
    for i in 0..n
        invariant
            n == pixels@.len(),
            root == 0 ==> forall|j: int| 1 <= j < i ==> #[trigger] pixels@[j] is None,
            root != 0 ==> 1 <= root < i && pixels@[root as int] is Some && forall|j: int|
                1 <= j < root ==> #[trigger] pixels@[j] is None,
    {
        if pixels[i].is_some() && root == 0 {
            root = i;
        }
    }
    proof {
        lemma_first_held_from(pixels@, 1, root as int);
    }
    root
}

proof fn lemma_path_extend<P>(g: Cells<P>, path: Seq<int>, c: int)
    requires
        is_path(g, path),
        linked(g, path.last(), c),
    ensures
        is_path(g, path.push(c)),
        path.push(c)[0] == path[0],
        path.push(c).last() == c,
{
    let q = path.push(c);
    assert forall|k: int| 0 <= k < q.len() - 1 implies #[trigger] step_ok(g, q, k) by {
        if k < path.len() - 1 {
            assert(step_ok(g, path, k));
        }
    }
}

proof fn lemma_reach_extend<P>(g: Cells<P>, root: int, j: int, c: int)
    requires
        reachable(g, root, j),
        linked(g, j, c),
    ensures
        reachable(g, root, c),
{
    let path = choose|path: Seq<int>| #[trigger] is_path(g, path) && path[0] == root && path.last() == j;
    lemma_path_extend(g, path, c);
}

/// Every slot is reachable from itself.
pub proof fn lemma_reach_root<P>(g: Cells<P>, root: int)
    ensures
        reachable(g, root, root),
{
    let path = seq![root];
    assert(is_path(g, path));
}

/// A set of slots that holds the root, holds only pixels, and is closed
/// under connections holds every slot reachable from the root.
proof fn lemma_closed_holds_reachable<P>(g: Cells<P>, root: int, inside: spec_fn(int) -> bool, i: int)
    requires
        inside(root),
        forall|v: int| #[trigger] inside(v) ==> holds(g, v),
        forall|v: int, c: int| inside(v) && #[trigger] linked(g, v, c) ==> inside(c),
        reachable(g, root, i),
    ensures
        inside(i),
{
    let path = choose|path: Seq<int>| #[trigger] is_path(g, path) && path[0] == root && path.last() == i;
    lemma_path_inside(g, path, inside, path.len() - 1);
}

proof fn lemma_path_inside<P>(g: Cells<P>, path: Seq<int>, inside: spec_fn(int) -> bool, k: int)
    requires
        is_path(g, path),
        0 <= k < path.len(),
        inside(path[0]),
        forall|v: int, c: int| inside(v) && #[trigger] linked(g, v, c) ==> inside(c),
    ensures
        inside(path[k]),
    decreases k,
{
    if k > 0 {
        lemma_path_inside(g, path, inside, k - 1);
        assert(step_ok(g, path, k - 1));
    }
}

/// Marks every pixel reachable from `root` as connected to it. Fails,
/// leaving the slots as they were, when the check cannot complete (see
/// [`check_failure`]).
pub fn try_mark_connected<P>(pixels: &mut Vec<Option<PixelStructureRef<P>>>, root: usize) -> (r: Result<(), StructureError>)
    ensures
        r is Err <==> check_failure(old(pixels)@, root as int) is Some,
        r matches Err(e) ==> check_failure(old(pixels)@, root as int) == Some(e),
        r is Err ==> final(pixels)@ == old(pixels)@,
        r is Ok ==> final(pixels)@ == marked(old(pixels)@, root as int),
{
    let ghost g = pixels@;
    let n = pixels.len();
    if root >= n || pixels[root].is_none() {
        proof {
            lemma_reach_root(g, root as int);
        }
        return Err(StructureError::FalseConnection);
    }
    let mut visited: Vec<bool> = Vec::new();
    for i in 0..n
        invariant
            visited@.len() == i,
            forall|j: int| 0 <= j < i ==> !#[trigger] visited@[j],
    {
        visited.push(false);
    }
    visited.set(root, true);
    let mut work: Vec<usize> = Vec::new();
    work.push(root);
    proof {
        lemma_reach_root(g, root as int);
        assert(work@[0] == root);
        assert(work@.contains(root));
    }
    while work.len() > 0
        invariant
            pixels@ == g,
            n == g.len(),
            visited@.len() == n,
            root < n,
            visited@[root as int],
            forall|v: int| 0 <= v < n && #[trigger] visited@[v] ==> reachable(g, root as int, v) && holds(g, v),
            forall|k: int| 0 <= k < work@.len() ==> #[trigger] work@[k] < n && visited@[work@[k] as int],
            forall|v: int, c: int|
                0 <= v < n && #[trigger] visited@[v] && !work@.contains(v as usize) && #[trigger] linked(g, v, c)
                    ==> 0 <= c < n && visited@[c],
        decreases count_unvisited(visited@), work@.len(),
    {
        let ghost work_old = work@;
        let j = work.pop().unwrap();
        proof {
            assert(work_old[work_old.len() - 1] == j);
        }
        let ghost work_before = work@;
        let ghost visited_before = visited@;
        match &pixels[j] {
            Some(cell) => {
                let conns = &cell.connections;
                let m = conns.len();
                for k in 0..m
                    invariant
                        pixels@ == g,
                        n == g.len(),
                        visited@.len() == n,
                        root < n,
                        visited@[root as int],
                        0 <= j < n,
                        visited@[j as int],
                        g[j as int] is Some,
                        g[j as int]->Some_0.connections@ == conns@,
                        m == conns@.len(),
                        forall|v: int| 0 <= v < n && #[trigger] visited@[v] ==> reachable(g, root as int, v) && holds(g, v),
                        forall|q: int| 0 <= q < work@.len() ==> #[trigger] work@[q] < n && visited@[work@[q] as int],
                        forall|v: int| 0 <= v < n && #[trigger] visited_before[v] ==> visited@[v],
                        forall|v: int| 0 <= v < n && #[trigger] visited@[v] && !visited_before[v] ==> work@.contains(v as usize),
                        forall|q: int| 0 <= q < work_before.len() ==> #[trigger] work@[q] == work_before[q],
                        work_before.len() <= work@.len(),
                        count_unvisited(visited@) + (work@.len() - work_before.len()) == count_unvisited(visited_before),
                        forall|q: int| 0 <= q < k ==> #[trigger] conns@[q] < n && visited@[conns@[q] as int],
                {
                    let c = conns[k];
                    if c >= n || pixels[c].is_none() {
                        proof {
                            assert(conns@.contains(c));
                            lemma_reach_extend(g, root as int, j as int, c as int);
                            assert(broken(g, c as int));
                        }
                        return Err(StructureError::FalseConnection);
                    }
                    if !visited[c] {
                        proof {
                            assert(conns@.contains(c));
                            lemma_reach_extend(g, root as int, j as int, c as int);
                        }
                        let ghost before = visited@;
                        let ghost wb = work@;
                        visited.set(c, true);
                        proof {
                            lemma_visit_one_more(before, c as int);
                            assert(visited@ == before.update(c as int, true));
                            assert(visited@[root as int]);
                            assert(visited@[j as int]);
                        }
                        work.push(c);
                        proof {
                            assert(work@ == wb.push(c));
                            assert(work@[wb.len() as int] == c);
                            assert(work@.contains(c));
                            assert forall|v: int| 0 <= v < n && #[trigger] visited@[v] && !visited_before[v]
                                implies work@.contains(v as usize) by {
                                if v != c as int {
                                    assert(before[v]);
                                    let q = choose|q: int| 0 <= q < wb.len() && wb[q] == v as usize;
                                    assert(work@[q] == v as usize);
                                }
                            }
                        }
                    }
                }
                proof {
                    assert forall|v: int, c: int|
                        0 <= v < n && #[trigger] visited@[v] && !work@.contains(v as usize) && #[trigger] linked(g, v, c)
                        implies 0 <= c < n && visited@[c] by {
                        if v == j {
                            assert(conns@.contains(c as usize));
                            let q = choose|q: int| 0 <= q < conns@.len() && conns@[q] == c as usize;
                            assert(0 <= q < m);
                            assert(conns@[q] < n);
                            assert(visited@[conns@[q] as int]);
                        } else {
                            assert(visited_before[v]);
                            if work_before.contains(v as usize) {
                                let q = choose|q: int| 0 <= q < work_before.len() && work_before[q] == v as usize;
                                assert(work@[q] == work_before[q]);
                            }
                            if work_old.contains(v as usize) {
                                let q = choose|q: int| 0 <= q < work_old.len() && work_old[q] == v as usize;
                                if q < work_before.len() {
                                    assert(work_before[q] == work_old[q]);
                                }
                            }
                            assert(!work_old.contains(v as usize));
                            assert(visited_before[c]);
                        }
                    }
                }
            },
            None => {
                proof {
                    assert(false);
                }
            },
        }
    }
    proof {
        let inside = |v: int| 0 <= v < n && visited@[v];
        assert forall|i: int| #[trigger] reachable(g, root as int, i) implies !broken(g, i) && visited@[i] by {
            assert forall|v: int, c: int| inside(v) && #[trigger] linked(g, v, c) implies inside(c) by {
                assert(!work@.contains(v as usize));
            }
            lemma_closed_holds_reachable(g, root as int, inside, i);
        }
    }
    proof {
        assert(!false_connection(g, root as int));
    }
    if walks_forever(pixels, root) {
        return Err(StructureError::EndlessConnection);
    }
    let ghost vis = visited@;
    let mut i: usize = 0;
    while i < n
        invariant
            0 <= i <= n,
            n == g.len(),
            pixels@.len() == n,
            visited@ == vis,
            vis.len() == n,
            forall|v: int| 0 <= v < n ==> (#[trigger] vis[v] <==> reachable(g, root as int, v)),
            forall|v: int| 0 <= v < n && vis[v] ==> #[trigger] g[v] is Some,
            forall|v: int| 0 <= v < i ==> #[trigger] pixels@[v] == marked(g, root as int)[v],
            forall|v: int| i <= v < n ==> #[trigger] pixels@[v] == g[v],
        decreases n - i,
    {
        if visited[i] {
            let cell = pixels[i].as_mut().unwrap();
            cell.connected_to_root = true;
        }
        i = i + 1;
    }
    proof {
        assert(pixels@ =~= marked(g, root as int));
        assert(!false_connection(g, root as int));
    }
    Ok(())
}

/// Number of slots not visited yet.
pub open spec fn count_unvisited(s: Seq<bool>) -> nat
    decreases s.len(),
{
    if s.len() == 0 {
        0
    } else {
        count_unvisited(s.drop_last()) + if s.last() { 0nat } else { 1nat }
    }
}

proof fn lemma_visit_one_more(s: Seq<bool>, c: int)
    requires
        0 <= c < s.len(),
        !s[c],
    ensures
        count_unvisited(s.update(c, true)) + 1 == count_unvisited(s),
    decreases s.len(),
{
    let t = s.update(c, true);
    if c == s.len() - 1 {
        assert(t.drop_last() =~= s.drop_last());
    } else {
        assert(t.drop_last() =~= s.drop_last().update(c, true));
        lemma_visit_one_more(s.drop_last(), c);
    }
}

/// The slot holds a pixel that is not marked as connected to the root.
pub open spec fn loose<P>(x: Option<PixelStructureRef<P>>) -> bool {
    x is Some && !x->Some_0.connected_to_root
}

/// Some slot holds a loose pixel.
pub open spec fn has_loose<P>(g: Cells<P>) -> bool {
    exists|i: int| 0 <= i < g.len() && #[trigger] loose(g[i])
}

/// The slots that break away: every loose pixel and every empty slot, in
/// order, leaving out the connected pixels.
pub open spec fn detached<P>(g: Cells<P>) -> Cells<P>
    decreases g.len(),
{
    if g.len() == 0 {
        Seq::empty()
    } else {
        let rest = detached(g.drop_last());
        if g.last() is Some && g.last()->Some_0.connected_to_root {
            rest
        } else {
            rest.push(g.last())
        }
    }
}

/// The slots that stay: every loose pixel removed.
pub open spec fn kept<P>(g: Cells<P>) -> Cells<P> {
    g.map_values(|x: Option<PixelStructureRef<P>>| if loose(x) { None } else { x })
}

/// Number of slots that hold a pixel.
pub open spec fn some_count<P>(g: Cells<P>) -> nat
    decreases g.len(),
{
    if g.len() == 0 {
        0
    } else {
        some_count(g.drop_last()) + if g.last() is Some { 1nat } else { 0nat }
    }
}

/// Number of slots that hold a pixel marked as connected.
pub open spec fn connected_count<P>(g: Cells<P>) -> nat
    decreases g.len(),
{
    if g.len() == 0 {
        0
    } else {
        connected_count(g.drop_last()) + if g.last() is Some && g.last()->Some_0.connected_to_root {
            1nat
        } else {
            0nat
        }
    }
}

/// The pixels that break away and the connected ones together are all the pixels.
pub proof fn lemma_detached_count<P>(g: Cells<P>)
    ensures
        some_count(detached(g)) + connected_count(g) == some_count(g),
    decreases g.len(),
{
    if g.len() > 0 {
        lemma_detached_count(g.drop_last());
        let rest = detached(g.drop_last());
        assert(rest.push(g.last()).drop_last() =~= rest);
    }
}

/// A slot with a connected pixel makes the connected count positive.
pub proof fn lemma_connected_count_pos<P>(g: Cells<P>, i: int)
    requires
        0 <= i < g.len(),
        g[i] is Some,
        g[i]->Some_0.connected_to_root,
    ensures
        connected_count(g) >= 1,
    decreases g.len(),
{
    if i < g.len() - 1 {
        lemma_connected_count_pos(g.drop_last(), i);
    }
}

/// Slot sequences that hold pixels in the same places hold equally many.
pub proof fn lemma_some_count_same_shape<P>(g: Cells<P>, h: Cells<P>)
    requires
        g.len() == h.len(),
        forall|i: int| 0 <= i < g.len() ==> (#[trigger] g[i] is Some <==> h[i] is Some),
    ensures
        some_count(g) == some_count(h),
    decreases g.len(),
{
    if g.len() > 0 {
        lemma_some_count_same_shape(g.drop_last(), h.drop_last());
    }
}

/// Checking a structure from a root that holds a pixel leaves fewer pixels
/// to break away than the structure had.
pub proof fn lemma_detached_fewer<P>(g: Cells<P>, r: int)
    requires
        holds(g, r),
    ensures
        some_count(detached(marked(g, r))) < some_count(g),
{
    let m = marked(g, r);
    lemma_reach_root(g, r);
    lemma_detached_count(m);
    lemma_connected_count_pos(m, r);
    lemma_some_count_same_shape(g, m);
}

proof fn lemma_no_loose_detached_empty<P>(g: Cells<P>)
    requires
        !has_loose(g),
    ensures
        forall|i: int| 0 <= i < detached(g).len() ==> #[trigger] detached(g)[i] is None,
    decreases g.len(),
{
    if g.len() > 0 {
        assert(!has_loose(g.drop_last())) by {
            if has_loose(g.drop_last()) {
                let i = choose|i: int| 0 <= i < g.drop_last().len() && #[trigger] loose(g.drop_last()[i]);
                assert(loose(g[i]));
            }
        }
        lemma_no_loose_detached_empty(g.drop_last());
        assert(!loose(g[g.len() - 1]));
    }
}

proof fn lemma_all_empty_root<P>(g: Cells<P>)
    requires
        forall|i: int| 0 <= i < g.len() ==> #[trigger] g[i] is None,
    ensures
        root_of(g) == 0,
{
    lemma_first_held_from(g, 1, 0);
}

/// What checking the structure with slots `g` from root `r` gives: the
/// error when the check cannot complete (see [`check_failure`]), or when
/// forming the broken-away slots fails; otherwise the slots that stay, and
/// the structures that the broken-away slots form.
pub open spec fn checked<P>(g: Cells<P>, r: int, size: Vec2Integer) -> Result<(Cells<P>, Seq<StructureView<P>>), StructureError>
    decreases some_count(g), 0nat,
{
    match check_failure(g, r) {
        Some(e) => Err(e),
        None => {
            let m = marked(g, r);
            proof {
                if !holds(g, r) {
                    lemma_reach_root(g, r);
                }
                lemma_detached_fewer(g, r);
            }
            match built(detached(m), size) {
                Ok(subs) => Ok((kept(m), subs)),
                Err(e) => Err(e),
            }
        },
    }
}

/// The structures that the slots `g` form: none when no slot after slot 0
/// holds a pixel; otherwise, after the structures that broke away, the
/// structure itself with its remaining slots and root. The error of the
/// first check that cannot complete, if one cannot.
pub open spec fn built<P>(g: Cells<P>, size: Vec2Integer) -> Result<Seq<StructureView<P>>, StructureError>
    decreases some_count(g), 1nat,
{
    let r = root_of(g);
    if r == 0 {
        Ok(Seq::empty())
    } else {
        match checked(g, r, size) {
            Ok(res) => Ok(res.1.push((res.0, r as usize, size))),
            Err(e) => Err(e),
        }
    }
}

/// Removes every loose pixel, returning the broken-away slots (see
/// [`detached`]) and whether any pixel was loose.
pub fn detach_unconnected<P>(pixels: &mut Vec<Option<PixelStructureRef<P>>>) -> (r: (Vec<Option<PixelStructureRef<P>>>, bool))
    ensures
        r.0@ == detached(old(pixels)@),
        r.1 == has_loose(old(pixels)@),
        final(pixels)@ == kept(old(pixels)@),
{
    let ghost g = pixels@;
    let n = pixels.len();
    let mut newstruct: Vec<Option<PixelStructureRef<P>>> = Vec::new();
    let mut disconnect = false;
    for i in 0..n
        invariant
            n == g.len(),
            pixels@.len() == n,
            forall|j: int| 0 <= j < i ==> #[trigger] pixels@[j] == kept(g)[j],
            forall|j: int| i <= j < n ==> #[trigger] pixels@[j] == g[j],
            newstruct@ == detached(g.take(i as int)),
            disconnect == exists|j: int| 0 <= j < i && #[trigger] loose(g[j]),
    {
        proof {
            assert(g.take(i + 1).drop_last() =~= g.take(i as int));
            assert(g.take(i + 1).last() == g[i as int]);
        }
        let is_loose = match &pixels[i] {
            Some(cell) => !cell.connected_to_root,
            None => false,
        };
        if is_loose {
            let cell = pixels[i].take();
            newstruct.push(cell);
            disconnect = true;
            proof {
                assert(loose(g[i as int]));
            }
        } else if pixels[i].is_none() {
            newstruct.push(None);
        }
        proof {
            if !is_loose {
                assert(!loose(g[i as int]));
                assert((exists|j: int| 0 <= j < i + 1 && #[trigger] loose(g[j])) == (exists|j: int|
                    0 <= j < i && #[trigger] loose(g[j])));
            }
        }
    }
    proof {
        assert(g.take(n as int) =~= g);
        assert(pixels@ =~= kept(g));
    }
    (newstruct, disconnect)
}

proof fn lemma_views_push<P>(s: Seq<PixelStructure<P>>, x: PixelStructure<P>)
    ensures
        views_of(s.push(x)) == views_of(s).push(x.view()),
{
    assert(views_of(s.push(x)) =~= views_of(s).push(x.view()));
}

impl<P> PixelStructure<P> {
    /// Forms the structure with slots `pixels` and appends to `structures`
    /// every structure that results (see [`built`]). Fails, appending
    /// nothing, when a check on the way cannot complete.
    pub fn try_new(
        size: Vec2Integer,
        pixels: Vec<Option<PixelStructureRef<P>>>,
        structures: &mut Vec<PixelStructure<P>>,
    ) -> (r: Result<(), StructureError>)
        ensures
            built(pixels@, size) is Err ==> r == Err::<(), StructureError>(built(pixels@, size)->Err_0)
                && views_of(final(structures)@) == views_of(old(structures)@),
            built(pixels@, size) is Ok ==> r is Ok && views_of(final(structures)@) == views_of(old(structures)@)
                + built(pixels@, size)->Ok_0,
        decreases some_count(pixels@), 1nat,
    {
        let ghost g = pixels@;
        let root = find_root(&pixels);
        if root > 0 {
            let mut structure = PixelStructure { pixels, size, root };
            match structure.try_checkconnection(structures) {
                Ok(()) => {},
                Err(e) => {
                    return Err(e);
                },
            }
            let ghost before = structures@;
            structures.push(structure);
            proof {
                lemma_views_push(before, structure);
            }
        } else {
            assert(views_of(old(structures)@) + Seq::<StructureView<P>>::empty() =~= views_of(old(structures)@));
        }
        Ok(())
    }

    /// Marks the pixels connected to the root, removes the loose ones, and
    /// appends to `listofstructures` the structures that they form (see
    /// [`checked`]). Fails when a check on the way cannot complete: the
    /// list is then unchanged, and so is this structure when its own check
    /// could not complete (see [`after_failed_check`]).
    pub fn try_checkconnection(&mut self, listofstructures: &mut Vec<PixelStructure<P>>) -> (r: Result<(), StructureError>)
        ensures
            final(self).root == old(self).root,
            final(self).size == old(self).size,
            checked(old(self).pixels@, old(self).root as int, old(self).size) is Err ==> {
                &&& r == Err::<(), StructureError>(checked(old(self).pixels@, old(self).root as int, old(self).size)->Err_0)
                &&& views_of(final(listofstructures)@) == views_of(old(listofstructures)@)
                &&& final(self).pixels@ == after_failed_check(old(self).pixels@, old(self).root as int)
            },
            checked(old(self).pixels@, old(self).root as int, old(self).size) is Ok ==> {
                &&& r is Ok
                &&& final(self).pixels@ == checked(old(self).pixels@, old(self).root as int, old(self).size)->Ok_0.0
                &&& views_of(final(listofstructures)@) == views_of(old(listofstructures)@) + checked(
                    old(self).pixels@,
                    old(self).root as int,
                    old(self).size,
                )->Ok_0.1
            },
        decreases some_count(old(self).pixels@), 0nat,
    {
        let ghost g = self.pixels@;
        let ghost r0 = self.root as int;
        match try_mark_connected(&mut self.pixels, self.root) {
            Ok(()) => {},
            Err(e) => {
                return Err(e);
            },
        }
        proof {
            if !holds(g, r0) {
                lemma_reach_root(g, r0);
            }
            lemma_detached_fewer(g, r0);
        }
        let (newstruct, disconnect) = detach_unconnected(&mut self.pixels);
        if disconnect {
            PixelStructure::try_new(self.size, newstruct, listofstructures)
        } else {
            proof {
                let m = marked(g, r0);
                lemma_no_loose_detached_empty(m);
                lemma_all_empty_root(detached(m));
                assert(views_of(old(listofstructures)@) + Seq::<StructureView<P>>::empty() =~= views_of(old(listofstructures)@));
            }
            Ok(())
        }
    }
}

/// The slots of a structure after a check from root `r` that failed: as
/// they were when its own check could not complete, else (forming the
/// broken-away slots failed) with the loose pixels removed.
pub open spec fn after_failed_check<P>(g: Cells<P>, r: int) -> Cells<P> {
    if check_failure(g, r) is Some {
        g
    } else {
        kept(marked(g, r))
    }
}

/// Empties slot `slot` of structure `index` and checks that structure
/// again: its loose pixels break away and the structures they form are
/// appended to the list (see [`checked`]).
pub fn try_remove_pixel<P>(structures: &mut Vec<PixelStructure<P>>, index: usize, slot: usize) -> (r: Result<(), StructureError>)
    requires
        index < old(structures)@.len(),
        slot < old(structures)@[index as int].pixels@.len(),
    ensures
        ({
            let s = old(structures)@[index as int];
            let g = s.pixels@.update(slot as int, None);
            let c = checked(g, s.root as int, s.size);
            &&& c is Err ==> r == Err::<(), StructureError>(c->Err_0) && views_of(final(structures)@) == views_of(old(structures)@).update(
                index as int,
                (after_failed_check(g, s.root as int), s.root, s.size),
            )
            &&& c is Ok ==> r is Ok && views_of(final(structures)@) == views_of(old(structures)@).update(
                index as int,
                (c->Ok_0.0, s.root, s.size),
            ) + c->Ok_0.1
        }),
{
    let ghost old_list = structures@;
    let size = structures[index].size;
    let mut taken = PixelStructure { pixels: Vec::new(), size, root: 0 };
    std::mem::swap(&mut taken, &mut structures[index]);
    taken.pixels.set(slot, None);
    let ghost mid = structures@;
    let result = taken.try_checkconnection(structures);
    let ghost after = structures@;
    proof {
        assert(views_of(mid).len() == mid.len());
        assert(views_of(after).len() == after.len());
        assert(after.len() >= mid.len());
    }
    let ghost done = taken;
    std::mem::swap(&mut taken, &mut structures[index]);
    proof {
        assert(views_of(mid) =~= views_of(old_list).update(index as int, mid[index as int].view()));
        assert forall|i: int| 0 <= i < mid.len() implies #[trigger] after[i].view() == mid[i].view() by {
            assert(views_of(after)[i] == views_of(mid)[i]);
            assert(views_of(after)[i] == after[i].view());
            assert(views_of(mid)[i] == mid[i].view());
        }
        assert(structures@ == after.update(index as int, done));
        assert(views_of(structures@) =~= views_of(after).update(index as int, done.view()));
    }
    result
}

/// The pixels that stay are the pixels marked as connected.
pub proof fn lemma_kept_count<P>(g: Cells<P>)
    ensures
        some_count(kept(g)) == connected_count(g),
    decreases g.len(),
{
    if g.len() > 0 {
        assert(kept(g).drop_last() =~= kept(g.drop_last()));
        lemma_kept_count(g.drop_last());
    }
}

/// After a check from a root that finds no false connection, the structure
/// keeps its root pixel and every pixel reachable from the root, and every
/// pixel it keeps is marked as connected to the root.
pub proof fn lemma_check_keeps_connected<P>(g: Cells<P>, r: int)
    requires
        !false_connection(g, r),
    ensures
        holds(kept(marked(g, r)), r),
        forall|i: int| #[trigger] reachable(g, r, i) ==> holds(kept(marked(g, r)), i),
        forall|i: int|
            0 <= i < g.len() && #[trigger] kept(marked(g, r))[i] is Some ==> kept(marked(g, r))[i]->Some_0.connected_to_root,
{
    lemma_reach_root(g, r);
    assert forall|i: int| #[trigger] reachable(g, r, i) implies holds(kept(marked(g, r)), i) by {
        assert(!broken(g, i));
    }
}

/// A check neither creates nor loses pixels: those that stay and those that
/// break away together are the pixels the structure had.
pub proof fn lemma_check_conserves_pixels<P>(g: Cells<P>, r: int)
    ensures
        some_count(kept(marked(g, r))) + some_count(detached(marked(g, r))) == some_count(g),
{
    let m = marked(g, r);
    lemma_kept_count(m);
    lemma_detached_count(m);
    lemma_some_count_same_shape(g, m);
}

proof fn lemma_detached_len<P>(g: Cells<P>)
    ensures
        detached(g).len() <= g.len(),
    decreases g.len(),
{
    if g.len() > 0 {
        lemma_detached_len(g.drop_last());
    }
}

/// Every structure that forming a structure produces holds a pixel at its
/// root, and every pixel it holds is marked as connected to that root.
pub proof fn lemma_built_structures_connected<P>(g: Cells<P>, size: Vec2Integer)
    requires
        built(g, size) is Ok,
        g.len() <= usize::MAX,
    ensures
        forall|k: int|
            0 <= k < built(g, size)->Ok_0.len() ==> {
                let st = #[trigger] built(g, size)->Ok_0[k];
                &&& holds(st.0, st.1 as int)
                &&& forall|i: int| 0 <= i < st.0.len() && st.0[i] is Some ==> #[trigger] st.0[i]->Some_0.connected_to_root
            },
    decreases some_count(g),
{
    let r = root_of(g);
    if r != 0 {
        assert(!false_connection(g, r));
        let m = marked(g, r);
        lemma_reach_root(g, r);
        assert(holds(g, r));
        lemma_detached_fewer(g, r);
        lemma_detached_len(m);
        lemma_built_structures_connected(detached(m), size);
        lemma_check_keeps_connected(g, r);
        let subs = built(detached(m), size)->Ok_0;
        assert(built(g, size)->Ok_0 == subs.push((kept(m), r as usize, size)));
        assert(0 < r <= usize::MAX) by {
            assert(r < g.len());
        }
    }
}

/// Marks every pixel reachable from `root` as connected to it. No false
/// connection may be reachable from the root, and no cycle (see
/// [`check_failure`], and [`try_mark_connected`] for the form that reports
/// either).
pub fn mark_connected<P>(pixels: &mut Vec<Option<PixelStructureRef<P>>>, root: usize)
    requires
        check_failure(old(pixels)@, root as int) is None,
    ensures
        final(pixels)@ == marked(old(pixels)@, root as int),
{
    let _marked = try_mark_connected(pixels, root);
}

impl<P> PixelStructure<P> {
    /// Forms the structure with slots `pixels` and appends to `structures`
    /// every structure that results (see [`built`]). Every check on the way
    /// must complete: no false connection and no cycle reachable from a
    /// root (see [`PixelStructure::try_new`] for the form that reports one).
    pub fn new(size: Vec2Integer, pixels: Vec<Option<PixelStructureRef<P>>>, structures: &mut Vec<PixelStructure<P>>)
        requires
            built(pixels@, size) is Ok,
        ensures
            views_of(final(structures)@) == views_of(old(structures)@) + built(pixels@, size)->Ok_0,
            final(structures)@.len() >= old(structures)@.len(),
            forall|k: int| 0 <= k < old(structures)@.len() ==> (#[trigger] final(structures)@[k]).view() == old(structures)@[k].view(),
            forall|k: int| old(structures)@.len() <= k < final(structures)@.len() ==> (#[trigger] final(structures)@[k]).size == size,
    {
        let ghost g = pixels@;
        let _formed = PixelStructure::try_new(size, pixels, structures);
        proof {
            lemma_built_keeps_size(g, size);
            let fin = structures@;
            let old_list = old(structures)@;
            let subs = built(g, size)->Ok_0;
            assert(views_of(fin).len() == fin.len());
            assert forall|k: int| 0 <= k < old_list.len() implies (#[trigger] fin[k]).view() == old_list[k].view() by {
                assert(views_of(fin)[k] == fin[k].view());
                assert(views_of(old_list)[k] == old_list[k].view());
            }
            assert forall|k: int| old_list.len() <= k < fin.len() implies (#[trigger] fin[k]).size == size by {
                assert(views_of(fin)[k] == fin[k].view());
                assert(views_of(fin)[k] == subs[k - old_list.len()]);
            }
        }
    }

    /// Marks the pixels connected to the root, removes the loose ones, and
    /// appends to `listofstructures` the structures that they form (see
    /// [`checked`]). Every check on the way must complete: no false
    /// connection and no cycle reachable from a root (see
    /// [`PixelStructure::try_checkconnection`] for the form that reports one).
    pub fn checkconnection(&mut self, listofstructures: &mut Vec<PixelStructure<P>>)
        requires
            checked(old(self).pixels@, old(self).root as int, old(self).size) is Ok,
        ensures
            final(self).root == old(self).root,
            final(self).size == old(self).size,
            final(self).pixels@ == checked(old(self).pixels@, old(self).root as int, old(self).size)->Ok_0.0,
            views_of(final(listofstructures)@) == views_of(old(listofstructures)@) + checked(
                old(self).pixels@,
                old(self).root as int,
                old(self).size,
            )->Ok_0.1,
            final(listofstructures)@.len() >= old(listofstructures)@.len(),
            forall|k: int|
                old(listofstructures)@.len() <= k < final(listofstructures)@.len() ==> (
                #[trigger] final(listofstructures)@[k]).size == old(self).size,
    {
        let ghost g = self.pixels@;
        let ghost r0 = self.root as int;
        let ghost size = self.size;
        let _checked = self.try_checkconnection(listofstructures);
        proof {
            lemma_checked_keeps_size(g, r0, size);
            let fin = listofstructures@;
            let old_list = old(listofstructures)@;
            let subs = checked(g, r0, size)->Ok_0.1;
            assert(views_of(fin).len() == fin.len());
            assert forall|k: int| old_list.len() <= k < fin.len() implies (#[trigger] fin[k]).size == size by {
                assert(views_of(fin)[k] == fin[k].view());
                assert(views_of(fin)[k] == subs[k - old_list.len()]);
            }
        }
    }
}

/// The structure list after emptying slot `slot` of structure `index` and
/// checking that structure again: `None` when a check on the way cannot
/// complete.
pub open spec fn after_removal<P>(list: Seq<StructureView<P>>, index: int, slot: int) -> Option<Seq<StructureView<P>>> {
    let s = list[index];
    let g = s.0.update(slot, None);
    let c = checked(g, s.1 as int, s.2);
    if c is Ok {
        Some(list.update(index, (c->Ok_0.0, s.1, s.2)) + c->Ok_0.1)
    } else {
        None
    }
}

/// Empties slot `slot` of structure `index` and checks that structure
/// again: its loose pixels break away and the structures they form are
/// appended to the list (see [`checked`]). Every check on the way must
/// complete (see [`try_remove_pixel`] for the form that reports one).
pub fn remove_pixel<P>(structures: &mut Vec<PixelStructure<P>>, index: usize, slot: usize)
    requires
        index < old(structures)@.len(),
        slot < old(structures)@[index as int].pixels@.len(),
        after_removal(views_of(old(structures)@), index as int, slot as int) is Some,
    ensures
        views_of(final(structures)@) == after_removal(views_of(old(structures)@), index as int, slot as int)->Some_0,
{
    proof {
        assert(views_of(old(structures)@)[index as int] == old(structures)@[index as int].view());
    }
    let _removed = try_remove_pixel(structures, index, slot);
}

/// A walk of exactly `t` steps along connections leaves `root`.
pub open spec fn has_walk<P>(g: Cells<P>, root: int, t: nat) -> bool {
    exists|path: Seq<int>| #[trigger] is_path(g, path) && path[0] == root && path.len() == t + 1
}

/// Walks of every length leave `root`: the connections reachable from it
/// go round a cycle, so a search that keeps following them, round after
/// round, never ends.
pub open spec fn endless<P>(g: Cells<P>, root: int) -> bool {
    forall|t: nat| #[trigger] has_walk(g, root, t)
}

/// A walk of exactly `t` steps leads from `root` to `v`.
pub open spec fn walk_to<P>(g: Cells<P>, root: int, t: nat, v: int) -> bool {
    exists|path: Seq<int>| #[trigger] is_path(g, path) && path[0] == root && path.len() == t + 1 && path.last() == v
}

proof fn lemma_path_subrange<P>(g: Cells<P>, p: Seq<int>, a: int, b: int)
    requires
        is_path(g, p),
        0 <= a < b <= p.len(),
    ensures
        is_path(g, p.subrange(a, b)),
{
    let q = p.subrange(a, b);
    assert forall|k: int| 0 <= k < q.len() - 1 implies #[trigger] step_ok(g, q, k) by {
        assert(step_ok(g, p, a + k));
        assert(q[k] == p[a + k] && q[k + 1] == p[a + k + 1]);
    }
}

proof fn lemma_path_concat<P>(g: Cells<P>, a: Seq<int>, b: Seq<int>)
    requires
        is_path(g, a),
        is_path(g, b),
        linked(g, a.last(), b[0]),
    ensures
        is_path(g, a + b),
{
    let q = a + b;
    assert forall|k: int| 0 <= k < q.len() - 1 implies #[trigger] step_ok(g, q, k) by {
        if k < a.len() - 1 {
            assert(step_ok(g, a, k));
        } else if k == a.len() - 1 {
        } else {
            assert(step_ok(g, b, k - a.len()));
        }
    }
}

proof fn lemma_walk_step<P>(g: Cells<P>, root: int, t: nat, v: int, c: int)
    requires
        walk_to(g, root, t, v),
        linked(g, v, c),
    ensures
        walk_to(g, root, t + 1, c),
{
    let path = choose|path: Seq<int>| #[trigger] is_path(g, path) && path[0] == root && path.len() == t + 1 && path.last() == v;
    lemma_path_extend(g, path, c);
    assert(is_path(g, path.push(c)) && path.push(c)[0] == root && path.push(c).len() == t + 2);
}

proof fn lemma_walk_back<P>(g: Cells<P>, root: int, t: nat, c: int) -> (v: int)
    requires
        walk_to(g, root, t + 1, c),
    ensures
        walk_to(g, root, t, v),
        linked(g, v, c),
{
    let path = choose|path: Seq<int>| #[trigger] is_path(g, path) && path[0] == root && path.len() == t + 2 && path.last() == c;
    lemma_path_subrange(g, path, 0, (t + 1) as int);
    let q = path.subrange(0, (t + 1) as int);
    assert(step_ok(g, path, t as int));
    assert(is_path(g, q) && q[0] == root && q.len() == t + 1 && q.last() == path[t as int]);
    path[t as int]
}

proof fn lemma_walk_reachable<P>(g: Cells<P>, root: int, t: nat, v: int)
    requires
        walk_to(g, root, t, v),
        !false_connection(g, root),
    ensures
        holds(g, v),
{
    assert(reachable(g, root, v));
}

/// A sequence of `n + 1` numbers below `n` repeats one of them.
proof fn lemma_repeat(p: Seq<int>, n: int) -> (ij: (int, int))
    requires
        0 <= n,
        p.len() == n + 1,
        forall|k: int| 0 <= k < p.len() ==> 0 <= #[trigger] p[k] < n,
    ensures
        0 <= ij.0 < ij.1 < p.len(),
        p[ij.0] == p[ij.1],
{
    if exists|i: int, j: int| 0 <= i < j < p.len() && p[i] == p[j] {
        choose|i: int, j: int| 0 <= i < j < p.len() && p[i] == p[j]
    } else {
        assert(p.no_duplicates()) by {
            assert forall|i: int, j: int| 0 <= i < p.len() && 0 <= j < p.len() && i != j implies p[i] != p[j] by {
                if i > j {
                    assert(!(0 <= j < i < p.len() && p[j] == p[i]));
                } else {
                    assert(!(0 <= i < j < p.len() && p[i] == p[j]));
                }
            }
        }
        p.unique_seq_to_set();
        vstd::set_lib::lemma_int_range(0, n);
        assert(p.to_set().subset_of(vstd::set_lib::set_int_range(0, n))) by {
            assert forall|x: int| p.to_set().contains(x) implies vstd::set_lib::set_int_range(0, n).contains(x) by {
                assert(p.contains(x));
                let k = choose|k: int| 0 <= k < p.len() && p[k] == x;
                assert(0 <= p[k] < n);
            }
        }
        vstd::set_lib::lemma_len_subset(p.to_set(), vstd::set_lib::set_int_range(0, n));
        (0, 0)
    }
}

/// Going round the cycle `p[i+1..=j]` (with `p[i] == p[j]`) `m` times gives
/// a walk from `p[0]` that ends at `p[i]` and has at least `m + 1` slots.
proof fn lemma_pump<P>(g: Cells<P>, p: Seq<int>, i: int, j: int, m: nat) -> (w: Seq<int>)
    requires
        is_path(g, p),
        0 <= i < j < p.len(),
        p[i] == p[j],
    ensures
        is_path(g, w),
        w[0] == p[0],
        w.last() == p[i],
        w.len() >= m + 1,
    decreases m,
{
    if m == 0 {
        lemma_path_subrange(g, p, 0, i + 1);
        p.subrange(0, i + 1)
    } else {
        let w0 = lemma_pump(g, p, i, j, (m - 1) as nat);
        let cyc = p.subrange(i + 1, j + 1);
        lemma_path_subrange(g, p, i + 1, j + 1);
        assert(step_ok(g, p, i));
        lemma_path_concat(g, w0, cyc);
        let w = w0 + cyc;
        assert(w[0] == w0[0]);
        assert(w.last() == cyc.last());
        w
    }
}

/// A walk from the root that visits more slots than the structure has,
/// all of them holding pixels, shows that walks of every length exist.
proof fn lemma_long_walk_endless<P>(g: Cells<P>, root: int, p: Seq<int>)
    requires
        is_path(g, p),
        p[0] == root,
        p.len() == g.len() + 1,
        forall|k: int| 0 <= k < p.len() ==> holds(g, #[trigger] p[k]),
    ensures
        endless(g, root),
{
    let ij = lemma_repeat(p, g.len() as int);
    assert forall|t: nat| #[trigger] has_walk(g, root, t) by {
        let w = lemma_pump(g, p, ij.0, ij.1, t);
        lemma_path_subrange(g, w, 0, (t + 1) as int);
        let q = w.subrange(0, (t + 1) as int);
        assert(is_path(g, q) && q[0] == root && q.len() == t + 1);
    }
}

/// Whether a search that keeps following connections from `root`, round
/// after round, would never end. No false connection may be reachable.
fn walks_forever<P>(pixels: &Vec<Option<PixelStructureRef<P>>>, root: usize) -> (b: bool)
    requires
        !false_connection(pixels@, root as int),
    ensures
        b == endless(pixels@, root as int),
{
    let ghost g = pixels@;
    let n = pixels.len();
    proof {
        lemma_reach_root(g, root as int);
        assert(!broken(g, root as int));
        let path = seq![root as int];
        assert(is_path(g, path) && path[0] == root && path.len() == 1 && path.last() == root);
    }
    let mut frontier: Vec<bool> = Vec::new();
    for i in 0..n
        invariant
            frontier@.len() == i,
            forall|j: int| 0 <= j < i ==> !#[trigger] frontier@[j],
    {
        frontier.push(false);
    }
    frontier.set(root, true);
    let ghost mut some_v: int = root as int;
    let mut t: usize = 0;
    while t < n
        invariant
            pixels@ == g,
            n == g.len(),
            !false_connection(g, root as int),
            0 <= t <= n,
            frontier@.len() == n,
            forall|v: int| 0 <= v < n ==> (#[trigger] frontier@[v] <==> walk_to(g, root as int, t as nat, v)),
            0 <= some_v < n,
            frontier@[some_v],
        decreases n - t,
    {
        let mut next: Vec<bool> = Vec::new();
        for i in 0..n
            invariant
                next@.len() == i,
                forall|j: int| 0 <= j < i ==> !#[trigger] next@[j],
        {
            next.push(false);
        }
        let mut any = false;
        let ghost mut witness: int = 0;
        for v in 0..n
            invariant
                pixels@ == g,
                n == g.len(),
                !false_connection(g, root as int),
                frontier@.len() == n,
                next@.len() == n,
                forall|w: int| 0 <= w < n ==> (#[trigger] frontier@[w] <==> walk_to(g, root as int, t as nat, w)),
                forall|c: int| 0 <= c < n && #[trigger] next@[c] ==> walk_to(g, root as int, (t + 1) as nat, c),
                forall|w: int, c: int| 0 <= w < v && frontier@[w] && #[trigger] linked(g, w, c) ==> 0 <= c < n && next@[c],
                any ==> 0 <= witness < n && next@[witness],
                !any ==> forall|c: int| 0 <= c < n ==> !#[trigger] next@[c],
        {
            if frontier[v] {
                match &pixels[v] {
                    Some(cell) => {
                        let conns = &cell.connections;
                        let m = conns.len();
                        for k in 0..m
                            invariant
                                pixels@ == g,
                                n == g.len(),
                                !false_connection(g, root as int),
                                0 <= v < n,
                                frontier@.len() == n,
                                next@.len() == n,
                                frontier@[v as int],
                                walk_to(g, root as int, t as nat, v as int),
                                g[v as int] is Some,
                                g[v as int]->Some_0.connections@ == conns@,
                                m == conns@.len(),
                                forall|w: int| 0 <= w < n ==> (#[trigger] frontier@[w] <==> walk_to(g, root as int, t as nat, w)),
                                forall|c: int| 0 <= c < n && #[trigger] next@[c] ==> walk_to(g, root as int, (t + 1) as nat, c),
                                forall|w: int, c: int| 0 <= w < v && frontier@[w] && #[trigger] linked(g, w, c) ==> 0 <= c < n && next@[c],
                                forall|q: int| 0 <= q < k ==> #[trigger] conns@[q] < n && next@[conns@[q] as int],
                                any ==> 0 <= witness < n && next@[witness],
                                !any ==> forall|c: int| 0 <= c < n ==> !#[trigger] next@[c],
                        {
                            let c = conns[k];
                            proof {
                                assert(conns@.contains(c));
                                assert(linked(g, v as int, c as int));
                                lemma_walk_step(g, root as int, t as nat, v as int, c as int);
                                lemma_walk_reachable(g, root as int, (t + 1) as nat, c as int);
                            }
                            next.set(c, true);
                            any = true;
                            proof {
                                witness = c as int;
                            }
                        }
                        proof {
                            assert forall|w: int, c: int| 0 <= w < v + 1 && frontier@[w] && #[trigger] linked(g, w, c)
                                implies 0 <= c < n && next@[c] by {
                                if w == v {
                                    let q = choose|q: int| 0 <= q < conns@.len() && conns@[q] == c as usize;
                                    assert(conns@[q] < n && next@[conns@[q] as int]);
                                }
                            }
                        }
                    },
                    None => {
                        proof {
                            lemma_walk_reachable(g, root as int, t as nat, v as int);
                        }
                    },
                }
            } else {
                proof {
                    assert forall|w: int, c: int| 0 <= w < v + 1 && frontier@[w] && #[trigger] linked(g, w, c)
                        implies 0 <= c < n && next@[c] by {
                        if w == v {
                            assert(!frontier@[w]);
                        }
                    }
                }
            }
        }
        proof {
            assert forall|c: int| 0 <= c < n implies (#[trigger] next@[c] <==> walk_to(g, root as int, (t + 1) as nat, c)) by {
                if walk_to(g, root as int, (t + 1) as nat, c) {
                    let w = lemma_walk_back(g, root as int, t as nat, c);
                    lemma_walk_reachable(g, root as int, t as nat, w);
                    assert(frontier@[w]);
                }
            }
        }
        if !any {
            proof {
                assert(!has_walk(g, root as int, (t + 1) as nat)) by {
                    if has_walk(g, root as int, (t + 1) as nat) {
                        let path = choose|path: Seq<int>| #[trigger] is_path(g, path) && path[0] == root && path.len() == t + 2;
                        assert(walk_to(g, root as int, (t + 1) as nat, path.last()));
                        lemma_walk_reachable(g, root as int, (t + 1) as nat, path.last());
                        assert(next@[path.last()]);
                    }
                }
            }
            return false;
        }
        frontier = next;
        t = t + 1;
        proof {
            some_v = witness;
        }
    }
    proof {
        assert(walk_to(g, root as int, n as nat, some_v));
        let path = choose|path: Seq<int>| #[trigger] is_path(g, path) && path[0] == root && path.len() == n + 1 && path.last() == some_v;
        assert forall|k: int| 0 <= k < path.len() implies holds(g, #[trigger] path[k]) by {
            lemma_path_subrange(g, path, 0, k + 1);
            let q = path.subrange(0, k + 1);
            assert(is_path(g, q) && q[0] == root && q.last() == path[k]);
            assert(reachable(g, root as int, path[k]));
        }
        lemma_long_walk_endless(g, root as int, path);
    }
    true
}

/// Every structure that forming a structure of size `size` gives has that
/// size.
pub proof fn lemma_built_keeps_size<P>(g: Cells<P>, size: Vec2Integer)
    ensures
        built(g, size) is Ok ==> forall|k: int|
            0 <= k < built(g, size)->Ok_0.len() ==> (#[trigger] built(g, size)->Ok_0[k]).2 == size,
    decreases some_count(g),
{
    let r = root_of(g);
    if r != 0 && built(g, size) is Ok {
        assert(check_failure(g, r) is None);
        let m = marked(g, r);
        lemma_reach_root(g, r);
        assert(holds(g, r));
        lemma_detached_fewer(g, r);
        lemma_built_keeps_size(detached(m), size);
        let subs = built(detached(m), size)->Ok_0;
        assert(built(g, size)->Ok_0 == subs.push((kept(m), r as usize, size)));
    }
}

/// Every structure that checking a structure of size `size` breaks off has
/// that size too.
pub proof fn lemma_checked_keeps_size<P>(g: Cells<P>, r: int, size: Vec2Integer)
    ensures
        checked(g, r, size) is Ok ==> forall|k: int|
            0 <= k < checked(g, r, size)->Ok_0.1.len() ==> (#[trigger] checked(g, r, size)->Ok_0.1[k]).2 == size,
{
    if checked(g, r, size) is Ok {
        lemma_built_keeps_size(detached(marked(g, r)), size);
    }
}

} // verus!
