//! Which faces of a chunk can be seen from which others through its transparent blocks.
//!
//! A chunk's transparent blocks form regions connected through their sides. Two faces see each
//! other when one region touches both. The search for visible chunks follows these links to
//! avoid chunks hidden behind solid ground.

use vstd::prelude::*;

use crate::blocks::{BlockData, BlockId, BlockState, Blocks, material_transparent};
use crate::math::{IVec3, spec_add};
use crate::world::chunk::{Chunk, ChunkFace, face_at, face_direction, face_index, face_of_position};

verus! {

/// Whether a position relative to a chunk lies inside it.
pub open spec fn inside(p: IVec3) -> bool {
    0 <= p.x < 16 && 0 <= p.y < 16 && 0 <= p.z < 16
}

/// The index in a chunk of the block at a position inside it.
pub open spec fn cell_index(p: IVec3) -> int {
    p.x * 256 + p.z * 16 + p.y
}

/// Every block id stored in the chunk names a configured block.
pub open spec fn blocks_configured(chunk: &Chunk, blocks: &Blocks) -> bool {
    forall|i: int| 0 <= i < 4096 ==> (#[trigger] chunk.block_at(i) as int) < blocks.configs().len()
}

/// The positions inside the chunk whose block is transparent.
pub open spec fn open_cells(chunk: &Chunk, blocks: &Blocks) -> Set<IVec3> {
    Set::new(
        |p: IVec3|
            inside(p) && material_transparent(
                blocks.configs()[chunk.block_at(cell_index(p)) as int].material,
            ),
    )
}

/// The distance between two integers.
pub open spec fn gap(u: int, v: int) -> int {
    if u >= v {
        u - v
    } else {
        v - u
    }
}

/// Whether two positions share a side.
pub open spec fn adjacent(a: IVec3, b: IVec3) -> bool {
    gap(a.x as int, b.x as int) + gap(a.y as int, b.y as int) + gap(a.z as int, b.z as int) == 1
}

/// The position next to `p` in the direction of the face with index `d`.
pub open spec fn step(p: IVec3, d: int) -> IVec3 {
    spec_add(p, face_direction(face_at(d)))
}

/// A sequence of open positions, each sharing a side with the next.
pub open spec fn is_path(open: Set<IVec3>, path: Seq<IVec3>) -> bool {
    &&& path.len() > 0
    &&& forall|i: int| 0 <= i < path.len() ==> open.contains(#[trigger] path[i])
    &&& forall|i: int| 0 <= i < path.len() - 1 ==> adjacent(#[trigger] path[i], path[i + 1])
}

/// Whether a path of open positions leads from `a` to `b`.
pub open spec fn reaches(open: Set<IVec3>, a: IVec3, b: IVec3) -> bool {
    exists|path: Seq<IVec3>| #[trigger] is_path(open, path) && path[0] == a && path.last() == b
}

/// Whether a position inside the chunk lies against the face.
pub open spec fn touches(p: IVec3, face: ChunkFace) -> bool {
    inside(p) && match face {
        ChunkFace::Top => p.y == 15,
        ChunkFace::Bottom => p.y == 0,
        ChunkFace::Right => p.x == 15,
        ChunkFace::Left => p.x == 0,
        ChunkFace::Front => p.z == 15,
        ChunkFace::Back => p.z == 0,
        ChunkFace::NoFace => false,
    }
}

/// Whether the face can be reached from `a` through the open region that holds it.
pub open spec fn linked(open: Set<IVec3>, a: IVec3, face: ChunkFace) -> bool {
    exists|s: IVec3, b: IVec3|
        #[trigger] reaches(open, s, a) && #[trigger] reaches(open, s, b) && touches(b, face)
}

/// Whether one region of open positions touches both faces.
pub open spec fn faces_connected(open: Set<IVec3>, from: ChunkFace, to: ChunkFace) -> bool {
    exists|a: IVec3| #[trigger] touches(a, from) && linked(open, a, to)
}

/// No open position next to one in `v` lies outside `v`.
pub open spec fn closed(open: Set<IVec3>, v: Set<IVec3>) -> bool {
    forall|a: IVec3, b: IVec3|
        #![trigger v.contains(a), v.contains(b)]
        v.contains(a) && open.contains(b) && adjacent(a, b) ==> v.contains(b)
}

/// The positions reachable from `s`.
pub open spec fn reach_set(open: Set<IVec3>, s: IVec3) -> Set<IVec3> {
    Set::new(|p: IVec3| reaches(open, s, p))
}

/// The direction index that leads from `a` to an adjacent `b`.
pub open spec fn direction_between(a: IVec3, b: IVec3) -> int {
    if b.y > a.y {
        0
    } else if b.y < a.y {
        1
    } else if b.x > a.x {
        2
    } else if b.x < a.x {
        3
    } else if b.z > a.z {
        4
    } else {
        5
    }
}

/// Two adjacent cells are one step apart, in the direction between them.
pub proof fn lemma_direction_between(a: IVec3, b: IVec3)
    requires
        adjacent(a, b),
    ensures
        0 <= direction_between(a, b) < 6,
        step(a, direction_between(a, b)) == b,
{
}

/// A step from a cell in or next to the chunk leads to an adjacent cell, and back.
pub proof fn lemma_step_adjacent(p: IVec3, d: int)
    requires
        0 <= d < 6,
        -1 <= p.x <= 16,
        -1 <= p.y <= 16,
        -1 <= p.z <= 16,
    ensures
        adjacent(p, step(p, d)),
        adjacent(step(p, d), p),
{
}

/// A position inside the chunk whose neighbour in a direction is outside lies against the face
/// of that direction, and the neighbour is beyond that face.
pub proof fn lemma_step_outside(p: IVec3, d: int)
    requires
        0 <= d < 6,
        inside(p),
    ensures
        !inside(step(p, d)) <==> touches(p, face_at(d)),
        !inside(step(p, d)) ==> face_of_position(step(p, d)) == face_at(d),
        face_index(face_at(d)) == d,
{
}

/// An open cell reaches itself.
pub proof fn lemma_reaches_self(open: Set<IVec3>, a: IVec3)
    requires
        open.contains(a),
    ensures
        reaches(open, a, a),
{
    let path = seq![a];
    assert(is_path(open, path));
}

/// What a cell reaches, it reaches one step further through an open adjacent cell.
pub proof fn lemma_reaches_step(open: Set<IVec3>, s: IVec3, p: IVec3, q: IVec3)
    requires
        reaches(open, s, p),
        open.contains(q),
        adjacent(p, q),
    ensures
        reaches(open, s, q),
{
    let path = choose|path: Seq<IVec3>| #[trigger] is_path(open, path) && path[0] == s && path.last() == p;
    let longer = path.push(q);
    assert forall|i: int| 0 <= i < longer.len() - 1 implies adjacent(#[trigger] longer[i], longer[i + 1]) by {
        if i < path.len() - 1 {
            assert(longer[i] == path[i] && longer[i + 1] == path[i + 1]);
        }
    }
    assert forall|i: int| 0 <= i < longer.len() implies open.contains(#[trigger] longer[i]) by {
        if i < path.len() {
            assert(longer[i] == path[i]);
        }
    }
    assert(is_path(open, longer));
}

/// Both ends of a path through open cells are open.
pub proof fn lemma_reaches_open(open: Set<IVec3>, s: IVec3, p: IVec3)
    requires
        reaches(open, s, p),
    ensures
        open.contains(s),
        open.contains(p),
{
    let path = choose|path: Seq<IVec3>| #[trigger] is_path(open, path) && path[0] == s && path.last() == p;
    assert(open.contains(path[0]));
    assert(open.contains(path[path.len() - 1]));
}

/// Along a path that starts in a closed set, every position is in the set.
proof fn lemma_closed_prefix(open: Set<IVec3>, v: Set<IVec3>, path: Seq<IVec3>, k: int)
    requires
        closed(open, v),
        is_path(open, path),
        v.contains(path[0]),
        0 <= k < path.len(),
    ensures
        v.contains(path[k]),
    decreases k,
{
    if k > 0 {
        lemma_closed_prefix(open, v, path, k - 1);
        assert(adjacent(path[k - 1], path[k]));
        assert(open.contains(path[k]));
    }
}

/// Along a path that ends in a closed set, every position is in the set.
proof fn lemma_closed_suffix(open: Set<IVec3>, v: Set<IVec3>, path: Seq<IVec3>, k: int)
    requires
        closed(open, v),
        is_path(open, path),
        v.contains(path[path.len() - 1]),
        0 <= k < path.len(),
    ensures
        v.contains(path[k]),
    decreases path.len() - k,
{
    if k < path.len() - 1 {
        lemma_closed_suffix(open, v, path, k + 1);
        assert(adjacent(path[k], path[k + 1]));
        assert(adjacent(path[k + 1], path[k]));
        assert(open.contains(path[k]));
    }
}

/// A closed set holds everything reachable from its members.
pub proof fn lemma_closed_forward(open: Set<IVec3>, v: Set<IVec3>, s: IVec3, p: IVec3)
    requires
        closed(open, v),
        v.contains(s),
        reaches(open, s, p),
    ensures
        v.contains(p),
{
    let path = choose|path: Seq<IVec3>| #[trigger] is_path(open, path) && path[0] == s && path.last() == p;
    lemma_closed_prefix(open, v, path, path.len() - 1);
}

/// A closed set holds everything from which its members are reachable.
pub proof fn lemma_closed_backward(open: Set<IVec3>, v: Set<IVec3>, s: IVec3, p: IVec3)
    requires
        closed(open, v),
        v.contains(p),
        reaches(open, s, p),
    ensures
        v.contains(s),
{
    let path = choose|path: Seq<IVec3>| #[trigger] is_path(open, path) && path[0] == s && path.last() == p;
    lemma_closed_suffix(open, v, path, 0);
}

/// The positions inside a chunk marked in a table indexed like its blocks.
pub open spec fn marked(table: Seq<bool>) -> Set<IVec3> {
    Set::new(|p: IVec3| inside(p) && table[cell_index(p)])
}

/// The number of `true` entries.
pub open spec fn count_true(s: Seq<bool>) -> nat
    decreases s.len(),
{
    if s.len() == 0 {
        0
    } else {
        count_true(s.drop_last()) + if s.last() {
            1nat
        } else {
            0nat
        }
    }
}

proof fn lemma_count_bound(s: Seq<bool>)
    ensures
        count_true(s) <= s.len(),
    decreases s.len(),
{
    if s.len() > 0 {
        lemma_count_bound(s.drop_last());
    }
}

proof fn lemma_count_set(s: Seq<bool>, i: int)
    requires
        0 <= i < s.len(),
        !s[i],
    ensures
        count_true(s.update(i, true)) == count_true(s) + 1,
    decreases s.len(),
{
    if i == s.len() - 1 {
        assert(s.update(i, true).drop_last() =~= s.drop_last());
    } else {
        lemma_count_set(s.drop_last(), i);
        assert(s.update(i, true).drop_last() =~= s.drop_last().update(i, true));
    }
}

/// Positions within one step of the chunk.
pub open spec fn near(p: IVec3) -> bool {
    -1 <= p.x <= 16 && -1 <= p.y <= 16 && -1 <= p.z <= 16
}

/// What a search from `source` adds to the visited positions `v`: nothing if the source was
/// visited or is not open, else everything reachable from it.
pub open spec fn explored(open: Set<IVec3>, v: Set<IVec3>, source: IVec3) -> Set<IVec3> {
    if v.contains(source) || !open.contains(source) {
        Set::empty()
    } else {
        reach_set(open, source)
    }
}

proof fn lemma_closed_union(open: Set<IVec3>, a: Set<IVec3>, b: Set<IVec3>)
    requires
        closed(open, a),
        closed(open, b),
    ensures
        closed(open, a.union(b)),
{
    assert forall|x: IVec3, y: IVec3|
        #![trigger a.union(b).contains(x), a.union(b).contains(y)]
        a.union(b).contains(x) && open.contains(y) && adjacent(x, y) implies a.union(b).contains(y) by {
        if a.contains(x) {
            assert(a.contains(y));
        } else {
            assert(b.contains(y));
        }
    }
}

/// Open neighbours of positions visited in this search are visited or waiting on the stack.
#[verifier::opaque]
pub open spec fn neighbours_pending(
    open: Set<IVec3>,
    visited: Seq<bool>,
    run: Set<IVec3>,
    stack: Seq<IVec3>,
) -> bool {
    forall|p: IVec3, d: int|
        #![trigger run.contains(p), step(p, d)]
        run.contains(p) && 0 <= d < 6 && open.contains(step(p, d)) ==> marked(visited).contains(
            step(p, d),
        ) || stack.contains(step(p, d))
}

/// Faces next to positions visited in this search are seen, or the position beyond them waits
/// on the stack.
#[verifier::opaque]
pub open spec fn faces_pending(run: Set<IVec3>, seen: Seq<bool>, stack: Seq<IVec3>) -> bool {
    forall|p: IVec3, d: int|
        #![trigger run.contains(p), step(p, d)]
        run.contains(p) && 0 <= d < 6 && !inside(step(p, d)) ==> seen[d] || stack.contains(
            step(p, d),
        )
}

/// Every seen face lies against a position visited in this search.
#[verifier::opaque]
pub open spec fn seen_sound(run: Set<IVec3>, seen: Seq<bool>) -> bool {
    forall|d: int|
        0 <= d < 6 && #[trigger] seen[d] ==> exists|a: IVec3|
            run.contains(a) && #[trigger] touches(a, face_at(d))
}

/// The stack holds the source and neighbours of positions visited in this search.
#[verifier::opaque]
pub open spec fn stack_sound(run: Set<IVec3>, source: IVec3, stack: Seq<IVec3>) -> bool {
    forall|i: int|
        0 <= i < stack.len() ==> near(#[trigger] stack[i]) && (stack[i] == source || exists|
            p: IVec3,
            d: int,
        |
            run.contains(p) && 0 <= d < 6 && stack[i] == #[trigger] step(p, d))
}

/// Everything visited in this search is reachable from the source.
#[verifier::opaque]
pub open spec fn run_reached(open: Set<IVec3>, source: IVec3, run: Set<IVec3>) -> bool {
    forall|p: IVec3| #[trigger] run.contains(p) ==> reaches(open, source, p)
}

/// What a search from `source` keeps true: `run` holds what it visited so far, all reachable
/// from the source; open neighbours of visited positions are visited or on the stack; faces
/// next to visited positions are seen or on the stack; seen faces lie against visited positions.
pub open spec fn search_inv(
    open: Set<IVec3>,
    v0: Set<IVec3>,
    run: Set<IVec3>,
    source: IVec3,
    visited: Seq<bool>,
    seen: Seq<bool>,
    stack: Seq<IVec3>,
) -> bool {
    &&& inside(source)
    &&& visited.len() == 4096
    &&& seen.len() == 6
    &&& forall|p: IVec3| #[trigger] open.contains(p) ==> inside(p)
    &&& v0.subset_of(open)
    &&& closed(open, v0)
    &&& marked(visited) == v0.union(run)
    &&& run.disjoint(v0)
    &&& run.subset_of(open)
    &&& run_reached(open, source, run)
    &&& neighbours_pending(open, visited, run, stack)
    &&& faces_pending(run, seen, stack)
    &&& seen_sound(run, seen)
    &&& stack_sound(run, source, stack)
    &&& (open.contains(source) ==> marked(visited).contains(source) || stack.contains(source))
    &&& (v0.contains(source) || !open.contains(source) ==> run == Set::<IVec3>::empty())
}

proof fn lemma_search_start(open: Set<IVec3>, source: IVec3, visited: Seq<bool>)
    requires
        forall|p: IVec3| #[trigger] open.contains(p) ==> inside(p),
        inside(source),
        visited.len() == 4096,
        marked(visited).subset_of(open),
        closed(open, marked(visited)),
    ensures
        search_inv(open, marked(visited), Set::empty(), source, visited, seq![false, false, false, false, false, false], seq![source]),
{
    reveal(neighbours_pending);
    reveal(faces_pending);
    reveal(seen_sound);
    reveal(stack_sound);
    reveal(run_reached);
    let stack = seq![source];
    assert(marked(visited) =~= marked(visited).union(Set::empty()));
    assert(stack[0] == source);
    assert(stack.contains(source));
}

/// The top of the stack is near the chunk, and when it lies beyond a face it is a neighbour of
/// a visited position.
proof fn lemma_stack_top(run: Set<IVec3>, source: IVec3, stack: Seq<IVec3>)
    requires
        stack_sound(run, source, stack),
        stack.len() > 0,
    ensures
        near(stack.last()),
        stack.last() == source || exists|p: IVec3, d: int|
            run.contains(p) && 0 <= d < 6 && stack.last() == #[trigger] step(p, d),
{
    reveal(stack_sound);
    assert(near(stack[stack.len() - 1]));
}

/// Removing the top of the stack keeps the rest sound.
proof fn lemma_stack_pop(run: Set<IVec3>, source: IVec3, stack: Seq<IVec3>)
    requires
        stack_sound(run, source, stack),
        stack.len() > 0,
    ensures
        stack_sound(run, source, stack.drop_last()),
{
    reveal(stack_sound);
    let rest = stack.drop_last();
    assert forall|i: int| 0 <= i < rest.len() implies near(#[trigger] rest[i]) && (rest[i] == source
        || exists|p: IVec3, d: int| run.contains(p) && 0 <= d < 6 && rest[i] == #[trigger] step(p, d)) by {
        assert(rest[i] == stack[i]);
    }
}

/// Removing a position from the stack that is not needed keeps the pending conditions.
proof fn lemma_pending_pop(
    open: Set<IVec3>,
    visited: Seq<bool>,
    run: Set<IVec3>,
    seen: Seq<bool>,
    stack: Seq<IVec3>,
)
    requires
        neighbours_pending(open, visited, run, stack),
        faces_pending(run, seen, stack),
        forall|p: IVec3| #[trigger] run.contains(p) ==> inside(p),
        stack.len() > 0,
        open.contains(stack.last()) ==> marked(visited).contains(stack.last()),
        !inside(stack.last()) ==> forall|d: int|
            #![trigger seen[d]]
            0 <= d < 6 && face_at(d) == face_of_position(stack.last()) ==> seen[d],
    ensures
        neighbours_pending(open, visited, run, stack.drop_last()),
        faces_pending(run, seen, stack.drop_last()),
{
    reveal(neighbours_pending);
    reveal(faces_pending);
    let pos = stack.last();
    let rest = stack.drop_last();
    assert(stack =~= rest.push(pos));
    assert forall|q: IVec3, e: int|
        #![trigger run.contains(q), step(q, e)]
        run.contains(q) && 0 <= e < 6 && open.contains(step(q, e)) implies marked(visited).contains(
            step(q, e),
        ) || rest.contains(step(q, e)) by {
        if !marked(visited).contains(step(q, e)) {
            assert(stack.contains(step(q, e)));
        }
    }
    assert forall|q: IVec3, e: int|
        #![trigger run.contains(q), step(q, e)]
        run.contains(q) && 0 <= e < 6 && !inside(step(q, e)) implies seen[e] || rest.contains(
            step(q, e),
        ) by {
        if !seen[e] {
            assert(stack.contains(step(q, e)));
            if step(q, e) == pos {
                assert(inside(q));
                lemma_step_outside(q, e);
                assert(seen[e]);
            }
        }
    }
}

/// Popping a position beyond a face marks the face seen.
proof fn lemma_search_outside(
    open: Set<IVec3>,
    v0: Set<IVec3>,
    run: Set<IVec3>,
    source: IVec3,
    visited: Seq<bool>,
    seen: Seq<bool>,
    stack: Seq<IVec3>,
)
    requires
        search_inv(open, v0, run, source, visited, seen, stack),
        stack.len() > 0,
        face_of_position(stack.last()) != ChunkFace::NoFace,
    ensures
        search_inv(open, v0, run, source, visited,
            seen.update(face_index(face_of_position(stack.last())), true), stack.drop_last()),
        0 <= face_index(face_of_position(stack.last())) < 6,
{
    let pos = stack.last();
    let rest = stack.drop_last();
    let fi = face_index(face_of_position(pos));
    let seen2 = seen.update(fi, true);
    assert(stack =~= rest.push(pos));
    lemma_stack_top(run, source, stack);
    assert(pos != source);
    let (p, d) = choose|p: IVec3, d: int| run.contains(p) && 0 <= d < 6 && pos == #[trigger] step(p, d);
    assert(open.contains(p));
    lemma_step_outside(p, d);
    assert(fi == d);
    assert(!inside(pos));
    assert(!open.contains(pos));
    assert(seen_sound(run, seen2)) by {
        reveal(seen_sound);
        assert forall|dd: int| 0 <= dd < 6 && #[trigger] seen2[dd] implies exists|a: IVec3|
            run.contains(a) && #[trigger] touches(a, face_at(dd)) by {
            if dd != d {
                assert(seen[dd]);
            } else {
                assert(run.contains(p) && touches(p, face_at(dd)));
            }
        }
    }
    assert(faces_pending(run, seen2, stack)) by {
        reveal(faces_pending);
    }
    assert(neighbours_pending(open, visited, run, stack));
    lemma_pending_pop(open, visited, run, seen2, stack);
    lemma_stack_pop(run, source, stack);
    assert(open.contains(source) ==> marked(visited).contains(source) || rest.contains(source));
}

/// Popping a position inside the chunk that is visited or not open changes nothing else.
proof fn lemma_search_skip(
    open: Set<IVec3>,
    v0: Set<IVec3>,
    run: Set<IVec3>,
    source: IVec3,
    visited: Seq<bool>,
    seen: Seq<bool>,
    stack: Seq<IVec3>,
)
    requires
        search_inv(open, v0, run, source, visited, seen, stack),
        stack.len() > 0,
        inside(stack.last()),
        !(open.contains(stack.last()) && !visited[cell_index(stack.last())]),
    ensures
        search_inv(open, v0, run, source, visited, seen, stack.drop_last()),
{
    let pos = stack.last();
    let rest = stack.drop_last();
    assert(stack =~= rest.push(pos));
    lemma_pending_pop(open, visited, run, seen, stack);
    lemma_stack_pop(run, source, stack);
    assert(open.contains(source) ==> marked(visited).contains(source) || rest.contains(source)) by {
        if open.contains(source) && !marked(visited).contains(source) {
            assert(stack.contains(source));
        }
    }
}

proof fn lemma_search_near(
    open: Set<IVec3>,
    v0: Set<IVec3>,
    run: Set<IVec3>,
    source: IVec3,
    visited: Seq<bool>,
    seen: Seq<bool>,
    stack: Seq<IVec3>,
)
    requires
        search_inv(open, v0, run, source, visited, seen, stack),
        stack.len() > 0,
    ensures
        near(stack.last()),
        visited.len() == 4096,
        seen.len() == 6,
{
    lemma_stack_top(run, source, stack);
}

/// The six neighbours of a position, in the order the search pushes them.
pub open spec fn neighbours(p: IVec3) -> Seq<IVec3> {
    seq![step(p, 2), step(p, 3), step(p, 0), step(p, 1), step(p, 4), step(p, 5)]
}

proof fn lemma_neighbours_pushed(mid: Seq<IVec3>, pos: IVec3)
    ensures
        forall|e: int| 0 <= e < 6 ==> (mid + neighbours(pos)).contains(#[trigger] step(pos, e)),
        forall|x: IVec3| mid.contains(x) ==> (mid + neighbours(pos)).contains(x),
{
    let stack2 = mid + neighbours(pos);
    assert forall|e: int| 0 <= e < 6 implies stack2.contains(#[trigger] step(pos, e)) by {
        let k = if e == 0 { 2int } else if e == 1 { 3int } else if e == 2 { 0int } else if e == 3 { 1int } else { e };
        assert(stack2[mid.len() + k] == step(pos, e));
    }
    assert forall|x: IVec3| mid.contains(x) implies stack2.contains(x) by {
        let i = choose|i: int| 0 <= i < mid.len() && mid[i] == x;
        assert(stack2[i] == x);
    }
}

proof fn lemma_visit_pending(
    open: Set<IVec3>,
    visited: Seq<bool>,
    run: Set<IVec3>,
    seen: Seq<bool>,
    stack: Seq<IVec3>,
    visited2: Seq<bool>,
)
    requires
        neighbours_pending(open, visited, run, stack),
        faces_pending(run, seen, stack),
        stack.len() > 0,
        inside(stack.last()),
        marked(visited2) == marked(visited).insert(stack.last()),
    ensures
        neighbours_pending(open, visited2, run.insert(stack.last()), stack.drop_last() + neighbours(stack.last())),
        faces_pending(run.insert(stack.last()), seen, stack.drop_last() + neighbours(stack.last())),
{
    reveal(neighbours_pending);
    reveal(faces_pending);
    let pos = stack.last();
    let mid = stack.drop_last();
    let run2 = run.insert(pos);
    let stack2 = mid + neighbours(pos);
    assert(stack =~= mid.push(pos));
    lemma_neighbours_pushed(mid, pos);
    assert forall|q: IVec3, e: int|
        #![trigger run2.contains(q), step(q, e)]
        run2.contains(q) && 0 <= e < 6 && open.contains(step(q, e)) implies marked(visited2).contains(
            step(q, e),
        ) || stack2.contains(step(q, e)) by {
        if q != pos && !marked(visited2).contains(step(q, e)) {
            assert(run.contains(q));
            assert(stack.contains(step(q, e)));
            assert(mid.contains(step(q, e)));
        }
    }
    assert forall|q: IVec3, e: int|
        #![trigger run2.contains(q), step(q, e)]
        run2.contains(q) && 0 <= e < 6 && !inside(step(q, e)) implies seen[e] || stack2.contains(
            step(q, e),
        ) by {
        if q != pos && !seen[e] {
            assert(run.contains(q));
            assert(stack.contains(step(q, e)));
            assert(mid.contains(step(q, e)));
        }
    }
}

proof fn lemma_visit_stack(run: Set<IVec3>, source: IVec3, stack: Seq<IVec3>)
    requires
        stack_sound(run, source, stack),
        stack.len() > 0,
        inside(stack.last()),
    ensures
        stack_sound(run.insert(stack.last()), source, stack.drop_last() + neighbours(stack.last())),
{
    reveal(stack_sound);
    let pos = stack.last();
    let mid = stack.drop_last();
    let run2 = run.insert(pos);
    let stack2 = mid + neighbours(pos);
    assert forall|i: int| 0 <= i < stack2.len() implies near(#[trigger] stack2[i]) && (stack2[i]
        == source || exists|p: IVec3, d: int| run2.contains(p) && 0 <= d < 6 && stack2[i] == #[trigger] step(p, d)) by {
        if i < mid.len() {
            assert(stack2[i] == stack[i]);
            if stack2[i] != source {
                let (p, d) = choose|p: IVec3, d: int| run.contains(p) && 0 <= d < 6 && stack[i] == #[trigger] step(p, d);
                assert(run2.contains(p));
            }
        } else {
            let e = i - mid.len();
            let dd = if e == 0 { 2int } else if e == 1 { 3int } else if e == 2 { 0int } else if e == 3 { 1int } else { e };
            assert(stack2[i] == step(pos, dd));
            assert(run2.contains(pos));
        }
    }
}

/// Popping an open position not visited before visits it and pushes its neighbours.
#[verifier::rlimit(50)]
#[verifier::spinoff_prover]
proof fn lemma_search_visit(
    open: Set<IVec3>,
    v0: Set<IVec3>,
    run: Set<IVec3>,
    source: IVec3,
    visited: Seq<bool>,
    seen: Seq<bool>,
    stack: Seq<IVec3>,
)
    requires
        search_inv(open, v0, run, source, visited, seen, stack),
        stack.len() > 0,
        inside(stack.last()),
        open.contains(stack.last()),
        !visited[cell_index(stack.last())],
    ensures
        search_inv(open, v0, run.insert(stack.last()), source,
            visited.update(cell_index(stack.last()), true), seen,
            stack.drop_last() + neighbours(stack.last())),
        count_true(visited.update(cell_index(stack.last()), true)) == count_true(visited) + 1,
{
    let pos = stack.last();
    let mid = stack.drop_last();
    let index = cell_index(pos);
    let visited2 = visited.update(index, true);
    let run2 = run.insert(pos);
    let stack2 = mid + neighbours(pos);
    assert(stack =~= mid.push(pos));
    lemma_count_set(visited, index);
    assert(!marked(visited).contains(pos));
    assert(!v0.contains(pos));
    lemma_stack_top(run, source, stack);
    assert(run_reached(open, source, run2)) by {
        reveal(run_reached);
        if pos == source {
            lemma_reaches_self(open, source);
        } else {
            let (p, d) = choose|p: IVec3, d: int| run.contains(p) && 0 <= d < 6 && pos == #[trigger] step(p, d);
            assert(open.contains(p));
            lemma_step_adjacent(p, d);
            lemma_reaches_step(open, source, p, pos);
        }
    }
    assert forall|q: IVec3| #[trigger] marked(visited2).contains(q) == marked(visited).insert(pos).contains(q) by {
        if inside(q) && cell_index(q) == index {
            assert(q == pos);
        }
    }
    assert(marked(visited2) =~= marked(visited).insert(pos));
    assert(marked(visited2) =~= v0.union(run2));
    lemma_visit_pending(open, visited, run, seen, stack, visited2);
    lemma_visit_stack(run, source, stack);
    assert(seen_sound(run2, seen)) by {
        reveal(seen_sound);
        assert forall|dd: int| 0 <= dd < 6 && #[trigger] seen[dd] implies exists|a: IVec3|
            run2.contains(a) && #[trigger] touches(a, face_at(dd)) by {
            let a = choose|a: IVec3| run.contains(a) && #[trigger] touches(a, face_at(dd));
            assert(run2.contains(a));
        }
    }
    assert(open.contains(source) ==> marked(visited2).contains(source) || stack2.contains(source)) by {
        if open.contains(source) && !marked(visited2).contains(source) {
            assert(pos != source);
            assert(stack.contains(source));
            lemma_neighbours_pushed(mid, pos);
            assert(mid.contains(source));
        }
    }
}

/// When the stack runs empty, the search has visited exactly what it promised.
proof fn lemma_search_done(
    open: Set<IVec3>,
    v0: Set<IVec3>,
    run: Set<IVec3>,
    source: IVec3,
    visited: Seq<bool>,
    seen: Seq<bool>,
)
    requires
        search_inv(open, v0, run, source, visited, seen, Seq::empty()),
    ensures
        explored(open, v0, source) == run,
        closed(open, marked(visited)),
        marked(visited).subset_of(open),
        forall|d: int|
            0 <= d < 6 ==> (#[trigger] seen[d] <==> exists|a: IVec3|
                explored(open, v0, source).contains(a) && #[trigger] touches(a, face_at(d))),
{
    reveal(neighbours_pending);
    reveal(faces_pending);
    reveal(seen_sound);
    reveal(run_reached);
    let ex = explored(open, v0, source);
    let empty = Seq::<IVec3>::empty();
    assert forall|x: IVec3, y: IVec3|
        #![trigger run.contains(x), run.contains(y)]
        run.contains(x) && open.contains(y) && adjacent(x, y) implies run.contains(y) by {
        lemma_direction_between(x, y);
        let d = direction_between(x, y);
        assert(!empty.contains(step(x, d)));
        assert(marked(visited).contains(step(x, d)));
        if v0.contains(y) {
            assert(adjacent(y, x));
            assert(v0.contains(x));
        }
    }
    if !(v0.contains(source) || !open.contains(source)) {
        assert(!empty.contains(source));
        assert(marked(visited).contains(source));
        assert(run.contains(source));
        assert forall|x: IVec3| ex.contains(x) == run.contains(x) by {
            if ex.contains(x) {
                lemma_closed_forward(open, run, source, x);
            }
        }
        assert(ex =~= run);
    } else {
        assert(ex =~= run);
    }
    lemma_closed_union(open, v0, run);
    assert forall|d: int|
        0 <= d < 6 implies (#[trigger] seen[d] <==> exists|a: IVec3|
            ex.contains(a) && #[trigger] touches(a, face_at(d))) by {
        if exists|a: IVec3| ex.contains(a) && #[trigger] touches(a, face_at(d)) {
            let a = choose|a: IVec3| ex.contains(a) && #[trigger] touches(a, face_at(d));
            lemma_step_outside(a, d);
            assert(run.contains(a));
            assert(!empty.contains(step(a, d)));
        }
    }
}

impl Chunk {
    /// Visits every transparent position reachable from `source` that was not visited before,
    /// and returns, by face index, the faces that the visited positions lie against.
    fn explore(&self, blocks: &Blocks, visited: &mut Vec<bool>, source: IVec3) -> (seen: Vec<bool>)
        requires
            self.wf(),
            blocks_configured(self, blocks),
            old(visited)@.len() == 4096,
            inside(source),
            marked(old(visited)@).subset_of(open_cells(self, blocks)),
            closed(open_cells(self, blocks), marked(old(visited)@)),
        ensures
            final(visited)@.len() == 4096,
            marked(final(visited)@) == marked(old(visited)@).union(
                explored(open_cells(self, blocks), marked(old(visited)@), source),
            ),
            marked(final(visited)@).subset_of(open_cells(self, blocks)),
            closed(open_cells(self, blocks), marked(final(visited)@)),
            seen@.len() == 6,
            forall|d: int|
                0 <= d < 6 ==> (#[trigger] seen@[d] <==> exists|a: IVec3|
                    explored(open_cells(self, blocks), marked(old(visited)@), source).contains(a)
                        && #[trigger] touches(a, face_at(d))),
    {
        let ghost open = open_cells(self, blocks);
        let ghost v0 = marked(visited@);
        let ghost mut run: Set<IVec3> = Set::empty();
        let mut seen: Vec<bool> = vec![false; 6];
        let mut stack: Vec<IVec3> = Vec::new();
        stack.push(source);
        proof {
            lemma_count_bound(visited@);
            lemma_search_start(open, source, visited@);
            assert(seen@ =~= seq![false, false, false, false, false, false]);
            assert(stack@ =~= seq![source]);
        }
        while stack.len() > 0
            invariant
                self.wf(),
                blocks_configured(self, blocks),
                open == open_cells(self, blocks),
                search_inv(open, v0, run, source, visited@, seen@, stack@),
                count_true(visited@) <= 4096,
            decreases (4096 - count_true(visited@)) * 7 + stack@.len(),
        {
            let ghost before = stack@;
            proof {
                lemma_count_bound(visited@);
                lemma_search_near(open, v0, run, source, visited@, seen@, before);
            }
            let pos = stack.pop().unwrap();
            let face = ChunkFace::from_position(&pos);
            if face != ChunkFace::NoFace {
                proof {
                    lemma_search_outside(open, v0, run, source, visited@, seen@, before);
                }
                let fi = face.index();
                seen.set(fi, true);
            } else {
                let index = (pos.x * 256 + pos.z * 16 + pos.y) as usize;
                assert(inside(pos));
                assert(index as int == cell_index(pos));
                if !visited[index] && blocks.get_config(&self.get_block(index)).is_transparent() {
                    proof {
                        lemma_search_visit(open, v0, run, source, visited@, seen@, before);
                        run = run.insert(pos);
                    }
                    visited.set(index, true);
                    proof {
                        lemma_count_bound(visited@);
                    }
                    let ghost mid = stack@;
                    stack.push(IVec3 { x: pos.x + 1, y: pos.y, z: pos.z });
                    stack.push(IVec3 { x: pos.x - 1, y: pos.y, z: pos.z });
                    stack.push(IVec3 { x: pos.x, y: pos.y + 1, z: pos.z });
                    stack.push(IVec3 { x: pos.x, y: pos.y - 1, z: pos.z });
                    stack.push(IVec3 { x: pos.x, y: pos.y, z: pos.z + 1 });
                    stack.push(IVec3 { x: pos.x, y: pos.y, z: pos.z - 1 });
                    assert(stack@ =~= mid + neighbours(pos));
                } else {
                    proof {
                        lemma_search_skip(open, v0, run, source, visited@, seen@, before);
                    }
                }
            }
        }
        proof {
            assert(stack@ =~= Seq::<IVec3>::empty());
            lemma_search_done(open, v0, run, source, visited@, seen@);
        }
        seen
    }
}

/// The position the search of the chunk's sides starts from at loop indices `i`, `j`, `kk`
/// (for the sides at 0 and 15) and `w` (front and back, left and right, top and bottom).
pub open spec fn source_of(i: int, j: int, kk: int, w: int) -> IVec3 {
    let k: i32 = if kk == 0 {
        0
    } else {
        15
    };
    if w == 0 {
        IVec3 { x: i as i32, y: j as i32, z: k }
    } else if w == 1 {
        IVec3 { x: k, y: i as i32, z: j as i32 }
    } else {
        IVec3 { x: i as i32, y: k, z: j as i32 }
    }
}

/// Whether loop indices come before others in the order the loops run.
pub open spec fn comes_before(i: int, j: int, kk: int, w: int, i2: int, j2: int, kk2: int, w2: int) -> bool {
    i < i2 || (i == i2 && (j < j2 || (j == j2 && (kk < kk2 || (kk == kk2 && w < w2)))))
}

/// Every start position before the given loop indices is visited or not open.
pub open spec fn sources_done(open: Set<IVec3>, v: Set<IVec3>, i: int, j: int, kk: int, w: int) -> bool {
    forall|i2: int, j2: int, kk2: int, w2: int|
        0 <= i2 < 16 && 0 <= j2 < 16 && 0 <= kk2 < 2 && 0 <= w2 < 3 && comes_before(i2, j2, kk2, w2, i, j, kk, w)
            ==> #[trigger] v.contains(source_of(i2, j2, kk2, w2)) || !open.contains(source_of(i2, j2, kk2, w2))
}

/// Every position against a face is one of the start positions.
proof fn lemma_touching_is_source(a: IVec3, f: int)
    requires
        0 <= f < 6,
        touches(a, face_at(f)),
    ensures
        exists|i2: int, j2: int, kk2: int, w2: int|
            0 <= i2 < 16 && 0 <= j2 < 16 && 0 <= kk2 < 2 && 0 <= w2 < 3 && a == #[trigger] source_of(i2, j2, kk2, w2),
{
    if a.z == 0 {
        assert(a == source_of(a.x as int, a.y as int, 0, 0));
    } else if a.z == 15 {
        assert(a == source_of(a.x as int, a.y as int, 1, 0));
    } else if a.x == 0 {
        assert(a == source_of(a.y as int, a.z as int, 0, 1));
    } else if a.x == 15 {
        assert(a == source_of(a.y as int, a.z as int, 1, 1));
    } else if a.y == 0 {
        assert(a == source_of(a.x as int, a.z as int, 0, 2));
    } else {
        assert(a == source_of(a.x as int, a.z as int, 1, 2));
    }
}

/// A region found by a search from `source` holds all of the faces linked to any of its
/// positions.
proof fn lemma_component_faces(open: Set<IVec3>, v0: Set<IVec3>, source: IVec3, a: IVec3, face: ChunkFace)
    requires
        closed(open, v0),
        closed(open, v0.union(explored(open, v0, source))),
        explored(open, v0, source).contains(a),
        linked(open, a, face),
    ensures
        exists|b: IVec3| explored(open, v0, source).contains(b) && #[trigger] touches(b, face),
{
    let r = explored(open, v0, source);
    let v1 = v0.union(r);
    let (s, b) = choose|s: IVec3, b: IVec3|
        #[trigger] reaches(open, s, a) && #[trigger] reaches(open, s, b) && touches(b, face);
    assert(!v0.contains(a)) by {
        if v0.contains(a) {
            lemma_closed_backward(open, v0, source, a);
        }
    }
    lemma_closed_backward(open, v1, s, a);
    assert(!v0.contains(s)) by {
        if v0.contains(s) {
            lemma_closed_forward(open, v0, s, a);
        }
    }
    lemma_closed_forward(open, v1, s, b);
    assert(!v0.contains(b)) by {
        if v0.contains(b) {
            lemma_closed_backward(open, v0, s, b);
        }
    }
    assert(r.contains(b));
}

/// Faces both seen by one search are connected.
proof fn lemma_seen_connected(open: Set<IVec3>, v0: Set<IVec3>, source: IVec3, f: ChunkFace, t: ChunkFace)
    requires
        exists|a: IVec3| explored(open, v0, source).contains(a) && #[trigger] touches(a, f),
        exists|b: IVec3| explored(open, v0, source).contains(b) && #[trigger] touches(b, t),
    ensures
        faces_connected(open, f, t),
{
    let r = explored(open, v0, source);
    let a = choose|a: IVec3| r.contains(a) && #[trigger] touches(a, f);
    let b = choose|b: IVec3| r.contains(b) && #[trigger] touches(b, t);
    assert(reaches(open, source, a));
    assert(reaches(open, source, b));
    assert(linked(open, a, t));
}

/// The corner of the chunk at the origin, and for each face a position against it reachable
/// from that corner when the whole chunk is open.
pub open spec fn corner_for(face: ChunkFace) -> IVec3 {
    match face {
        ChunkFace::Right => IVec3 { x: 15, y: 0, z: 0 },
        ChunkFace::Top => IVec3 { x: 0, y: 15, z: 0 },
        ChunkFace::Front => IVec3 { x: 0, y: 0, z: 15 },
        _ => IVec3 { x: 0, y: 0, z: 0 },
    }
}

proof fn lemma_line(open: Set<IVec3>, axis: int)
    requires
        forall|p: IVec3| inside(p) ==> #[trigger] open.contains(p),
        0 <= axis < 3,
    ensures
        reaches(open, IVec3 { x: 0, y: 0, z: 0 }, if axis == 0 {
            IVec3 { x: 15, y: 0, z: 0 }
        } else if axis == 1 {
            IVec3 { x: 0, y: 15, z: 0 }
        } else {
            IVec3 { x: 0, y: 0, z: 15 }
        }),
{
    let path = Seq::new(16, |i: int| if axis == 0 {
        IVec3 { x: i as i32, y: 0, z: 0 }
    } else if axis == 1 {
        IVec3 { x: 0, y: i as i32, z: 0 }
    } else {
        IVec3 { x: 0, y: 0, z: i as i32 }
    });
    assert forall|i: int| 0 <= i < path.len() implies open.contains(#[trigger] path[i]) by {
        assert(inside(path[i]));
    }
    assert forall|i: int| 0 <= i < path.len() - 1 implies adjacent(#[trigger] path[i], path[i + 1]) by {
    }
    assert(is_path(open, path));
    assert(path[0] == IVec3 { x: 0, y: 0, z: 0 });
}

/// With every position open, every pair of faces is connected.
proof fn lemma_all_open_connected(open: Set<IVec3>, f: int, t: int)
    requires
        forall|p: IVec3| inside(p) ==> #[trigger] open.contains(p),
        0 <= f < 6,
        0 <= t < 6,
    ensures
        faces_connected(open, face_at(f), face_at(t)),
{
    let o = IVec3 { x: 0, y: 0, z: 0 };
    lemma_line(open, 0);
    lemma_line(open, 1);
    lemma_line(open, 2);
    assert(open.contains(o));
    lemma_reaches_self(open, o);
    let a = corner_for(face_at(f));
    let b = corner_for(face_at(t));
    assert(reaches(open, o, a));
    assert(reaches(open, o, b));
    assert(touches(a, face_at(f)));
    assert(touches(b, face_at(t)));
    assert(linked(open, a, face_at(t)));
}

/// With nothing open, no faces are connected.
proof fn lemma_none_open(open: Set<IVec3>, f: ChunkFace, t: ChunkFace)
    requires
        forall|p: IVec3| !#[trigger] open.contains(p),
    ensures
        !faces_connected(open, f, t),
{
    if faces_connected(open, f, t) {
        let a = choose|a: IVec3| #[trigger] touches(a, f) && linked(open, a, t);
        let (s, b) = choose|s: IVec3, b: IVec3|
            #[trigger] reaches(open, s, a) && #[trigger] reaches(open, s, b) && touches(b, t);
        lemma_reaches_open(open, s, a);
    }
}

impl Chunk {
    /// Recomputes which faces of the chunk are visible from which others: a pair is visible
    /// when one region of transparent blocks, connected through their sides, lies against both
    /// faces.
    pub fn check_visible_faces(&mut self, blocks: &Blocks)
        requires
            old(self).wf(),
            blocks_configured(old(self), blocks),
        ensures
            final(self).wf(),
            forall|f: int, t: int|
                0 <= f < 6 && 0 <= t < 6 ==> #[trigger] final(self).visible(f, t) == faces_connected(
                    open_cells(old(self), blocks),
                    face_at(f),
                    face_at(t),
                ),
            final(self).blocks == old(self).blocks,
            final(self).block_state == old(self).block_state,
            final(self).changed_blocks == old(self).changed_blocks,
            final(self).terrain_features == old(self).terrain_features,
            final(self).block_entities == old(self).block_entities,
            final(self).block_data == old(self).block_data,
    {
        let ghost open = open_cells(self, blocks);
        if self.is_uniform() {
            assert(self.block_at(0) == self.blocks@[0]);
            let transparent = blocks.get_config(&self.blocks[0]).is_transparent();
            let visible = vec![transparent; 36];
            proof {
                assert forall|f: int, t: int| 0 <= f < 6 && 0 <= t < 6 implies visible@[f * 6 + t]
                    == faces_connected(open, face_at(f), face_at(t)) by {
                    if transparent {
                        assert forall|p: IVec3| inside(p) implies #[trigger] open.contains(p) by {
                            assert(self.block_at(cell_index(p)) == self.blocks@[0]);
                        }
                        lemma_all_open_connected(open, f, t);
                    } else {
                        assert forall|p: IVec3| !#[trigger] open.contains(p) by {
                            if inside(p) {
                                assert(self.block_at(cell_index(p)) == self.blocks@[0]);
                            }
                        }
                        lemma_none_open(open, face_at(f), face_at(t));
                    }
                }
            }
            self.visible_faces = visible;
            return;
        }
        let mut visible: Vec<bool> = vec![false; 36];
        let mut visited: Vec<bool> = vec![false; 4096];
        proof {
            assert(marked(visited@) =~= Set::<IVec3>::empty());
        }
        let mut i: i32 = 0;
        while i < 16
            invariant
                0 <= i <= 16,
                self.wf(),
                blocks_configured(self, blocks),
                open == open_cells(self, blocks),
                visited@.len() == 4096,
                visible@.len() == 36,
                marked(visited@).subset_of(open),
                closed(open, marked(visited@)),
                forall|f: int, t: int|
                    0 <= f < 6 && 0 <= t < 6 && #[trigger] visible@[f * 6 + t] ==> faces_connected(
                        open, face_at(f), face_at(t)),
                forall|a: IVec3, f: int, t: int|
                    0 <= f < 6 && 0 <= t < 6 && marked(visited@).contains(a) && #[trigger] touches(a, face_at(f))
                        && #[trigger] linked(open, a, face_at(t)) ==> visible@[f * 6 + t],
                sources_done(open, marked(visited@), i as int, 0, 0, 0),
            decreases 16 - i,
        {
            let mut j: i32 = 0;
            while j < 16
                invariant
                    0 <= i < 16,
                    0 <= j <= 16,
                    self.wf(),
                    blocks_configured(self, blocks),
                    open == open_cells(self, blocks),
                    visited@.len() == 4096,
                    visible@.len() == 36,
                    marked(visited@).subset_of(open),
                    closed(open, marked(visited@)),
                    forall|f: int, t: int|
                        0 <= f < 6 && 0 <= t < 6 && #[trigger] visible@[f * 6 + t] ==> faces_connected(
                            open, face_at(f), face_at(t)),
                    forall|a: IVec3, f: int, t: int|
                        0 <= f < 6 && 0 <= t < 6 && marked(visited@).contains(a) && #[trigger] touches(a, face_at(f))
                            && #[trigger] linked(open, a, face_at(t)) ==> visible@[f * 6 + t],
                    sources_done(open, marked(visited@), i as int, j as int, 0, 0),
                decreases 16 - j,
            {
                let mut kk: i32 = 0;
                while kk < 2
                    invariant
                        0 <= i < 16,
                        0 <= j < 16,
                        0 <= kk <= 2,
                        self.wf(),
                        blocks_configured(self, blocks),
                        open == open_cells(self, blocks),
                        visited@.len() == 4096,
                        visible@.len() == 36,
                        marked(visited@).subset_of(open),
                        closed(open, marked(visited@)),
                        forall|f: int, t: int|
                            0 <= f < 6 && 0 <= t < 6 && #[trigger] visible@[f * 6 + t] ==> faces_connected(
                                open, face_at(f), face_at(t)),
                        forall|a: IVec3, f: int, t: int|
                            0 <= f < 6 && 0 <= t < 6 && marked(visited@).contains(a) && #[trigger] touches(a, face_at(f))
                                && #[trigger] linked(open, a, face_at(t)) ==> visible@[f * 6 + t],
                        sources_done(open, marked(visited@), i as int, j as int, kk as int, 0),
                    decreases 2 - kk,
                {
                    let k: i32 = if kk == 0 { 0 } else { 15 };
                    let mut w: i32 = 0;
                    while w < 3
                        invariant
                            0 <= i < 16,
                            0 <= j < 16,
                            0 <= kk < 2,
                            k == if kk == 0 { 0i32 } else { 15i32 },
                            0 <= w <= 3,
                            self.wf(),
                            blocks_configured(self, blocks),
                            open == open_cells(self, blocks),
                            visited@.len() == 4096,
                            visible@.len() == 36,
                            marked(visited@).subset_of(open),
                            closed(open, marked(visited@)),
                            forall|f: int, t: int|
                                0 <= f < 6 && 0 <= t < 6 && #[trigger] visible@[f * 6 + t] ==> faces_connected(
                                    open, face_at(f), face_at(t)),
                            forall|a: IVec3, f: int, t: int|
                                0 <= f < 6 && 0 <= t < 6 && marked(visited@).contains(a) && #[trigger] touches(a, face_at(f))
                                    && #[trigger] linked(open, a, face_at(t)) ==> visible@[f * 6 + t],
                            sources_done(open, marked(visited@), i as int, j as int, kk as int, w as int),
                        decreases 3 - w,
                    {
                        let source = if w == 0 {
                            IVec3 { x: i, y: j, z: k }
                        } else if w == 1 {
                            IVec3 { x: k, y: i, z: j }
                        } else {
                            IVec3 { x: i, y: k, z: j }
                        };
                        assert(source == source_of(i as int, j as int, kk as int, w as int));
                        let ghost v0 = marked(visited@);
                        let ghost visible0 = visible@;
                        proof {
                            assert forall|p: IVec3| #[trigger] open.contains(p) implies inside(p) by {}
                        }
                        let seen = self.explore(blocks, &mut visited, source);
                        let ghost r = explored(open, v0, source);
                        let mut f: usize = 0;
                        while f < 6
                            invariant
                                0 <= f <= 6,
                                seen@.len() == 6,
                                visible0.len() == 36,
                                visible@.len() == 36,
                                forall|ff: int, tt: int|
                                    0 <= ff < 6 && 0 <= tt < 6 ==> (#[trigger] visible@[ff * 6 + tt] <==> visible0[ff * 6 + tt]
                                        || (seen@[ff] && seen@[tt] && (ff < f || tt < f))),
                            decreases 6 - f,
                        {
                            let mut t: usize = 0;
                            while t < 6
                                invariant
                                    0 <= f < 6,
                                    0 <= t <= 6,
                                    seen@.len() == 6,
                                    visible0.len() == 36,
                                    visible@.len() == 36,
                                    forall|ff: int, tt: int|
                                        0 <= ff < 6 && 0 <= tt < 6 ==> (#[trigger] visible@[ff * 6 + tt] <==> visible0[ff * 6 + tt]
                                            || (seen@[ff] && seen@[tt] && (ff < f || tt < f
                                                || (ff == f && tt < t) || (tt == f && ff < t)))),
                                decreases 6 - t,
                            {
                                if seen[f] && seen[t] {
                                    visible.set(f * 6 + t, true);
                                    visible.set(t * 6 + f, true);
                                }
                                t = t + 1;
                            }
                            f = f + 1;
                        }
                        proof {
                            let v1 = marked(visited@);
                            assert forall|ff: int, tt: int|
                                0 <= ff < 6 && 0 <= tt < 6 && #[trigger] visible@[ff * 6 + tt] implies faces_connected(
                                    open, face_at(ff), face_at(tt)) by {
                                if !visible0[ff * 6 + tt] {
                                    lemma_seen_connected(open, v0, source, face_at(ff), face_at(tt));
                                }
                            }
                            assert forall|a: IVec3, ff: int, tt: int|
                                0 <= ff < 6 && 0 <= tt < 6 && v1.contains(a) && #[trigger] touches(a, face_at(ff))
                                    && #[trigger] linked(open, a, face_at(tt)) implies visible@[ff * 6 + tt] by {
                                if !v0.contains(a) {
                                    assert(r.contains(a));
                                    lemma_component_faces(open, v0, source, a, face_at(tt));
                                    assert(seen@[ff]);
                                    assert(seen@[tt]);
                                }
                            }
                            if open.contains(source) && !v0.contains(source) {
                                lemma_reaches_self(open, source);
                                assert(r.contains(source));
                            }
                            assert(v1.contains(source) || !open.contains(source));
                            assert forall|i2: int, j2: int, kk2: int, w2: int|
                                0 <= i2 < 16 && 0 <= j2 < 16 && 0 <= kk2 < 2 && 0 <= w2 < 3
                                    && comes_before(i2, j2, kk2, w2, i as int, j as int, kk as int, w + 1)
                                    implies #[trigger] v1.contains(source_of(i2, j2, kk2, w2))
                                    || !open.contains(source_of(i2, j2, kk2, w2)) by {
                                if comes_before(i2, j2, kk2, w2, i as int, j as int, kk as int, w as int) {
                                    assert(v0.contains(source_of(i2, j2, kk2, w2)) || !open.contains(source_of(i2, j2, kk2, w2)));
                                }
                            }
                        }
                        w = w + 1;
                    }
                    proof {
                        let v = marked(visited@);
                        assert forall|i2: int, j2: int, kk2: int, w2: int|
                            0 <= i2 < 16 && 0 <= j2 < 16 && 0 <= kk2 < 2 && 0 <= w2 < 3
                                && comes_before(i2, j2, kk2, w2, i as int, j as int, kk + 1, 0)
                                implies #[trigger] v.contains(source_of(i2, j2, kk2, w2))
                                || !open.contains(source_of(i2, j2, kk2, w2)) by {
                            assert(comes_before(i2, j2, kk2, w2, i as int, j as int, kk as int, 3));
                        }
                    }
                    kk = kk + 1;
                }
                proof {
                    let v = marked(visited@);
                    assert forall|i2: int, j2: int, kk2: int, w2: int|
                        0 <= i2 < 16 && 0 <= j2 < 16 && 0 <= kk2 < 2 && 0 <= w2 < 3
                            && comes_before(i2, j2, kk2, w2, i as int, j + 1, 0, 0)
                            implies #[trigger] v.contains(source_of(i2, j2, kk2, w2))
                            || !open.contains(source_of(i2, j2, kk2, w2)) by {
                        assert(comes_before(i2, j2, kk2, w2, i as int, j as int, 2, 0));
                    }
                }
                j = j + 1;
            }
            proof {
                let v = marked(visited@);
                assert forall|i2: int, j2: int, kk2: int, w2: int|
                    0 <= i2 < 16 && 0 <= j2 < 16 && 0 <= kk2 < 2 && 0 <= w2 < 3
                        && comes_before(i2, j2, kk2, w2, i + 1, 0, 0, 0)
                        implies #[trigger] v.contains(source_of(i2, j2, kk2, w2))
                        || !open.contains(source_of(i2, j2, kk2, w2)) by {
                    assert(comes_before(i2, j2, kk2, w2, i as int, 16, 0, 0));
                }
            }
            i = i + 1;
        }
        proof {
            let v = marked(visited@);
            assert forall|f: int, t: int| 0 <= f < 6 && 0 <= t < 6 implies visible@[f * 6 + t]
                == faces_connected(open, face_at(f), face_at(t)) by {
                if faces_connected(open, face_at(f), face_at(t)) {
                    let a = choose|a: IVec3| #[trigger] touches(a, face_at(f)) && linked(open, a, face_at(t));
                    let (s, b) = choose|s: IVec3, b: IVec3|
                        #[trigger] reaches(open, s, a) && #[trigger] reaches(open, s, b) && touches(b, face_at(t));
                    lemma_reaches_open(open, s, a);
                    lemma_touching_is_source(a, f);
                    let (i2, j2, kk2, w2) = choose|i2: int, j2: int, kk2: int, w2: int|
                        0 <= i2 < 16 && 0 <= j2 < 16 && 0 <= kk2 < 2 && 0 <= w2 < 3 && a == #[trigger] source_of(i2, j2, kk2, w2);
                    assert(comes_before(i2, j2, kk2, w2, 16, 0, 0, 0));
                    assert(v.contains(a));
                }
            }
        }
        self.visible_faces = visible;
    }
}

/// A block of a chunk as saved after a player changed it: its index, the block, its state and
/// its data.
pub type SavedBlock = (usize, BlockId, Option<BlockState>, Option<BlockData>);

/// The saved blocks are inside the chunk, at most one per index, and name configured blocks.
pub open spec fn saved_valid(saved: Seq<SavedBlock>, blocks: &Blocks) -> bool {
    &&& forall|i: int| 0 <= i < saved.len() ==> (#[trigger] saved[i]).0 < 4096
    &&& forall|i: int| 0 <= i < saved.len() ==> ((#[trigger] saved[i]).1 as int) < blocks.configs().len()
    &&& forall|i: int, j: int| 0 <= i < j < saved.len() ==> (#[trigger] saved[i]).0 != (#[trigger] saved[j]).0
}

/// The saved block at an index, if one was saved there.
pub open spec fn saved_at(saved: Seq<SavedBlock>, index: int) -> Option<SavedBlock> {
    if exists|i: int| 0 <= i < saved.len() && (#[trigger] saved[i]).0 == index {
        Some(saved[choose|i: int| 0 <= i < saved.len() && (#[trigger] saved[i]).0 == index])
    } else {
        None
    }
}

impl Chunk {
    /// Whether the face `to` can be seen from the face `from` through the chunk; never for no
    /// face.
    pub fn is_neighbour_visible(&self, from: ChunkFace, to: ChunkFace) -> (r: bool)
        requires
            self.wf(),
        ensures
            r == (from != ChunkFace::NoFace && to != ChunkFace::NoFace && self.visible(
                face_index(from),
                face_index(to),
            )),
    {
        if from == ChunkFace::NoFace || to == ChunkFace::NoFace {
            return false;
        }
        self.visible_faces[from.index() * 6 + to.index()]
    }

    /// Puts the blocks saved after players changed them into a freshly generated chunk: each
    /// is marked changed and replaces the generated block, its state and its data are stored
    /// where it has them. Then recomputes which faces are visible.
    pub fn apply_saved_blocks(&mut self, saved: Vec<SavedBlock>, blocks: &Blocks)
        requires
            old(self).wf(),
            blocks_configured(old(self), blocks),
            saved_valid(saved@, blocks),
        ensures
            final(self).wf(),
            blocks_configured(final(self), blocks),
            forall|i: int| 0 <= i < 4096 ==> #[trigger] final(self).block_at(i) == match saved_at(saved@, i) {
                Some(row) => row.1,
                None => old(self).block_at(i),
            },
            forall|i: usize| #[trigger] final(self).changed_blocks@.contains(i) == (
                old(self).changed_blocks@.contains(i) || saved_at(saved@, i as int) is Some),
            forall|i: usize| #[trigger] final(self).block_state@.contains_key(i) == (
                old(self).block_state@.contains_key(i) || (saved_at(saved@, i as int) matches Some(row) && row.2 is Some)),
            forall|i: usize| #[trigger] final(self).block_state@.contains_key(i) ==> final(self).block_state@[i] == match saved_at(saved@, i as int) {
                Some(row) => match row.2 {
                    Some(state) => state.0,
                    None => old(self).block_state@[i],
                },
                None => old(self).block_state@[i],
            },
            forall|i: usize| #[trigger] final(self).block_data@.contains_key(i) == (
                old(self).block_data@.contains_key(i) || (saved_at(saved@, i as int) matches Some(row) && row.3 is Some)),
            forall|i: usize| #[trigger] final(self).block_data@.contains_key(i) ==> final(self).block_data@[i] == match saved_at(saved@, i as int) {
                Some(row) => match row.3 {
                    Some(data) => data,
                    None => old(self).block_data@[i],
                },
                None => old(self).block_data@[i],
            },
            forall|f: int, t: int|
                0 <= f < 6 && 0 <= t < 6 ==> #[trigger] final(self).visible(f, t) == faces_connected(
                    open_cells(final(self), blocks),
                    face_at(f),
                    face_at(t),
                ),
            final(self).terrain_features == old(self).terrain_features,
            final(self).block_entities == old(self).block_entities,
    {
        broadcast use vstd::std_specs::hash::group_hash_axioms;
        let mut saved = saved;
        let ghost all = saved@;
        let ghost start = *self;
        while saved.len() > 0
            invariant
                self.wf(),
                blocks_configured(self, blocks),
                saved_valid(all, blocks),
                saved@.len() <= all.len(),
                saved@ == all.take(saved@.len() as int),
                forall|i: int| 0 <= i < 4096 ==> #[trigger] self.block_at(i) == match saved_at(all.skip(saved@.len() as int), i) {
                    Some(row) => row.1,
                    None => start.block_at(i),
                },
                forall|i: usize| #[trigger] self.changed_blocks@.contains(i) == (
                    start.changed_blocks@.contains(i) || saved_at(all.skip(saved@.len() as int), i as int) is Some),
                forall|i: usize| #[trigger] self.block_state@.contains_key(i) == (
                    start.block_state@.contains_key(i) || (saved_at(all.skip(saved@.len() as int), i as int) matches Some(row) && row.2 is Some)),
                forall|i: usize| #[trigger] self.block_state@.contains_key(i) ==> self.block_state@[i] == match saved_at(all.skip(saved@.len() as int), i as int) {
                    Some(row) => match row.2 {
                        Some(state) => state.0,
                        None => start.block_state@[i],
                    },
                    None => start.block_state@[i],
                },
                forall|i: usize| #[trigger] self.block_data@.contains_key(i) == (
                    start.block_data@.contains_key(i) || (saved_at(all.skip(saved@.len() as int), i as int) matches Some(row) && row.3 is Some)),
                forall|i: usize| #[trigger] self.block_data@.contains_key(i) ==> self.block_data@[i] == match saved_at(all.skip(saved@.len() as int), i as int) {
                    Some(row) => match row.3 {
                        Some(data) => data,
                        None => start.block_data@[i],
                    },
                    None => start.block_data@[i],
                },
                self.terrain_features == start.terrain_features,
                self.block_entities == start.block_entities,
            decreases saved@.len(),
        {
            let ghost n = saved@.len() as int;
            let ghost at_start = *self;
            assert(blocks_configured(&at_start, blocks));
            let row = saved.pop().unwrap();
            let (index, block_id, block_state, block_data) = row;
            let ghost done = all.skip(n);
            let ghost done2 = all.skip(n - 1);
            proof {
                assert(all[n - 1] == row);
                assert(done2 =~= seq![row] + done);
                assert forall|i: int| #[trigger] saved_at(done2, i) == if i == index as int {
                    Some(row)
                } else {
                    saved_at(done, i)
                } by {
                    if i == index as int {
                        assert(done2[0].0 == i);
                        let k = choose|k: int| 0 <= k < done2.len() && (#[trigger] done2[k]).0 == i;
                        if k != 0 {
                            assert(all[n - 1 + k].0 == all[n - 1].0);
                        }
                    } else {
                        if exists|k: int| 0 <= k < done.len() && (#[trigger] done[k]).0 == i {
                            let k = choose|k: int| 0 <= k < done.len() && (#[trigger] done[k]).0 == i;
                            assert(done2[k + 1] == done[k]);
                        }
                        if exists|k: int| 0 <= k < done2.len() && (#[trigger] done2[k]).0 == i {
                            let k = choose|k: int| 0 <= k < done2.len() && (#[trigger] done2[k]).0 == i;
                            assert(k != 0);
                            assert(done[k - 1] == done2[k]);
                        }
                        if saved_at(done, i) is Some {
                            assert(saved_at(done2, i) is Some);
                        }
                    }
                }
                assert(saved@ =~= all.take(n - 1));
            }
            self.changed_blocks.insert(index);
            let ghost before_set = *self;
            assert(before_set.blocks == at_start.blocks);
            assert(forall|i: int| before_set.block_at(i) == at_start.block_at(i));
            self.set_block(index, block_id);
            let ghost after_blocks = *self;
            proof {
                assert((all[n - 1]).1 == block_id);
                assert(saved_valid(all, blocks));
                assert((block_id as int) < blocks.configs().len());
                assert(self.block_at(index as int) == block_id);
                assert(blocks_configured(&before_set, blocks));
                assert forall|i: int| 0 <= i < 4096 implies (#[trigger] self.block_at(i) as int) < blocks.configs().len() by {
                    if i != index as int {
                        assert(self.block_at(i) == before_set.block_at(i));
                        assert((before_set.block_at(i) as int) < blocks.configs().len());
                    }
                }
                assert forall|i: int| 0 <= i < 4096 implies #[trigger] self.block_at(i) == match saved_at(done2, i) {
                    Some(row) => row.1,
                    None => start.block_at(i),
                } by {
                    assert(saved_at(done2, i) == if i == index as int { Some(row) } else { saved_at(done, i) });
                    if i != index as int {
                        assert(self.block_at(i) == before_set.block_at(i));
                    }
                }
            }
            let ghost after_blocks2 = *self;
            match block_state {
                Some(state) => {
                    self.block_state.insert(index, state.0);
                },
                None => {},
            }
            proof {
                assert(self.blocks == after_blocks2.blocks);
                assert(forall|i: int| #[trigger] self.block_at(i) == after_blocks2.block_at(i));
            }
            let ghost after_set = *self;
            match block_data {
                Some(data) => {
                    self.block_data.insert(index, data);
                },
                None => {},
            }
            proof {
                assert(self.blocks == after_set.blocks);
                assert(forall|i: int| #[trigger] self.block_at(i) == after_set.block_at(i));
                assert(blocks_configured(self, blocks));
            }
        }
        proof {
            assert(all.skip(0) =~= all);
        }
        let ghost merged = *self;
        self.check_visible_faces(blocks);
        proof {
            assert(forall|i: int| #[trigger] self.block_at(i) == merged.block_at(i));
            assert(open_cells(self, blocks) =~= open_cells(&merged, blocks));
        }
    }
}

} // verus!
