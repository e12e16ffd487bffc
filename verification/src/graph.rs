//! The shortest cycle of a functional graph, found by colouring paths.
//!
//! A graph is given by the successor of each node: node `v` leads to `next[v]`.

use crate::clock;
use crate::listener;
use crate::listener::{Heard, Listener};
use crate::orbit;
use std::time::Instant;
use vstd::prelude::*;

verus! {

/// How many starts are processed between two looks at the clock.
pub const CHECKPOINT_INTERVAL: u32 = 262144;

/// The mark of a node that no path has reached yet.
const UNVISITED: u32 = 0xffff_ffff;

/// The mark of a node whose path has been followed to its end. Any lesser mark is the
/// position of the node on the path that is being followed.
const DONE: u32 = 0xffff_fffe;

/// One step along the graph.
pub open spec fn graph_step(next: Seq<u32>) -> spec_fn(u32) -> u32 {
    |v: u32| next[v as int]
}

/// Every node leads to a node, and there are few enough nodes to mark them by position.
pub open spec fn is_graph(next: Seq<u32>) -> bool {
    &&& next.len() < 0xffff_fffe
    &&& forall|v: int| 0 <= v < next.len() ==> #[trigger] next[v] < next.len()
}

/// The walk from `start` first meets its cycle at `node`, and the cycle has `len` nodes.
pub open spec fn enters(next: Seq<u32>, start: u32, node: u32, len: nat) -> bool {
    exists|tail: nat|
        {
            &&& #[trigger] orbit::is_rho(graph_step(next), start, tail, len)
            &&& node == orbit::iterate(graph_step(next), start, tail)
        }
}

/// The node at which the walk from `start` meets its cycle, and the length of the cycle.
pub open spec fn landing(next: Seq<u32>, start: u32) -> (u32, u64) {
    choose|e: (u32, u64)| #[trigger] enters(next, start, e.0, e.1 as nat)
}

/// What the first `count` starts contribute: the landing of each start whose cycle is
/// shorter than those of all starts before it.
pub open spec fn improvements(next: Seq<u32>, count: nat) -> Seq<(u32, u64)>
    decreases count,
{
    if count == 0 {
        Seq::empty()
    } else {
        let before = improvements(next, (count - 1) as nat);
        let candidate = landing(next, (count - 1) as u32);
        if before.len() == 0 || candidate.1 < before.last().1 {
            before.push(candidate)
        } else {
            before
        }
    }
}

/// The last of the improvements, if there is one.
pub open spec fn best_of(improvements: Seq<(u32, u64)>) -> Option<(u32, u64)> {
    if improvements.len() == 0 {
        None
    } else {
        Some(improvements.last())
    }
}

/// The walk from `s` lands at `b`, and `s` is the first start, among the first `count`, whose
/// cycle is as short as any of theirs.
pub open spec fn is_first_shortest(next: Seq<u32>, count: nat, s: u32, b: (u32, u64)) -> bool {
    &&& s < count
    &&& b == landing(next, s)
    &&& enters(next, s, b.0, b.1 as nat)
    &&& forall|t: u32| t < s ==> b.1 < (#[trigger] landing(next, t)).1
    &&& forall|t: u32| t < count ==> b.1 <= (#[trigger] landing(next, t)).1
}

/// `best` is the landing of the first start, among the first `count`, whose cycle is as
/// short as any of theirs. With no starts there is none.
pub open spec fn is_shortest(next: Seq<u32>, count: nat, best: Option<(u32, u64)>) -> bool {
    match best {
        None => count == 0,
        Some(b) => exists|s: u32| #[trigger] is_first_shortest(next, count, s, b),
    }
}

proof fn lemma_distinct_below(s: Seq<u32>, bound: nat)
    requires
        s.no_duplicates(),
        forall|i: int| 0 <= i < s.len() ==> #[trigger] s[i] < bound,
    ensures
        s.len() <= bound,
{
    let t = s.map_values(|v: u32| v as int);
    assert(t.no_duplicates());
    t.unique_seq_to_set();
    let range = vstd::set_lib::set_int_range(0, bound as int);
    vstd::set_lib::lemma_int_range(0, bound as int);
    assert forall|v: int| #[trigger] t.to_set().contains(v) implies range.contains(v) by {
        let i = choose|i: int| 0 <= i < t.len() && t[i] == v;
        assert(s[i] < bound);
    }
    vstd::set_lib::lemma_len_subset(t.to_set(), range);
}

/// A walk stays among the nodes.
proof fn lemma_walk_stays(next: Seq<u32>, v: u32, n: nat)
    requires
        is_graph(next),
        v < next.len(),
    ensures
        orbit::iterate(graph_step(next), v, n) < next.len(),
    decreases n,
{
    if n > 0 {
        lemma_walk_stays(next, v, (n - 1) as nat);
    }
}

/// Every walk ends in a cycle, and its tail and its cycle together have no more nodes than
/// the graph.
pub proof fn law_every_walk_lands(next: Seq<u32>, v: u32) -> (r: (nat, nat))
    requires
        is_graph(next),
        v < next.len(),
    ensures
        orbit::is_rho(graph_step(next), v, r.0, r.1),
        r.0 + r.1 <= next.len(),
        enters(next, v, landing(next, v).0, landing(next, v).1 as nat),
        landing(next, v).1 == r.1,
{
    let f = graph_step(next);
    let visited = Seq::new(next.len() + 1, |i: int| orbit::iterate(f, v, i as nat));
    assert forall|i: int| 0 <= i < visited.len() implies #[trigger] visited[i] < next.len() by {
        lemma_walk_stays(next, v, i as nat);
    }
    if visited.no_duplicates() {
        lemma_distinct_below(visited, next.len());
    }
    let (i, j) = choose|i: int, j: int|
        0 <= i < visited.len() && 0 <= j < visited.len() && i != j && visited[i] == visited[j];
    let (a, b) = if i < j {
        (i as nat, j as nat)
    } else {
        (j as nat, i as nat)
    };
    let (tail, len) = orbit::lemma_rho_from_repeat(f, v, a, b);
    lemma_landing(next, v, tail, len);
    (tail, len)
}

proof fn lemma_landing(next: Seq<u32>, v: u32, tail: nat, len: nat)
    requires
        orbit::is_rho(graph_step(next), v, tail, len),
        len <= u64::MAX,
    ensures
        enters(next, v, landing(next, v).0, landing(next, v).1 as nat),
        landing(next, v) == (orbit::iterate(graph_step(next), v, tail), len as u64),
{
    let f = graph_step(next);
    let e = (orbit::iterate(f, v, tail), len as u64);
    assert(enters(next, v, e.0, e.1 as nat));
    let l = landing(next, v);
    let tail2 = choose|tail2: nat|
        {
            &&& #[trigger] orbit::is_rho(f, v, tail2, l.1 as nat)
            &&& l.0 == orbit::iterate(f, v, tail2)
        };
    orbit::lemma_rho_unique(f, v, tail, len, tail2, l.1 as nat);
}

/// The last improvement is the landing of the first start with the shortest cycle.
pub proof fn law_last_improvement_is_shortest(next: Seq<u32>, count: nat)
    requires
        is_graph(next),
        count <= next.len(),
    ensures
        is_shortest(next, count, best_of(improvements(next, count))),
    decreases count,
{
    if count > 0 {
        let before = (count - 1) as nat;
        law_last_improvement_is_shortest(next, before);
        let _ = law_every_walk_lands(next, before as u32);
        let candidate = landing(next, before as u32);
        let earlier = improvements(next, before);
        let best = best_of(improvements(next, count))->Some_0;
        if earlier.len() == 0 || candidate.1 < earlier.last().1 {
            assert(best == candidate);
            assert(is_first_shortest(next, count, before as u32, best));
        } else {
            assert(best == earlier.last());
            let s = choose|s: u32|
                is_first_shortest(next, before, s, best_of(earlier)->Some_0);
            assert(is_first_shortest(next, count, s, best));
        }
    }
}

/// Each improvement is shorter than the one before it.
pub proof fn law_improvements_shrink(next: Seq<u32>, count: nat, i: int, j: int)
    requires
        0 <= i < j < improvements(next, count).len(),
    ensures
        improvements(next, count)[j].1 < improvements(next, count)[i].1,
    decreases count,
{
    let all = improvements(next, count);
    let before = improvements(next, (count - 1) as nat);
    if all != before && j == all.len() - 1 {
        if i < before.len() - 1 {
            law_improvements_shrink(next, (count - 1) as nat, i, before.len() - 1);
        }
    } else {
        law_improvements_shrink(next, (count - 1) as nat, i, j);
    }
}

/// More starts only add improvements.
pub proof fn law_improvements_extend(next: Seq<u32>, count: nat, more: nat)
    requires
        count <= more,
    ensures
        improvements(next, count).is_prefix_of(improvements(next, more)),
    decreases more,
{
    if count < more {
        law_improvements_extend(next, count, (more - 1) as nat);
    }
}

/// Once every node has been a start, no cycle of the graph is shorter than the best one.
pub proof fn law_complete_search_is_global(next: Seq<u32>, v: u32, len: nat)
    requires
        is_graph(next),
        v < next.len(),
        orbit::is_cycle_length(graph_step(next), v, len),
    ensures
        best_of(improvements(next, next.len())) is Some,
        best_of(improvements(next, next.len()))->Some_0.1 <= len,
{
    law_last_improvement_is_shortest(next, next.len());
    assert(orbit::is_rho(graph_step(next), v, 0, len));
    let (tail, l) = law_every_walk_lands(next, v);
    orbit::lemma_rho_unique(graph_step(next), v, 0, len, tail, l);
}

/// A search that has processed some number of starts, from node 0 upwards.
pub struct GraphSearch {
    state: Vec<u32>,
    best: Option<(u32, u64)>,
    start: u32,
}

/// The walk from `v` has a landing, on a cycle that is not shorter than the best one.
spec fn settled(next: Seq<u32>, best: Option<(u32, u64)>, v: u32) -> bool {
    &&& enters(next, v, landing(next, v).0, landing(next, v).1 as nat)
    &&& best is Some
    &&& best->Some_0.1 <= landing(next, v).1
}

/// The marks while a path is being followed: the path is the walk from its first node, its
/// nodes are marked by position, and all others are marked as they were.
spec fn path_marked(
    next: Seq<u32>,
    path: Seq<u32>,
    start: u32,
    old_marks: Seq<u32>,
    marks: Seq<u32>,
) -> bool {
    &&& marks.len() == next.len()
    &&& old_marks.len() == next.len()
    &&& path.len() <= next.len()
    &&& forall|j: int|
        0 <= j < path.len() ==> {
            &&& #[trigger] path[j] == orbit::iterate(graph_step(next), start, j as nat)
            &&& path[j] < next.len()
            &&& marks[path[j] as int] == j
            &&& old_marks[path[j] as int] == UNVISITED
        }
    &&& forall|v: int|
        0 <= v < next.len() ==> {
            ||| #[trigger] marks[v] == old_marks[v]
            ||| marks[v] < path.len() && path[marks[v] as int] == v
        }
}

proof fn lemma_path_is_short(
    next: Seq<u32>,
    path: Seq<u32>,
    start: u32,
    old_marks: Seq<u32>,
    marks: Seq<u32>,
    v: u32,
)
    requires
        is_graph(next),
        path_marked(next, path, start, old_marks, marks),
        v < next.len(),
        marks[v as int] == UNVISITED,
    ensures
        path.len() < next.len(),
{
    let longer = path.push(v);
    assert forall|i: int, j: int|
        0 <= i < longer.len() && 0 <= j < longer.len() && i != j implies longer[i] != longer[j] by {
        if i < path.len() {
            assert(marks[path[i] as int] == i);
        }
        if j < path.len() {
            assert(marks[path[j] as int] == j);
        }
    }
    lemma_distinct_below(longer, next.len());
}

/// A path that runs into itself has found its cycle.
proof fn lemma_path_closes(
    next: Seq<u32>,
    path: Seq<u32>,
    start: u32,
    old_marks: Seq<u32>,
    marks: Seq<u32>,
    cursor: u32,
)
    requires
        is_graph(next),
        path_marked(next, path, start, old_marks, marks),
        cursor < next.len(),
        cursor == orbit::iterate(graph_step(next), start, path.len()),
        marks[cursor as int] < path.len(),
        path[marks[cursor as int] as int] == cursor,
    ensures
        ({
            let tail = marks[cursor as int] as nat;
            let len = (path.len() - tail) as nat;
            &&& orbit::is_rho(graph_step(next), start, tail, len)
            &&& orbit::is_cycle_length(graph_step(next), cursor, len)
            &&& landing(next, start) == (cursor, len as u64)
            &&& enters(next, start, cursor, len)
        }),
{
    let f = graph_step(next);
    let at = marks[cursor as int] as nat;
    let len = (path.len() - at) as nat;
    assert(path[at as int] == orbit::iterate(f, start, at));
    orbit::lemma_iterate_add(f, start, at, len);
    assert(orbit::returns_after(f, cursor, len));
    assert forall|q: nat| q < len implies !#[trigger] orbit::returns_after(f, cursor, q) by {
        if orbit::returns_after(f, cursor, q) {
            orbit::lemma_iterate_add(f, start, at, q);
            assert(path[(at + q) as int] == cursor);
            assert(marks[path[(at + q) as int] as int] == at + q);
        }
    }
    let tail = orbit::lemma_rho_from_cycle(f, start, at, len);
    if tail < at {
        orbit::lemma_iterate_add(f, start, tail, len);
        assert(orbit::returns_after(f, orbit::iterate(f, start, tail), len));
        assert(path[tail as int] == path[(tail + len) as int]);
        assert(marks[path[tail as int] as int] == tail);
        assert(marks[path[(tail + len) as int] as int] == tail + len);
    }
    lemma_landing(next, start, tail, len);
}

/// Every node of a path lands where the node after the path lands.
proof fn lemma_path_lands(next: Seq<u32>, start: u32, at: nat, end: nat, len: nat)
    requires
        is_graph(next),
        start < next.len(),
        at <= end,
        exists|tail: nat|
            #[trigger] orbit::is_rho(
                graph_step(next),
                orbit::iterate(graph_step(next), start, end),
                tail,
                len,
            ),
    ensures
        ({
            let v = orbit::iterate(graph_step(next), start, at);
            &&& enters(next, v, landing(next, v).0, landing(next, v).1 as nat)
            &&& landing(next, v).1 == len
        }),
{
    let f = graph_step(next);
    let v = orbit::iterate(f, start, at);
    let w = orbit::iterate(f, start, end);
    let ahead = (end - at) as nat;
    let tail = choose|tail: nat| #[trigger] orbit::is_rho(f, w, tail, len);
    orbit::lemma_iterate_add(f, start, at, ahead);
    orbit::lemma_iterate_add(f, v, ahead, tail);
    let tail_v = orbit::lemma_rho_from_cycle(f, v, ahead + tail, len);
    lemma_walk_stays(next, start, at);
    let (tail2, len2) = law_every_walk_lands(next, v);
    orbit::lemma_rho_unique(f, v, tail_v, len, tail2, len2);
}

impl GraphSearch {
    /// The search is one of the graph `next`, and its best cycle is the one that the starts
    /// processed so far contribute.
    pub closed spec fn searches(&self, next: Seq<u32>) -> bool {
        &&& is_graph(next)
        &&& self.state.len() == next.len()
        &&& self.start <= next.len()
        &&& self.best == best_of(improvements(next, self.start as nat))
        &&& forall|v: int|
            0 <= v < next.len() ==> {
                ||| #[trigger] self.state[v] == UNVISITED
                ||| self.state[v] == DONE && settled(next, self.best, v as u32)
            }
    }

    /// How many starts have been processed.
    pub closed spec fn processed(&self) -> nat {
        self.start as nat
    }

    /// A search that has processed no start yet.
    pub fn new(next: &[u32]) -> (search: GraphSearch)
        requires
            is_graph(next@),
        ensures
            search.searches(next@),
            search.processed() == 0,
    {
        GraphSearch { state: vec![UNVISITED; next.len()], best: None, start: 0 }
    }

    /// The number of starts processed so far.
    pub fn start(&self) -> (start: u32)
        ensures
            start == self.processed(),
    {
        self.start
    }

    /// The best cycle so far: the node where a start met it, and its length.
    pub fn best(&self, next: &[u32]) -> (best: Option<(u32, u64)>)
        requires
            self.searches(next@),
        ensures
            best == best_of(improvements(next@, self.processed())),
            is_shortest(next@, self.processed(), best),
    {
        proof {
            law_last_improvement_is_shortest(next@, self.processed());
        }
        self.best
    }

    /// Processes the next start: follows its path to a marked node, and returns the cycle
    /// that it closes if that is shorter than the best one so far.
    pub fn visit(&mut self, next: &[u32]) -> (found: Option<(u32, u64)>)
        requires
            old(self).searches(next@),
            old(self).processed() < next@.len(),
        ensures
            final(self).searches(next@),
            final(self).processed() == old(self).processed() + 1,
            match found {
                Some(cycle) => improvements(next@, final(self).processed()) == improvements(
                    next@,
                    old(self).processed(),
                ).push(cycle) && cycle == landing(next@, old(self).processed() as u32),
                None => improvements(next@, final(self).processed()) == improvements(
                    next@,
                    old(self).processed(),
                ),
            },
    {
        let start = self.start;
        let ghost f = graph_step(next@);
        let ghost old_marks = self.state@;
        let ghost old_best = self.best;
        let mut found: Option<(u32, u64)> = None;

        let mut path: Vec<u32> = Vec::new();
        let mut cursor = start;
        while self.state[cursor as usize] == UNVISITED
            invariant
                is_graph(next@),
                start < next@.len(),
                f == graph_step(next@),
                self.start == start,
                self.best == old_best,
                path_marked(next@, path@, start, old_marks, self.state@),
                cursor < next@.len(),
                cursor == orbit::iterate(f, start, path@.len()),
            decreases next@.len() - path@.len(),
        {
            proof {
                lemma_path_is_short(next@, path@, start, old_marks, self.state@, cursor);
                assert(old_marks[cursor as int] == UNVISITED);
            }
            let ghost marks = self.state@;
            self.state[cursor as usize] = path.len() as u32;
            path.push(cursor);
            cursor = next[cursor as usize];
            proof {
                assert(next@[path@.last() as int] < next@.len());
                assert forall|j: int| 0 <= j < path@.len() implies {
                    &&& #[trigger] path@[j] == orbit::iterate(f, start, j as nat)
                    &&& path@[j] < next@.len()
                    &&& self.state@[path@[j] as int] == j
                    &&& old_marks[path@[j] as int] == UNVISITED
                } by {
                    if j < path@.len() - 1 {
                        assert(marks[path@[j] as int] == j);
                    }
                }
                assert forall|v: int| 0 <= v < next@.len() implies {
                    ||| #[trigger] self.state@[v] == old_marks[v]
                    ||| self.state@[v] < path@.len() && path@[self.state@[v] as int] == v
                } by {
                    assert(marks[v] == marks[v]);
                }
            }
        }

        let ghost marks = self.state@;
        proof {
            assert(marks[cursor as int] == marks[cursor as int]);
        }
        let mark = self.state[cursor as usize];
        if mark != DONE {
            proof {
                lemma_path_closes(next@, path@, start, old_marks, marks, cursor);
            }
            let cycle_length = (path.len() - mark as usize) as u64;
            let shorter = match self.best {
                Some((_, best_length)) => cycle_length < best_length,
                None => true,
            };
            if shorter {
                self.best = Some((cursor, cycle_length));
                found = self.best;
            }
            assert(exists|tail: nat|
                #[trigger] orbit::is_rho(f, cursor, tail, cycle_length as nat)) by {
                assert(orbit::is_rho(f, cursor, 0, cycle_length as nat));
            }
        } else {
            assert(settled(next@, self.best, cursor));
        }
        let ghost len = landing(next@, cursor).1 as nat;
        proof {
            assert(exists|tail: nat| #[trigger] orbit::is_rho(f, cursor, tail, len)) by {
                if mark != DONE {
                    let l = (path@.len() - mark) as nat;
                    assert(orbit::is_rho(f, cursor, 0, l));
                    lemma_landing(next@, cursor, 0, l);
                }
            }
            lemma_path_lands(next@, start, 0, path@.len(), len);
            assert(landing(next@, start).1 == len);
            assert forall|j: int| 0 <= j < path@.len() implies settled(
                next@,
                self.best,
                #[trigger] path@[j],
            ) by {
                lemma_path_lands(next@, start, j as nat, path@.len(), len);
            }
        }

        let mut index: usize = 0;
        while index < path.len()
            invariant
                index <= path@.len(),
                self.start == start,
                self.state@.len() == next@.len(),
                marks.len() == next@.len(),
                forall|j: int| 0 <= j < path@.len() ==> #[trigger] path@[j] < next@.len(),
                forall|j: int| 0 <= j < index ==> self.state@[#[trigger] path@[j] as int] == DONE,
                forall|v: int|
                    0 <= v < next@.len() ==> #[trigger] self.state@[v] == marks[v]
                        || self.state@[v] == DONE,
                forall|v: int|
                    0 <= v < next@.len() && #[trigger] self.state@[v] != marks[v] ==> exists|j: int|
                        0 <= j < path@.len() && path@[j] == v,
                self.best == (match found {
                    Some(cycle) => Some(cycle),
                    None => old_best,
                }),
            decreases path@.len() - index,
        {
            let node = path[index];
            self.state[node as usize] = DONE;
            index += 1;
        }
        self.start = start + 1;

        proof {
            assert forall|v: int| 0 <= v < next@.len() implies {
                ||| #[trigger] self.state@[v] == UNVISITED
                ||| self.state@[v] == DONE && settled(next@, self.best, v as u32)
            } by {
                if exists|j: int| 0 <= j < path@.len() && path@[j] == v {
                    let j = choose|j: int| 0 <= j < path@.len() && path@[j] == v;
                    assert(settled(next@, self.best, path@[j]));
                } else {
                    assert(self.state@[v] == marks[v]);
                    assert(marks[v] == old_marks[v]);
                    if old_marks[v] == DONE {
                        assert(settled(next@, old_best, v as u32));
                    }
                }
            }
        }
        found
    }
}

/// `count` is a number of starts at which the clock is looked at.
pub open spec fn is_checkpoint(count: u64) -> bool {
    count % (CHECKPOINT_INTERVAL as u64) == 0
}

/// What a search of `next` tells while it processes the first `count` starts: each checkpoint
/// at which it goes on, and each improvement as soon as it is found, its node placed by
/// `place`.
pub open spec fn told<T>(
    next: Seq<u32>,
    place: spec_fn(u32) -> T,
    count: nat,
) -> Seq<Heard<T>>
    decreases count,
{
    if count == 0 {
        Seq::empty()
    } else {
        let start = (count - 1) as nat;
        let before = told(next, place, start);
        let noticed = if is_checkpoint(start as u64) {
            before.push(Heard::Checkpoint(start as u64, next.len() as u64))
        } else {
            before
        };
        if improvements(next, count).len() > improvements(next, start).len() {
            let found = improvements(next, count).last();
            noticed.push(Heard::NewBest(place(found.0), found.1))
        } else {
            noticed
        }
    }
}

/// The improvements, with their nodes placed by `place`.
pub open spec fn placed<T>(
    place: spec_fn(u32) -> T,
    improvements: Seq<(u32, u64)>,
) -> Seq<(T, u64)> {
    improvements.map_values(|found: (u32, u64)| (place(found.0), found.1))
}

/// The listener may be told all of this.
pub open spec fn can_be_told<T, F: FnMut(T, u64), G: FnMut(u64, u64)>(
    listener: &Listener<T, F, G>,
    events: Seq<Heard<T>>,
) -> bool {
    forall|i: int| 0 <= i < events.len() ==> listener.can_hear(#[trigger] events[i])
}

/// More starts only add to what is told.
pub proof fn law_told_extends<T>(
    next: Seq<u32>,
    place: spec_fn(u32) -> T,
    count: nat,
    more: nat,
)
    requires
        count <= more,
    ensures
        told(next, place, count).is_prefix_of(told(next, place, more)),
    decreases more,
{
    if count < more {
        law_told_extends(next, place, count, (more - 1) as nat);
    }
}

/// The new best cycles that are told are the improvements, each once and in order.
pub proof fn law_improvements_are_told<T>(next: Seq<u32>, place: spec_fn(u32) -> T, count: nat)
    ensures
        listener::new_bests(told(next, place, count)) == placed(place, improvements(next, count)),
    decreases count,
{
    reveal_with_fuel(listener::new_bests, 3);
    if count > 0 {
        let start = (count - 1) as nat;
        law_improvements_are_told(next, place, start);
        let before = told(next, place, start);
        let all = told(next, place, count);
        let notice = Heard::<T>::Checkpoint(start as u64, next.len() as u64);
        assert(before.push(notice).drop_last() =~= before);
        if improvements(next, count).len() > improvements(next, start).len() {
            let found = improvements(next, count).last();
            let report = Heard::NewBest(place(found.0), found.1);
            assert(before.push(notice).push(report).drop_last() =~= before.push(notice));
            assert(before.push(report).drop_last() =~= before);
            assert(listener::new_bests(all) =~= listener::new_bests(before).push(
                (place(found.0), found.1),
            ));
        }
        assert(listener::new_bests(all) =~= placed(place, improvements(next, count)));
    }
}

/// A node stands for itself.
pub open spec fn itself() -> spec_fn(u32) -> u32 {
    |v: u32| v
}

/// How a search may end: with the best of the starts processed, how many these are, and
/// whether they are all. It stops early only at a checkpoint.
pub open spec fn scan_ends(
    next: Seq<u32>,
    best: Option<(u32, u64)>,
    processed: u64,
    completed: bool,
) -> bool {
    &&& processed <= next.len()
    &&& completed == (processed == next.len())
    &&& best == best_of(improvements(next, processed as nat))
    &&& is_shortest(next, processed as nat, best)
    &&& !completed ==> is_checkpoint(processed)
}

/// Each improvement is a node on a cycle, and the exact length of that cycle.
pub proof fn law_improvements_are_cycles(next: Seq<u32>, count: nat, i: int)
    requires
        is_graph(next),
        count <= next.len(),
        0 <= i < improvements(next, count).len(),
    ensures
        improvements(next, count)[i].0 < next.len(),
        improvements(next, count)[i].1 >= 1,
        orbit::is_cycle_length(
            graph_step(next),
            improvements(next, count)[i].0,
            improvements(next, count)[i].1 as nat,
        ),
    decreases count,
{
    let before = improvements(next, (count - 1) as nat);
    if i < before.len() {
        law_improvements_are_cycles(next, (count - 1) as nat, i);
    } else {
        let start = (count - 1) as u32;
        lemma_entry_is_node(next, start);
        law_every_walk_lands(next, start);
        let l = landing(next, start);
        let tail = choose|tail: nat|
            {
                &&& #[trigger] orbit::is_rho(graph_step(next), start, tail, l.1 as nat)
                &&& l.0 == orbit::iterate(graph_step(next), start, tail)
            };
        assert(orbit::returns_after(graph_step(next), l.0, l.1 as nat));
    }
}

/// The nodes of the cycles of some improvements, one cycle after the other.
spec fn nodes_of(next: Seq<u32>, improvements: Seq<(u32, u64)>) -> Seq<u32>
    decreases improvements.len(),
{
    if improvements.len() == 0 {
        Seq::empty()
    } else {
        let last = improvements.last();
        nodes_of(next, improvements.drop_last()) + Seq::new(
            last.1 as nat,
            |i: int| orbit::iterate(graph_step(next), last.0, i as nat),
        )
    }
}

/// `x` lies on a cycle as long as that of an improvement.
spec fn on_one_of(next: Seq<u32>, improvements: Seq<(u32, u64)>, x: u32) -> bool {
    exists|i: int|
        0 <= i < improvements.len() && orbit::is_cycle_length(
            graph_step(next),
            x,
            (#[trigger] improvements[i]).1 as nat,
        )
}

/// Cycles of different lengths have no node in common.
proof fn lemma_nodes_are_distinct(next: Seq<u32>, improvements: Seq<(u32, u64)>)
    requires
        is_graph(next),
        forall|i: int|
            0 <= i < improvements.len() ==> (#[trigger] improvements[i]).0 < next.len()
                && orbit::is_cycle_length(
                graph_step(next),
                improvements[i].0,
                improvements[i].1 as nat,
            ),
        forall|i: int, j: int|
            0 <= i < j < improvements.len() ==> (#[trigger] improvements[j]).1 < (
            #[trigger] improvements[i]).1,
    ensures
        nodes_of(next, improvements).no_duplicates(),
        forall|i: int|
            0 <= i < nodes_of(next, improvements).len() ==> (#[trigger] nodes_of(
                next,
                improvements,
            )[i]) < next.len() && on_one_of(next, improvements, nodes_of(next, improvements)[i]),
    decreases improvements.len(),
{
    if improvements.len() > 0 {
        let f = graph_step(next);
        let fewer = improvements.drop_last();
        let last = improvements.last();
        let len = last.1 as nat;
        let a = nodes_of(next, fewer);
        let b = Seq::new(len, |i: int| orbit::iterate(f, last.0, i as nat));
        let all = nodes_of(next, improvements);
        assert forall|i: int| 0 <= i < fewer.len() implies fewer[i] == improvements[i] by {}
        lemma_nodes_are_distinct(next, fewer);
        assert(improvements[improvements.len() - 1] == last);
        assert forall|i: int| 0 <= i < len implies (#[trigger] b[i]) < next.len()
            && orbit::is_cycle_length(f, b[i], len) by {
            lemma_walk_stays(next, last.0, i as nat);
            orbit::lemma_cycle_length_ahead(f, last.0, len, i as nat);
        }
        assert forall|i: int, j: int| 0 <= i < j < len implies b[i] != b[j] by {
            if b[i] == b[j] {
                orbit::lemma_iterate_add(f, last.0, i as nat, (j - i) as nat);
                assert(orbit::is_cycle_length(f, b[i], len));
                assert(orbit::returns_after(f, b[i], (j - i) as nat));
            }
        }
        assert forall|i: int, j: int| 0 <= i < a.len() && 0 <= j < len implies a[i] != b[j] by {
            if a[i] == b[j] {
                assert(on_one_of(next, fewer, a[i]));
                let k = choose|k: int|
                    0 <= k < fewer.len() && orbit::is_cycle_length(
                        f,
                        a[i],
                        (#[trigger] fewer[k]).1 as nat,
                    );
                orbit::lemma_cycle_length_unique(f, a[i], fewer[k].1 as nat, len);
                assert(improvements[k] == fewer[k]);
            }
        }
        assert forall|i: int| 0 <= i < all.len() implies (#[trigger] all[i]) < next.len()
            && on_one_of(next, improvements, all[i]) by {
            if i < a.len() {
                assert(a[i] == all[i]);
                let k = choose|k: int|
                    0 <= k < fewer.len() && orbit::is_cycle_length(
                        f,
                        a[i],
                        (#[trigger] fewer[k]).1 as nat,
                    );
                assert(improvements[k] == fewer[k]);
            } else {
                assert(all[i] == b[i - a.len()]);
            }
        }
        assert forall|i: int, j: int|
            0 <= i < all.len() && 0 <= j < all.len() && i != j implies all[i] != all[j] by {
            let (x, y) = if i < j {
                (i, j)
            } else {
                (j, i)
            };
            if y < a.len() {
                assert(a[x] != a[y]);
            } else if x < a.len() {
                assert(a[x] != b[y - a.len()]);
            } else {
                assert(b[x - a.len()] != b[y - a.len()]);
            }
        }
    }
}

/// Where lengths fall and stay above zero, each is at least the number of those from it on.
proof fn lemma_lengths_fall(lengths: Seq<(u32, u64)>, i: int)
    requires
        0 <= i < lengths.len(),
        forall|i: int| 0 <= i < lengths.len() ==> (#[trigger] lengths[i]).1 >= 1,
        forall|i: int, j: int|
            0 <= i < j < lengths.len() ==> (#[trigger] lengths[j]).1 < (#[trigger] lengths[i]).1,
    ensures
        lengths[i].1 >= lengths.len() - i,
    decreases lengths.len() - i,
{
    if i + 1 < lengths.len() {
        lemma_lengths_fall(lengths, i + 1);
        assert(lengths[i + 1].1 < lengths[i].1);
    }
}

proof fn lemma_nodes_are_many(next: Seq<u32>, improvements: Seq<(u32, u64)>, k: nat)
    requires
        improvements.len() <= k,
        forall|i: int| 0 <= i < improvements.len() ==> (#[trigger] improvements[i]).1 >= k - i,
    ensures
        2 * nodes_of(next, improvements).len() >= improvements.len() * (2 * k + 1
            - improvements.len()),
    decreases improvements.len(),
{
    let m = improvements.len() as int;
    if m == 0 {
        assert(m * (2 * k + 1 - m) == 0) by (nonlinear_arith)
            requires
                m == 0,
        ;
    } else {
        let fewer = improvements.drop_last();
        assert forall|i: int| 0 <= i < fewer.len() implies (#[trigger] fewer[i]).1 >= k - i by {
            assert(fewer[i] == improvements[i]);
        }
        lemma_nodes_are_many(next, fewer, k);
        assert(improvements[m - 1].1 >= k - (m - 1));
        assert((m - 1) * (2 * k + 1 - (m - 1)) + 2 * (k - (m - 1)) == m * (2 * k + 1 - m))
            by (nonlinear_arith);
    }
}

/// A graph has few improvements: there is a cycle of its own for each, and these cycles are of
/// different lengths.
pub proof fn law_improvements_are_few(next: Seq<u32>, count: nat)
    requires
        is_graph(next),
        count <= next.len(),
    ensures
        ({
            let k = improvements(next, count).len();
            k * (k + 1) <= 2 * next.len()
        }),
{
    let all = improvements(next, count);
    let k = all.len();
    assert forall|i: int| 0 <= i < all.len() implies (#[trigger] all[i]).0 < next.len()
        && all[i].1 >= 1 && orbit::is_cycle_length(graph_step(next), all[i].0, all[i].1 as nat) by {
        law_improvements_are_cycles(next, count, i);
    }
    assert forall|i: int, j: int| 0 <= i < j < all.len() implies (#[trigger] all[j]).1 < (
    #[trigger] all[i]).1 by {
        law_improvements_shrink(next, count, i, j);
    }
    lemma_nodes_are_distinct(next, all);
    lemma_distinct_below(nodes_of(next, all), next.len());
    assert forall|i: int| 0 <= i < all.len() implies (#[trigger] all[i]).1 >= k - i by {
        lemma_lengths_fall(all, i);
    }
    lemma_nodes_are_many(next, all, k);
    assert(k * (2 * k + 1 - k) == k * (k + 1)) by (nonlinear_arith);
}

/// In a graph with one more node, which leads into the others, these walk as before.
proof fn lemma_appended_walk(next: Seq<u32>, w: u32, v: u32, n: nat)
    requires
        is_graph(next),
        v < next.len(),
    ensures
        orbit::iterate(graph_step(next.push(w)), v, n) == orbit::iterate(graph_step(next), v, n),
    decreases n,
{
    if n > 0 {
        lemma_appended_walk(next, w, v, (n - 1) as nat);
        lemma_walk_stays(next, v, (n - 1) as nat);
    }
}

proof fn lemma_appended_landing(next: Seq<u32>, w: u32, v: u32)
    requires
        is_graph(next),
        v < next.len(),
    ensures
        landing(next.push(w), v) == landing(next, v),
{
    let f = graph_step(next);
    let g = graph_step(next.push(w));
    let (tail, len) = law_every_walk_lands(next, v);
    let entry = orbit::iterate(f, v, tail);
    lemma_walk_stays(next, v, tail);
    lemma_appended_walk(next, w, v, tail);
    assert forall|q: nat| #[trigger] orbit::returns_after(g, entry, q) == orbit::returns_after(
        f,
        entry,
        q,
    ) by {
        lemma_appended_walk(next, w, entry, q);
    }
    assert(orbit::returns_after(f, entry, len));
    assert(orbit::is_cycle_length(g, entry, len)) by {
        assert(orbit::returns_after(g, entry, len));
    }
    assert forall|j: nat| j < tail implies !orbit::on_cycle(
        g,
        #[trigger] orbit::iterate(g, v, j),
    ) by {
        lemma_appended_walk(next, w, v, j);
        lemma_walk_stays(next, v, j);
        let x = orbit::iterate(f, v, j);
        if orbit::on_cycle(g, x) {
            let p = choose|p: nat| #[trigger] orbit::returns_after(g, x, p);
            lemma_appended_walk(next, w, x, p);
            assert(orbit::returns_after(f, x, p));
            assert(orbit::on_cycle(f, orbit::iterate(f, v, j)));
        }
    }
    assert(orbit::is_rho(g, v, tail, len));
    lemma_landing(next.push(w), v, tail, len);
    lemma_landing(next, v, tail, len);
}

proof fn lemma_appended_improvements(next: Seq<u32>, w: u32, count: nat)
    requires
        is_graph(next),
        count <= next.len(),
    ensures
        improvements(next.push(w), count) == improvements(next, count),
    decreases count,
{
    if count > 0 {
        lemma_appended_improvements(next, w, (count - 1) as nat);
        lemma_appended_landing(next, w, (count - 1) as u32);
    }
}

/// A node that is appended to a graph, and leads into it, adds no improvement.
pub proof fn law_appended_node_adds_nothing(next: Seq<u32>, w: u32)
    requires
        is_graph(next),
        is_graph(next.push(w)),
        w < next.len(),
    ensures
        improvements(next.push(w), next.len() + 1) == improvements(next, next.len()),
{
    let longer = next.push(w);
    let f = graph_step(longer);
    let n = next.len() as u32;
    lemma_appended_improvements(next, w, next.len());
    lemma_appended_landing(next, w, w);
    let (tail, len) = law_every_walk_lands(longer, w);
    assert(orbit::iterate(f, n, 1) == w) by {
        reveal_with_fuel(orbit::iterate, 2);
    }
    orbit::lemma_iterate_add(f, n, 1, tail);
    let from_n = orbit::lemma_rho_from_cycle(f, n, 1 + tail, len);
    lemma_landing(longer, n, from_n, len);
    law_last_improvement_is_shortest(next, next.len());
    let best = best_of(improvements(next, next.len()))->Some_0;
    let s = choose|s: u32| #[trigger] is_first_shortest(next, next.len(), s, best);
    assert(best.1 <= landing(next, w).1);
    assert(best == improvements(next, next.len()).last());
}

/// A search of which a deadline is reached tells what the whole search tells first. If it
/// completes after all, it returns and tells the same.
pub proof fn law_stopping_only_cuts_short<T>(
    next: Seq<u32>,
    place: spec_fn(u32) -> T,
    whole: (Option<(u32, u64)>, u64, bool),
    cut: (Option<(u32, u64)>, u64, bool),
)
    requires
        scan_ends(next, whole.0, whole.1, whole.2),
        scan_ends(next, cut.0, cut.1, cut.2),
        whole.2,
    ensures
        told(next, place, cut.1 as nat).is_prefix_of(told(next, place, whole.1 as nat)),
        improvements(next, cut.1 as nat).is_prefix_of(improvements(next, whole.1 as nat)),
        cut.2 ==> cut == whole,
{
    law_told_extends(next, place, cut.1 as nat, whole.1 as nat);
    law_improvements_extend(next, cut.1 as nat, whole.1 as nat);
}

/// `expired` may be asked at each checkpoint before `end`.
pub open spec fn can_ask<C: Fn(u64) -> bool>(expired: C, end: nat) -> bool {
    forall|count: u64| #[trigger]
        is_checkpoint(count) && count < end ==> call_requires(expired, (count,))
}

/// `expired` has said at each checkpoint before `end` to go on.
pub open spec fn has_gone_on<C: Fn(u64) -> bool>(expired: C, end: nat) -> bool {
    forall|count: u64| #[trigger]
        is_checkpoint(count) && count < end ==> call_ensures(expired, (count,), false)
}

/// The number of checkpoints before `end`.
pub open spec fn checkpoints_before(end: nat) -> nat {
    (end + CHECKPOINT_INTERVAL - 1) as nat / CHECKPOINT_INTERVAL as nat
}

/// What came before answer `i`: what was there at first, or the answer before it.
pub open spec fn before_answer<A>(first: A, answers: Seq<A>, i: int) -> A {
    if i <= 0 {
        first
    } else {
        answers[i - 1]
    }
}

/// `ask` was asked with a search of `next` that had processed `count` starts, and with what it
/// gave before, and its answer was `answer`.
pub(crate) open spec fn asked_at<A, C: Fn(&GraphSearch, A) -> (bool, A)>(
    ask: C,
    next: Seq<u32>,
    before: A,
    count: nat,
    answer: (bool, A),
) -> bool {
    exists|search: GraphSearch|
        {
            &&& search.searches(next)
            &&& search.processed() == count
            &&& #[trigger] call_ensures(ask, (&search, before), answer)
        }
}

/// Answer `i` of `ask` was given at checkpoint `i`, and said to stop exactly where all of the
/// `passed` checkpoints had been passed.
pub(crate) open spec fn answer_given<A, C: Fn(&GraphSearch, A) -> (bool, A)>(
    ask: C,
    next: Seq<u32>,
    first: A,
    answers: Seq<A>,
    passed: nat,
    i: int,
) -> bool {
    asked_at(
        ask,
        next,
        before_answer(first, answers, i),
        (i * CHECKPOINT_INTERVAL) as nat,
        (i >= passed, answers[i]),
    )
}

/// `ask` was asked once at each checkpoint before `processed`, each time with what it gave the
/// time before, and said to go on. If the search was not completed, it was asked at `processed`
/// too, and said to stop.
pub(crate) open spec fn asked_in_turn<A, C: Fn(&GraphSearch, A) -> (bool, A)>(
    ask: C,
    next: Seq<u32>,
    first: A,
    answers: Seq<A>,
    processed: nat,
    completed: bool,
) -> bool {
    let passed = checkpoints_before(processed);
    &&& answers.len() == passed + if completed {
        0nat
    } else {
        1nat
    }
    &&& forall|i: int|
        0 <= i < answers.len() ==> #[trigger] answer_given(
            ask,
            next,
            first,
            answers,
            passed,
            i,
        )
}

/// `ask` may be asked with any search of `next` at a checkpoint before its end.
pub(crate) open spec fn can_ask_search<A, C: Fn(&GraphSearch, A) -> (bool, A)>(
    ask: C,
    next: Seq<u32>,
) -> bool {
    forall|search: &GraphSearch, before: A| #[trigger]
        call_requires(ask, (search, before)) || !(search.searches(next) && search.processed()
            < next.len() && is_checkpoint(search.processed() as u64))
}

/// Processes the starts in order, until all are done or `ask` says to stop.
///
/// `ask` is asked at each checkpoint, with the search as it is there and with what it gave the
/// time before. `listener` is told of the checkpoints at which the search goes on, and of each
/// improvement, its node placed by `label`.
pub(crate) fn scan<T, A, C, M, F, G>(
    next: &[u32],
    ask: C,
    first: A,
    label: M,
    Ghost(place): Ghost<spec_fn(u32) -> T>,
    listener: &mut Listener<T, F, G>,
) -> (r: (Option<(u32, u64)>, u64, bool)) where
    A: Copy,
    C: Fn(&GraphSearch, A) -> (bool, A),
    M: Fn(u32) -> T,
    F: FnMut(T, u64),
    G: FnMut(u64, u64),

    requires
        is_graph(next@),
        can_ask_search(ask, next@),
        forall|v: u32| v < next@.len() ==> #[trigger] call_requires(label, (v,)),
        forall|v: u32, t: T| #[trigger] call_ensures(label, (v,), t) ==> t == place(v),
        can_be_told(old(listener), told(next@, place, next@.len())),
    ensures
        scan_ends(next@, r.0, r.1, r.2),
        exists|answers: Seq<A>| #[trigger]
            asked_in_turn(ask, next@, first, answers, r.1 as nat, r.2),
        final(listener).heard() == old(listener).heard() + told(next@, place, r.1 as nat),
        listener::new_bests(final(listener).heard()) == listener::new_bests(
            old(listener).heard(),
        ) + placed(place, improvements(next@, r.1 as nat)),
        final(listener).same_ears(old(listener)),
{
    let total = next.len();
    let mut search = GraphSearch::new(next);
    let mut stopped = false;
    let mut latest = first;
    let ghost mut answers: Seq<A> = Seq::empty();
    assert(listener.heard() =~= old(listener).heard() + told(next@, place, 0));
    while !stopped && (search.start() as usize) < total
        invariant
            is_graph(next@),
            total == next@.len(),
            can_ask_search(ask, next@),
            forall|v: u32| v < next@.len() ==> #[trigger] call_requires(label, (v,)),
            forall|v: u32, t: T| #[trigger] call_ensures(label, (v,), t) ==> t == place(v),
            can_be_told(old(listener), told(next@, place, next@.len())),
            listener.same_ears(old(listener)),
            search.searches(next@),
            search.processed() <= next@.len(),
            stopped ==> {
                &&& search.processed() < next@.len()
                &&& is_checkpoint(search.processed() as u64)
            },
            asked_in_turn(ask, next@, first, answers, search.processed(), !stopped),
            latest == before_answer(first, answers, answers.len() as int),
            listener.heard() == old(listener).heard() + told(next@, place, search.processed()),
        decreases next@.len() - search.processed(), (if stopped {
            0int
        } else {
            1int
        }),
    {
        let start = search.start();
        let count = start as u64;
        let ghost before = search.processed();
        let ghost all = told(next@, place, next@.len());
        let ghost so_far = told(next@, place, before);
        let ghost now = told(next@, place, before + 1);
        let ghost earlier = answers;
        proof {
            law_told_extends(next@, place, before + 1, next@.len());
        }
        if start % CHECKPOINT_INTERVAL == 0 {
            assert(is_checkpoint(count));
            let ghost given = latest;
            assert(call_requires(ask, (&search, latest)));
            let (stop, answer) = ask(&search, latest);
            stopped = stop;
            latest = answer;
            proof {
                answers = answers.push(answer);
                assert(checkpoints_before(before) * CHECKPOINT_INTERVAL == before);
                assert(checkpoints_before(before + 1) == checkpoints_before(before) + 1);
                assert(asked_at(ask, next@, given, before, (stop, answer)));
                let passed = checkpoints_before(if stop {
                    before
                } else {
                    before + 1
                });
                assert forall|i: int| 0 <= i < answers.len() implies #[trigger] answer_given(
                    ask,
                    next@,
                    first,
                    answers,
                    passed,
                    i,
                ) by {
                    if i < earlier.len() {
                        assert(answer_given(
                            ask,
                            next@,
                            first,
                            earlier,
                            checkpoints_before(before),
                            i,
                        ));
                        assert(answers[i] == earlier[i]);
                        assert(before_answer(first, answers, i) == before_answer(
                            first,
                            earlier,
                            i,
                        ));
                    } else {
                        assert(before_answer(first, answers, i) == given);
                    }
                }
            }
            if !stopped {
                assert(all[so_far.len() as int] == now[so_far.len() as int]);
                listener.checkpoint(count, total as u64);
            }
        } else {
            assert(!is_checkpoint(count));
            assert(checkpoints_before(before + 1) == checkpoints_before(before));
        }
        if !stopped {
            let found = search.visit(next);
            if let Some((node, cycle_length)) = found {
                proof {
                    assert(all[now.len() - 1] == now.last());
                    lemma_entry_is_node(next@, before as u32);
                }
                let at = label(node);
                listener.new_best(at, cycle_length);
            }
            assert(listener.heard() =~= old(listener).heard() + now);
        }
    }
    proof {
        let end = search.processed();
        listener::lemma_new_bests_add(old(listener).heard(), told(next@, place, end));
        law_improvements_are_told(next@, place, end);
    }
    (search.best(next), search.start() as u64, !stopped)
}

/// `expired` may be asked with this count.
pub(crate) open spec fn may_ask<Q: Fn(u64) -> bool>(expired: &Q, count: u64) -> bool {
    call_requires(*expired, (count,))
}

/// `expired` was asked with this count, and gave this answer.
pub(crate) open spec fn has_said<Q: Fn(u64) -> bool>(
    expired: &Q,
    count: u64,
    answer: bool,
) -> bool {
    call_ensures(*expired, (count,), answer)
}

/// What an `ask` that answers by the number of starts processed has answered.
pub(crate) proof fn lemma_answers_by_count<A, C, Q>(
    ask: C,
    expired: Q,
    next: Seq<u32>,
    first: A,
    processed: u64,
    completed: bool,
) where C: Fn(&GraphSearch, A) -> (bool, A), Q: Fn(u64) -> bool
    requires
        exists|answers: Seq<A>| #[trigger]
            asked_in_turn(ask, next, first, answers, processed as nat, completed),
        !completed ==> is_checkpoint(processed),
        forall|search: &GraphSearch, before: A, answer: (bool, A)| #[trigger]
            call_ensures(ask, (search, before), answer) ==> call_ensures(
                expired,
                (search.processed() as u64,),
                answer.0,
            ),
    ensures
        !completed ==> call_ensures(expired, (processed,), true),
        has_gone_on(expired, processed as nat),
{
    let answers = choose|answers: Seq<A>| #[trigger]
        asked_in_turn(ask, next, first, answers, processed as nat, completed);
    let passed = checkpoints_before(processed as nat);
    assert forall|count: u64| #[trigger]
        is_checkpoint(count) && count < processed implies call_ensures(
        expired,
        (count,),
        false,
    ) by {
        let i = count as int / CHECKPOINT_INTERVAL as int;
        assert(0 <= i < passed);
        assert(answer_given(ask, next, first, answers, passed, i));
    }
    if !completed {
        let i = passed as int;
        assert(i * CHECKPOINT_INTERVAL == processed);
        assert(answer_given(ask, next, first, answers, passed, i));
    }
}

/// Reads the clock while a search is as it is, after the reading before it.
pub fn look(search: &GraphSearch, previous: Option<Instant>) -> (now: Instant)
    ensures
        clock::was_read(now),
{
    let _ = search;
    let _ = previous;
    clock::read()
}

/// Takes a reading from a clock.
fn look_through<L: Fn(&GraphSearch, Option<Instant>) -> Instant>(
    clock: L,
    search: &GraphSearch,
    previous: Option<Instant>,
) -> (now: Instant)
    requires
        call_requires(clock, (search, previous)),
    ensures
        call_ensures(clock, (search, previous), now),
{
    clock(search, previous)
}

/// Reads the clock anew, and tells whether the reading has reached the deadline.
pub(crate) fn look_again(
    search: &GraphSearch,
    previous: Option<Instant>,
    deadline: Option<Instant>,
) -> (answer: (bool, Option<Instant>))
    ensures
        answer.1 is Some,
        call_ensures(look, (search, previous), answer.1->Some_0),
        clock::was_read(answer.1->Some_0),
        answer.0 == reached(deadline, answer.1->Some_0),
{
    let now = look_through(look, search, previous);
    (clock::deadline_reached(now, deadline), Some(now))
}

/// The reading `now` has reached the deadline, where there is one.
pub open spec fn reached(deadline: Option<Instant>, now: Instant) -> bool {
    match deadline {
        Some(at) => clock::instant_reached(now, at),
        None => false,
    }
}

/// The clock was read, after the reading `previous`, while a search of `next` had processed
/// exactly `count` starts, and showed `now`. A reading for one count does not serve for
/// another.
pub open spec fn looked(
    next: Seq<u32>,
    previous: Option<Instant>,
    count: nat,
    now: Instant,
) -> bool {
    exists|search: GraphSearch|
        {
            &&& search.searches(next)
            &&& search.processed() == count
            &&& #[trigger] call_ensures(look, (&search, previous), now)
        }
}

/// Reading `i` was made at checkpoint `i`, after the reading before it.
pub open spec fn shown_at(
    next: Seq<u32>,
    first: Option<Instant>,
    readings: Seq<Instant>,
    i: int,
) -> bool {
    &&& clock::was_read(readings[i])
    &&& i == 0 ==> looked(next, first, 0, readings[0])
    &&& i > 0 ==> looked(
        next,
        Some(readings[i - 1]),
        (i * CHECKPOINT_INTERVAL) as nat,
        readings[i],
    )
}

/// The clock was read anew at each checkpoint, one reading after the other, and showed these
/// readings.
pub open spec fn clock_shows(
    next: Seq<u32>,
    first: Option<Instant>,
    readings: Seq<Instant>,
) -> bool {
    forall|i: int|
        0 <= i < readings.len() ==> #[trigger] shown_at(next, first, readings, i)
}

/// There is a reading for each checkpoint that the search passed, none of which has reached the
/// deadline, and where the search was not completed one more, which has.
pub open spec fn within(
    deadline: Option<Instant>,
    readings: Seq<Instant>,
    processed: nat,
    completed: bool,
) -> bool {
    let passed = checkpoints_before(processed);
    &&& readings.len() == passed + if completed {
        0nat
    } else {
        1nat
    }
    &&& forall|i: int|
        0 <= i < readings.len() ==> (reached(deadline, #[trigger] readings[i]) <==> i >= passed)
}

/// The search went by the clock: at each checkpoint it read it anew, after the reading `first`
/// and those before it, it went on where the reading had not reached the deadline, and it
/// stopped where it had.
pub open spec fn timed(
    next: Seq<u32>,
    first: Option<Instant>,
    deadline: Option<Instant>,
    processed: nat,
    completed: bool,
) -> bool {
    exists|readings: Seq<Instant>| #[trigger]
        clock_shows(next, first, readings) && within(deadline, readings, processed, completed)
}

/// What an `ask` that reads the clock has read.
pub(crate) proof fn lemma_answers_by_clock<C>(
    ask: C,
    next: Seq<u32>,
    first: Option<Instant>,
    deadline: Option<Instant>,
    processed: nat,
    completed: bool,
) where C: Fn(&GraphSearch, Option<Instant>) -> (bool, Option<Instant>)
    requires
        exists|answers: Seq<Option<Instant>>| #[trigger]
            asked_in_turn(ask, next, first, answers, processed, completed),
        forall|
            search: &GraphSearch,
            before: Option<Instant>,
            answer: (bool, Option<Instant>),
        | #[trigger]
            call_ensures(ask, (search, before), answer) ==> {
                &&& answer.1 is Some
                &&& call_ensures(look, (search, before), answer.1->Some_0)
                &&& clock::was_read(answer.1->Some_0)
                &&& answer.0 == reached(deadline, answer.1->Some_0)
            },
    ensures
        timed(next, first, deadline, processed, completed),
        !completed ==> clock::may_expire(deadline),
        processed > 0 ==> clock::may_wait(deadline),
{
    let answers = choose|answers: Seq<Option<Instant>>| #[trigger]
        asked_in_turn(ask, next, first, answers, processed, completed);
    let passed = checkpoints_before(processed);
    let readings = Seq::new(answers.len(), |i: int| answers[i]->Some_0);
    assert forall|i: int| 0 <= i < answers.len() implies {
        &&& (#[trigger] answers[i]) is Some
        &&& clock::was_read(readings[i])
        &&& reached(deadline, readings[i]) <==> i >= passed
        &&& looked(
            next,
            before_answer(first, answers, i),
            (i * CHECKPOINT_INTERVAL) as nat,
            readings[i],
        )
    } by {
        let before = before_answer(first, answers, i);
        let count = (i * CHECKPOINT_INTERVAL) as nat;
        assert(answer_given(ask, next, first, answers, passed, i));
        let answer = (i >= passed, answers[i]);
        let search = choose|search: GraphSearch|
            {
                &&& search.searches(next)
                &&& search.processed() == count
                &&& #[trigger] call_ensures(ask, (&search, before), answer)
            };
        assert(call_ensures(look, (&search, before), readings[i]));
    }
    assert(clock_shows(next, first, readings)) by {
        assert forall|i: int| 0 <= i < readings.len() implies #[trigger] shown_at(
            next,
            first,
            readings,
            i,
        ) by {
            assert(answers[i] is Some);
            if i > 0 {
                assert(answers[i - 1] is Some);
            }
        }
    }
    assert(within(deadline, readings, processed, completed)) by {
        assert forall|i: int| 0 <= i < readings.len() implies (reached(
            deadline,
            #[trigger] readings[i],
        ) <==> i >= passed) by {
            assert(answers[i] is Some);
        }
    }
    if !completed {
        assert(answers[passed as int] is Some);
        assert(reached(deadline, readings[passed as int]));
    }
    if processed > 0 {
        assert(passed >= 1);
        assert(answers[0] is Some);
        assert(!reached(deadline, readings[0]));
    }
}

/// The clock is read anew at every checkpoint that a search passes: after the reading at the
/// checkpoint before it, while exactly so many starts had been processed, and that very reading
/// had not reached the deadline. The search stops exactly where the reading has.
pub proof fn law_clock_is_read_at_every_checkpoint(
    next: Seq<u32>,
    first: Option<Instant>,
    deadline: Option<Instant>,
    processed: nat,
    completed: bool,
    readings: Seq<Instant>,
    i: int,
)
    requires
        clock_shows(next, first, readings),
        within(deadline, readings, processed, completed),
    ensures
        0 <= 262144 * i < processed ==> i < readings.len(),
        !completed && processed % 262144 == 0 && 262144 * i == processed ==> i == readings.len()
            - 1,
        0 <= i < readings.len() ==> {
            let now = readings[i];
            &&& call_ensures(Instant::now, (), now)
            &&& i == 0 ==> exists|search: GraphSearch|
                {
                    &&& search.searches(next)
                    &&& search.processed() == 0
                    &&& #[trigger] call_ensures(look, (&search, first), now)
                }
            &&& i > 0 ==> exists|search: GraphSearch|
                {
                    &&& search.searches(next)
                    &&& search.processed() == 262144 * i
                    &&& #[trigger] call_ensures(look, (&search, Some(readings[i - 1])), now)
                }
            &&& 262144 * i < processed ==> (deadline matches Some(at) ==> !clock::instant_reached(
                now,
                at,
            ))
            &&& 262144 * i >= processed ==> deadline is Some && clock::instant_reached(
                now,
                deadline->Some_0,
            )
        },
{
    if 0 <= i < readings.len() {
        assert(shown_at(next, first, readings, i));
        assert(reached(deadline, readings[i]) <==> i >= checkpoints_before(processed));
    }
}

/// A search that went by the clock has readings that show it.
pub proof fn law_timed_search_has_readings(
    next: Seq<u32>,
    first: Option<Instant>,
    deadline: Option<Instant>,
    processed: nat,
    completed: bool,
) -> (readings: Seq<Instant>)
    requires
        timed(next, first, deadline, processed, completed),
    ensures
        clock_shows(next, first, readings),
        within(deadline, readings, processed, completed),
        262144 * readings.len() >= processed,
        !completed ==> 262144 * (readings.len() - 1) >= processed,
{
    choose|readings: Seq<Instant>| #[trigger]
        clock_shows(next, first, readings) && within(deadline, readings, processed, completed)
}

/// A walk enters its cycle at a node.
proof fn lemma_entry_is_node(next: Seq<u32>, v: u32)
    requires
        is_graph(next),
        v < next.len(),
    ensures
        landing(next, v).0 < next.len(),
{
    law_every_walk_lands(next, v);
    let l = landing(next, v);
    let tail = choose|tail: nat|
        {
            &&& #[trigger] orbit::is_rho(graph_step(next), v, tail, l.1 as nat)
            &&& l.0 == orbit::iterate(graph_step(next), v, tail)
        };
    lemma_walk_stays(next, v, tail);
}

/// A node stands for itself.
fn node_itself(v: u32) -> (w: u32)
    ensures
        w == v,
{
    v
}

/// The shortest cycle of a graph, told by `expired` at each checkpoint whether to stop.
///
/// Returns the best cycle so far, the number of starts processed and whether these are all.
/// `expired` is asked with the number of starts processed. `listener` is told of each
/// improvement, and at each checkpoint at which the search goes on of the number of starts
/// processed and the number of nodes.
pub fn min_cycle_in_graph_while<C, F, G>(
    next: &[u32],
    expired: C,
    listener: &mut Listener<u32, F, G>,
) -> (r: (Option<(u32, u64)>, u64, bool)) where
    C: Fn(u64) -> bool,
    F: FnMut(u32, u64),
    G: FnMut(u64, u64),

    requires
        is_graph(next@),
        can_ask(expired, next@.len()),
        can_be_told(old(listener), told(next@, itself(), next@.len())),
    ensures
        scan_ends(next@, r.0, r.1, r.2),
        !r.2 ==> call_ensures(expired, (r.1,), true),
        has_gone_on(expired, r.1 as nat),
        final(listener).heard() == old(listener).heard() + told(next@, itself(), r.1 as nat),
        listener::new_bests(final(listener).heard()) == listener::new_bests(
            old(listener).heard(),
        ) + improvements(next@, r.1 as nat),
        final(listener).same_ears(old(listener)),
{
    let ask = |search: &GraphSearch, _none: ()| -> (answer: (bool, ()))
        requires
            may_ask(&expired, search.processed() as u64),
        ensures
            has_said(&expired, search.processed() as u64, answer.0),
        { (expired(search.start() as u64), ()) };
    let r = scan(next, ask, (), node_itself, Ghost(itself()), listener);
    proof {
        lemma_answers_by_count(ask, expired, next@, (), r.1, r.2);
        assert(placed(itself(), improvements(next@, r.1 as nat)) =~= improvements(
            next@,
            r.1 as nat,
        ));
    }
    r
}

/// The shortest cycle of a graph, searched until `deadline`, where there is one.
///
/// Returns the best cycle so far, the number of starts processed and whether these are all.
/// `listener` is told of each improvement as soon as it is found, and of each checkpoint at
/// which the search goes on. Which readings the clock gives is not part of the contract;
/// [`min_cycle_in_graph_while`] says what follows from each answer.
pub fn min_cycle_in_graph_progressive<F: FnMut(u32, u64), G: FnMut(u64, u64)>(
    next: &[u32],
    deadline: Option<Instant>,
    listener: &mut Listener<u32, F, G>,
) -> (r: (Option<(u32, u64)>, u64, bool))
    requires
        is_graph(next@),
        can_be_told(old(listener), told(next@, itself(), next@.len())),
    ensures
        scan_ends(next@, r.0, r.1, r.2),
        !r.2 ==> clock::may_expire(deadline),
        r.1 > 0 ==> clock::may_wait(deadline),
        timed(next@, None, deadline, r.1 as nat, r.2),
        final(listener).heard() == old(listener).heard() + told(next@, itself(), r.1 as nat),
        listener::new_bests(final(listener).heard()) == listener::new_bests(
            old(listener).heard(),
        ) + improvements(next@, r.1 as nat),
        final(listener).same_ears(old(listener)),
{
    let ask = |search: &GraphSearch, previous: Option<Instant>| -> (answer: (bool, Option<Instant>))
        ensures
            answer.1 is Some,
            call_ensures(look, (search, previous), answer.1->Some_0),
            clock::was_read(answer.1->Some_0),
            answer.0 == reached(deadline, answer.1->Some_0),
        { look_again(search, previous, deadline) };
    let r = scan(next, ask, None, node_itself, Ghost(itself()), listener);
    proof {
        lemma_answers_by_clock(ask, next@, None, deadline, r.1 as nat, r.2);
        assert(placed(itself(), improvements(next@, r.1 as nat)) =~= improvements(
            next@,
            r.1 as nat,
        ));
    }
    r
}

/// A checkpoint comes every 262144 starts, the first one at the first start.
pub proof fn law_checkpoints_are_regular(count: u64)
    ensures
        is_checkpoint(count) <==> exists|k: int| #[trigger] (262144 * k) == count,
        count + 262144 <= u64::MAX ==> is_checkpoint(count) == is_checkpoint(
            (count + 262144) as u64,
        ),
{
    if is_checkpoint(count) {
        let k = count as int / 262144;
        assert(262144 * k == count);
    }
}

/// Where the walk from a start leads is told by the graph: the walk goes from each node to its
/// successor, and lands at the end of its tail, on a cycle of that length.
pub proof fn law_landing_is_the_end_of_the_tail(
    next: Seq<u32>,
    f: spec_fn(u32) -> u32,
    v: u32,
    tail: nat,
    len: nat,
)
    requires
        forall|x: u32| #[trigger] f(x) == next[x as int],
        is_graph(next),
        v < next.len(),
        orbit::is_rho(f, v, tail, len),
    ensures
        landing(next, v).0 == orbit::iterate(f, v, tail),
        landing(next, v).1 == len,
{
    assert(graph_step(next) =~= f);
    let (tail2, len2) = law_every_walk_lands(next, v);
    orbit::lemma_rho_unique(graph_step(next), v, tail, len, tail2, len2);
    lemma_landing(next, v, tail, len);
}

/// A start adds its landing to the improvements exactly where its cycle is shorter than those
/// of all starts before it.
pub proof fn law_shorter_starts_are_improvements(next: Seq<u32>, v: u32)
    requires
        is_graph(next),
        v < next.len(),
    ensures
        ({
            let shorter = forall|u: u32|
                u < v ==> landing(next, v).1 < (#[trigger] landing(next, u)).1;
            improvements(next, v as nat + 1) == if shorter {
                improvements(next, v as nat).push(landing(next, v))
            } else {
                improvements(next, v as nat)
            }
        }),
        improvements(next, 0) == Seq::<(u32, u64)>::empty(),
{
    let before = improvements(next, v as nat);
    law_last_improvement_is_shortest(next, v as nat);
    if v > 0 {
        let best = best_of(before)->Some_0;
        let s = choose|s: u32| #[trigger] is_first_shortest(next, v as nat, s, best);
        assert(best == before.last());
        assert(best == landing(next, s));
    }
    assert(((v as nat + 1) - 1) as u32 == v);
    assert(((v as nat + 1) - 1) as nat == v as nat);
}

/// What the result of a search says: the best cycle is one of the graph, of exactly that
/// length, no start that was processed leads to a shorter one, and where all were processed no
/// cycle of the graph is shorter. Early it stops at a multiple of 262144 starts only.
pub proof fn law_search_result(
    next: Seq<u32>,
    f: spec_fn(u32) -> u32,
    best: Option<(u32, u64)>,
    processed: u64,
    completed: bool,
)
    requires
        is_graph(next),
        forall|x: u32| #[trigger] f(x) == next[x as int],
        scan_ends(next, best, processed, completed),
    ensures
        processed <= next.len(),
        completed <==> processed == next.len(),
        !completed ==> processed % 262144 == 0,
        best is None <==> processed == 0,
        best matches Some((node, len)) ==> {
            &&& node < next.len()
            &&& orbit::is_cycle_length(f, node, len as nat)
        },
        forall|v: u32, tail: nat, len: nat|
            v < processed && #[trigger] orbit::is_rho(f, v, tail, len)
                ==> best->Some_0.1 <= len,
        completed ==> forall|v: u32, len: nat|
            v < next.len() && #[trigger] orbit::is_cycle_length(f, v, len)
                ==> best->Some_0.1 <= len,
{
    let all = improvements(next, processed as nat);
    assert(graph_step(next) =~= f);
    if let Some(found) = best {
        assert(all.last() == found);
        law_improvements_are_cycles(next, processed as nat, all.len() - 1);
        let s = choose|s: u32| #[trigger] is_first_shortest(next, processed as nat, s, found);
        assert forall|v: u32, tail: nat, len: nat|
            v < processed && #[trigger] orbit::is_rho(f, v, tail, len) implies found.1 <= len by {
            law_landing_is_the_end_of_the_tail(next, f, v, tail, len);
            assert(found.1 <= landing(next, v).1);
        }
    }
    if completed {
        assert forall|v: u32, len: nat|
            v < next.len() && #[trigger] orbit::is_cycle_length(
                f,
                v,
                len,
            ) implies best->Some_0.1 <= len by {
            law_complete_search_is_global(next, v, len);
        }
    }
}

/// The best cycle is the last improvement, which is told last.
pub proof fn law_best_is_told_last(
    next: Seq<u32>,
    best: Option<(u32, u64)>,
    processed: u64,
    completed: bool,
)
    requires
        scan_ends(next, best, processed, completed),
    ensures
        ({
            let reports = listener::new_bests(told(next, itself(), processed as nat));
            &&& best is None <==> reports.len() == 0
            &&& best matches Some(found) ==> reports.last() == found
        }),
{
    let all = improvements(next, processed as nat);
    law_improvements_are_told(next, itself(), processed as nat);
    assert(placed(itself(), all) =~= all);
}

/// A search that was told at each checkpoint whether to go on was told so at every multiple of
/// 262144 starts that it passed.
pub proof fn law_going_on_is_asked_for<C: Fn(u64) -> bool>(expired: C, end: nat, count: u64)
    requires
        has_gone_on(expired, end),
        count < end,
        count % 262144 == 0,
    ensures
        call_ensures(expired, (count,), false),
{
    assert(is_checkpoint(count));
}

/// At each multiple of 262144 starts that a search passes it tells the number of these starts
/// and of all nodes, right before what it finds from there on.
pub proof fn law_checkpoints_are_told<T>(next: Seq<u32>, place: spec_fn(u32) -> T, count: u64)
    requires
        next.len() <= u64::MAX,
    ensures
        ({
            let before = told(next, place, count as nat);
            let after = told(next, place, count as nat + 1);
            let found = improvements(next, count as nat + 1).len() > improvements(
                next,
                count as nat,
            ).len();
            let notice = if count % 262144 == 0 {
                seq![Heard::<T>::Checkpoint(count, next.len() as u64)]
            } else {
                Seq::empty()
            };
            let report = if found {
                let best = improvements(next, count as nat + 1).last();
                seq![Heard::NewBest(place(best.0), best.1)]
            } else {
                Seq::empty()
            };
            after == before + notice + report
        }),
        told(next, place, 0) == Seq::<Heard<T>>::empty(),
{
    let before = told(next, place, count as nat);
    let after = told(next, place, count as nat + 1);
    assert(((count as nat + 1) - 1) as nat == count as nat);
    let notice = if count % 262144 == 0 {
        seq![Heard::<T>::Checkpoint(count, next.len() as u64)]
    } else {
        Seq::empty()
    };
    let report = if improvements(next, count as nat + 1).len() > improvements(
        next,
        count as nat,
    ).len() {
        let best = improvements(next, count as nat + 1).last();
        seq![Heard::NewBest(place(best.0), best.1)]
    } else {
        Seq::empty()
    };
    assert(is_checkpoint(count) <==> count % 262144 == 0);
    assert(after =~= before + notice + report);
}

} // verus!
