//! Campaigns: named groups of events with dependency edges, and the order in
//! which their events can run.

use vstd::prelude::*;

use crate::ids::{fresh_id, is_v4_id};
use crate::kahn::kahn_order;

verus! {

/// A campaign is a sequence of events with dependencies.
///
/// A dependency `(from, to)` says that `from` has to run before `to`.
#[derive(Debug)]
pub struct Campaign {
    pub id: u128,
    pub name: String,
    pub events: Vec<u128>,
    pub dependencies: Vec<(u128, u128)>,
}

/// The mathematical value of a campaign.
pub struct CampaignView {
    pub id: u128,
    pub name: String,
    pub events: Seq<u128>,
    pub dependencies: Seq<(u128, u128)>,
}

impl View for Campaign {
    type V = CampaignView;

    open spec fn view(&self) -> CampaignView {
        CampaignView {
            id: self.id,
            name: self.name,
            events: self.events@,
            dependencies: self.dependencies@,
        }
    }
}

/// The members of `events` that `done` lacks, in the order of `events`.
pub open spec fn missing_from(events: Seq<u128>, done: Seq<u128>) -> Seq<u128>
    decreases events.len(),
{
    if events.len() == 0 {
        Seq::empty()
    } else {
        let rest = missing_from(events.drop_last(), done);
        if done.contains(events.last()) {
            rest
        } else {
            rest.push(events.last())
        }
    }
}

impl CampaignView {
    /// A node of the dependency graph: an event of the campaign, or the
    /// target of one of its dependencies.
    pub open spec fn is_node(self, x: u128) -> bool {
        self.events.contains(x) || exists|j: int|
            0 <= j < self.dependencies.len() && #[trigger] self.dependencies[j].1 == x
    }

    /// Every dependency starts at an event of the campaign.
    pub open spec fn sources_known(self) -> bool {
        forall|j: int|
            0 <= j < self.dependencies.len() ==> self.events.contains(
                #[trigger] self.dependencies[j].0,
            )
    }

    /// The shape that the engine keeps: no event twice, and both ends of
    /// every dependency among the events.
    pub open spec fn is_proper(self) -> bool {
        &&& self.events.no_duplicates()
        &&& forall|j: int|
            0 <= j < self.dependencies.len() ==> self.events.contains(
                #[trigger] self.dependencies[j].0,
            ) && self.events.contains(self.dependencies[j].1)
    }

    /// Whenever the target of a dependency stands in `seq`, its source
    /// stands strictly before it.
    pub open spec fn precedes_closed(self, seq: Seq<u128>) -> bool {
        forall|j: int, p: int|
            0 <= j < self.dependencies.len() && 0 <= p < seq.len() && #[trigger] seq[p]
                == #[trigger] self.dependencies[j].1 ==> seq.take(p).contains(
                self.dependencies[j].0,
            )
    }

    /// `done` is what a topological sort can emit: distinct nodes, each after
    /// its dependencies; and every node it leaves out waits on another node
    /// that it leaves out (so each of them lies on, or behind, a cycle).
    pub open spec fn settled_by(self, done: Seq<u128>) -> bool {
        &&& done.no_duplicates()
        &&& forall|p: int| 0 <= p < done.len() ==> self.is_node(#[trigger] done[p])
        &&& self.precedes_closed(done)
        &&& forall|x: u128|
            #[trigger] self.is_node(x) && !done.contains(x) ==> exists|j: int|
                0 <= j < self.dependencies.len() && self.dependencies[j].1 == x
                    && !done.contains(#[trigger] self.dependencies[j].0)
    }

    /// `order` runs every event of the campaign once, each after all the
    /// events it depends on.
    pub open spec fn is_topological_order(self, order: Seq<u128>) -> bool {
        &&& order.no_duplicates()
        &&& forall|x: u128| order.contains(x) <==> self.events.contains(x)
        &&& self.precedes_closed(order)
    }

    /// The dependencies have no cycle: some topological order exists.
    pub open spec fn has_topological_order(self) -> bool {
        exists|order: Seq<u128>| self.is_topological_order(order)
    }
}

proof fn lemma_missing_from_contains(events: Seq<u128>, done: Seq<u128>, x: u128)
    ensures
        missing_from(events, done).contains(x) <==> (events.contains(x) && !done.contains(x)),
    decreases events.len(),
{
    if events.len() > 0 {
        let init = events.drop_last();
        let last = events.last();
        lemma_missing_from_contains(init, done, x);
        let r = missing_from(init, done);
        assert(events =~= init.push(last));
        if events.contains(x) {
            let i = choose|i: int| 0 <= i < events.len() && events[i] == x;
            if i < init.len() {
                assert(init[i] == x);
                assert(init.contains(x));
            }
        }
        if init.contains(x) {
            let i = choose|i: int| 0 <= i < init.len() && init[i] == x;
            assert(events[i] == x);
        }
        if !done.contains(last) {
            assert(missing_from(events, done) == r.push(last));
            if r.contains(x) {
                let i = choose|i: int| 0 <= i < r.len() && r[i] == x;
                assert(r.push(last)[i] == x);
            }
            if r.push(last).contains(x) {
                let i = choose|i: int| 0 <= i < r.len() + 1 && r.push(last)[i] == x;
                if i < r.len() {
                    assert(r[i] == x);
                }
            }
            assert(r.push(last)[r.len() as int] == last);
        } else {
            assert(missing_from(events, done) == r);
        }
    }
}

/// A duplicate-free sequence whose members all occur in `t` is no longer
/// than `t`.
pub proof fn lemma_distinct_within(s: Seq<u128>, t: Seq<u128>)
    requires
        s.no_duplicates(),
        forall|i: int| 0 <= i < s.len() ==> t.contains(#[trigger] s[i]),
    ensures
        s.len() <= t.len(),
    decreases t.len(),
{
    if t.len() == 0 {
        if s.len() > 0 {
            assert(t.contains(s[0]));
        }
    } else {
        let y = t.last();
        let t2 = t.drop_last();
        if s.contains(y) {
            let i = choose|i: int| 0 <= i < s.len() && s[i] == y;
            let s2 = s.remove(i);
            assert forall|a: int| 0 <= a < s2.len() implies t2.contains(#[trigger] s2[a]) by {
                let sa = if a < i { a } else { a + 1 };
                assert(s2[a] == s[sa]);
                assert(s[sa] != s[i]);
                assert(t.contains(s[sa]));
                let k = choose|k: int| 0 <= k < t.len() && t[k] == s[sa];
                assert(k != t.len() - 1);
                assert(t2[k] == s[sa]);
            }
            assert forall|a: int, b: int|
                0 <= a < s2.len() && 0 <= b < s2.len() && a != b implies s2[a] != s2[b] by {
                let sa = if a < i { a } else { a + 1 };
                let sb = if b < i { b } else { b + 1 };
                assert(s2[a] == s[sa] && s2[b] == s[sb]);
            }
            lemma_distinct_within(s2, t2);
        } else {
            assert forall|a: int| 0 <= a < s.len() implies t2.contains(#[trigger] s[a]) by {
                assert(t.contains(s[a]));
                let k = choose|k: int| 0 <= k < t.len() && t[k] == s[a];
                if k == t.len() - 1 {
                    assert(s.contains(y));
                }
                assert(t2[k] == s[a]);
            }
            lemma_distinct_within(s, t2);
        }
    }
}

/// Walking back along dependencies from an event left out by `done` meets
/// another left-out event earlier in `order`; so no topological order can
/// place the left-out events at all.
proof fn lemma_no_order_past_stuck(c: CampaignView, done: Seq<u128>, order: Seq<u128>, x: u128, p: int)
    requires
        c.is_proper(),
        c.settled_by(done),
        c.events.contains(x),
        !done.contains(x),
        0 <= p < order.len(),
        order[p] == x,
    ensures
        !c.is_topological_order(order),
    decreases p,
{
    if c.is_topological_order(order) {
        assert(c.is_node(x));
        let j = choose|j: int|
            0 <= j < c.dependencies.len() && c.dependencies[j].1 == x && !done.contains(
                #[trigger] c.dependencies[j].0,
            );
        let y = c.dependencies[j].0;
        assert(order.take(p).contains(y));
        let q = choose|q: int| 0 <= q < p && order.take(p)[q] == y;
        assert(order[q] == y);
        assert(c.events.contains(y));
        lemma_no_order_past_stuck(c, done, order, y, q);
    }
}

/// For a proper campaign, a complete settled sequence is a topological order,
/// and an incomplete one leaves some event out and rules every order out.
pub proof fn lemma_settled_outcome(c: CampaignView, done: Seq<u128>)
    requires
        c.is_proper(),
        c.settled_by(done),
    ensures
        done.len() <= c.events.len(),
        done.len() == c.events.len() ==> c.is_topological_order(done),
        done.len() != c.events.len() ==> !c.has_topological_order(),
        done.len() != c.events.len() ==> missing_from(c.events, done).len() > 0,
{
    assert forall|i: int| 0 <= i < done.len() implies c.events.contains(#[trigger] done[i]) by {
        assert(c.is_node(done[i]));
        if !c.events.contains(done[i]) {
            let j = choose|j: int|
                0 <= j < c.dependencies.len() && #[trigger] c.dependencies[j].1 == done[i];
        }
    }
    lemma_distinct_within(done, c.events);
    if done.len() == c.events.len() {
        assert forall|x: u128| done.contains(x) <==> c.events.contains(x) by {
            if c.events.contains(x) && !done.contains(x) {
                let k = choose|k: int| 0 <= k < c.events.len() && c.events[k] == x;
                let rest = c.events.remove(k);
                assert forall|i: int| 0 <= i < done.len() implies rest.contains(
                    #[trigger] done[i],
                ) by {
                    assert(c.events.contains(done[i]));
                    let a = choose|a: int| 0 <= a < c.events.len() && c.events[a] == done[i];
                    assert(a != k);
                    if a < k {
                        assert(rest[a] == done[i]);
                    } else {
                        assert(rest[a - 1] == done[i]);
                    }
                }
                lemma_distinct_within(done, rest);
            }
            if done.contains(x) {
                let i = choose|i: int| 0 <= i < done.len() && done[i] == x;
                assert(c.events.contains(done[i]));
            }
        }
    } else {
        // some event is left out
        let e = choose|e: u128| c.events.contains(e) && !done.contains(e);
        if !(c.events.contains(e) && !done.contains(e)) {
            assert forall|i: int| 0 <= i < c.events.len() implies done.contains(
                #[trigger] c.events[i],
            ) by {
                if !done.contains(c.events[i]) {
                    assert(c.events.contains(c.events[i]));
                }
            }
            lemma_distinct_within(c.events, done);
            assert(false);
        }
        lemma_missing_from_contains(c.events, done, e);
        if c.has_topological_order() {
            let order = choose|order: Seq<u128>| c.is_topological_order(order);
            assert(order.contains(e));
            let p = choose|p: int| 0 <= p < order.len() && order[p] == e;
            lemma_no_order_past_stuck(c, done, order, e, p);
        }
    }
}

/// Whether `v` holds `x`.
pub fn contains_id(v: &Vec<u128>, x: u128) -> (r: bool)
    ensures
        r == v@.contains(x),
{
    let mut i: usize = 0;
    while i < v.len()
        invariant
            i <= v.len(),
            forall|k: int| 0 <= k < i ==> v@[k] != x,
        decreases v.len() - i,
    {
        if v[i] == x {
            return true;
        }
        i = i + 1;
    }
    false
}

/// The position of `x` in `v`, which holds it.
fn position_of(v: &Vec<u128>, x: u128) -> (r: usize)
    requires
        v@.contains(x),
    ensures
        r < v.len(),
        v@[r as int] == x,
{
    let mut i: usize = 0;
    while i < v.len()
        invariant
            i <= v.len(),
            v@.contains(x),
            forall|k: int| 0 <= k < i ==> v@[k] != x,
        decreases v.len() - i,
    {
        if v[i] == x {
            return i;
        }
        i = i + 1;
    }
    proof {
        let k = choose|k: int| 0 <= k < v.len() && v@[k] == x;
    }
    0
}

/// Whether `v` holds the dependency `e`.
pub fn contains_dependency(v: &Vec<(u128, u128)>, e: (u128, u128)) -> (r: bool)
    ensures
        r == v@.contains(e),
{
    let mut i: usize = 0;
    while i < v.len()
        invariant
            i <= v.len(),
            forall|k: int| 0 <= k < i ==> v@[k] != e,
        decreases v.len() - i,
    {
        let (a, b) = v[i];
        if a == e.0 && b == e.1 {
            return true;
        }
        i = i + 1;
    }
    false
}

/// An exact copy of a list of identifiers.
pub fn copy_ids(v: &Vec<u128>) -> (r: Vec<u128>)
    ensures
        r@ == v@,
{
    let mut r: Vec<u128> = Vec::new();
    let mut i: usize = 0;
    while i < v.len()
        invariant
            i <= v.len(),
            r@ == v@.take(i as int),
        decreases v.len() - i,
    {
        r.push(v[i]);
        i = i + 1;
        proof {
            assert(r@ =~= v@.take(i as int));
        }
    }
    proof {
        assert(v@.take(v.len() as int) =~= v@);
    }
    r
}

/// An exact copy of a list of dependencies.
fn copy_dependencies(v: &Vec<(u128, u128)>) -> (r: Vec<(u128, u128)>)
    ensures
        r@ == v@,
{
    let mut r: Vec<(u128, u128)> = Vec::new();
    let mut i: usize = 0;
    while i < v.len()
        invariant
            i <= v.len(),
            r@ == v@.take(i as int),
        decreases v.len() - i,
    {
        r.push(v[i]);
        i = i + 1;
        proof {
            assert(r@ =~= v@.take(i as int));
        }
    }
    proof {
        assert(v@.take(v.len() as int) =~= v@);
    }
    r
}

impl Clone for Campaign {
    fn clone(&self) -> (r: Self)
        ensures
            r@ == self@,
    {
        Campaign {
            id: self.id,
            name: self.name.clone(),
            events: copy_ids(&self.events),
            dependencies: copy_dependencies(&self.dependencies),
        }
    }
}

impl Campaign {
    /// A new campaign under a fresh random identifier, with no events.
    pub fn new(name: String) -> (c: Campaign)
        ensures
            is_v4_id(c.id),
            c.name == name,
            c.events@ == Seq::<u128>::empty(),
            c.dependencies@ == Seq::<(u128, u128)>::empty(),
    {
        Campaign::with_id(fresh_id(), name)
    }

    /// A new campaign under the identifier `id`, with no events.
    pub fn with_id(id: u128, name: String) -> (c: Campaign)
        ensures
            c.id == id,
            c.name == name,
            c.events@ == Seq::<u128>::empty(),
            c.dependencies@ == Seq::<(u128, u128)>::empty(),
    {
        Campaign { id, name, events: Vec::new(), dependencies: Vec::new() }
    }

    /// Topological sort of the events by their dependencies (Kahn's
    /// algorithm).
    ///
    /// `Ok` holds every event once, each after the events it depends on.
    /// `Err` holds the events that cannot be placed because they lie on, or
    /// behind, a dependency cycle.
    pub fn execution_order(&self) -> (r: Result<Vec<u128>, Vec<u128>>)
        requires
            self@.sources_known(),
        ensures
            exists|done: Seq<u128>|
                #[trigger] self@.settled_by(done) && match r {
                    Ok(order) => done.len() == self.events.len() && order@ == done,
                    Err(rest) => done.len() != self.events.len() && rest@ == missing_from(
                        self.events@,
                        done,
                    ),
                },
            self@.is_proper() ==> (r is Ok <==> self@.has_topological_order()),
            self@.is_proper() ==> (r matches Ok(order) ==> self@.is_topological_order(order@)),
            self@.is_proper() ==> (r matches Err(rest) ==> rest.len() > 0),
    {
        let nodes = graph_nodes(self);
        let (src, dst) = edge_positions(self, &nodes);
        let order = kahn_order(nodes.len(), &src, &dst);
        let done = ids_at(&nodes, &order);
        proof {
            lemma_settled_from_positions(self@, nodes@, src@, dst@, order@, done@);
            if self@.is_proper() {
                lemma_settled_outcome(self@, done@);
            }
        }
        if done.len() == self.events.len() {
            Ok(done)
        } else {
            Err(missing(&self.events, &done))
        }
    }
}

/// The nodes of the dependency graph: the events, then the dependency
/// targets that are not events, each once.
fn graph_nodes(c: &Campaign) -> (nodes: Vec<u128>)
    ensures
        nodes@.no_duplicates(),
        forall|x: u128| nodes@.contains(x) <==> c@.is_node(x),
{
    let ghost cv = c@;
        // The nodes: the events, then the targets that are not events.
        let mut nodes: Vec<u128> = Vec::new();
        let mut i: usize = 0;
        while i < c.events.len()
            invariant
                i <= c.events.len(),
                nodes@.no_duplicates(),
                forall|x: u128| nodes@.contains(x) <==> c.events@.take(i as int).contains(x),
            decreases c.events.len() - i,
        {
            let x = c.events[i];
            let ghost before = nodes@;
            if !contains_id(&nodes, x) {
                nodes.push(x);
                proof {
                    assert forall|a: int, b: int|
                        0 <= a < nodes.len() && 0 <= b < nodes.len() && a != b implies nodes@[a]
                        != nodes@[b] by {
                        if a < before.len() && b < before.len() {
                            assert(before[a] != before[b]);
                        } else if a < before.len() {
                            assert(before.contains(nodes@[a]));
                        } else {
                            assert(before.contains(nodes@[b]));
                        }
                    }
                }
            }
            proof {
                assert forall|y: u128| nodes@.contains(y) <==> c.events@.take(i + 1).contains(y) by {
                    assert(c.events@.take(i + 1) =~= c.events@.take(i as int).push(x));
                    if nodes@.contains(y) && y != x {
                        let k = choose|k: int| 0 <= k < nodes.len() && nodes@[k] == y;
                        if k < before.len() {
                            assert(before[k] == y);
                        }
                    }
                    if before.contains(y) {
                        let k = choose|k: int| 0 <= k < before.len() && before[k] == y;
                        assert(nodes@[k] == y);
                    }
                    if c.events@.take(i as int).push(x).contains(y) && y != x {
                        let k = choose|k: int|
                            0 <= k < i + 1 && c.events@.take(i as int).push(x)[k] == y;
                        assert(c.events@.take(i as int)[k] == y);
                    }
                    if c.events@.take(i as int).contains(y) {
                        let k = choose|k: int| 0 <= k < i && c.events@.take(i as int)[k] == y;
                        assert(c.events@.take(i as int).push(x)[k] == y);
                    }
                    if y == x {
                        assert(c.events@.take(i as int).push(x)[i as int] == x);
                        if !before.contains(x) {
                            assert(nodes@[before.len() as int] == x);
                        }
                    }
                }
            }
            i = i + 1;
        }
        proof {
            assert(c.events@.take(c.events.len() as int) =~= c.events@);
        }
        let mut j: usize = 0;
        while j < c.dependencies.len()
            invariant
                j <= c.dependencies.len(),
                nodes@.no_duplicates(),
                forall|x: u128|
                    nodes@.contains(x) <==> (c.events@.contains(x) || exists|k: int|
                        0 <= k < j && #[trigger] c.dependencies@[k].1 == x),
            decreases c.dependencies.len() - j,
        {
            let x = c.dependencies[j].1;
            let ghost before = nodes@;
            if !contains_id(&nodes, x) {
                nodes.push(x);
                proof {
                    assert forall|a: int, b: int|
                        0 <= a < nodes.len() && 0 <= b < nodes.len() && a != b implies nodes@[a]
                        != nodes@[b] by {
                        if a < before.len() && b < before.len() {
                            assert(before[a] != before[b]);
                        } else if a < before.len() {
                            assert(before.contains(nodes@[a]));
                        } else {
                            assert(before.contains(nodes@[b]));
                        }
                    }
                }
            }
            proof {
                assert forall|y: u128|
                    nodes@.contains(y) <==> (c.events@.contains(y) || exists|k: int|
                        0 <= k < j + 1 && #[trigger] c.dependencies@[k].1 == y) by {
                    if nodes@.contains(y) && y != x {
                        let k = choose|k: int| 0 <= k < nodes.len() && nodes@[k] == y;
                        if k < before.len() {
                            assert(before[k] == y);
                        }
                    }
                    if before.contains(y) {
                        let k = choose|k: int| 0 <= k < before.len() && before[k] == y;
                        assert(nodes@[k] == y);
                    }
                    if y == x {
                        assert(c.dependencies@[j as int].1 == y);
                        if !before.contains(x) {
                            assert(nodes@[before.len() as int] == x);
                        }
                    }
                }
            }
            j = j + 1;
        }
        assert forall|x: u128| nodes@.contains(x) <==> cv.is_node(x) by {
            if nodes@.contains(x) && !cv.events.contains(x) {
                let k = choose|k: int| 0 <= k < c.dependencies.len() && #[trigger] c.dependencies@[k].1 == x;
                assert(cv.dependencies[k].1 == x);
            }
            if cv.is_node(x) && !cv.events.contains(x) {
                let k = choose|k: int| 0 <= k < cv.dependencies.len() && #[trigger] cv.dependencies[k].1 == x;
                assert(c.dependencies@[k].1 == x);
            }
        }
        nodes
}

/// Each dependency as the positions of its two ends in `nodes`.
fn edge_positions(c: &Campaign, nodes: &Vec<u128>) -> (r: (Vec<usize>, Vec<usize>))
    requires
        c@.sources_known(),
        nodes@.no_duplicates(),
        forall|x: u128| nodes@.contains(x) <==> c@.is_node(x),
    ensures
        r.0.len() == c.dependencies.len(),
        r.1.len() == c.dependencies.len(),
        forall|k: int|
            0 <= k < c.dependencies.len() ==> r.0[k] < nodes.len() && r.1[k] < nodes.len()
                && nodes@[r.0[k] as int] == c.dependencies@[k].0 && nodes@[r.1[k] as int]
                == c.dependencies@[k].1,
{
    let ghost cv = c@;
    let n = nodes.len();
        // Each dependency as a pair of node positions.
        let mut src: Vec<usize> = Vec::new();
        let mut dst: Vec<usize> = Vec::new();
        let mut j: usize = 0;
        while j < c.dependencies.len()
            invariant
                j <= c.dependencies.len(),
                n == nodes.len(),
                nodes@.no_duplicates(),
                cv == c@,
                cv.sources_known(),
                forall|x: u128| nodes@.contains(x) <==> cv.is_node(x),
                src.len() == j,
                dst.len() == j,
                forall|k: int|
                    0 <= k < j ==> src[k] < n && dst[k] < n && nodes@[src[k] as int]
                        == c.dependencies@[k].0 && nodes@[dst[k] as int] == c.dependencies@[k].1,
            decreases c.dependencies.len() - j,
        {
            let (a, b) = c.dependencies[j];
            proof {
                assert(cv.events.contains(cv.dependencies[j as int].0));
                assert(cv.is_node(a));
                assert(cv.is_node(b));
            }
            let pa = position_of(&nodes, a);
            let pb = position_of(&nodes, b);
            src.push(pa);
            dst.push(pb);
            j = j + 1;
        }
        (src, dst)
}

/// The identifiers at the given node positions.
fn ids_at(nodes: &Vec<u128>, order: &Vec<usize>) -> (done: Vec<u128>)
    requires
        forall|q: int| 0 <= q < order.len() ==> order[q] < nodes.len(),
    ensures
        done.len() == order.len(),
        forall|q: int| 0 <= q < order.len() ==> done@[q] == nodes@[order[q] as int],
{
    let n = nodes.len();
    let mut done: Vec<u128> = Vec::new();
    let mut p: usize = 0;
    while p < order.len()
        invariant
            p <= order.len(),
            n == nodes.len(),
            forall|q: int| 0 <= q < order.len() ==> order[q] < n,
            done.len() == p,
            forall|q: int| 0 <= q < p ==> done@[q] == nodes@[order[q] as int],
        decreases order.len() - p,
    {
        done.push(nodes[order[p]]);
        p = p + 1;
    }
    done
}

/// The events that `done` lacks, in order.
fn missing(events: &Vec<u128>, done: &Vec<u128>) -> (rest: Vec<u128>)
    ensures
        rest@ == missing_from(events@, done@),
{
    let mut rest: Vec<u128> = Vec::new();
    let mut i: usize = 0;
    while i < events.len()
        invariant
            i <= events.len(),
            rest@ == missing_from(events@.take(i as int), done@),
        decreases events.len() - i,
    {
        proof {
            assert(events@.take(i + 1).drop_last() =~= events@.take(i as int));
        }
        let x = events[i];
        if !contains_id(done, x) {
            rest.push(x);
        }
        i = i + 1;
    }
    proof {
        assert(events@.take(events.len() as int) =~= events@);
    }
    rest
}

/// What Kahn's algorithm gives on node positions carries over to the
/// identifiers at those positions.
proof fn lemma_settled_from_positions(
    cv: CampaignView,
    nodes: Seq<u128>,
    src: Seq<usize>,
    dst: Seq<usize>,
    order: Seq<usize>,
    done: Seq<u128>,
)
    requires
        nodes.len() <= usize::MAX,
        nodes.no_duplicates(),
        forall|x: u128| nodes.contains(x) <==> cv.is_node(x),
        src.len() == cv.dependencies.len(),
        dst.len() == cv.dependencies.len(),
        forall|k: int|
            0 <= k < cv.dependencies.len() ==> src[k] < nodes.len() && dst[k] < nodes.len()
                && nodes[src[k] as int] == cv.dependencies[k].0 && nodes[dst[k] as int]
                == cv.dependencies[k].1,
        order.no_duplicates(),
        forall|p: int| 0 <= p < order.len() ==> order[p] < nodes.len(),
        forall|j: int, p: int|
            0 <= j < dst.len() && 0 <= p < order.len() && #[trigger] order[p] == #[trigger] dst[j]
                ==> order.take(p).contains(src[j]),
        forall|v: usize|
            v < nodes.len() && !(#[trigger] order.contains(v)) ==> exists|j: int|
                0 <= j < dst.len() && dst[j] == v && !order.contains(#[trigger] src[j]),
        done.len() == order.len(),
        forall|q: int| 0 <= q < order.len() ==> done[q] == nodes[order[q] as int],
    ensures
        cv.settled_by(done),
{
    let n = nodes.len();
            // nodes are distinct, so positions and identifiers correspond
            assert forall|a: int, b: int|
                0 <= a < done.len() && 0 <= b < done.len() && a != b implies done[a]
                != done[b] by {
                assert(order[a] != order[b]);
                assert(nodes[order[a] as int] != nodes[order[b] as int]);
            }
            assert forall|q: int| 0 <= q < done.len() implies cv.is_node(#[trigger] done[q]) by {
                assert(nodes.contains(done[q]));
            }
            assert forall|jj: int, q: int|
                0 <= jj < cv.dependencies.len() && 0 <= q < done.len() && #[trigger] done[q]
                    == #[trigger] cv.dependencies[jj].1 implies done.take(q).contains(
                cv.dependencies[jj].0,
            ) by {
                assert(nodes[dst[jj] as int] == nodes[order[q] as int]);
                assert(dst[jj] == order[q]);
                assert(order.take(q).contains(src[jj]));
                let r = choose|r: int| 0 <= r < q && order.take(q)[r] == src[jj];
                assert(done.take(q)[r] == cv.dependencies[jj].0);
            }
            assert forall|x: u128| #[trigger] cv.is_node(x) && !done.contains(x) implies exists|
                jj: int,
            |
                0 <= jj < cv.dependencies.len() && cv.dependencies[jj].1 == x && !done.contains(
                    #[trigger] cv.dependencies[jj].0,
                ) by {
                assert(nodes.contains(x));
                let v = choose|v: int| 0 <= v < n && nodes[v] == x;
                let vu = v as usize;
                assert(vu as int == v);
                if order.contains(vu) {
                    let q = choose|q: int| 0 <= q < order.len() && order[q] == vu;
                    assert(done[q] == x);
                }
                assert(!order.contains(vu));
                let jj = choose|jj: int|
                    0 <= jj < dst.len() && dst[jj] == vu && !order.contains(#[trigger] src[jj]);
                if done.contains(cv.dependencies[jj].0) {
                    let q = choose|q: int| 0 <= q < done.len() && done[q] == cv.dependencies[jj].0;
                    assert(nodes[order[q] as int] == nodes[src[jj] as int]);
                    assert(order[q] == src[jj]);
                    assert(order.contains(src[jj]));
                }
                assert(cv.dependencies[jj].1 == x);
            }
}

} // verus!
