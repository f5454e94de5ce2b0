//! The engine: the store of events and campaigns, and every operation on it.

use vstd::prelude::*;

use crate::campaign::{contains_dependency, contains_id, Campaign, CampaignView};
use crate::ids::{fresh_id, is_v4_id};
use crate::input::{canonical_json, json_text};
use crate::store::{
    has_key, key_index, lemma_key_index, lemma_remove_unique, lemma_upsert, lookup, remove_key,
    unique_keys, upsert,
};
use crate::text::{not_in_campaign_message, not_in_campaign_text};
use crate::types::{
    confirmed_in, lemma_confirmed_update, is_first_match, any_deferred_in, law_marking_missed_keeps_confirmations, lemma_first_match_exists, first_match, has_agent, lemma_first_match_unique, max_deferral_in,
    pending_if_deferred, law_quorum_is_enough_confirmations, AgentId, Attendee, EventKind, EventView, ResponseStatus, TMinusError,
    TMinusEvent, TickResult,
};

verus! {

/// Events are stored under their identifier.
pub open spec fn event_key() -> spec_fn(EventView) -> u128 {
    |e: EventView| e.id
}

/// Campaigns are stored under their identifier.
pub open spec fn campaign_key() -> spec_fn(CampaignView) -> u128 {
    |c: CampaignView| c.id
}

pub open spec fn event_views(v: Seq<TMinusEvent>) -> Seq<EventView> {
    v.map_values(|e: TMinusEvent| e@)
}

pub open spec fn campaign_views(v: Seq<Campaign>) -> Seq<CampaignView> {
    v.map_values(|c: Campaign| c@)
}

/// The mathematical value of the engine: its events and its campaigns, each
/// in the order of their last write.
pub struct EngineView {
    pub events: Seq<EventView>,
    pub campaigns: Seq<CampaignView>,
}

impl EngineView {
    /// Identifiers are distinct, and every campaign holds each event once,
    /// links only its own events, and has no dependency cycle.
    pub open spec fn wf(self) -> bool {
        &&& unique_keys(self.events, event_key())
        &&& unique_keys(self.campaigns, campaign_key())
        &&& forall|i: int|
            0 <= i < self.campaigns.len() ==> (#[trigger] self.campaigns[i]).is_proper()
                && self.campaigns[i].has_topological_order()
    }
}

/// A freshly scheduled event: every attendee pending.
pub open spec fn scheduled_event(
    id: u128,
    kind: EventKind,
    scheduled_at: i128,
    t_minus: i128,
    organizer: AgentId,
    attendees: Seq<AgentId>,
    quorum: usize,
    payload: String,
) -> EventView {
    EventView {
        id,
        kind,
        scheduled_at,
        t_minus,
        organizer,
        attendees: attendees.map_values(|a: AgentId| (a, ResponseStatus::Pending)),
        quorum,
        payload,
    }
}

/// The event after the first attendee named `agent` answers `status`.
pub open spec fn responded(e: EventView, agent: Seq<char>, status: ResponseStatus) -> EventView {
    e.with_response(first_match(e.attendees, agent), status)
}

/// The campaign after `event` joins it (a campaign holds each event once).
pub open spec fn with_event(c: CampaignView, event: u128) -> CampaignView {
    if c.events.contains(event) {
        c
    } else {
        CampaignView { events: c.events.push(event), ..c }
    }
}

/// The campaign after the dependency `from -> to` is added (a campaign holds
/// each dependency once).
pub open spec fn with_dependency(c: CampaignView, from: u128, to: u128) -> CampaignView {
    if c.dependencies.contains((from, to)) {
        c
    } else {
        CampaignView { dependencies: c.dependencies.push((from, to)), ..c }
    }
}

/// What a tick does to a sequence of events, one event at a time: events not
/// due are kept; due events with quorum fire and leave; due events without
/// quorum stay, and unless someone deferred, their pending attendees are
/// marked missed and the event is reported missed.
pub struct TickOutcome {
    pub kept: Seq<EventView>,
    pub touched: Seq<EventView>,
    pub fired: Seq<u128>,
    pub missed: Seq<u128>,
}

pub open spec fn tick_outcome(s: Seq<EventView>, now: int) -> TickOutcome
    decreases s.len(),
{
    if s.len() == 0 {
        TickOutcome {
            kept: Seq::empty(),
            touched: Seq::empty(),
            fired: Seq::empty(),
            missed: Seq::empty(),
        }
    } else {
        let r = tick_outcome(s.drop_last(), now);
        let e = s.last();
        if now < e.fire_time() {
            TickOutcome { kept: r.kept.push(e), ..r }
        } else if e.has_quorum() {
            TickOutcome { fired: r.fired.push(e.id), ..r }
        } else if any_deferred_in(e.attendees) {
            TickOutcome { touched: r.touched.push(e), ..r }
        } else {
            TickOutcome { touched: r.touched.push(e.marked_missed()), missed: r.missed.push(e.id), ..r }
        }
    }
}

/// The events left after a tick: those not due, then the due ones that did
/// not fire, each in its earlier order.
pub open spec fn after_tick(s: Seq<EventView>, now: int) -> Seq<EventView> {
    tick_outcome(s, now).kept + tick_outcome(s, now).touched
}

/// The main engine driving T-minus coordination.
///
/// It holds the events and campaigns in memory; keeping them on disk is
/// left to the caller.
pub struct Engine {
    events: Vec<TMinusEvent>,
    campaigns: Vec<Campaign>,
}

impl View for Engine {
    type V = EngineView;

    closed spec fn view(&self) -> EngineView {
        EngineView { events: event_views(self.events@), campaigns: campaign_views(self.campaigns@) }
    }
}

proof fn lemma_no_dependencies_ordered(c: CampaignView)
    requires
        c.events.no_duplicates(),
        c.dependencies.len() == 0,
    ensures
        c.is_proper(),
        c.has_topological_order(),
{
    assert(c.is_topological_order(c.events));
}

proof fn lemma_with_event_ordered(c: CampaignView, event: u128)
    requires
        c.is_proper(),
        c.has_topological_order(),
    ensures
        with_event(c, event).is_proper(),
        with_event(c, event).has_topological_order(),
{
    if !c.events.contains(event) {
        let d = with_event(c, event);
        let o = choose|o: Seq<u128>| c.is_topological_order(o);
        let o2 = o.push(event);
        assert forall|j: int| 0 <= j < d.dependencies.len() implies d.events.contains(
            #[trigger] d.dependencies[j].0,
        ) && d.events.contains(d.dependencies[j].1) by {
            assert(c.events.contains(c.dependencies[j].0));
            assert(c.events.contains(c.dependencies[j].1));
            let a = choose|a: int| 0 <= a < c.events.len() && c.events[a] == c.dependencies[j].0;
            let b = choose|b: int| 0 <= b < c.events.len() && c.events[b] == c.dependencies[j].1;
            assert(d.events[a] == c.dependencies[j].0);
            assert(d.events[b] == c.dependencies[j].1);
        }
        assert forall|a: int, b: int|
            0 <= a < d.events.len() && 0 <= b < d.events.len() && a != b implies d.events[a]
            != d.events[b] by {
            if a < c.events.len() && b < c.events.len() {
            } else if a < c.events.len() {
                assert(c.events.contains(d.events[a]));
            } else {
                assert(c.events.contains(d.events[b]));
            }
        }
        assert(!o.contains(event));
        assert forall|a: int, b: int|
            0 <= a < o2.len() && 0 <= b < o2.len() && a != b implies o2[a] != o2[b] by {
            if a < o.len() && b < o.len() {
            } else if a < o.len() {
                assert(o.contains(o2[a]));
            } else {
                assert(o.contains(o2[b]));
            }
        }
        assert forall|x: u128| o2.contains(x) <==> d.events.contains(x) by {
            if o2.contains(x) && x != event {
                let p = choose|p: int| 0 <= p < o2.len() && o2[p] == x;
                assert(o[p] == x);
                assert(o.contains(x));
                assert(c.events.contains(x));
                let q = choose|q: int| 0 <= q < c.events.len() && c.events[q] == x;
                assert(d.events[q] == x);
            }
            if d.events.contains(x) && x != event {
                let p = choose|p: int| 0 <= p < d.events.len() && d.events[p] == x;
                assert(c.events[p] == x);
                assert(o.contains(x));
                let q = choose|q: int| 0 <= q < o.len() && o[q] == x;
                assert(o2[q] == x);
            }
            if x == event {
                assert(o2[o.len() as int] == event);
                assert(d.events[c.events.len() as int] == event);
            }
        }
        assert forall|j: int, p: int|
            0 <= j < d.dependencies.len() && 0 <= p < o2.len() && #[trigger] o2[p]
                == #[trigger] d.dependencies[j].1 implies o2.take(p).contains(
            d.dependencies[j].0,
        ) by {
            if p == o.len() {
                assert(c.events.contains(c.dependencies[j].0));
                assert(c.events.contains(c.dependencies[j].1));
            } else {
                assert(o[p] == c.dependencies[j].1);
                assert(o.take(p).contains(c.dependencies[j].0));
                assert(o2.take(p) =~= o.take(p));
            }
        }
        assert(d.is_topological_order(o2));
    }
}


/// Confirming (or giving any answer) twice for the same agent is the same as
/// doing it once.
pub proof fn law_response_idempotent(e: EventView, agent: Seq<char>, status: ResponseStatus)
    requires
        has_agent(e.attendees, agent),
    ensures
        responded(responded(e, agent, status), agent, status) == responded(e, agent, status),
        responded(e, agent, status).attendees[first_match(e.attendees, agent)].1 == status,
{
    lemma_first_match_exists(e.attendees, agent);
    let i = first_match(e.attendees, agent);
    let e1 = responded(e, agent, status);
    assert forall|j: int| 0 <= j < i implies (#[trigger] e1.attendees[j]).0@ != agent by {
        assert(e1.attendees[j] == e.attendees[j]);
    }
    assert(is_first_match(e1.attendees, agent, i));
    lemma_first_match_unique(e1.attendees, agent, i);
    assert(e1.attendees.update(i, (e1.attendees[i].0, status)) =~= e1.attendees);
}


/// Confirming adds one confirmation, unless the agent had already
/// confirmed; so an event that had quorum keeps it.
pub proof fn law_confirm_counts(e: EventView, agent: Seq<char>)
    requires
        has_agent(e.attendees, agent),
    ensures
        confirmed_in(responded(e, agent, ResponseStatus::Confirmed).attendees) == confirmed_in(
            e.attendees,
        ) + (if e.attendees[first_match(e.attendees, agent)].1 is Confirmed {
            0nat
        } else {
            1nat
        }),
        e.has_quorum() ==> responded(e, agent, ResponseStatus::Confirmed).has_quorum(),
{
    lemma_first_match_exists(e.attendees, agent);
    let i = first_match(e.attendees, agent);
    lemma_confirmed_update(e.attendees, i, (e.attendees[i].0, ResponseStatus::Confirmed));
}

/// A campaign holds each event once: adding an event twice is adding it
/// once.
pub proof fn law_add_event_idempotent(c: CampaignView, event: u128)
    ensures
        with_event(with_event(c, event), event) == with_event(c, event),
        with_event(c, event).events.contains(event),
{
    if !c.events.contains(event) {
        assert(with_event(c, event).events[c.events.len() as int] == event);
    }
}

/// Adding an event to a campaign appends it when it is new and changes
/// nothing else: every event already held keeps its place, and the
/// dependencies, the identifier and the name stay as they were.
pub proof fn law_add_event_keeps_the_rest(c: CampaignView, event: u128)
    ensures
        with_event(c, event).dependencies == c.dependencies,
        with_event(c, event).id == c.id,
        with_event(c, event).name == c.name,
        with_event(c, event).events.contains(event),
        with_event(c, event).events.len() == c.events.len() + (if c.events.contains(event) {
            0int
        } else {
            1int
        }),
        forall|i: int| 0 <= i < c.events.len() ==> #[trigger] with_event(c, event).events[i] == c.events[i],
{
    if !c.events.contains(event) {
        assert(with_event(c, event).events[c.events.len() as int] == event);
    }
}

/// Linking `from -> to` in a campaign appends that dependency when it is new
/// and changes nothing else: every dependency already there keeps its place,
/// and the events, the identifier and the name stay as they were.
pub proof fn law_link_adds_the_edge(c: CampaignView, from: u128, to: u128)
    ensures
        with_dependency(c, from, to).dependencies.contains((from, to)),
        with_dependency(c, from, to).dependencies.len() == c.dependencies.len() + (
        if c.dependencies.contains((from, to)) {
            0int
        } else {
            1int
        }),
        forall|i: int|
            0 <= i < c.dependencies.len() ==> #[trigger] with_dependency(c, from, to).dependencies[i]
                == c.dependencies[i],
        with_dependency(c, from, to).events == c.events,
        with_dependency(c, from, to).id == c.id,
        with_dependency(c, from, to).name == c.name,
{
    if !c.dependencies.contains((from, to)) {
        assert(with_dependency(c, from, to).dependencies[c.dependencies.len() as int] == (from, to));
    }
}

/// A scheduled event lists every given agent, in the given order and as
/// often as given, each pending; its other fields are the ones given.
pub proof fn law_scheduled_event_lists_every_agent(
    id: u128,
    kind: EventKind,
    scheduled_at: i128,
    t_minus: i128,
    organizer: AgentId,
    agents: Seq<AgentId>,
    quorum: usize,
    payload: String,
)
    ensures
        scheduled_event(id, kind, scheduled_at, t_minus, organizer, agents, quorum, payload).attendees.len()
            == agents.len(),
        forall|i: int|
            0 <= i < agents.len() ==> #[trigger] scheduled_event(
                id,
                kind,
                scheduled_at,
                t_minus,
                organizer,
                agents,
                quorum,
                payload,
            ).attendees[i] == (agents[i], ResponseStatus::Pending),
        scheduled_event(id, kind, scheduled_at, t_minus, organizer, agents, quorum, payload).id == id,
        scheduled_event(id, kind, scheduled_at, t_minus, organizer, agents, quorum, payload).kind
            == kind,
        scheduled_event(
            id,
            kind,
            scheduled_at,
            t_minus,
            organizer,
            agents,
            quorum,
            payload,
        ).scheduled_at == scheduled_at,
        scheduled_event(id, kind, scheduled_at, t_minus, organizer, agents, quorum, payload).t_minus
            == t_minus,
        scheduled_event(
            id,
            kind,
            scheduled_at,
            t_minus,
            organizer,
            agents,
            quorum,
            payload,
        ).organizer == organizer,
        scheduled_event(id, kind, scheduled_at, t_minus, organizer, agents, quorum, payload).quorum
            == quorum,
        scheduled_event(
            id,
            kind,
            scheduled_at,
            t_minus,
            organizer,
            agents,
            quorum,
            payload,
        ).payload == payload,
{
}

/// Answering changes one entry: the first attendee named `agent` takes
/// `status` and keeps its agent; every other entry, and every other field
/// of the event, stays as it was.
pub proof fn law_response_changes_first_match_only(
    e: EventView,
    agent: Seq<char>,
    status: ResponseStatus,
)
    requires
        has_agent(e.attendees, agent),
    ensures
        responded(e, agent, status).attendees.len() == e.attendees.len(),
        forall|i: int|
            0 <= i < e.attendees.len() && (#[trigger] e.attendees[i]).0@ == agent && (forall|j: int|
                0 <= j < i ==> (#[trigger] e.attendees[j]).0@ != agent) ==> responded(
                e,
                agent,
                status,
            ).attendees[i] == (e.attendees[i].0, status),
        forall|i: int|
            0 <= i < e.attendees.len() && !((#[trigger] e.attendees[i]).0@ == agent && (forall|j: int|
                0 <= j < i ==> (#[trigger] e.attendees[j]).0@ != agent)) ==> responded(
                e,
                agent,
                status,
            ).attendees[i] == e.attendees[i],
        responded(e, agent, status) == (EventView {
            attendees: responded(e, agent, status).attendees,
            ..e
        }),
{
    lemma_first_match_exists(e.attendees, agent);
    let k = first_match(e.attendees, agent);
    assert forall|i: int|
        0 <= i < e.attendees.len() && (#[trigger] e.attendees[i]).0@ == agent && (forall|j: int|
            0 <= j < i ==> (#[trigger] e.attendees[j]).0@ != agent) implies i == k by {
        assert(is_first_match(e.attendees, agent, i));
        lemma_first_match_unique(e.attendees, agent, i);
    }
}

/// Inserting a record whose key is new, at the end of the first part of a
/// split sequence, keeps the keys distinct.
proof fn lemma_insert_unique(k: Seq<EventView>, t: Seq<EventView>, x: EventView)
    requires
        unique_keys(k + t, event_key()),
        !has_key(k + t, event_key(), x.id),
    ensures
        unique_keys(k.push(x) + t, event_key()),
        forall|id: u128|
            #[trigger] has_key(k.push(x) + t, event_key(), id) <==> (has_key(k + t, event_key(), id)
                || id == x.id),
{
    let a = k + t;
    let b = k.push(x) + t;
    let n = k.len() as int;
    // position in `b` to position in `a`
    assert forall|i: int| 0 <= i < b.len() && i != n implies #[trigger] b[i] == a[if i < n {
        i
    } else {
        i - 1
    }] by {}
    assert(b[n] == x);
    assert forall|i: int, j: int|
        0 <= i < b.len() && 0 <= j < b.len() && i != j implies (event_key())(#[trigger] b[i]) != (
    event_key())(#[trigger] b[j]) by {
        if i == n {
            let jj = if j < n { j } else { j - 1 };
            assert(b[j] == a[jj]);
        } else if j == n {
            let ii = if i < n { i } else { i - 1 };
            assert(b[i] == a[ii]);
        } else {
            let ii = if i < n { i } else { i - 1 };
            let jj = if j < n { j } else { j - 1 };
            assert(b[i] == a[ii] && b[j] == a[jj]);
        }
    }
    assert forall|id: u128|
        #[trigger] has_key(b, event_key(), id) <==> (has_key(a, event_key(), id) || id == x.id) by {
        if has_key(b, event_key(), id) && id != x.id {
            let i = choose|i: int| 0 <= i < b.len() && (event_key())(#[trigger] b[i]) == id;
            let ii = if i < n { i } else { i - 1 };
            assert(b[i] == a[ii]);
        }
        if has_key(a, event_key(), id) {
            let i = choose|i: int| 0 <= i < a.len() && (event_key())(#[trigger] a[i]) == id;
            let bi = if i < n { i } else { i + 1 };
            assert(b[bi] == a[i]);
        }
    }
}

/// The shape of a tick: the events left keep distinct identifiers that were
/// all there before; each fired event was there and is not left.
proof fn lemma_tick_keys(s: Seq<EventView>, now: int)
    requires
        unique_keys(s, event_key()),
    ensures
        unique_keys(after_tick(s, now), event_key()),
        forall|id: u128|
            #[trigger] has_key(after_tick(s, now), event_key(), id) ==> has_key(s, event_key(), id),
        forall|id: u128|
            #[trigger] tick_outcome(s, now).fired.contains(id) ==> has_key(s, event_key(), id)
                && !has_key(after_tick(s, now), event_key(), id),
        forall|i: int|
            0 <= i < after_tick(s, now).len() ==> !(now >= (#[trigger] after_tick(s, now)[i]).fire_time()
                && after_tick(s, now)[i].has_quorum()),
    decreases s.len(),
{
    if s.len() > 0 {
        let init = s.drop_last();
        let e = s.last();
        let l = s.len() - 1;
        assert forall|i: int, j: int|
            0 <= i < init.len() && 0 <= j < init.len() && i != j implies (event_key())(
                #[trigger] init[i],
            ) != (event_key())(#[trigger] init[j]) by {
            assert(init[i] == s[i] && init[j] == s[j]);
        }
        lemma_tick_keys(init, now);
        assert(!has_key(init, event_key(), e.id)) by {
            if has_key(init, event_key(), e.id) {
                let i = choose|i: int| 0 <= i < init.len() && (event_key())(#[trigger] init[i]) == e.id;
                assert(init[i] == s[i]);
                assert(s[l] == e);
            }
        }
        assert forall|id: u128| has_key(init, event_key(), id) implies #[trigger] has_key(
            s,
            event_key(),
            id,
        ) by {
            let i = choose|i: int| 0 <= i < init.len() && (event_key())(#[trigger] init[i]) == id;
            assert(s[i] == init[i]);
        }
        assert(has_key(s, event_key(), e.id)) by {
            assert(s[l] == e);
        }
        let r = tick_outcome(init, now);
        let a = r.kept + r.touched;
        assert(after_tick(init, now) == a);
        assert(!has_key(a, event_key(), e.id));
        if now < e.fire_time() {
            assert(after_tick(s, now) == r.kept.push(e) + r.touched);
            lemma_insert_unique(r.kept, r.touched, e);
            let b = r.kept.push(e) + r.touched;
            assert forall|i: int| 0 <= i < b.len() implies !(now >= (#[trigger] b[i]).fire_time()
                && b[i].has_quorum()) by {
                let n = r.kept.len() as int;
                if i < n {
                    assert(b[i] == a[i]);
                } else if i > n {
                    assert(b[i] == a[i - 1]);
                }
            }
        } else if e.has_quorum() {
            assert(after_tick(s, now) == a);
            assert forall|id: u128|
                #[trigger] tick_outcome(s, now).fired.contains(id) implies has_key(s, event_key(), id)
                    && !has_key(after_tick(s, now), event_key(), id) by {
                let f = tick_outcome(s, now).fired;
                assert(f == r.fired.push(e.id));
                let p = choose|p: int| 0 <= p < f.len() && f[p] == id;
                if p < r.fired.len() {
                    assert(r.fired[p] == id);
                    assert(r.fired.contains(id));
                }
            }
        } else {
            let x = if any_deferred_in(e.attendees) {
                e
            } else {
                e.marked_missed()
            };
            if !any_deferred_in(e.attendees) {
                law_marking_missed_keeps_confirmations(e);
            }
            assert(after_tick(s, now) == (r.kept + r.touched.push(x)));
            assert(r.kept + r.touched.push(x) == a.push(x));
            assert(a.push(x) == a.push(x) + Seq::<EventView>::empty());
            assert(a == a + Seq::<EventView>::empty());
            lemma_insert_unique(a, Seq::empty(), x);
            assert forall|i: int| 0 <= i < a.push(x).len() implies !(now >= (
            #[trigger] a.push(x)[i]).fire_time() && a.push(x)[i].has_quorum()) by {
                if i < a.len() {
                    assert(a.push(x)[i] == a[i]);
                }
            }
        }
        assert forall|id: u128|
            #[trigger] tick_outcome(s, now).fired.contains(id) implies has_key(s, event_key(), id)
                && !has_key(after_tick(s, now), event_key(), id) by {
            let f = tick_outcome(s, now).fired;
            if !(now >= e.fire_time() && e.has_quorum()) {
                assert(f == r.fired);
            }
        }
    }
}

/// A tick reports as fired exactly the held events that have fired at
/// `now` (fire time reached, quorum met), and as missed exactly those that
/// are missed at `now` with no attendee deferring.
pub proof fn law_tick_reports(s: Seq<EventView>, now: int, id: u128)
    requires
        unique_keys(s, event_key()),
    ensures
        tick_outcome(s, now).fired.contains(id) <==> (lookup(s, event_key(), id) matches Some(e)
            && e.is_fired(now)),
        tick_outcome(s, now).missed.contains(id) <==> (lookup(s, event_key(), id) matches Some(e)
            && e.is_missed(now) && !any_deferred_in(e.attendees)),
    decreases s.len(),
{
    if s.len() > 0 {
        let init = s.drop_last();
        let e = s.last();
        let l = s.len() - 1;
        assert forall|i: int, j: int|
            0 <= i < init.len() && 0 <= j < init.len() && i != j implies (event_key())(
                #[trigger] init[i],
            ) != (event_key())(#[trigger] init[j]) by {
            assert(init[i] == s[i] && init[j] == s[j]);
        }
        law_tick_reports(init, now, id);
        let r = tick_outcome(init, now);
        // what is read under `id` in `s`
        if id == e.id {
            lemma_key_index(s, event_key(), l);
            assert(s[l] == e);
            assert(lookup(s, event_key(), id) == Some(e));
            if has_key(init, event_key(), id) {
                let i = key_index(init, event_key(), id);
                assert(s[i] == init[i]);
                assert((event_key())(s[i]) == (event_key())(s[l]));
            }
            assert(!r.fired.contains(id) && !r.missed.contains(id));
        } else {
            if has_key(init, event_key(), id) {
                let i = key_index(init, event_key(), id);
                assert(s[i] == init[i]);
                lemma_key_index(s, event_key(), i);
                lemma_key_index(init, event_key(), i);
            } else {
                if has_key(s, event_key(), id) {
                    let i = choose|i: int| 0 <= i < s.len() && (event_key())(#[trigger] s[i]) == id;
                    assert(i != l);
                    assert(init[i] == s[i]);
                }
            }
            assert(lookup(s, event_key(), id) == lookup(init, event_key(), id));
        }
        let o = tick_outcome(s, now);
        if id != e.id {
            assert(o.fired.contains(id) <==> r.fired.contains(id)) by {
                if o.fired.contains(id) {
                    let p = choose|p: int| 0 <= p < o.fired.len() && o.fired[p] == id;
                    if p < r.fired.len() {
                        assert(r.fired[p] == id);
                    } else {
                        assert(o.fired == r.fired.push(e.id));
                    }
                }
                if r.fired.contains(id) {
                    let p = choose|p: int| 0 <= p < r.fired.len() && r.fired[p] == id;
                    if now >= e.fire_time() && e.has_quorum() {
                        assert(o.fired[p] == id);
                    }
                }
            }
            assert(o.missed.contains(id) <==> r.missed.contains(id)) by {
                if o.missed.contains(id) {
                    let p = choose|p: int| 0 <= p < o.missed.len() && o.missed[p] == id;
                    if p < r.missed.len() {
                        assert(r.missed[p] == id);
                    } else {
                        assert(o.missed == r.missed.push(e.id));
                    }
                }
                if r.missed.contains(id) {
                    let p = choose|p: int| 0 <= p < r.missed.len() && r.missed[p] == id;
                    if now >= e.fire_time() && !e.has_quorum() && !any_deferred_in(e.attendees) {
                        assert(o.missed[p] == id);
                    }
                }
            }
        } else {
            if now >= e.fire_time() && e.has_quorum() {
                assert(o.fired[r.fired.len() as int] == id);
            } else {
                assert(o.fired == r.fired);
            }
            if now >= e.fire_time() && !e.has_quorum() && !any_deferred_in(e.attendees) {
                assert(o.missed[r.missed.len() as int] == id);
            } else {
                assert(o.missed == r.missed);
            }
        }
    }
}

/// A tick fires an event exactly when the event is held, its fire time
/// (`scheduled_at - t_minus`) has come, and at least `quorum` of its
/// attendees have confirmed; a deferral never stands in for a confirmation.
pub proof fn law_tick_fires_only_with_quorum(s: Seq<EventView>, now: int, id: u128)
    requires
        unique_keys(s, event_key()),
    ensures
        tick_outcome(s, now).fired.contains(id) <==> (lookup(s, event_key(), id) matches Some(e)
            && now >= e.scheduled_at - e.t_minus && e.attendees.filter(
            |a: Attendee| a.1 is Confirmed,
        ).len() >= e.quorum),
{
    law_tick_reports(s, now, id);
    if let Some(e) = lookup(s, event_key(), id) {
        law_quorum_is_enough_confirmations(e);
    }
}

/// What a tick does to a due event that does not fire: kept as it is when
/// someone deferred, else its pending attendees are marked missed.
pub open spec fn tick_update(e: EventView) -> EventView {
    if any_deferred_in(e.attendees) {
        e
    } else {
        e.marked_missed()
    }
}

/// The identifiers of the events in `t` where no attendee deferred, in
/// order.
pub open spec fn undeferred_ids(t: Seq<EventView>) -> Seq<u128>
    decreases t.len(),
{
    if t.len() == 0 {
        Seq::empty()
    } else {
        let r = undeferred_ids(t.drop_last());
        if any_deferred_in(t.last().attendees) {
            r
        } else {
            r.push(t.last().id)
        }
    }
}

/// What a tick leaves: kept events are not due; the others are due, lack
/// quorum and are already as a tick leaves them; the missed ones are those
/// among them where no one deferred.
proof fn lemma_tick_shape(s: Seq<EventView>, now: int)
    ensures
        forall|i: int|
            0 <= i < tick_outcome(s, now).kept.len() ==> now < (
            #[trigger] tick_outcome(s, now).kept[i]).fire_time(),
        forall|i: int|
            0 <= i < tick_outcome(s, now).touched.len() ==> now >= (
            #[trigger] tick_outcome(s, now).touched[i]).fire_time()
                && !tick_outcome(s, now).touched[i].has_quorum() && tick_update(
                tick_outcome(s, now).touched[i],
            ) == tick_outcome(s, now).touched[i],
        tick_outcome(s, now).missed == undeferred_ids(tick_outcome(s, now).touched),
    decreases s.len(),
{
    if s.len() > 0 {
        let init = s.drop_last();
        let e = s.last();
        lemma_tick_shape(init, now);
        let r = tick_outcome(init, now);
        let o = tick_outcome(s, now);
        if now < e.fire_time() {
            assert forall|i: int| 0 <= i < o.kept.len() implies now < (#[trigger] o.kept[i]).fire_time() by {
                if i < r.kept.len() {
                    assert(o.kept[i] == r.kept[i]);
                }
            }
        } else if e.has_quorum() {
        } else if any_deferred_in(e.attendees) {
            assert(o.touched.drop_last() == r.touched);
            assert forall|i: int| 0 <= i < o.touched.len() implies now >= (
            #[trigger] o.touched[i]).fire_time() && !o.touched[i].has_quorum() && tick_update(
                o.touched[i],
            ) == o.touched[i] by {
                if i < r.touched.len() {
                    assert(o.touched[i] == r.touched[i]);
                }
            }
        } else {
            let m = e.marked_missed();
            law_marking_missed_keeps_confirmations(e);
            law_marking_missed_keeps_confirmations(m);
            assert(o.touched.drop_last() == r.touched);
            assert(o.touched.last() == m);
            assert forall|i: int| 0 <= i < o.touched.len() implies now >= (
            #[trigger] o.touched[i]).fire_time() && !o.touched[i].has_quorum() && tick_update(
                o.touched[i],
            ) == o.touched[i] by {
                if i < r.touched.len() {
                    assert(o.touched[i] == r.touched[i]);
                }
            }
        }
    }
}

/// Events that are not due pass a tick untouched.
proof fn lemma_tick_not_due(u: Seq<EventView>, now: int)
    requires
        forall|i: int| 0 <= i < u.len() ==> now < (#[trigger] u[i]).fire_time(),
    ensures
        tick_outcome(u, now).kept == u,
        tick_outcome(u, now).touched.len() == 0,
        tick_outcome(u, now).fired.len() == 0,
        tick_outcome(u, now).missed.len() == 0,
    decreases u.len(),
{
    if u.len() > 0 {
        assert forall|i: int| 0 <= i < u.drop_last().len() implies now < (
        #[trigger] u.drop_last()[i]).fire_time() by {
            assert(u.drop_last()[i] == u[i]);
        }
        lemma_tick_not_due(u.drop_last(), now);
        assert(u[u.len() - 1] == u.last());
        assert(u.drop_last().push(u.last()) =~= u);
    }
}

/// A tick over what a tick left: the kept part stays kept, the rest stays as
/// it is, nothing fires, and the same events are missed.
proof fn lemma_tick_again(u: Seq<EventView>, v: Seq<EventView>, now: int)
    requires
        forall|i: int| 0 <= i < u.len() ==> now < (#[trigger] u[i]).fire_time(),
        forall|i: int|
            0 <= i < v.len() ==> now >= (#[trigger] v[i]).fire_time() && !v[i].has_quorum()
                && tick_update(v[i]) == v[i],
    ensures
        tick_outcome(u + v, now).kept == u,
        tick_outcome(u + v, now).touched == v,
        tick_outcome(u + v, now).fired.len() == 0,
        tick_outcome(u + v, now).missed == undeferred_ids(v),
    decreases v.len(),
{
    if v.len() == 0 {
        assert(u + v =~= u);
        lemma_tick_not_due(u, now);
        assert(tick_outcome(u, now).touched =~= v);
        assert(tick_outcome(u, now).missed =~= undeferred_ids(v));
    } else {
        let vi = v.drop_last();
        let x = v.last();
        assert forall|i: int|
            0 <= i < vi.len() implies now >= (#[trigger] vi[i]).fire_time() && !vi[i].has_quorum()
                && tick_update(vi[i]) == vi[i] by {
            assert(vi[i] == v[i]);
        }
        lemma_tick_again(u, vi, now);
        assert((u + v).drop_last() =~= u + vi);
        assert((u + v).last() == x);
        assert(v[v.len() - 1] == x);
        assert(vi.push(x) =~= v);
        if !any_deferred_in(x.attendees) {
            assert(x.marked_missed() == x);
        }
    }
}

/// Ticking again at the same instant changes nothing: the store stays as
/// the first tick left it, nothing fires, and the same events are reported
/// missed again.
pub proof fn law_tick_repeats(s: Seq<EventView>, now: int)
    ensures
        after_tick(after_tick(s, now), now) == after_tick(s, now),
        tick_outcome(after_tick(s, now), now).fired.len() == 0,
        tick_outcome(after_tick(s, now), now).missed == tick_outcome(s, now).missed,
{
    lemma_tick_shape(s, now);
    let o = tick_outcome(s, now);
    lemma_tick_again(o.kept, o.touched, now);
}

/// An event that fires leaves the store: nothing is read under its
/// identifier after the tick.
pub proof fn law_fired_events_leave(s: Seq<EventView>, now: int, id: u128)
    requires
        unique_keys(s, event_key()),
        tick_outcome(s, now).fired.contains(id),
    ensures
        lookup(after_tick(s, now), event_key(), id) == None::<EventView>,
{
    lemma_tick_keys(s, now);
}

/// What a tick makes of an event: not yet due, it stays as it is; due with
/// at least `quorum` confirmations, it fires and leaves; due without them,
/// it stays, as it is when someone deferred and otherwise with its pending
/// attendees marked missed.
pub open spec fn after_tick_of(e: EventView, now: int) -> Option<EventView> {
    if now < e.scheduled_at - e.t_minus {
        Some(e)
    } else if e.attendees.filter(|a: Attendee| a.1 is Confirmed).len() >= e.quorum {
        None
    } else if exists|i: int| 0 <= i < e.attendees.len() && #[trigger] e.attendees[i].1 is Deferred {
        Some(e)
    } else {
        Some(e.marked_missed())
    }
}

/// The event at each position of a tick's input that is left by the tick
/// stands somewhere in what the tick leaves.
proof fn lemma_tick_leaves(s: Seq<EventView>, now: int)
    ensures
        forall|i: int|
            0 <= i < s.len() && (#[trigger] after_tick_of(s[i], now)) is Some ==> after_tick(
                s,
                now,
            ).contains(after_tick_of(s[i], now)->Some_0),
    decreases s.len(),
{
    if s.len() > 0 {
        let init = s.drop_last();
        let e = s.last();
        lemma_tick_leaves(init, now);
        let r = tick_outcome(init, now);
        let a0 = r.kept + r.touched;
        let a1 = after_tick(s, now);
        law_quorum_is_enough_confirmations(e);
        assert forall|i: int|
            0 <= i < s.len() && (#[trigger] after_tick_of(s[i], now)) is Some implies a1.contains(
            after_tick_of(s[i], now)->Some_0,
        ) by {
            let x = after_tick_of(s[i], now)->Some_0;
            if i < s.len() - 1 {
                assert(s[i] == init[i]);
                assert(a0.contains(x));
                let j = choose|j: int| 0 <= j < a0.len() && a0[j] == x;
                if j < r.kept.len() {
                    assert(a0[j] == r.kept[j]);
                    if now < e.fire_time() {
                        assert(a1[j] == r.kept[j]);
                    } else {
                        assert(a1[j] == r.kept[j]);
                    }
                } else {
                    assert(a0[j] == r.touched[j - r.kept.len()]);
                    if now < e.fire_time() {
                        assert(a1[j + 1] == r.touched[j - r.kept.len()]);
                    } else {
                        assert(a1[j] == r.touched[j - r.kept.len()]);
                    }
                }
            } else {
                assert(s[i] == e);
                if now < e.fire_time() {
                    assert(a1[r.kept.len() as int] == e);
                } else {
                    assert(!e.has_quorum());
                    assert(a1[a1.len() - 1] == x);
                }
            }
        }
    }
}

/// After a tick each event is found under its identifier as the tick makes
/// it (`after_tick_of`): an event that was not yet due, or due without
/// quorum, is still there; an event that fired is gone; nothing new comes.
pub proof fn law_tick_keeps_what_does_not_fire(s: Seq<EventView>, now: int, id: u128)
    requires
        unique_keys(s, event_key()),
    ensures
        lookup(s, event_key(), id) matches Some(e) ==> lookup(after_tick(s, now), event_key(), id)
            == after_tick_of(e, now),
        lookup(s, event_key(), id) is None ==> lookup(after_tick(s, now), event_key(), id) is None,
{
    lemma_tick_keys(s, now);
    if has_key(s, event_key(), id) {
        let i = key_index(s, event_key(), id);
        let e = s[i];
        law_quorum_is_enough_confirmations(e);
        match after_tick_of(e, now) {
            Some(x) => {
                lemma_tick_leaves(s, now);
                assert(after_tick_of(s[i], now) is Some);
                let a = after_tick(s, now);
                let j = choose|j: int| 0 <= j < a.len() && a[j] == x;
                assert(x.id == id);
                lemma_key_index(a, event_key(), j);
            },
            None => {
                law_tick_reports(s, now, id);
                lemma_key_index(s, event_key(), i);
                law_fired_events_leave(s, now, id);
            },
        }
    }
}

/// Whether no two events share an identifier.
fn events_distinct(v: &Vec<TMinusEvent>) -> (r: bool)
    ensures
        r == unique_keys(event_views(v@), event_key()),
{
    let ghost s = event_views(v@);
    let mut i: usize = 0;
    while i < v.len()
        invariant
            i <= v.len(),
            s == event_views(v@),
            forall|a: int, b: int| 0 <= a < i && 0 <= b < i && a != b ==> v@[a].id != v@[b].id,
        decreases v.len() - i,
    {
        let mut j: usize = 0;
        while j < i
            invariant
                j <= i < v.len(),
                s == event_views(v@),
                forall|a: int, b: int| 0 <= a < i && 0 <= b < i && a != b ==> v@[a].id != v@[b].id,
                forall|b: int| 0 <= b < j ==> v@[i as int].id != v@[b].id,
            decreases i - j,
        {
            if v[i].id == v[j].id {
                proof {
                    assert(s[i as int] == v@[i as int]@ && s[j as int] == v@[j as int]@);
                    assert((event_key())(s[i as int]) == (event_key())(s[j as int]));
                }
                return false;
            }
            j = j + 1;
        }
        i = i + 1;
    }
    proof {
        assert forall|a: int, b: int|
            0 <= a < s.len() && 0 <= b < s.len() && a != b implies (event_key())(#[trigger] s[a])
            != (event_key())(#[trigger] s[b]) by {
            assert(s[a] == v@[a]@ && s[b] == v@[b]@);
        }
    }
    true
}

/// Whether no two campaigns share an identifier.
fn campaigns_distinct(v: &Vec<Campaign>) -> (r: bool)
    ensures
        r == unique_keys(campaign_views(v@), campaign_key()),
{
    let ghost s = campaign_views(v@);
    let mut i: usize = 0;
    while i < v.len()
        invariant
            i <= v.len(),
            s == campaign_views(v@),
            forall|a: int, b: int| 0 <= a < i && 0 <= b < i && a != b ==> v@[a].id != v@[b].id,
        decreases v.len() - i,
    {
        let mut j: usize = 0;
        while j < i
            invariant
                j <= i < v.len(),
                s == campaign_views(v@),
                forall|a: int, b: int| 0 <= a < i && 0 <= b < i && a != b ==> v@[a].id != v@[b].id,
                forall|b: int| 0 <= b < j ==> v@[i as int].id != v@[b].id,
            decreases i - j,
        {
            if v[i].id == v[j].id {
                proof {
                    assert(s[i as int] == v@[i as int]@ && s[j as int] == v@[j as int]@);
                    assert((campaign_key())(s[i as int]) == (campaign_key())(s[j as int]));
                }
                return false;
            }
            j = j + 1;
        }
        i = i + 1;
    }
    proof {
        assert forall|a: int, b: int|
            0 <= a < s.len() && 0 <= b < s.len() && a != b implies (campaign_key())(
                #[trigger] s[a],
            ) != (campaign_key())(#[trigger] s[b]) by {
            assert(s[a] == v@[a]@ && s[b] == v@[b]@);
        }
    }
    true
}

/// Whether no identifier occurs twice.
fn ids_distinct(v: &Vec<u128>) -> (r: bool)
    ensures
        r == v@.no_duplicates(),
{
    let mut i: usize = 0;
    while i < v.len()
        invariant
            i <= v.len(),
            forall|a: int, b: int| 0 <= a < i && 0 <= b < i && a != b ==> v@[a] != v@[b],
        decreases v.len() - i,
    {
        let mut j: usize = 0;
        while j < i
            invariant
                j <= i < v.len(),
                forall|a: int, b: int| 0 <= a < i && 0 <= b < i && a != b ==> v@[a] != v@[b],
                forall|b: int| 0 <= b < j ==> v@[i as int] != v@[b],
            decreases i - j,
        {
            if v[i] == v[j] {
                return false;
            }
            j = j + 1;
        }
        i = i + 1;
    }
    true
}

/// Whether a campaign has the shape the engine keeps: each event once, only
/// its own events linked, no cycle.
fn campaign_well_formed(c: &Campaign) -> (r: bool)
    ensures
        r == (c@.is_proper() && c@.has_topological_order()),
{
    if !ids_distinct(&c.events) {
        return false;
    }
    let mut j: usize = 0;
    while j < c.dependencies.len()
        invariant
            j <= c.dependencies.len(),
            c@.events.no_duplicates(),
            forall|k: int|
                0 <= k < j ==> c@.events.contains(#[trigger] c@.dependencies[k].0)
                    && c@.events.contains(c@.dependencies[k].1),
        decreases c.dependencies.len() - j,
    {
        let (a, b) = c.dependencies[j];
        proof {
            assert(c@.dependencies[j as int] == (a, b));
        }
        if !contains_id(&c.events, a) || !contains_id(&c.events, b) {
            return false;
        }
        proof {
            assert(c@.events.contains(c@.dependencies[j as int].0));
            assert(c@.events.contains(c@.dependencies[j as int].1));
        }
        j = j + 1;
    }
    proof {
        assert(c@.is_proper());
    }
    match c.execution_order() {
        Ok(_) => true,
        Err(_) => false,
    }
}

impl Engine {
    /// An engine that holds nothing yet.
    pub fn in_memory() -> (r: Result<Engine, TMinusError>)
        ensures
            r matches Ok(e) && e@.wf() && e@.events.len() == 0 && e@.campaigns.len() == 0,
    {
        let e = Engine { events: Vec::new(), campaigns: Vec::new() };
        proof {
            assert(e@.events =~= Seq::<EventView>::empty());
            assert(e@.campaigns =~= Seq::<CampaignView>::empty());
        }
        Ok(e)
    }

    /// An engine holding the given events and campaigns, as read back from
    /// storage, in that order.  Refused when two events or two campaigns
    /// share an identifier, or a campaign holds an event twice, links an
    /// event it does not hold, or has a dependency cycle.
    ///
    /// No store written through the engine is refused: identifiers are the
    /// tables' keys, adding an event to a campaign skips one it holds, and a
    /// link needs both ends in the campaign and is undone when it closes a
    /// cycle.  A store edited by other means may be refused here, where
    /// opening it without this check would go on until a campaign operation
    /// met the flaw (a dependency on an event the campaign does not hold
    /// stops the program there; a duplicate or a cycle is reported as a
    /// cycle).
    pub fn from_parts(events: Vec<TMinusEvent>, campaigns: Vec<Campaign>) -> (r: Result<
        Engine,
        TMinusError,
    >)
        ensures
            match r {
                Ok(e) => e@ == (EngineView {
                    events: event_views(events@),
                    campaigns: campaign_views(campaigns@),
                }) && e@.wf(),
                Err(err) => err is InvalidInput && !(EngineView {
                    events: event_views(events@),
                    campaigns: campaign_views(campaigns@),
                }).wf(),
            },
    {
        let ghost v = EngineView { events: event_views(events@), campaigns: campaign_views(campaigns@) };
        let mut ok = events_distinct(&events) && campaigns_distinct(&campaigns);
        let mut i: usize = 0;
        while i < campaigns.len()
            invariant
                i <= campaigns.len(),
                v.campaigns == campaign_views(campaigns@),
                ok ==> forall|k: int|
                    0 <= k < i ==> (#[trigger] v.campaigns[k]).is_proper()
                        && v.campaigns[k].has_topological_order(),
                !ok ==> !v.wf(),
                ok ==> unique_keys(v.events, event_key()) && unique_keys(v.campaigns, campaign_key()),
                v.events == event_views(events@),
            decreases campaigns.len() - i,
        {
            if ok && !campaign_well_formed(&campaigns[i]) {
                proof {
                    assert(v.campaigns[i as int] == campaigns@[i as int]@);
                }
                ok = false;
            }
            proof {
                if ok {
                    assert(v.campaigns[i as int] == campaigns@[i as int]@);
                }
            }
            i = i + 1;
        }
        if ok {
            Ok(Engine { events, campaigns })
        } else {
            Err(TMinusError::InvalidInput(String::from_str("stored events and campaigns are inconsistent")))
        }
    }

    /// Position of the event with identifier `id`.
    fn find_event(&self, id: u128) -> (r: Option<usize>)
        requires
            self@.wf(),
        ensures
            match r {
                Some(i) => i < self.events.len() && self.events@[i as int].id == id && i
                    == key_index(self@.events, event_key(), id) && has_key(
                    self@.events,
                    event_key(),
                    id,
                ),
                None => !has_key(self@.events, event_key(), id),
            },
    {
        let mut i: usize = 0;
        while i < self.events.len()
            invariant
                i <= self.events.len(),
                self@.wf(),
                forall|k: int| 0 <= k < i ==> self.events@[k].id != id,
            decreases self.events.len() - i,
        {
            if self.events[i].id == id {
                proof {
                    assert(self@.events[i as int] == self.events@[i as int]@);
                    lemma_key_index(self@.events, event_key(), i as int);
                }
                return Some(i);
            }
            i = i + 1;
        }
        proof {
            if has_key(self@.events, event_key(), id) {
                let k = choose|k: int|
                    0 <= k < self@.events.len() && (event_key())(#[trigger] self@.events[k]) == id;
                assert(self@.events[k] == self.events@[k]@);
            }
        }
        None
    }

    /// Position of the campaign with identifier `id`.
    fn find_campaign(&self, id: u128) -> (r: Option<usize>)
        requires
            self@.wf(),
        ensures
            match r {
                Some(i) => i < self.campaigns.len() && self.campaigns@[i as int].id == id && i
                    == key_index(self@.campaigns, campaign_key(), id) && has_key(
                    self@.campaigns,
                    campaign_key(),
                    id,
                ),
                None => !has_key(self@.campaigns, campaign_key(), id),
            },
    {
        let mut i: usize = 0;
        while i < self.campaigns.len()
            invariant
                i <= self.campaigns.len(),
                self@.wf(),
                forall|k: int| 0 <= k < i ==> self.campaigns@[k].id != id,
            decreases self.campaigns.len() - i,
        {
            if self.campaigns[i].id == id {
                proof {
                    assert(self@.campaigns[i as int] == self.campaigns@[i as int]@);
                    lemma_key_index(self@.campaigns, campaign_key(), i as int);
                }
                return Some(i);
            }
            i = i + 1;
        }
        proof {
            if has_key(self@.campaigns, campaign_key(), id) {
                let k = choose|k: int|
                    0 <= k < self@.campaigns.len() && (campaign_key())(
                        #[trigger] self@.campaigns[k],
                    ) == id;
                assert(self@.campaigns[k] == self.campaigns@[k]@);
            }
        }
        None
    }

    /// Writes an event: the one under the same identifier leaves, and `e`
    /// goes last.
    fn store_event(&mut self, e: TMinusEvent)
        requires
            old(self)@.wf(),
        ensures
            final(self)@.wf(),
            final(self)@.events == upsert(old(self)@.events, event_key(), e@),
            final(self)@.campaigns == old(self)@.campaigns,
    {
        let ghost ev = e@;
        let ghost before = self.events@;
        match self.find_event(e.id) {
            Some(i) => {
                self.events.remove(i);
                proof {
                    assert(event_views(self.events@) =~= event_views(before).remove(i as int));
                }
            },
            None => {},
        }
        let ghost mid = self.events@;
        self.events.push(e);
        proof {
            assert(event_views(self.events@) =~= event_views(mid).push(ev));
            lemma_upsert(event_views(before), event_key(), ev);
        }
    }

    /// Writes a campaign: the one under the same identifier leaves, and `c`
    /// goes last.
    fn store_campaign(&mut self, c: Campaign)
        requires
            old(self)@.wf(),
            c@.is_proper(),
            c@.has_topological_order(),
        ensures
            final(self)@.wf(),
            final(self)@.campaigns == upsert(old(self)@.campaigns, campaign_key(), c@),
            final(self)@.events == old(self)@.events,
    {
        let ghost cv = c@;
        let ghost before = self.campaigns@;
        match self.find_campaign(c.id) {
            Some(i) => {
                self.campaigns.remove(i);
                proof {
                    assert(campaign_views(self.campaigns@) =~= campaign_views(before).remove(
                        i as int,
                    ));
                }
            },
            None => {},
        }
        let ghost mid = self.campaigns@;
        self.campaigns.push(c);
        proof {
            assert(campaign_views(self.campaigns@) =~= campaign_views(mid).push(cv));
            lemma_upsert(campaign_views(before), campaign_key(), cv);
            let s = campaign_views(self.campaigns@);
            assert forall|i: int| 0 <= i < s.len() implies (#[trigger] s[i]).is_proper()
                && s[i].has_topological_order() by {
                if i < s.len() - 1 {
                    let old_s = campaign_views(before);
                    if has_key(old_s, campaign_key(), cv.id) {
                        let r = key_index(old_s, campaign_key(), cv.id);
                        let oi = if i < r { i } else { i + 1 };
                        assert(s[i] == old_s[oi]);
                    } else {
                        assert(s[i] == old_s[i]);
                    }
                }
            }
        }
    }

    // ── Events ──────────────────────────────────────────────

    /// Schedule a new event under a fresh random identifier.  The payload
    /// must be JSON, and is kept as serde_json writes it back; a text that is
    /// not JSON is refused with serde_json's error, and nothing changes.
    pub fn schedule_event(
        &mut self,
        kind: EventKind,
        scheduled_at: i128,
        t_minus: i128,
        organizer: AgentId,
        attendees: Vec<AgentId>,
        quorum: usize,
        payload: String,
    ) -> (r: Result<TMinusEvent, TMinusError>)
        requires
            old(self)@.wf(),
        ensures
            final(self)@.wf(),
            r matches Ok(e) ==> is_v4_id(e.id),
            match json_text(payload@) {
                Err(m) => r matches Err(TMinusError::Serde(x)) && x@ == m && final(self)@ == old(
                    self,
                )@,
                Ok(text) => r matches Ok(e) && e.payload@ == text && e@ == scheduled_event(
                    e.id,
                    kind,
                    scheduled_at,
                    t_minus,
                    organizer,
                    attendees@,
                    quorum,
                    e.payload,
                ) && final(self)@.events == upsert(old(self)@.events, event_key(), e@),
            },
            final(self)@.campaigns == old(self)@.campaigns,
    {
        let id = fresh_id();
        self.schedule_event_with_id(id, kind, scheduled_at, t_minus, organizer, attendees, quorum, payload)
    }

    /// Schedule a new event under the identifier `id`; an event already held
    /// under it is replaced.  The payload is read as for `schedule_event`.
    pub fn schedule_event_with_id(
        &mut self,
        id: u128,
        kind: EventKind,
        scheduled_at: i128,
        t_minus: i128,
        organizer: AgentId,
        attendees: Vec<AgentId>,
        quorum: usize,
        payload: String,
    ) -> (r: Result<TMinusEvent, TMinusError>)
        requires
            old(self)@.wf(),
        ensures
            final(self)@.wf(),
            match json_text(payload@) {
                Err(m) => r matches Err(TMinusError::Serde(x)) && x@ == m && final(self)@ == old(
                    self,
                )@,
                Ok(text) => r matches Ok(e) && e.payload@ == text && e@ == scheduled_event(
                    id,
                    kind,
                    scheduled_at,
                    t_minus,
                    organizer,
                    attendees@,
                    quorum,
                    e.payload,
                ) && final(self)@.events == upsert(old(self)@.events, event_key(), e@),
            },
            final(self)@.campaigns == old(self)@.campaigns,
    {
        let payload = match canonical_json(payload.as_str()) {
            Ok(t) => t,
            Err(m) => {
                return Err(TMinusError::Serde(m));
            },
        };
        let mut atts: Vec<Attendee> = Vec::new();
        let mut i: usize = 0;
        while i < attendees.len()
            invariant
                i <= attendees.len(),
                atts@ == attendees@.take(i as int).map_values(
                    |a: AgentId| (a, ResponseStatus::Pending),
                ),
            decreases attendees.len() - i,
        {
            let a = attendees[i].clone();
            atts.push((a, ResponseStatus::Pending));
            i = i + 1;
            proof {
                assert(atts@ =~= attendees@.take(i as int).map_values(
                    |a: AgentId| (a, ResponseStatus::Pending),
                ));
            }
        }
        proof {
            assert(attendees@.take(attendees.len() as int) =~= attendees@);
        }
        let event = TMinusEvent {
            id,
            kind,
            scheduled_at,
            t_minus,
            organizer,
            attendees: atts,
            quorum,
            payload,
        };
        let out = event.clone();
        self.store_event(event);
        Ok(out)
    }

    /// Record the answer `status` of the first attendee named like `agent`.
    fn respond(&mut self, event_id: u128, agent: &AgentId, status: ResponseStatus) -> (r: Result<
        TMinusEvent,
        TMinusError,
    >)
        requires
            old(self)@.wf(),
        ensures
            final(self)@.wf(),
            final(self)@.campaigns == old(self)@.campaigns,
            match lookup(old(self)@.events, event_key(), event_id) {
                None => r matches Err(TMinusError::EventNotFound(x)) && x == event_id
                    && final(self)@.events == old(self)@.events,
                Some(ev) => if has_agent(ev.attendees, agent@) {
                    r matches Ok(e) && e@ == responded(ev, agent@, status) && final(self)@.events
                        == upsert(old(self)@.events, event_key(), e@)
                } else {
                    r matches Err(TMinusError::NotAttendee(a, x)) && a == *agent && x == event_id
                        && final(self)@.events == old(self)@.events
                },
            },
    {
        match self.find_event(event_id) {
            None => Err(TMinusError::EventNotFound(event_id)),
            Some(i) => {
                proof {
                    assert(self@.events[i as int] == self.events@[i as int]@);
                }
                match self.events[i].find_attendee(agent) {
                    None => Err(TMinusError::NotAttendee(agent.clone(), event_id)),
                    Some(j) => {
                        let mut e = self.events[i].clone();
                        e.set_response(j, status);
                        proof {
                            lemma_first_match_unique(self.events@[i as int]@.attendees, agent@, j as int);
                        }
                        let out = e.clone();
                        self.store_event(e);
                        Ok(out)
                    },
                }
            },
        }
    }

    /// Confirm an agent's attendance.
    pub fn confirm(&mut self, event_id: u128, agent_id: &AgentId) -> (r: Result<
        TMinusEvent,
        TMinusError,
    >)
        requires
            old(self)@.wf(),
        ensures
            final(self)@.wf(),
            final(self)@.campaigns == old(self)@.campaigns,
            match lookup(old(self)@.events, event_key(), event_id) {
                None => r matches Err(TMinusError::EventNotFound(x)) && x == event_id
                    && final(self)@.events == old(self)@.events,
                Some(ev) => if has_agent(ev.attendees, agent_id@) {
                    r matches Ok(e) && e@ == responded(ev, agent_id@, ResponseStatus::Confirmed)
                        && final(self)@.events == upsert(old(self)@.events, event_key(), e@)
                } else {
                    r matches Err(TMinusError::NotAttendee(a, x)) && a == *agent_id && x
                        == event_id && final(self)@.events == old(self)@.events
                },
            },
    {
        self.respond(event_id, agent_id, ResponseStatus::Confirmed)
    }

    /// Defer an agent's response with a requested delay (nanoseconds).
    pub fn defer(&mut self, event_id: u128, agent_id: &AgentId, duration: i128) -> (r: Result<
        TMinusEvent,
        TMinusError,
    >)
        requires
            old(self)@.wf(),
        ensures
            final(self)@.wf(),
            final(self)@.campaigns == old(self)@.campaigns,
            match lookup(old(self)@.events, event_key(), event_id) {
                None => r matches Err(TMinusError::EventNotFound(x)) && x == event_id
                    && final(self)@.events == old(self)@.events,
                Some(ev) => if has_agent(ev.attendees, agent_id@) {
                    r matches Ok(e) && e@ == responded(
                        ev,
                        agent_id@,
                        ResponseStatus::Deferred(duration),
                    ) && final(self)@.events == upsert(old(self)@.events, event_key(), e@)
                } else {
                    r matches Err(TMinusError::NotAttendee(a, x)) && a == *agent_id && x
                        == event_id && final(self)@.events == old(self)@.events
                },
            },
    {
        self.respond(event_id, agent_id, ResponseStatus::Deferred(duration))
    }

    /// Mark all pending attendees of an event as missed.
    pub fn mark_missed(&mut self, event_id: u128) -> (r: Result<TMinusEvent, TMinusError>)
        requires
            old(self)@.wf(),
        ensures
            final(self)@.wf(),
            final(self)@.campaigns == old(self)@.campaigns,
            match lookup(old(self)@.events, event_key(), event_id) {
                None => r matches Err(TMinusError::EventNotFound(x)) && x == event_id
                    && final(self)@.events == old(self)@.events,
                Some(ev) => r matches Ok(e) && e@ == ev.marked_missed() && final(self)@.events
                    == upsert(old(self)@.events, event_key(), e@),
            },
    {
        match self.find_event(event_id) {
            None => Err(TMinusError::EventNotFound(event_id)),
            Some(i) => {
                proof {
                    assert(self@.events[i as int] == self.events@[i as int]@);
                }
                let mut e = self.events[i].clone();
                e.mark_pending_missed();
                let out = e.clone();
                self.store_event(e);
                Ok(out)
            },
        }
    }

    /// Get all events.
    pub fn list_events(&self) -> (r: Result<Vec<TMinusEvent>, TMinusError>)
        ensures
            r matches Ok(v) && event_views(v@) == self@.events,
    {
        let mut v: Vec<TMinusEvent> = Vec::new();
        let mut i: usize = 0;
        while i < self.events.len()
            invariant
                i <= self.events.len(),
                event_views(v@) == event_views(self.events@.take(i as int)),
            decreases self.events.len() - i,
        {
            let ghost before = v@;
            let e = self.events[i].clone();
            v.push(e);
            proof {
                assert(self.events@.take(i + 1) =~= self.events@.take(i as int).push(self.events@[i as int]));
                assert(event_views(v@) =~= event_views(before).push(e@));
                assert(event_views(self.events@.take(i + 1)) =~= event_views(self.events@.take(i as int)).push(self.events@[i as int]@));
            }
            i = i + 1;
        }
        proof {
            assert(self.events@.take(self.events.len() as int) =~= self.events@);
        }
        Ok(v)
    }

    /// Get a specific event.
    pub fn get_event(&self, id: u128) -> (r: Result<Option<TMinusEvent>, TMinusError>)
        requires
            self@.wf(),
        ensures
            r matches Ok(o) && match o {
                Some(e) => lookup(self@.events, event_key(), id) == Some(e@),
                None => lookup(self@.events, event_key(), id) == None::<EventView>,
            },
    {
        match self.find_event(id) {
            None => Ok(None),
            Some(i) => {
                proof {
                    assert(self@.events[i as int] == self.events@[i as int]@);
                }
                Ok(Some(self.events[i].clone()))
            },
        }
    }

    /// Remove a fired/missed event; tells whether it was there.
    pub fn remove_event(&mut self, id: u128) -> (r: Result<bool, TMinusError>)
        requires
            old(self)@.wf(),
        ensures
            final(self)@.wf(),
            r matches Ok(b) && b == has_key(old(self)@.events, event_key(), id),
            final(self)@.events == remove_key(old(self)@.events, event_key(), id),
            final(self)@.campaigns == old(self)@.campaigns,
    {
        match self.find_event(id) {
            None => Ok(false),
            Some(i) => {
                let ghost before = self.events@;
                self.events.remove(i);
                proof {
                    assert(event_views(self.events@) =~= event_views(before).remove(i as int));
                    lemma_remove_unique(event_views(before), event_key(), i as int);
                }
                Ok(true)
            },
        }
    }

    // ── Campaigns ───────────────────────────────────────────

    /// Create a new campaign under a fresh random identifier.
    pub fn create_campaign(&mut self, name: String) -> (r: Result<Campaign, TMinusError>)
        requires
            old(self)@.wf(),
        ensures
            final(self)@.wf(),
            final(self)@.events == old(self)@.events,
            r matches Ok(c) && is_v4_id(c.id) && c.name == name && c@.events.len() == 0 && c@.dependencies.len() == 0
                && final(self)@.campaigns == upsert(old(self)@.campaigns, campaign_key(), c@),
    {
        let c = Campaign::new(name);
        proof {
            lemma_no_dependencies_ordered(c@);
        }
        let out = c.clone();
        self.store_campaign(c);
        Ok(out)
    }

    /// Add an event to a campaign (a campaign holds each event once).
    pub fn campaign_add_event(&mut self, campaign_id: u128, event_id: u128) -> (r: Result<
        Campaign,
        TMinusError,
    >)
        requires
            old(self)@.wf(),
        ensures
            final(self)@.wf(),
            final(self)@.events == old(self)@.events,
            match lookup(old(self)@.campaigns, campaign_key(), campaign_id) {
                None => r matches Err(TMinusError::CampaignNotFound(x)) && x == campaign_id
                    && final(self)@.campaigns == old(self)@.campaigns,
                Some(c) => r matches Ok(c2) && c2@ == with_event(c, event_id)
                    && final(self)@.campaigns == upsert(old(self)@.campaigns, campaign_key(), c2@),
            },
    {
        match self.find_campaign(campaign_id) {
            None => Err(TMinusError::CampaignNotFound(campaign_id)),
            Some(i) => {
                let ghost c0 = self@.campaigns[i as int];
                proof {
                    assert(c0 == self.campaigns@[i as int]@);
                }
                let mut c = self.campaigns[i].clone();
                if !contains_id(&c.events, event_id) {
                    c.events.push(event_id);
                }
                proof {
                    assert(c@ =~= with_event(c0, event_id));
                    lemma_with_event_ordered(c0, event_id);
                }
                let out = c.clone();
                self.store_campaign(c);
                Ok(out)
            },
        }
    }

    /// Add a dependency edge between two events of a campaign.  An edge
    /// that would close a cycle is refused and the campaign left as it was.
    pub fn campaign_link(&mut self, campaign_id: u128, from: u128, to: u128) -> (r: Result<
        Campaign,
        TMinusError,
    >)
        requires
            old(self)@.wf(),
        ensures
            final(self)@.wf(),
            final(self)@.events == old(self)@.events,
            match lookup(old(self)@.campaigns, campaign_key(), campaign_id) {
                None => r matches Err(TMinusError::CampaignNotFound(x)) && x == campaign_id
                    && final(self)@.campaigns == old(self)@.campaigns,
                Some(c) => if !c.events.contains(from) {
                    r matches Err(TMinusError::InvalidInput(m)) && m@ == not_in_campaign_text(from)
                        && final(self)@.campaigns == old(self)@.campaigns
                } else if !c.events.contains(to) {
                    r matches Err(TMinusError::InvalidInput(m)) && m@ == not_in_campaign_text(to)
                        && final(self)@.campaigns == old(self)@.campaigns
                } else if with_dependency(c, from, to).has_topological_order() {
                    r matches Ok(c2) && c2@ == with_dependency(c, from, to) && final(self)@.campaigns
                        == upsert(old(self)@.campaigns, campaign_key(), c2@)
                } else {
                    r matches Err(TMinusError::DependencyCycle(v)) && v@ == seq![from, to]
                        && final(self)@.campaigns == upsert(old(self)@.campaigns, campaign_key(), c)
                },
            },
    {
        let i = match self.find_campaign(campaign_id) {
            None => {
                return Err(TMinusError::CampaignNotFound(campaign_id));
            },
            Some(i) => i,
        };
        let ghost c0 = self@.campaigns[i as int];
        proof {
            assert(c0 == self.campaigns@[i as int]@);
            assert(c0.is_proper() && c0.has_topological_order());
        }
        let mut c = self.campaigns[i].clone();
        if !contains_id(&c.events, from) {
            return Err(TMinusError::InvalidInput(not_in_campaign_message(from)));
        }
        if !contains_id(&c.events, to) {
            return Err(TMinusError::InvalidInput(not_in_campaign_message(to)));
        }
        let added = !contains_dependency(&c.dependencies, (from, to));
        if added {
            c.dependencies.push((from, to));
        }
        proof {
            assert(c@ =~= with_dependency(c0, from, to));
            assert forall|j: int| 0 <= j < c@.dependencies.len() implies c@.events.contains(
                #[trigger] c@.dependencies[j].0,
            ) && c@.events.contains(c@.dependencies[j].1) by {
                if j < c0.dependencies.len() {
                    assert(c@.dependencies[j] == c0.dependencies[j]);
                    assert(c0.events.contains(c0.dependencies[j].0));
                }
            }
            assert(c@.is_proper());
        }
        let order = c.execution_order();
        match order {
            Ok(_) => {
                let out = c.clone();
                self.store_campaign(c);
                Ok(out)
            },
            Err(_) => {
                proof {
                    if !added {
                        assert(c@ == c0);
                    }
                }
                let ghost grown = c.dependencies@;
                c.dependencies.pop();
                proof {
                    assert(c.dependencies@ =~= c0.dependencies);
                    assert(c@ =~= c0);
                }
                self.store_campaign(c);
                let mut pair: Vec<u128> = Vec::new();
                pair.push(from);
                pair.push(to);
                proof {
                    assert(pair@ =~= seq![from, to]);
                }
                Err(TMinusError::DependencyCycle(pair))
            },
        }
    }

    /// Get campaign execution order (topological sort).
    pub fn campaign_execution_order(&self, campaign_id: u128) -> (r: Result<Vec<u128>, TMinusError>)
        requires
            self@.wf(),
        ensures
            match lookup(self@.campaigns, campaign_key(), campaign_id) {
                None => r matches Err(TMinusError::CampaignNotFound(x)) && x == campaign_id,
                Some(c) => r matches Ok(order) && c.is_topological_order(order@),
            },
    {
        match self.find_campaign(campaign_id) {
            None => Err(TMinusError::CampaignNotFound(campaign_id)),
            Some(i) => {
                proof {
                    let c0 = self@.campaigns[i as int];
                    assert(c0 == self.campaigns@[i as int]@);
                    assert(c0.is_proper() && c0.has_topological_order());
                    assert forall|j: int| 0 <= j < c0.dependencies.len() implies c0.events.contains(
                        #[trigger] c0.dependencies[j].0,
                    ) by {}
                }
                match self.campaigns[i].execution_order() {
                    Ok(order) => Ok(order),
                    Err(rest) => Err(TMinusError::DependencyCycle(rest)),
                }
            },
        }
    }

    /// List all campaigns.
    pub fn list_campaigns(&self) -> (r: Result<Vec<Campaign>, TMinusError>)
        ensures
            r matches Ok(v) && campaign_views(v@) == self@.campaigns,
    {
        let mut v: Vec<Campaign> = Vec::new();
        let mut i: usize = 0;
        while i < self.campaigns.len()
            invariant
                i <= self.campaigns.len(),
                campaign_views(v@) == campaign_views(self.campaigns@.take(i as int)),
            decreases self.campaigns.len() - i,
        {
            let ghost before = v@;
            let c = self.campaigns[i].clone();
            v.push(c);
            proof {
                assert(self.campaigns@.take(i + 1) =~= self.campaigns@.take(i as int).push(
                    self.campaigns@[i as int],
                ));
                assert(campaign_views(v@) =~= campaign_views(before).push(c@));
                assert(campaign_views(self.campaigns@.take(i + 1)) =~= campaign_views(
                    self.campaigns@.take(i as int),
                ).push(self.campaigns@[i as int]@));
            }
            i = i + 1;
        }
        proof {
            assert(self.campaigns@.take(self.campaigns.len() as int) =~= self.campaigns@);
        }
        Ok(v)
    }

    /// Get a specific campaign.
    pub fn get_campaign(&self, id: u128) -> (r: Result<Option<Campaign>, TMinusError>)
        requires
            self@.wf(),
        ensures
            r matches Ok(o) && match o {
                Some(c) => lookup(self@.campaigns, campaign_key(), id) == Some(c@),
                None => lookup(self@.campaigns, campaign_key(), id) == None::<CampaignView>,
            },
    {
        match self.find_campaign(id) {
            None => Ok(None),
            Some(i) => {
                proof {
                    assert(self@.campaigns[i as int] == self.campaigns@[i as int]@);
                }
                Ok(Some(self.campaigns[i].clone()))
            },
        }
    }
    // ── Tick ────────────────────────────────────────────────

    /// Process the instant `now`: fire events that reached quorum, mark
    /// missed ones, and give events with deferred attendees more time.
    /// Fired events leave the store.
    pub fn tick(&mut self, now: i128) -> (r: Result<TickResult, TMinusError>)
        requires
            old(self)@.wf(),
        ensures
            final(self)@.wf(),
            final(self)@.campaigns == old(self)@.campaigns,
            final(self)@.events == after_tick(old(self)@.events, now as int),
            r matches Ok(t) && t.fired@ == tick_outcome(old(self)@.events, now as int).fired
                && t.missed@ == tick_outcome(old(self)@.events, now as int).missed,
    {
        let ghost s = self@.events;
        proof {
            lemma_tick_keys(s, now as int);
        }
        let mut rest: Vec<TMinusEvent> = Vec::new();
        std::mem::swap(&mut rest, &mut self.events);
        let n = rest.len();
        let mut kept: Vec<TMinusEvent> = Vec::new();
        let mut touched: Vec<TMinusEvent> = Vec::new();
        let mut fired: Vec<u128> = Vec::new();
        let mut missed: Vec<u128> = Vec::new();
        let mut i: usize = 0;
        while i < n
            invariant
                i <= n,
                n == s.len(),
                rest.len() == n - i,
                event_views(rest@) == s.subrange(i as int, n as int),
                event_views(kept@) == tick_outcome(s.take(i as int), now as int).kept,
                event_views(touched@) == tick_outcome(s.take(i as int), now as int).touched,
                fired@ == tick_outcome(s.take(i as int), now as int).fired,
                missed@ == tick_outcome(s.take(i as int), now as int).missed,
            decreases n - i,
        {
            let ghost before_rest = rest@;
            let mut e = rest.remove(0);
            let ghost ev = e@;
            let ghost k0 = kept@;
            let ghost t0 = touched@;
            proof {
                assert(ev == event_views(before_rest)[0]);
                assert(ev == s[i as int]);
                assert(event_views(rest@) =~= event_views(before_rest).remove(0));
                assert(s.subrange(i as int, n as int).remove(0) =~= s.subrange(i + 1, n as int));
                assert(s.take(i + 1).drop_last() =~= s.take(i as int));
                assert(s.take(i + 1).last() == s[i as int]);
            }
            if !e.is_due(now) {
                kept.push(e);
                proof {
                    assert(event_views(kept@) =~= event_views(k0).push(ev));
                }
            } else if e.has_quorum() {
                fired.push(e.id);
            } else if e.any_deferred() {
                touched.push(e);
                proof {
                    assert(event_views(touched@) =~= event_views(t0).push(ev));
                }
            } else {
                e.mark_pending_missed();
                missed.push(e.id);
                let ghost em = e@;
                touched.push(e);
                proof {
                    assert(event_views(touched@) =~= event_views(t0).push(em));
                }
            }
            i = i + 1;
        }
        proof {
            assert(s.take(n as int) =~= s);
        }
        let ghost kv = kept@;
        let ghost tv = touched@;
        kept.append(&mut touched);
        self.events = kept;
        proof {
            assert(event_views(self.events@) =~= event_views(kv) + event_views(tv));
        }
        Ok(TickResult { fired, missed })
    }

    /// Process a deferral cascade: when attendees deferred, extend the
    /// event's `t_minus` by the largest deferral and return the deferred
    /// attendees to pending.  Gives `None`, and changes nothing, when no
    /// attendee asked for a positive deferral.
    pub fn apply_deferral_cascade(&mut self, event_id: u128) -> (r: Result<
        Option<TMinusEvent>,
        TMinusError,
    >)
        requires
            old(self)@.wf(),
            lookup(old(self)@.events, event_key(), event_id) matches Some(ev) ==> ev.t_minus
                + max_deferral_in(ev.attendees) <= i128::MAX,
        ensures
            final(self)@.wf(),
            final(self)@.campaigns == old(self)@.campaigns,
            match lookup(old(self)@.events, event_key(), event_id) {
                None => r matches Err(TMinusError::EventNotFound(x)) && x == event_id
                    && final(self)@.events == old(self)@.events,
                Some(ev) => if max_deferral_in(ev.attendees) > 0 {
                    r matches Ok(Some(e)) && e@ == ev.cascaded() && final(self)@.events == upsert(
                        old(self)@.events,
                        event_key(),
                        e@,
                    )
                } else {
                    r matches Ok(None) && final(self)@.events == old(self)@.events
                },
            },
    {
        match self.find_event(event_id) {
            None => Err(TMinusError::EventNotFound(event_id)),
            Some(i) => {
                proof {
                    assert(self@.events[i as int] == self.events@[i as int]@);
                }
                let m = self.events[i].max_deferral();
                if m > 0 {
                    let mut e = self.events[i].clone();
                    e.t_minus = e.t_minus + m;
                    e.reset_deferred();
                    let out = e.clone();
                    self.store_event(e);
                    Ok(Some(out))
                } else {
                    Ok(None)
                }
            },
        }
    }
}

} // verus!
