//! Agents, responses, events and what a tick reports.
//!
//! Instants and durations are counted in nanoseconds, the resolution of
//! chrono's dates and durations: an instant counts from the Unix epoch, and
//! a duration may be negative.

use vstd::prelude::*;

verus! {

/// Unique identifier for an agent in the system.
#[derive(Debug, PartialEq, Eq, Hash)]
pub struct AgentId(pub String);

impl Clone for AgentId {
    fn clone(&self) -> (r: Self)
        ensures
            r == *self,
    {
        AgentId(self.0.clone())
    }
}

impl View for AgentId {
    type V = Seq<char>;

    open spec fn view(&self) -> Seq<char> {
        self.0@
    }
}

impl From<&str> for AgentId {
    fn from(s: &str) -> (r: AgentId)
        ensures
            r@ == s@,
    {
        AgentId(String::from_str(s))
    }
}

/// A name's text does not fix which `String` holds it, so `from` is not
/// claimed to give one particular value; what it gives is the agent whose
/// name is the text (see `from`'s own contract).
impl vstd::std_specs::convert::FromSpecImpl<&str> for AgentId {
    open spec fn obeys_from_spec() -> bool {
        false
    }

    open spec fn from_spec(v: &str) -> AgentId {
        choose|a: AgentId| a@ == v@
    }
}

impl AgentId {
    /// Whether the two agents have the same name.
    pub fn same_agent(&self, other: &AgentId) -> (r: bool)
        ensures
            r == (self@ == other@),
    {
        self.0 == other.0
    }
}

/// The kind of event being coordinated.
#[derive(Debug, PartialEq, Eq)]
pub enum EventKind {
    Meeting,
    Checkpoint,
    Review,
    Deploy,
    Custom(String),
}

impl Clone for EventKind {
    fn clone(&self) -> (r: Self)
        ensures
            r == *self,
    {
        match self {
            EventKind::Meeting => EventKind::Meeting,
            EventKind::Checkpoint => EventKind::Checkpoint,
            EventKind::Review => EventKind::Review,
            EventKind::Deploy => EventKind::Deploy,
            EventKind::Custom(s) => EventKind::Custom(s.clone()),
        }
    }
}

/// An agent's response to an event invitation.
///
/// A deferral carries the requested delay in nanoseconds.
#[derive(Clone, Copy, Debug, PartialEq, Eq, Structural)]
pub enum ResponseStatus {
    Pending,
    Confirmed,
    Deferred(i128),
    Missed,
}

/// One attendee entry: the agent and its current response.
pub type Attendee = (AgentId, ResponseStatus);

/// Number of attendees whose response is `Confirmed`.
pub open spec fn confirmed_in(atts: Seq<Attendee>) -> nat
    decreases atts.len(),
{
    if atts.len() == 0 {
        0
    } else {
        confirmed_in(atts.drop_last()) + if atts.last().1 is Confirmed {
            1nat
        } else {
            0nat
        }
    }
}

/// Number of attendees whose response is `Pending`.
pub open spec fn pending_in(atts: Seq<Attendee>) -> nat
    decreases atts.len(),
{
    if atts.len() == 0 {
        0
    } else {
        pending_in(atts.drop_last()) + if atts.last().1 is Pending {
            1nat
        } else {
            0nat
        }
    }
}

/// Whether some attendee has deferred.
pub open spec fn any_deferred_in(atts: Seq<Attendee>) -> bool {
    exists|i: int| 0 <= i < atts.len() && #[trigger] atts[i].1 is Deferred
}

/// The largest deferral that any attendee asked for, or zero when no
/// attendee asked for a positive one.
pub open spec fn max_deferral_in(atts: Seq<Attendee>) -> int
    decreases atts.len(),
{
    if atts.len() == 0 {
        0
    } else {
        let m = max_deferral_in(atts.drop_last());
        match atts.last().1 {
            ResponseStatus::Deferred(d) => if d > m {
                d as int
            } else {
                m
            },
            _ => m,
        }
    }
}

/// A pending attendee turned missed; any other left as it is.
pub open spec fn missed_if_pending(a: Attendee) -> Attendee {
    if a.1 is Pending {
        (a.0, ResponseStatus::Missed)
    } else {
        a
    }
}

/// A deferred attendee turned pending again; any other left as it is.
pub open spec fn pending_if_deferred(a: Attendee) -> Attendee {
    if a.1 is Deferred {
        (a.0, ResponseStatus::Pending)
    } else {
        a
    }
}

/// `i` is the first position whose agent is named `agent`.
pub open spec fn is_first_match(atts: Seq<Attendee>, agent: Seq<char>, i: int) -> bool {
    &&& 0 <= i < atts.len()
    &&& atts[i].0@ == agent
    &&& forall|j: int| 0 <= j < i ==> (#[trigger] atts[j]).0@ != agent
}

/// Whether some attendee is named `agent`.
pub open spec fn has_agent(atts: Seq<Attendee>, agent: Seq<char>) -> bool {
    exists|i: int| 0 <= i < atts.len() && (#[trigger] atts[i]).0@ == agent
}

/// The first position whose agent is named `agent`.
pub open spec fn first_match(atts: Seq<Attendee>, agent: Seq<char>) -> int {
    choose|i: int| is_first_match(atts, agent, i)
}

pub proof fn lemma_first_match_unique(atts: Seq<Attendee>, agent: Seq<char>, i: int)
    requires
        is_first_match(atts, agent, i),
    ensures
        first_match(atts, agent) == i,
{
    let k = first_match(atts, agent);
    assert(is_first_match(atts, agent, k));
    if k < i {
        assert(atts[k].0@ != agent);
    }
    if i < k {
        assert(atts[i].0@ != agent);
    }
}

/// Every agent named in the sequence has a first position.
pub proof fn lemma_first_match_exists(atts: Seq<Attendee>, agent: Seq<char>)
    requires
        has_agent(atts, agent),
    ensures
        is_first_match(atts, agent, first_match(atts, agent)),
    decreases atts.len(),
{
    let init = atts.drop_last();
    if has_agent(init, agent) {
        lemma_first_match_exists(init, agent);
        let k = first_match(init, agent);
        assert forall|j: int| 0 <= j < k implies (#[trigger] atts[j]).0@ != agent by {
            assert(atts[j] == init[j]);
        }
        assert(is_first_match(atts, agent, k));
    } else {
        let l = atts.len() - 1;
        assert forall|j: int| 0 <= j < l implies (#[trigger] atts[j]).0@ != agent by {
            assert(atts[j] == init[j]);
        }
        let i = choose|i: int| 0 <= i < atts.len() && (#[trigger] atts[i]).0@ == agent;
        if i < l {
            assert(init[i] == atts[i]);
        }
        assert(is_first_match(atts, agent, l));
    }
}


/// Changing one attendee's answer changes the confirmations by what was
/// given up and what was given.
pub proof fn lemma_confirmed_update(atts: Seq<Attendee>, i: int, x: Attendee)
    requires
        0 <= i < atts.len(),
    ensures
        confirmed_in(atts.update(i, x)) + (if atts[i].1 is Confirmed {
            1nat
        } else {
            0nat
        }) == confirmed_in(atts) + (if x.1 is Confirmed {
            1nat
        } else {
            0nat
        }),
    decreases atts.len(),
{
    let u = atts.update(i, x);
    if i == atts.len() - 1 {
        assert(u.drop_last() =~= atts.drop_last());
    } else {
        assert(u.drop_last() =~= atts.drop_last().update(i, x));
        lemma_confirmed_update(atts.drop_last(), i, x);
    }
}

/// The mathematical value of an event.
pub struct EventView {
    pub id: u128,
    pub kind: EventKind,
    pub scheduled_at: i128,
    pub t_minus: i128,
    pub organizer: AgentId,
    pub attendees: Seq<Attendee>,
    pub quorum: usize,
    pub payload: String,
}

impl EventView {
    /// The effective fire time: `scheduled_at` minus `t_minus`.
    pub open spec fn fire_time(self) -> int {
        self.scheduled_at - self.t_minus
    }

    pub open spec fn has_quorum(self) -> bool {
        confirmed_in(self.attendees) >= self.quorum
    }

    /// Fire time reached and quorum met.
    pub open spec fn is_fired(self, now: int) -> bool {
        now >= self.fire_time() && self.has_quorum()
    }

    /// Fire time reached without quorum.
    pub open spec fn is_missed(self, now: int) -> bool {
        now >= self.fire_time() && !self.has_quorum()
    }

    /// The same event with the attendee at position `i` answering `status`.
    pub open spec fn with_response(self, i: int, status: ResponseStatus) -> EventView {
        EventView { attendees: self.attendees.update(i, (self.attendees[i].0, status)), ..self }
    }

    /// The same event with every pending attendee marked missed.
    pub open spec fn marked_missed(self) -> EventView {
        EventView { attendees: self.attendees.map_values(|a: Attendee| missed_if_pending(a)), ..self }
    }

    /// The same event with its countdown extended by the largest deferral and
    /// every deferred attendee pending again.
    pub open spec fn cascaded(self) -> EventView {
        EventView {
            t_minus: (self.t_minus + max_deferral_in(self.attendees)) as i128,
            attendees: self.attendees.map_values(|a: Attendee| pending_if_deferred(a)),
            ..self
        }
    }
}

/// A T-minus countdown event for agent coordination.
///
/// `scheduled_at` is an instant and `t_minus` a duration, both in
/// nanoseconds; the event fires `t_minus` before `scheduled_at`.  The
/// payload is carried as JSON text and never read here.
#[derive(Debug)]
pub struct TMinusEvent {
    pub id: u128,
    pub kind: EventKind,
    pub scheduled_at: i128,
    pub t_minus: i128,
    pub organizer: AgentId,
    pub attendees: Vec<Attendee>,
    pub quorum: usize,
    pub payload: String,
}

impl View for TMinusEvent {
    type V = EventView;

    open spec fn view(&self) -> EventView {
        EventView {
            id: self.id,
            kind: self.kind,
            scheduled_at: self.scheduled_at,
            t_minus: self.t_minus,
            organizer: self.organizer,
            attendees: self.attendees@,
            quorum: self.quorum,
            payload: self.payload,
        }
    }
}

/// An exact copy of an attendee list.
pub fn copy_attendees(atts: &Vec<Attendee>) -> (r: Vec<Attendee>)
    ensures
        r@ == atts@,
{
    let mut r: Vec<Attendee> = Vec::new();
    let mut i: usize = 0;
    while i < atts.len()
        invariant
            i <= atts.len(),
            r@ == atts@.take(i as int),
        decreases atts.len() - i,
    {
        let a = atts[i].0.clone();
        let s = atts[i].1;
        r.push((a, s));
        i = i + 1;
        proof {
            assert(r@ =~= atts@.take(i as int));
        }
    }
    proof {
        assert(atts@.take(atts.len() as int) =~= atts@);
    }
    r
}

impl Clone for TMinusEvent {
    fn clone(&self) -> (r: Self)
        ensures
            r@ == self@,
    {
        TMinusEvent {
            id: self.id,
            kind: self.kind.clone(),
            scheduled_at: self.scheduled_at,
            t_minus: self.t_minus,
            organizer: self.organizer.clone(),
            attendees: copy_attendees(&self.attendees),
            quorum: self.quorum,
            payload: self.payload.clone(),
        }
    }
}

impl TMinusEvent {
    /// The effective fire time: `scheduled_at` minus `t_minus`.
    pub fn fire_time(&self) -> (r: i128)
        requires
            i128::MIN <= self@.fire_time() <= i128::MAX,
        ensures
            r == self@.fire_time(),
    {
        self.scheduled_at - self.t_minus
    }

    /// Whether the event has reached quorum (enough confirmations).
    pub fn has_quorum(&self) -> (r: bool)
        ensures
            r == self@.has_quorum(),
    {
        self.confirmed_count() >= self.quorum
    }

    /// Count of confirmed attendees.
    pub fn confirmed_count(&self) -> (r: usize)
        ensures
            r == confirmed_in(self.attendees@),
    {
        let mut c: usize = 0;
        let mut i: usize = 0;
        while i < self.attendees.len()
            invariant
                i <= self.attendees.len(),
                c == confirmed_in(self.attendees@.take(i as int)),
                c <= i,
            decreases self.attendees.len() - i,
        {
            proof {
                assert(self.attendees@.take(i + 1).drop_last() =~= self.attendees@.take(i as int));
            }
            match self.attendees[i].1 {
                ResponseStatus::Confirmed => {
                    c = c + 1;
                },
                _ => {},
            }
            i = i + 1;
        }
        proof {
            assert(self.attendees@.take(self.attendees.len() as int) =~= self.attendees@);
        }
        c
    }

    /// Count of pending attendees.
    pub fn pending_count(&self) -> (r: usize)
        ensures
            r == pending_in(self.attendees@),
    {
        let mut c: usize = 0;
        let mut i: usize = 0;
        while i < self.attendees.len()
            invariant
                i <= self.attendees.len(),
                c == pending_in(self.attendees@.take(i as int)),
                c <= i,
            decreases self.attendees.len() - i,
        {
            proof {
                assert(self.attendees@.take(i + 1).drop_last() =~= self.attendees@.take(i as int));
            }
            match self.attendees[i].1 {
                ResponseStatus::Pending => {
                    c = c + 1;
                },
                _ => {},
            }
            i = i + 1;
        }
        proof {
            assert(self.attendees@.take(self.attendees.len() as int) =~= self.attendees@);
        }
        c
    }

    /// Whether the fire time has been reached at `now`.
    pub fn is_due(&self, now: i128) -> (r: bool)
        ensures
            r == (now >= self@.fire_time()),
    {
        if self.t_minus >= 0 {
            // a fire time below the smallest instant has passed
            self.scheduled_at < i128::MIN + self.t_minus || now >= self.scheduled_at - self.t_minus
        } else {
            // a fire time above the largest instant is still to come
            self.scheduled_at <= i128::MAX + self.t_minus && now >= self.scheduled_at - self.t_minus
        }
    }

    /// Whether the event has fired (fire time has passed and quorum met).
    pub fn is_fired(&self, now: i128) -> (r: bool)
        ensures
            r == self@.is_fired(now as int),
    {
        self.is_due(now) && self.has_quorum()
    }

    /// Whether the event has been missed (fire time passed without quorum).
    pub fn is_missed(&self, now: i128) -> (r: bool)
        ensures
            r == self@.is_missed(now as int),
    {
        self.is_due(now) && !self.has_quorum()
    }

    /// Time remaining until fire time.
    pub fn time_remaining(&self, now: i128) -> (r: i128)
        requires
            i128::MIN <= self@.fire_time() <= i128::MAX,
            i128::MIN <= self@.fire_time() - now <= i128::MAX,
        ensures
            r == self@.fire_time() - now,
    {
        let f = self.scheduled_at - self.t_minus;
        f - now
    }

    /// Whether some attendee has deferred.
    pub fn any_deferred(&self) -> (r: bool)
        ensures
            r == any_deferred_in(self.attendees@),
    {
        let mut i: usize = 0;
        while i < self.attendees.len()
            invariant
                i <= self.attendees.len(),
                forall|k: int| 0 <= k < i ==> !(#[trigger] self.attendees@[k].1 is Deferred),
            decreases self.attendees.len() - i,
        {
            match self.attendees[i].1 {
                ResponseStatus::Deferred(_) => {
                    return true;
                },
                _ => {},
            }
            i = i + 1;
        }
        false
    }

    /// The largest deferral any attendee asked for, or zero when none asked
    /// for a positive one.
    pub fn max_deferral(&self) -> (r: i128)
        ensures
            r == max_deferral_in(self.attendees@),
            r >= 0,
    {
        let mut m: i128 = 0;
        let mut i: usize = 0;
        while i < self.attendees.len()
            invariant
                i <= self.attendees.len(),
                m == max_deferral_in(self.attendees@.take(i as int)),
                m >= 0,
            decreases self.attendees.len() - i,
        {
            proof {
                assert(self.attendees@.take(i + 1).drop_last() =~= self.attendees@.take(i as int));
            }
            match self.attendees[i].1 {
                ResponseStatus::Deferred(d) => {
                    if d > m {
                        m = d;
                    }
                },
                _ => {},
            }
            i = i + 1;
        }
        proof {
            assert(self.attendees@.take(self.attendees.len() as int) =~= self.attendees@);
        }
        m
    }

    /// The position of the first attendee named like `agent`, if any.
    pub fn find_attendee(&self, agent: &AgentId) -> (r: Option<usize>)
        ensures
            match r {
                Some(i) => is_first_match(self.attendees@, agent@, i as int),
                None => !has_agent(self.attendees@, agent@),
            },
    {
        let mut i: usize = 0;
        while i < self.attendees.len()
            invariant
                i <= self.attendees.len(),
                forall|k: int| 0 <= k < i ==> (#[trigger] self.attendees@[k]).0@ != agent@,
            decreases self.attendees.len() - i,
        {
            if self.attendees[i].0.same_agent(agent) {
                return Some(i);
            }
            i = i + 1;
        }
        None
    }

    /// Sets the response of the attendee at position `i`.
    pub fn set_response(&mut self, i: usize, status: ResponseStatus)
        requires
            i < old(self).attendees.len(),
        ensures
            final(self)@ == old(self)@.with_response(i as int, status),
    {
        let a = self.attendees[i].0.clone();
        self.attendees.set(i, (a, status));
        proof {
            assert(self.attendees@ =~= old(self)@.with_response(i as int, status).attendees);
        }
    }

    /// Marks every pending attendee as missed.
    pub fn mark_pending_missed(&mut self)
        ensures
            final(self)@ == old(self)@.marked_missed(),
    {
        let ghost start = self.attendees@;
        let mut i: usize = 0;
        while i < self.attendees.len()
            invariant
                i <= self.attendees.len(),
                self.attendees.len() == start.len(),
                self.id == old(self).id,
                self.kind == old(self).kind,
                self.scheduled_at == old(self).scheduled_at,
                self.t_minus == old(self).t_minus,
                self.organizer == old(self).organizer,
                self.quorum == old(self).quorum,
                self.payload == old(self).payload,
                start == old(self).attendees@,
                forall|k: int| 0 <= k < i ==> self.attendees@[k] == missed_if_pending(start[k]),
                forall|k: int| i <= k < start.len() ==> self.attendees@[k] == start[k],
            decreases self.attendees.len() - i,
        {
            match self.attendees[i].1 {
                ResponseStatus::Pending => {
                    let a = self.attendees[i].0.clone();
                    self.attendees.set(i, (a, ResponseStatus::Missed));
                },
                _ => {},
            }
            i = i + 1;
        }
        proof {
            assert(self.attendees@ =~= start.map_values(|a: Attendee| missed_if_pending(a)));
        }
    }

    /// Returns every deferred attendee to pending.
    pub fn reset_deferred(&mut self)
        ensures
            final(self)@ == (EventView {
                attendees: old(self)@.attendees.map_values(|a: Attendee| pending_if_deferred(a)),
                ..old(self)@
            }),
    {
        let ghost start = self.attendees@;
        let mut i: usize = 0;
        while i < self.attendees.len()
            invariant
                i <= self.attendees.len(),
                self.attendees.len() == start.len(),
                self.id == old(self).id,
                self.kind == old(self).kind,
                self.scheduled_at == old(self).scheduled_at,
                self.t_minus == old(self).t_minus,
                self.organizer == old(self).organizer,
                self.quorum == old(self).quorum,
                self.payload == old(self).payload,
                start == old(self).attendees@,
                forall|k: int| 0 <= k < i ==> self.attendees@[k] == pending_if_deferred(start[k]),
                forall|k: int| i <= k < start.len() ==> self.attendees@[k] == start[k],
            decreases self.attendees.len() - i,
        {
            match self.attendees[i].1 {
                ResponseStatus::Deferred(_) => {
                    let a = self.attendees[i].0.clone();
                    self.attendees.set(i, (a, ResponseStatus::Pending));
                },
                _ => {},
            }
            i = i + 1;
        }
        proof {
            assert(self.attendees@ =~= start.map_values(|a: Attendee| pending_if_deferred(a)));
        }
    }
}


/// An event with quorum zero always has quorum.
pub proof fn law_zero_quorum_always_met(e: EventView)
    requires
        e.quorum == 0,
    ensures
        e.has_quorum(),
{
}

/// Before its fire time an event is neither fired nor missed; from then on
/// it is exactly one of the two.
pub proof fn law_fired_or_missed(e: EventView, now: int)
    ensures
        now < e.fire_time() ==> !e.is_fired(now) && !e.is_missed(now),
        now >= e.fire_time() ==> (e.is_fired(now) <==> !e.is_missed(now)),
{
}

/// Marking pending attendees missed leaves no one pending and keeps the
/// confirmations (so quorum too) as they were.
pub proof fn law_marking_missed_keeps_confirmations(e: EventView)
    ensures
        confirmed_in(e.marked_missed().attendees) == confirmed_in(e.attendees),
        pending_in(e.marked_missed().attendees) == 0,
        e.marked_missed().has_quorum() == e.has_quorum(),
        any_deferred_in(e.marked_missed().attendees) == any_deferred_in(e.attendees),
        e.marked_missed().marked_missed() == e.marked_missed(),
{
    lemma_marked_missed_counts(e.attendees);
    let m = e.marked_missed().attendees;
    assert(m.len() == e.attendees.len());
    if any_deferred_in(e.attendees) {
        let i = choose|i: int| 0 <= i < e.attendees.len() && #[trigger] e.attendees[i].1 is Deferred;
        assert(m[i] == missed_if_pending(e.attendees[i]));
        assert(m[i].1 is Deferred);
    }
    if any_deferred_in(m) {
        let i = choose|i: int| 0 <= i < m.len() && #[trigger] m[i].1 is Deferred;
        assert(m[i] == missed_if_pending(e.attendees[i]));
        assert(e.attendees[i].1 is Deferred);
    }
    assert(m.map_values(|a: Attendee| missed_if_pending(a)) =~= m);
}

proof fn lemma_marked_missed_counts(atts: Seq<Attendee>)
    ensures
        confirmed_in(atts.map_values(|a: Attendee| missed_if_pending(a))) == confirmed_in(atts),
        pending_in(atts.map_values(|a: Attendee| missed_if_pending(a))) == 0,
    decreases atts.len(),
{
    if atts.len() > 0 {
        let m = atts.map_values(|a: Attendee| missed_if_pending(a));
        assert(m.drop_last() =~= atts.drop_last().map_values(|a: Attendee| missed_if_pending(a)));
        lemma_marked_missed_counts(atts.drop_last());
    }
}

/// After a cascade no attendee is deferred any more, and the countdown has
/// grown by exactly the largest deferral.
pub proof fn law_cascade_clears_deferrals(e: EventView)
    requires
        max_deferral_in(e.attendees) > 0,
        e.t_minus + max_deferral_in(e.attendees) <= i128::MAX,
    ensures
        !any_deferred_in(e.cascaded().attendees),
        e.cascaded().t_minus == e.t_minus + max_deferral_in(e.attendees),
        e.cascaded().t_minus > e.t_minus,
        e.cascaded().attendees.len() == e.attendees.len(),
{
    let c = e.cascaded().attendees;
    if any_deferred_in(c) {
        let i = choose|i: int| 0 <= i < c.len() && #[trigger] c[i].1 is Deferred;
        assert(c[i] == pending_if_deferred(e.attendees[i]));
    }
}

/// A freshly scheduled attendee list has everyone pending and no one
/// confirmed.
pub proof fn law_fresh_attendees_pending(agents: Seq<AgentId>)
    ensures
        confirmed_in(agents.map_values(|a: AgentId| (a, ResponseStatus::Pending))) == 0,
        pending_in(agents.map_values(|a: AgentId| (a, ResponseStatus::Pending))) == agents.len(),
    decreases agents.len(),
{
    if agents.len() > 0 {
        let m = agents.map_values(|a: AgentId| (a, ResponseStatus::Pending));
        assert(m.drop_last() =~= agents.drop_last().map_values(
            |a: AgentId| (a, ResponseStatus::Pending),
        ));
        law_fresh_attendees_pending(agents.drop_last());
    }
}

/// The number of confirmed attendees is the number of entries whose response
/// is `Confirmed`.
pub proof fn law_confirmed_is_a_count(atts: Seq<Attendee>)
    ensures
        confirmed_in(atts) == atts.filter(|a: Attendee| a.1 is Confirmed).len(),
    decreases atts.len(),
{
    if atts.len() > 0 {
        let init = atts.drop_last();
        law_confirmed_is_a_count(init);
        init.lemma_filter_push(atts.last(), |a: Attendee| a.1 is Confirmed);
        assert(init.push(atts.last()) =~= atts);
    } else {
        assert(atts.filter(|a: Attendee| a.1 is Confirmed) =~= Seq::<Attendee>::empty());
    }
}

/// An event has quorum exactly when at least `quorum` of its attendees have
/// confirmed: a deferral, a pending answer or a miss never counts towards it.
pub proof fn law_quorum_is_enough_confirmations(e: EventView)
    ensures
        e.has_quorum() <==> e.attendees.filter(|a: Attendee| a.1 is Confirmed).len() >= e.quorum,
{
    law_confirmed_is_a_count(e.attendees);
}

/// Two attendee lists with the same confirmations, entry by entry, count the
/// same number of them.
proof fn lemma_same_confirmations(a: Seq<Attendee>, b: Seq<Attendee>)
    requires
        a.len() == b.len(),
        forall|i: int| 0 <= i < a.len() ==> ((#[trigger] a[i]).1 is Confirmed <==> b[i].1 is Confirmed),
    ensures
        confirmed_in(a) == confirmed_in(b),
    decreases a.len(),
{
    if a.len() > 0 {
        assert forall|i: int| 0 <= i < a.drop_last().len() implies ((#[trigger] a.drop_last()[i]).1 is Confirmed
            <==> b.drop_last()[i].1 is Confirmed) by {
            assert(a.drop_last()[i] == a[i] && b.drop_last()[i] == b[i]);
        }
        lemma_same_confirmations(a.drop_last(), b.drop_last());
        assert(a.last() == a[a.len() - 1] && b.last() == b[b.len() - 1]);
    }
}

/// A cascade turns each deferred attendee, and only those, back to pending:
/// every other entry (a confirmation above all) stays as it was, so the
/// confirmations are kept; the event is otherwise the same but for its
/// countdown.
pub proof fn law_cascade_touches_only_deferred(e: EventView)
    ensures
        e.cascaded().attendees.len() == e.attendees.len(),
        forall|i: int|
            0 <= i < e.attendees.len() && (#[trigger] e.attendees[i]).1 is Deferred
                ==> e.cascaded().attendees[i] == (e.attendees[i].0, ResponseStatus::Pending),
        forall|i: int|
            0 <= i < e.attendees.len() && !((#[trigger] e.attendees[i]).1 is Deferred)
                ==> e.cascaded().attendees[i] == e.attendees[i],
        e.cascaded().attendees.filter(|a: Attendee| a.1 is Confirmed).len() == e.attendees.filter(
            |a: Attendee| a.1 is Confirmed,
        ).len(),
        e.cascaded().id == e.id,
        e.cascaded().kind == e.kind,
        e.cascaded().scheduled_at == e.scheduled_at,
        e.cascaded().organizer == e.organizer,
        e.cascaded().quorum == e.quorum,
        e.cascaded().payload == e.payload,
{
    let c = e.cascaded().attendees;
    assert forall|i: int| 0 <= i < e.attendees.len() implies ((#[trigger] e.attendees[i]).1 is Confirmed
        <==> c[i].1 is Confirmed) by {
        assert(c[i] == pending_if_deferred(e.attendees[i]));
    }
    lemma_same_confirmations(e.attendees, c);
    law_confirmed_is_a_count(e.attendees);
    law_confirmed_is_a_count(c);
}

/// Marking an event missed turns each pending attendee, and only those,
/// into a miss; every other entry and every other field stay as they were.
pub proof fn law_marking_missed_touches_only_pending(e: EventView)
    ensures
        e.marked_missed().attendees.len() == e.attendees.len(),
        forall|i: int|
            0 <= i < e.attendees.len() && (#[trigger] e.attendees[i]).1 is Pending
                ==> e.marked_missed().attendees[i] == (e.attendees[i].0, ResponseStatus::Missed),
        forall|i: int|
            0 <= i < e.attendees.len() && !((#[trigger] e.attendees[i]).1 is Pending)
                ==> e.marked_missed().attendees[i] == e.attendees[i],
        e.marked_missed() == (EventView { attendees: e.marked_missed().attendees, ..e }),
{
}

/// Result of a tick operation — events that were fired or missed.
#[derive(Debug)]
pub struct TickResult {
    pub fired: Vec<u128>,
    pub missed: Vec<u128>,
}

/// Errors that can occur in the engine.
///
/// `Database` and `Serde` carry the message of a storage failure; the
/// logic here never produces them.
#[derive(Debug)]
pub enum TMinusError {
    EventNotFound(u128),
    CampaignNotFound(u128),
    NotAttendee(AgentId, u128),
    DependencyCycle(Vec<u128>),
    Database(String),
    Serde(String),
    InvalidInput(String),
}

} // verus!
