//! Stored rows: how an event or a campaign is written as text columns, and
//! how such columns are read back.
//!
//! An event row holds the identifier in hyphenated form, the kind's name,
//! the scheduled instant in RFC 3339, the countdown in whole seconds, the
//! organizer, the quorum, the payload and the attendees.  A campaign row
//! holds its identifier, name, events and dependencies, identifiers again in
//! hyphenated form.

use vstd::prelude::*;

use crate::campaign::{Campaign, CampaignView};
use crate::ids::{uuid_string, uuid_text};
use crate::input::{
    canonical_json, instant_nanos, instant_parse, json_text, max_duration_nanos, max_duration_secs, nanos_from_parts,
    parse_instant, parse_uuid_value, uuid_parse,
};
use crate::text::{kind_text, reads_kind, whole_seconds, whole_seconds_of, word_kind};
use crate::types::{copy_attendees, AgentId, Attendee, EventKind, EventView, TMinusError, TMinusEvent};

verus! {

/// What `chrono::DateTime::<Utc>::from_timestamp` followed by `to_rfc3339`
/// gives for an instant given as whole seconds and nanoseconds past them;
/// nothing when chrono cannot represent the instant.
pub uninterp spec fn instant_rfc3339(secs: i64, nanos: u32) -> Option<Seq<char>>;

/// Writes an instant as RFC 3339 text with chrono: `from_timestamp` (which
/// gives nothing outside chrono's range of dates) and `to_rfc3339`, which
/// writes as many digits of the fraction as it needs.  The text is only
/// named here (`instant_rfc3339`).  chrono's `FromStr` for `DateTime<Utc>`
/// (its relaxed RFC 3339 parser, which takes the signed years that
/// `to_rfc3339` writes outside 0..=9999, the fraction and the offset) reads
/// the text back as the same seconds and nanoseconds, which is claimed too.
#[verifier::external_body]
fn instant_text(secs: i64, nanos: u32) -> (r: Option<String>)
    requires
        nanos < 1_000_000_000,
    ensures
        match r {
            Some(t) => instant_rfc3339(secs, nanos) == Some(t@) && instant_parse(t@) == Ok::<
                (i64, u32),
                Seq<char>,
            >((secs, nanos)),
            None => instant_rfc3339(secs, nanos) is None,
        },
{
    match chrono::DateTime::<chrono::Utc>::from_timestamp(secs, nanos) {
        Some(dt) => Some(dt.to_rfc3339()),
        None => None,
    }
}

/// The whole seconds (rounded down) of an instant, and the nanoseconds past
/// them.
pub open spec fn instant_parts(ns: int) -> (int, int) {
    (ns / 1_000_000_000, ns % 1_000_000_000)
}

/// Splitting a negative instant through its distance below -1, which no
/// negation can overflow.
proof fn lemma_split_negative(ns: int, p: int)
    requires
        ns < 0,
        p == -(ns + 1),
    ensures
        instant_parts(ns) == (-(p / 1_000_000_000) - 1, 999_999_999 - p % 1_000_000_000),
{
    let d = 1_000_000_000int;
    vstd::arithmetic::div_mod::lemma_fundamental_div_mod(p, d);
    vstd::arithmetic::div_mod::lemma_mod_bound(p, d);
    vstd::arithmetic::div_mod::lemma_fundamental_div_mod_converse(
        ns,
        d,
        -(p / d) - 1,
        d - 1 - p % d,
    );
}

/// The whole seconds of an instant, when they fit chrono's count of
/// seconds, and the nanoseconds past them.
fn split_instant(ns: i128) -> (r: Option<(i64, u32)>)
    ensures
        match r {
            Some(p) => p.0 == instant_parts(ns as int).0 && p.1 == instant_parts(ns as int).1,
            None => !(i64::MIN <= instant_parts(ns as int).0 <= i64::MAX),
        },
{
    let (q, rem): (i128, i128) = if ns >= 0 {
        (ns / 1_000_000_000, ns % 1_000_000_000)
    } else {
        let p: i128 = -(ns + 1);
        proof {
            lemma_split_negative(ns as int, p as int);
            vstd::arithmetic::div_mod::lemma_mod_bound(p as int, 1_000_000_000);
        }
        (-(p / 1_000_000_000) - 1, 999_999_999 - p % 1_000_000_000)
    };
    proof {
        vstd::arithmetic::div_mod::lemma_mod_bound(ns as int, 1_000_000_000);
    }
    if q < -9223372036854775808i128 || q > 9223372036854775807i128 {
        None
    } else {
        Some((q as i64, rem as u32))
    }
}

/// The columns of a stored event.
#[derive(Debug)]
pub struct EventRow {
    pub id: String,
    pub kind: String,
    pub scheduled_at: String,
    pub t_minus_secs: i64,
    pub organizer: String,
    pub quorum: usize,
    pub payload: String,
    pub attendees: Vec<Attendee>,
}

/// `row` is what writing `e` gives.
pub open spec fn writes_row(e: EventView, row: EventRow) -> bool {
    &&& row.id@ == uuid_text(e.id)
    &&& uuid_parse(row.id@) == Ok::<u128, Seq<char>>(e.id)
    &&& row.kind@ == kind_text(e.kind)
    &&& instant_rfc3339(
        instant_parts(e.scheduled_at as int).0 as i64,
        instant_parts(e.scheduled_at as int).1 as u32,
    ) == Some(row.scheduled_at@)
    &&& instant_parse(row.scheduled_at@) matches Ok(p) && instant_nanos(p) == e.scheduled_at
    &&& row.t_minus_secs == whole_seconds(e.t_minus as int)
    &&& row.organizer == e.organizer.0
    &&& row.quorum == e.quorum
    &&& row.payload == e.payload
    &&& row.attendees@ == e.attendees
}

/// chrono can write the instant `ns`: its whole seconds fit chrono's count
/// of seconds, and the date is in chrono's range.
pub open spec fn instant_writable(ns: int) -> bool {
    &&& i64::MIN <= instant_parts(ns).0 <= i64::MAX
    &&& instant_rfc3339(instant_parts(ns).0 as i64, instant_parts(ns).1 as u32) is Some
}

/// The whole seconds of the countdown `ns` fit the row's column.
pub open spec fn countdown_writable(ns: int) -> bool {
    i64::MIN <= whole_seconds(ns) <= i64::MAX
}

/// Writes an event as the columns of its row.  Refused when chrono cannot
/// write the scheduled instant, or the countdown's whole seconds do not fit
/// the column (neither can happen to an instant or a duration that chrono
/// holds).
pub fn event_to_row(e: &TMinusEvent) -> (r: Result<EventRow, TMinusError>)
    ensures
        if !instant_writable(e.scheduled_at as int) {
            r matches Err(TMinusError::InvalidInput(m)) && m@ == "instant out of range"@
        } else if !countdown_writable(e.t_minus as int) {
            r matches Err(TMinusError::InvalidInput(m)) && m@ == "countdown out of range"@
        } else {
            r matches Ok(row) && writes_row(e@, row)
        },
{
    let at = match split_instant(e.scheduled_at) {
        Some(p) => {
            proof {
                vstd::arithmetic::div_mod::lemma_mod_bound(e.scheduled_at as int, 1_000_000_000);
            }
            match instant_text(p.0, p.1) {
                Some(t) => t,
                None => {
                    return Err(TMinusError::InvalidInput(String::from_str("instant out of range")));
                },
            }
        },
        None => {
            return Err(TMinusError::InvalidInput(String::from_str("instant out of range")));
        },
    };
    let secs = whole_seconds_of(e.t_minus);
    if secs < -9223372036854775808i128 || secs > 9223372036854775807i128 {
        return Err(TMinusError::InvalidInput(String::from_str("countdown out of range")));
    }
    Ok(
        EventRow {
            id: uuid_string(e.id),
            kind: e.kind.to_string(),
            scheduled_at: at,
            t_minus_secs: secs as i64,
            organizer: e.organizer.0.clone(),
            quorum: e.quorum,
            payload: e.payload.clone(),
            attendees: copy_attendees(&e.attendees),
        },
    )
}

/// `ev` is the event that a row reads as, once its identifier `id` and
/// instant `at` are read.
pub open spec fn reads_as(
    ev: EventView,
    id: u128,
    kind: Seq<char>,
    at: int,
    t_minus_secs: i64,
    organizer: String,
    quorum: usize,
    payload: Seq<char>,
    attendees: Seq<Attendee>,
) -> bool {
    &&& ev.id == id
    &&& reads_kind(kind, ev.kind)
    &&& ev.scheduled_at == at
    &&& ev.t_minus == t_minus_secs * 1_000_000_000
    &&& ev.organizer == AgentId(organizer)
    &&& ev.quorum == quorum
    &&& ev.payload@ == payload
    &&& ev.attendees == attendees
}

/// A row whose identifier and instant read has a countdown that a duration
/// can hold.
pub open spec fn countdown_readable(id: Seq<char>, at: Seq<char>, t_minus_secs: i64) -> bool {
    (uuid_parse(id) is Ok && instant_parse(at) is Ok) ==> -max_duration_secs() <= t_minus_secs
        <= max_duration_secs()
}

/// What reading an event row gives: the identifier is read first ("bad
/// uuid"), then the instant ("bad datetime"), then the payload must be
/// JSON, and is kept as serde_json writes it back; the countdown is in
/// seconds.
pub open spec fn event_row_outcome(
    id: Seq<char>,
    kind: Seq<char>,
    at: Seq<char>,
    t_minus_secs: i64,
    organizer: String,
    quorum: usize,
    payload: String,
    attendees: Seq<Attendee>,
    r: Result<TMinusEvent, TMinusError>,
) -> bool {
    match uuid_parse(id) {
        Err(e) => r matches Err(TMinusError::InvalidInput(m)) && m@ == "bad uuid: "@ + e,
        Ok(idv) => match instant_parse(at) {
            Err(e) => r matches Err(TMinusError::InvalidInput(m)) && m@ == "bad datetime: "@ + e,
            Ok(atv) => match json_text(payload@) {
                Err(e) => r matches Err(TMinusError::Serde(m)) && m@ == e,
                Ok(text) => r matches Ok(ev) && reads_as(
                    ev@,
                    idv,
                    kind,
                    instant_nanos(atv),
                    t_minus_secs,
                    organizer,
                    quorum,
                    text,
                    attendees,
                ),
            },
        },
    }
}

/// Reads an event from the columns of its row.
pub fn event_from_row(
    id: &str,
    kind: &str,
    scheduled_at: &str,
    t_minus_secs: i64,
    organizer: String,
    quorum: usize,
    payload: String,
    attendees: Vec<Attendee>,
) -> (r: Result<TMinusEvent, TMinusError>)
    requires
        countdown_readable(id@, scheduled_at@, t_minus_secs),
    ensures
        event_row_outcome(
            id@,
            kind@,
            scheduled_at@,
            t_minus_secs,
            organizer,
            quorum,
            payload,
            attendees@,
            r,
        ),
{
    let idv = match parse_uuid_value(id) {
        Ok(v) => v,
        Err(e) => {
            let mut m = String::from_str("bad uuid: ");
            m.append(e.as_str());
            return Err(TMinusError::InvalidInput(m));
        },
    };
    let k = EventKind::parse_name(kind);
    let at = match parse_instant(scheduled_at) {
        Ok(p) => nanos_from_parts(p),
        Err(e) => {
            let mut m = String::from_str("bad datetime: ");
            m.append(e.as_str());
            return Err(TMinusError::InvalidInput(m));
        },
    };
    let t_minus = (t_minus_secs as i128) * 1_000_000_000;
    let payload = match canonical_json(payload.as_str()) {
        Ok(t) => t,
        Err(e) => {
            return Err(TMinusError::Serde(e));
        },
    };
    Ok(
        TMinusEvent {
            id: idv,
            kind: k,
            scheduled_at: at,
            t_minus,
            organizer: AgentId(organizer),
            attendees,
            quorum,
            payload,
        },
    )
}

/// Reads an event from the columns of its row, or gives nothing where the
/// row's countdown is beyond what a duration can hold (where reading such a
/// row stops the program).
pub fn try_event_from_row(
    id: &str,
    kind: &str,
    scheduled_at: &str,
    t_minus_secs: i64,
    organizer: String,
    quorum: usize,
    payload: String,
    attendees: Vec<Attendee>,
) -> (r: Option<Result<TMinusEvent, TMinusError>>)
    ensures
        r is None <==> !countdown_readable(id@, scheduled_at@, t_minus_secs),
        r matches Some(x) ==> event_row_outcome(
            id@,
            kind@,
            scheduled_at@,
            t_minus_secs,
            organizer,
            quorum,
            payload,
            attendees@,
            x,
        ),
{
    let id_ok = match parse_uuid_value(id) {
        Ok(_) => true,
        Err(_) => false,
    };
    let at_ok = match parse_instant(scheduled_at) {
        Ok(_) => true,
        Err(_) => false,
    };
    if id_ok && at_ok && (t_minus_secs < -9223372036854775i64 || t_minus_secs > 9223372036854775i64) {
        None
    } else {
        Some(
            event_from_row(
                id,
                kind,
                scheduled_at,
                t_minus_secs,
                organizer,
                quorum,
                payload,
                attendees,
            ),
        )
    }
}

/// A row written from an event reads back as that very event, where
/// serde_json writes the payload back as it stands (true of the JSON it
/// writes itself, barring floating-point numbers, which it reads back only
/// to the nearest value) and the kind is one of the four word kinds (a
/// custom kind is written with its `custom:` prefix and reads back as
/// another custom kind); the countdown is a duration chrono holds, in whole
/// seconds, which is all a row keeps.  Payloads are compared as texts.
pub proof fn law_event_row_round_trip(e: EventView, row: EventRow, ev: EventView)
    requires
        writes_row(e, row),
        json_text(e.payload@) == Ok::<Seq<char>, Seq<char>>(e.payload@),
        e.t_minus % 1_000_000_000 == 0,
        -max_duration_nanos() <= e.t_minus <= max_duration_nanos(),
        !(e.kind is Custom),
        reads_as(
            ev,
            e.id,
            row.kind@,
            e.scheduled_at as int,
            row.t_minus_secs,
            row.organizer,
            row.quorum,
            e.payload@,
            row.attendees@,
        ),
    ensures
        countdown_readable(row.id@, row.scheduled_at@, row.t_minus_secs),
        uuid_parse(row.id@) == Ok::<u128, Seq<char>>(e.id),
        instant_parse(row.scheduled_at@) matches Ok(p) && instant_nanos(p) == e.scheduled_at,
        json_text(row.payload@) == Ok::<Seq<char>, Seq<char>>(e.payload@),
        ev.payload@ == e.payload@,
        ev == (EventView { payload: ev.payload, ..e }),
{
    let x = kind_text(e.kind);
    reveal_strlit("meeting");
    reveal_strlit("checkpoint");
    reveal_strlit("review");
    reveal_strlit("deploy");
    assert(word_kind(x) == Some(e.kind)) by {
        match e.kind {
            EventKind::Meeting => {},
            EventKind::Checkpoint => {
                assert(x.len() != "meeting"@.len());
            },
            EventKind::Review => {
                assert(x.len() != "meeting"@.len() && x.len() != "checkpoint"@.len());
            },
            EventKind::Deploy => {
                assert(x.len() != "meeting"@.len() && x.len() != "checkpoint"@.len());
                assert(x[0] != "review"@[0]);
            },
            EventKind::Custom(_) => {},
        }
    }
    assert(ev.t_minus == e.t_minus);
    assert(ev.organizer == e.organizer);
}

/// The columns of a stored campaign.
#[derive(Debug)]
pub struct CampaignRow {
    pub id: String,
    pub name: String,
    pub events: Vec<String>,
    pub dependencies: Vec<(String, String)>,
}

/// Reading a list of identifiers in order: the first that does not read
/// gives its error.
pub open spec fn ids_read(ss: Seq<String>) -> Result<Seq<u128>, Seq<char>>
    decreases ss.len(),
{
    if ss.len() == 0 {
        Ok(Seq::empty())
    } else {
        match ids_read(ss.drop_last()) {
            Err(e) => Err(e),
            Ok(v) => match uuid_parse(ss.last()@) {
                Ok(x) => Ok(v.push(x)),
                Err(e) => Err(e),
            },
        }
    }
}

/// Reading a list of identifier pairs in order, each pair left to right.
pub open spec fn pairs_read(ps: Seq<(String, String)>) -> Result<Seq<(u128, u128)>, Seq<char>>
    decreases ps.len(),
{
    if ps.len() == 0 {
        Ok(Seq::empty())
    } else {
        match pairs_read(ps.drop_last()) {
            Err(e) => Err(e),
            Ok(v) => match uuid_parse(ps.last().0@) {
                Err(e) => Err(e),
                Ok(a) => match uuid_parse(ps.last().1@) {
                    Err(e) => Err(e),
                    Ok(b) => Ok(v.push((a, b))),
                },
            },
        }
    }
}

/// The campaign that a row reads as, when every identifier in it reads.
pub open spec fn campaign_read(
    id: Seq<char>,
    name: String,
    events: Seq<String>,
    dependencies: Seq<(String, String)>,
) -> Option<CampaignView> {
    match (uuid_parse(id), ids_read(events), pairs_read(dependencies)) {
        (Ok(i), Ok(evs), Ok(deps)) => Some(
            CampaignView { id: i, name, events: evs, dependencies: deps },
        ),
        _ => None,
    }
}

/// `row` is what writing `c` gives.
pub open spec fn writes_campaign_row(c: CampaignView, row: CampaignRow) -> bool {
    &&& row.id@ == uuid_text(c.id)
    &&& uuid_parse(row.id@) == Ok::<u128, Seq<char>>(c.id)
    &&& row.name == c.name
    &&& row.events.len() == c.events.len()
    &&& forall|i: int| 0 <= i < c.events.len() ==> (#[trigger] row.events@[i])@ == uuid_text(c.events[i])
    &&& ids_read(row.events@) == Ok::<Seq<u128>, Seq<char>>(c.events)
    &&& row.dependencies.len() == c.dependencies.len()
    &&& forall|i: int|
        0 <= i < c.dependencies.len() ==> (#[trigger] row.dependencies@[i]).0@ == uuid_text(
            c.dependencies[i].0,
        ) && row.dependencies@[i].1@ == uuid_text(c.dependencies[i].1)
    &&& pairs_read(row.dependencies@) == Ok::<Seq<(u128, u128)>, Seq<char>>(c.dependencies)
}

/// Writes a campaign as the columns of its row.
pub fn campaign_to_row(c: &Campaign) -> (r: CampaignRow)
    ensures
        writes_campaign_row(c@, r),
{
    let mut events: Vec<String> = Vec::new();
    let mut i: usize = 0;
    proof {
        assert(c.events@.take(0) =~= Seq::<u128>::empty());
    }
    while i < c.events.len()
        invariant
            i <= c.events.len(),
            events.len() == i,
            forall|k: int| 0 <= k < i ==> (#[trigger] events@[k])@ == uuid_text(c.events@[k]),
            ids_read(events@) == Ok::<Seq<u128>, Seq<char>>(c.events@.take(i as int)),
        decreases c.events.len() - i,
    {
        let ghost before = events@;
        let s = uuid_string(c.events[i]);
        events.push(s);
        proof {
            assert(events@.drop_last() == before);
            assert(c.events@.take(i + 1) =~= c.events@.take(i as int).push(c.events@[i as int]));
        }
        i = i + 1;
    }
    proof {
        assert(c.events@.take(c.events.len() as int) =~= c.events@);
    }
    let mut deps: Vec<(String, String)> = Vec::new();
    let mut j: usize = 0;
    proof {
        assert(c.dependencies@.take(0) =~= Seq::<(u128, u128)>::empty());
    }
    while j < c.dependencies.len()
        invariant
            j <= c.dependencies.len(),
            deps.len() == j,
            forall|k: int|
                0 <= k < j ==> (#[trigger] deps@[k]).0@ == uuid_text(c.dependencies@[k].0)
                    && deps@[k].1@ == uuid_text(c.dependencies@[k].1),
            pairs_read(deps@) == Ok::<Seq<(u128, u128)>, Seq<char>>(
                c.dependencies@.take(j as int),
            ),
        decreases c.dependencies.len() - j,
    {
        let ghost before = deps@;
        let (a, b) = c.dependencies[j];
        let sa = uuid_string(a);
        let sb = uuid_string(b);
        deps.push((sa, sb));
        proof {
            assert(deps@.drop_last() == before);
            assert(c.dependencies@.take(j + 1) =~= c.dependencies@.take(j as int).push(
                c.dependencies@[j as int],
            ));
        }
        j = j + 1;
    }
    proof {
        assert(c.dependencies@.take(c.dependencies.len() as int) =~= c.dependencies@);
    }
    CampaignRow { id: uuid_string(c.id), name: c.name.clone(), events, dependencies: deps }
}

/// Reads a list of identifiers; the first that does not read gives its
/// error.
fn read_ids(ss: &Vec<String>) -> (r: Result<Vec<u128>, String>)
    ensures
        match ids_read(ss@) {
            Ok(v) => r matches Ok(x) && x@ == v,
            Err(e) => r matches Err(m) && m@ == e,
        },
{
    let mut out: Vec<u128> = Vec::new();
    let mut i: usize = 0;
    while i < ss.len()
        invariant
            i <= ss.len(),
            ids_read(ss@.take(i as int)) == Ok::<Seq<u128>, Seq<char>>(out@),
        decreases ss.len() - i,
    {
        proof {
            assert(ss@.take(i + 1).drop_last() =~= ss@.take(i as int));
            assert(ss@.take(i + 1).last() == ss@[i as int]);
        }
        match parse_uuid_value(ss[i].as_str()) {
            Ok(x) => {
                out.push(x);
            },
            Err(e) => {
                proof {
                    lemma_ids_read_stays_err(ss@, i as int + 1);
                }
                return Err(e);
            },
        }
        i = i + 1;
    }
    proof {
        assert(ss@.take(ss.len() as int) =~= ss@);
    }
    Ok(out)
}

/// Once a prefix fails to read, the whole list fails with the same error.
proof fn lemma_ids_read_stays_err(ss: Seq<String>, k: int)
    requires
        0 <= k <= ss.len(),
        ids_read(ss.take(k)) is Err,
    ensures
        ids_read(ss) == ids_read(ss.take(k)),
    decreases ss.len() - k,
{
    if k == ss.len() {
        assert(ss.take(k) =~= ss);
    } else {
        assert(ss.take(k + 1).drop_last() =~= ss.take(k));
        lemma_ids_read_stays_err(ss, k + 1);
    }
}

/// Once a prefix fails to read, the whole list fails with the same error.
proof fn lemma_pairs_read_stays_err(ps: Seq<(String, String)>, k: int)
    requires
        0 <= k <= ps.len(),
        pairs_read(ps.take(k)) is Err,
    ensures
        pairs_read(ps) == pairs_read(ps.take(k)),
    decreases ps.len() - k,
{
    if k == ps.len() {
        assert(ps.take(k) =~= ps);
    } else {
        assert(ps.take(k + 1).drop_last() =~= ps.take(k));
        lemma_pairs_read_stays_err(ps, k + 1);
    }
}

/// Reads a list of identifier pairs, each left to right.
fn read_pairs(ps: &Vec<(String, String)>) -> (r: Result<Vec<(u128, u128)>, String>)
    ensures
        match pairs_read(ps@) {
            Ok(v) => r matches Ok(x) && x@ == v,
            Err(e) => r matches Err(m) && m@ == e,
        },
{
    let mut out: Vec<(u128, u128)> = Vec::new();
    let mut i: usize = 0;
    while i < ps.len()
        invariant
            i <= ps.len(),
            pairs_read(ps@.take(i as int)) == Ok::<Seq<(u128, u128)>, Seq<char>>(out@),
        decreases ps.len() - i,
    {
        proof {
            assert(ps@.take(i + 1).drop_last() =~= ps@.take(i as int));
            assert(ps@.take(i + 1).last() == ps@[i as int]);
        }
        let a = match parse_uuid_value(ps[i].0.as_str()) {
            Ok(x) => x,
            Err(e) => {
                proof {
                    lemma_pairs_read_stays_err(ps@, i as int + 1);
                }
                return Err(e);
            },
        };
        let b = match parse_uuid_value(ps[i].1.as_str()) {
            Ok(x) => x,
            Err(e) => {
                proof {
                    lemma_pairs_read_stays_err(ps@, i as int + 1);
                }
                return Err(e);
            },
        };
        out.push((a, b));
        i = i + 1;
    }
    proof {
        assert(ps@.take(ps.len() as int) =~= ps@);
    }
    Ok(out)
}

/// Reads a campaign from the columns of its row: the identifier first
/// ("bad uuid"), then its events, then its dependencies, whose first
/// unreadable identifier gives the error.
pub fn campaign_from_row(
    id: &str,
    name: String,
    events: Vec<String>,
    dependencies: Vec<(String, String)>,
) -> (r: Result<Campaign, TMinusError>)
    ensures
        match uuid_parse(id@) {
            Err(e) => r matches Err(TMinusError::InvalidInput(m)) && m@ == "bad uuid: "@ + e,
            Ok(_) => match ids_read(events@) {
                Err(e) => r matches Err(TMinusError::Serde(m)) && m@ == e,
                Ok(_) => match pairs_read(dependencies@) {
                    Err(e) => r matches Err(TMinusError::Serde(m)) && m@ == e,
                    Ok(_) => r matches Ok(c) && campaign_read(id@, name, events@, dependencies@)
                        == Some(c@),
                },
            },
        },
{
    let idv = match parse_uuid_value(id) {
        Ok(v) => v,
        Err(e) => {
            let mut m = String::from_str("bad uuid: ");
            m.append(e.as_str());
            return Err(TMinusError::InvalidInput(m));
        },
    };
    let evs = match read_ids(&events) {
        Ok(v) => v,
        Err(e) => {
            return Err(TMinusError::Serde(e));
        },
    };
    let deps = match read_pairs(&dependencies) {
        Ok(v) => v,
        Err(e) => {
            return Err(TMinusError::Serde(e));
        },
    };
    Ok(Campaign { id: idv, name, events: evs, dependencies: deps })
}

/// A row written from a campaign reads back as that very campaign.
pub proof fn law_campaign_row_round_trip(c: CampaignView, row: CampaignRow)
    requires
        writes_campaign_row(c, row),
    ensures
        campaign_read(row.id@, row.name, row.events@, row.dependencies@) == Some(c),
{
}

} // verus!
