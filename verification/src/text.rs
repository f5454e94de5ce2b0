//! The text that the library reads and writes: names of kinds and responses,
//! decimal numbers, and error messages.

use vstd::prelude::*;

use crate::ids::{uuid_string, uuid_text};
use crate::types::{EventKind, ResponseStatus, TMinusEvent};

verus! {

/// The message for an event that a campaign does not hold.
pub open spec fn not_in_campaign_text(id: u128) -> Seq<char> {
    "event "@ + uuid_text(id) + " not in campaign"@
}

/// Writes the message for an event that a campaign does not hold.
pub fn not_in_campaign_message(id: u128) -> (s: String)
    ensures
        s@ == not_in_campaign_text(id),
{
    let mut s = String::from_str("event ");
    let u = uuid_string(id);
    s.append(u.as_str());
    s.append(" not in campaign");
    s
}

/// The character of the decimal digit `d`.
pub open spec fn digit_char(d: int) -> char {
    (48 + d) as char
}

/// The decimal digits of `n`, most significant first, with no leading zero.
pub open spec fn digits(n: nat) -> Seq<char>
    decreases n,
{
    if n < 10 {
        seq![digit_char(n as int)]
    } else {
        digits(n / 10) + seq![digit_char((n % 10) as int)]
    }
}

/// `n` written in decimal, with a leading minus sign when negative.
pub open spec fn decimal(n: int) -> Seq<char> {
    if n < 0 {
        seq!['-'] + digits((-n) as nat)
    } else {
        digits(n as nat)
    }
}

/// The whole seconds in `ns` nanoseconds, rounded toward zero.
pub open spec fn whole_seconds(ns: int) -> int {
    if ns >= 0 {
        ns / 1_000_000_000
    } else {
        -((-ns) / 1_000_000_000)
    }
}

/// The whole seconds in `ns` nanoseconds, rounded toward zero (as chrono's
/// `TimeDelta::num_seconds`).
pub fn whole_seconds_of(ns: i128) -> (r: i128)
    ensures
        r == whole_seconds(ns as int),
{
    if ns >= 0 {
        ns / 1_000_000_000
    } else if ns == i128::MIN {
        proof {
            vstd::arithmetic::div_mod::lemma_fundamental_div_mod_converse(
                170141183460469231731687303715884105728int,
                1_000_000_000int,
                170141183460469231731687303715int,
                884105728int,
            );
        }
        -170141183460469231731687303715i128
    } else {
        -((-ns) / 1_000_000_000)
    }
}

/// The name of a kind: its word, or `custom:` and its own name.
pub open spec fn kind_text(k: EventKind) -> Seq<char> {
    match k {
        EventKind::Meeting => "meeting"@,
        EventKind::Checkpoint => "checkpoint"@,
        EventKind::Review => "review"@,
        EventKind::Deploy => "deploy"@,
        EventKind::Custom(s) => "custom:"@ + s@,
    }
}

/// The name of a response; a deferral shows its whole seconds.
pub open spec fn status_text(s: ResponseStatus) -> Seq<char> {
    match s {
        ResponseStatus::Pending => "pending"@,
        ResponseStatus::Confirmed => "confirmed"@,
        ResponseStatus::Deferred(ns) => "deferred:"@ + decimal(whole_seconds(ns as int)) + "s"@,
        ResponseStatus::Missed => "missed"@,
    }
}

/// `k` is what the lower-cased name `name` stands for: one of the four
/// words, or else a custom kind under exactly that name.
pub open spec fn names_kind(name: Seq<char>, k: EventKind) -> bool {
    match k {
        EventKind::Meeting => name == "meeting"@,
        EventKind::Checkpoint => name == "checkpoint"@,
        EventKind::Review => name == "review"@,
        EventKind::Deploy => name == "deploy"@,
        EventKind::Custom(s) => s@ == name && name != "meeting"@ && name != "checkpoint"@ && name
            != "review"@ && name != "deploy"@,
    }
}

/// The word kind spelled exactly `name`, if any.
pub open spec fn word_kind(name: Seq<char>) -> Option<EventKind> {
    if name == "meeting"@ {
        Some(EventKind::Meeting)
    } else if name == "checkpoint"@ {
        Some(EventKind::Checkpoint)
    } else if name == "review"@ {
        Some(EventKind::Review)
    } else if name == "deploy"@ {
        Some(EventKind::Deploy)
    } else {
        None
    }
}

/// `k` is the kind that `name` stands for, whatever its case: a name spelled
/// exactly as a word kind is that kind (lower-casing leaves it as it is);
/// any other name is read once lower-cased.
pub open spec fn reads_kind(name: Seq<char>, k: EventKind) -> bool {
    match word_kind(name) {
        Some(w) => k == w,
        None => names_kind(lowercase(name), k),
    }
}

/// What `str::to_lowercase` gives for a text.
pub uninterp spec fn lowercase(s: Seq<char>) -> Seq<char>;

/// Lower-cases a text with `str::to_lowercase`, by the Unicode `Lowercase`
/// property.  What it gives is only named here (`lowercase`), not spelled
/// out.
#[verifier::external_body]
fn to_lowercase(s: &str) -> (r: String)
    ensures
        r@ == lowercase(s@),
{
    s.to_lowercase()
}

/// The text of one decimal digit.
fn digit_str(d: u64) -> (r: &'static str)
    requires
        d < 10,
    ensures
        r@ == seq![digit_char(d as int)],
{
    proof {
        reveal_strlit("0");
        reveal_strlit("1");
        reveal_strlit("2");
        reveal_strlit("3");
        reveal_strlit("4");
        reveal_strlit("5");
        reveal_strlit("6");
        reveal_strlit("7");
        reveal_strlit("8");
        reveal_strlit("9");
    }
    let r = if d == 0 {
        "0"
    } else if d == 1 {
        "1"
    } else if d == 2 {
        "2"
    } else if d == 3 {
        "3"
    } else if d == 4 {
        "4"
    } else if d == 5 {
        "5"
    } else if d == 6 {
        "6"
    } else if d == 7 {
        "7"
    } else if d == 8 {
        "8"
    } else {
        "9"
    };
    proof {
        assert(r@ =~= seq![digit_char(d as int)]);
    }
    r
}

/// Appends the decimal digits of `n`.
fn push_digits(s: &mut String, n: u128)
    ensures
        final(s)@ == old(s)@ + digits(n as nat),
    decreases n,
{
    if n >= 10 {
        push_digits(s, n / 10);
        s.append(digit_str((n % 10) as u64));
        proof {
            assert(final(s)@ =~= old(s)@ + digits(n as nat));
        }
    } else {
        s.append(digit_str(n as u64));
    }
}

/// `n` written in decimal.
pub fn decimal_string(n: i128) -> (s: String)
    ensures
        s@ == decimal(n as int),
{
    let mut s = String::new();
    if n < 0 {
        s.append("-");
        let m: u128 = if n == i128::MIN {
            170141183460469231731687303715884105728u128
        } else {
            (-n) as u128
        };
        push_digits(&mut s, m);
        proof {
            reveal_strlit("-");
            assert(s@ =~= decimal(n as int));
        }
    } else {
        push_digits(&mut s, n as u128);
        proof {
            assert(s@ =~= decimal(n as int));
        }
    }
    s
}

impl EventKind {
    /// The name of the kind, as it is displayed.
    pub fn to_string(&self) -> (r: String)
        ensures
            r@ == kind_text(*self),
    {
        match self {
            EventKind::Meeting => String::from_str("meeting"),
            EventKind::Checkpoint => String::from_str("checkpoint"),
            EventKind::Review => String::from_str("review"),
            EventKind::Deploy => String::from_str("deploy"),
            EventKind::Custom(s) => {
                let mut r = String::from_str("custom:");
                r.append(s.as_str());
                r
            },
        }
    }

    /// The kind that an already lower-cased name stands for.
    pub fn from_lowercase(name: &str) -> (r: EventKind)
        ensures
            names_kind(name@, r),
    {
        let t = String::from_str(name);
        if t == String::from_str("meeting") {
            EventKind::Meeting
        } else if t == String::from_str("checkpoint") {
            EventKind::Checkpoint
        } else if t == String::from_str("review") {
            EventKind::Review
        } else if t == String::from_str("deploy") {
            EventKind::Deploy
        } else {
            EventKind::Custom(t)
        }
    }

    /// The kind that a name stands for, whatever its case.  A name already
    /// spelled as a word kind is taken as it stands.
    pub fn parse_name(s: &str) -> (r: EventKind)
        ensures
            reads_kind(s@, r),
    {
        let t = String::from_str(s);
        if t == String::from_str("meeting") {
            EventKind::Meeting
        } else if t == String::from_str("checkpoint") {
            EventKind::Checkpoint
        } else if t == String::from_str("review") {
            EventKind::Review
        } else if t == String::from_str("deploy") {
            EventKind::Deploy
        } else {
            let lower = to_lowercase(s);
            EventKind::from_lowercase(lower.as_str())
        }
    }
}

impl std::str::FromStr for EventKind {
    type Err = String;

    fn from_str(s: &str) -> (r: Result<EventKind, String>)
        ensures
            r matches Ok(k) && reads_kind(s@, k),
    {
        Ok(EventKind::parse_name(s))
    }
}

impl ResponseStatus {
    /// The name of the response, as it is displayed.
    pub fn to_string(&self) -> (r: String)
        ensures
            r@ == status_text(*self),
    {
        match self {
            ResponseStatus::Pending => String::from_str("pending"),
            ResponseStatus::Confirmed => String::from_str("confirmed"),
            ResponseStatus::Deferred(ns) => {
                let secs = whole_seconds_of(*ns);
                let mut r = String::from_str("deferred:");
                let d = decimal_string(secs);
                r.append(d.as_str());
                r.append("s");
                r
            },
            ResponseStatus::Missed => String::from_str("missed"),
        }
    }
}

/// Each of the four word kinds reads back from its own name.
pub proof fn law_word_kinds_read_back(k: EventKind)
    requires
        !(k is Custom),
    ensures
        names_kind(kind_text(k), k),
{
}

/// The countdown shown for an event with `remaining` nanoseconds to go:
/// `READY` once it is due, else minutes and seconds left.
pub open spec fn countdown_text(remaining: int) -> Seq<char> {
    if remaining <= 0 {
        "READY"@
    } else {
        "T-"@ + decimal(remaining / 60_000_000_000) + "m"@ + decimal(
            (remaining % 60_000_000_000) / 1_000_000_000,
        ) + "s"@
    }
}

impl TMinusEvent {
    /// The countdown to the fire time at `now`, as shown in a status list.
    pub fn countdown_label(&self, now: i128) -> (r: String)
        requires
            i128::MIN <= self@.fire_time() <= i128::MAX,
            i128::MIN <= self@.fire_time() - now <= i128::MAX,
        ensures
            r@ == countdown_text(self@.fire_time() - now),
    {
        let remaining = self.time_remaining(now);
        if remaining <= 0 {
            String::from_str("READY")
        } else {
            let minutes = remaining / 60_000_000_000;
            let seconds = (remaining - minutes * 60_000_000_000) / 1_000_000_000;
            let mut r = String::from_str("T-");
            r.append(decimal_string(minutes).as_str());
            r.append("m");
            r.append(decimal_string(seconds).as_str());
            r.append("s");
            r
        }
    }
}

} // verus!
