//! Reading the values a user types: durations such as `5m`, instants such
//! as `+1h` or an RFC 3339 date, and identifiers.

use vstd::prelude::*;

verus! {

/// The Unicode `White_Space` characters, which `str::trim` removes.
pub open spec fn is_white_space(c: char) -> bool {
    let u = c as u32;
    (9 <= u <= 13) || u == 32 || u == 0x85 || u == 0xA0 || u == 0x1680 || (0x2000 <= u <= 0x200A)
        || u == 0x2028 || u == 0x2029 || u == 0x202F || u == 0x205F || u == 0x3000
}

/// `s` without its leading white space.
pub open spec fn trim_start(s: Seq<char>) -> Seq<char>
    decreases s.len(),
{
    if s.len() > 0 && is_white_space(s[0]) {
        trim_start(s.drop_first())
    } else {
        s
    }
}

/// `s` without its trailing white space.
pub open spec fn trim_end(s: Seq<char>) -> Seq<char>
    decreases s.len(),
{
    if s.len() > 0 && is_white_space(s.last()) {
        trim_end(s.drop_last())
    } else {
        s
    }
}

/// `s` without leading and trailing white space, as `str::trim` gives it.
pub open spec fn trim(s: Seq<char>) -> Seq<char> {
    trim_end(trim_start(s))
}

/// `s` without any run of `c` at its end, as `str::trim_end_matches` gives
/// it for a single character.
pub open spec fn strip_end(s: Seq<char>, c: char) -> Seq<char>
    decreases s.len(),
{
    if s.len() > 0 && s.last() == c {
        strip_end(s.drop_last(), c)
    } else {
        s
    }
}

pub open spec fn is_ascii_digit(c: char) -> bool {
    48 <= (c as u32) <= 57
}

/// The value of a run of decimal digits.
pub open spec fn digits_value(d: Seq<char>) -> nat
    decreases d.len(),
{
    if d.len() == 0 {
        0
    } else {
        digits_value(d.drop_last()) * 10 + ((d.last() as u32) - 48) as nat
    }
}

/// Every character is an ASCII digit.
pub open spec fn all_digits(d: Seq<char>) -> bool {
    forall|i: int| 0 <= i < d.len() ==> is_ascii_digit(#[trigger] d[i])
}

/// `s` without its leading sign, if it has one.
pub open spec fn unsigned_part(s: Seq<char>) -> Seq<char> {
    if s.len() > 0 && (s[0] == '-' || s[0] == '+') {
        s.drop_first()
    } else {
        s
    }
}

/// What parsing `s` as an `i64` gives: an optional sign, then one or more
/// ASCII digits, with the value in range.
pub open spec fn parse_i64_text(s: Seq<char>) -> Option<int> {
    let neg = s.len() > 0 && s[0] == '-';
    let body = unsigned_part(s);
    if body.len() == 0 || !all_digits(body) {
        None
    } else {
        let v = if neg {
            -digits_value(body)
        } else {
            digits_value(body) as int
        };
        if i64::MIN <= v <= i64::MAX {
            Some(v)
        } else {
            None
        }
    }
}

/// Seconds per unit of a trimmed duration text, by its last letter; a bare
/// number counts seconds.
pub open spec fn duration_unit(t: Seq<char>) -> int {
    if t.len() > 0 && t.last() == 's' {
        1
    } else if t.len() > 0 && t.last() == 'm' {
        60
    } else if t.len() > 0 && t.last() == 'h' {
        3600
    } else if t.len() > 0 && t.last() == 'd' {
        86400
    } else {
        1
    }
}

/// Whether a trimmed duration text ends in one of the unit letters.
pub open spec fn has_unit(t: Seq<char>) -> bool {
    t.len() > 0 && (t.last() == 's' || t.last() == 'm' || t.last() == 'h' || t.last() == 'd')
}

/// The number part of a trimmed duration text.
pub open spec fn duration_number(t: Seq<char>) -> Seq<char> {
    if has_unit(t) {
        strip_end(t, t.last())
    } else {
        t
    }
}

/// The message for a trimmed duration text whose number does not parse.
pub open spec fn duration_error(t: Seq<char>) -> Seq<char> {
    if t.len() > 0 && t.last() == 's' {
        "invalid seconds: "@ + t
    } else if t.len() > 0 && t.last() == 'm' {
        "invalid minutes: "@ + t
    } else if t.len() > 0 && t.last() == 'h' {
        "invalid hours: "@ + t
    } else if t.len() > 0 && t.last() == 'd' {
        "invalid days: "@ + t
    } else {
        "invalid duration: "@ + t + " (use 60s, 5m, 1h)"@
    }
}

/// The largest number of whole seconds a duration can hold
/// (`i64::MAX` milliseconds).
pub open spec fn max_duration_secs() -> int {
    9223372036854775
}

/// The largest duration chrono holds, in nanoseconds (`i64::MAX`
/// milliseconds, `TimeDelta::MAX`).
pub open spec fn max_duration_nanos() -> int {
    9_223_372_036_854_775_807_000_000
}

/// A trimmed duration text whose number parses stays within the range of a
/// duration.
pub open spec fn duration_fits(t: Seq<char>) -> bool {
    match parse_i64_text(duration_number(t)) {
        Some(v) => -max_duration_secs() <= v * duration_unit(t) <= max_duration_secs(),
        None => true,
    }
}

/// What reading a duration gives, in nanoseconds, for an already trimmed
/// text.
pub open spec fn duration_result(t: Seq<char>) -> Result<int, Seq<char>> {
    match parse_i64_text(duration_number(t)) {
        Some(v) => Ok(v * duration_unit(t) * 1_000_000_000),
        None => Err(duration_error(t)),
    }
}

proof fn lemma_trim_start_step(s: Seq<char>, i: int)
    requires
        0 <= i < s.len(),
        is_white_space(s[i]),
    ensures
        trim_start(s.subrange(i, s.len() as int)) == trim_start(s.subrange(i + 1, s.len() as int)),
{
    let t = s.subrange(i, s.len() as int);
    assert(t.drop_first() =~= s.subrange(i + 1, s.len() as int));
}

proof fn lemma_trim_end_step(s: Seq<char>, j: int)
    requires
        0 < j <= s.len(),
        is_white_space(s[j - 1]),
    ensures
        trim_end(s.subrange(0, j)) == trim_end(s.subrange(0, j - 1)),
{
    assert(s.subrange(0, j).drop_last() =~= s.subrange(0, j - 1));
}

/// `s` without leading and trailing white space (as `str::trim`).
pub fn trim_text(s: &str) -> (r: &str)
    ensures
        r@ == trim(s@),
{
    let n = s.unicode_len();
    let mut i: usize = 0;
    proof {
        assert(s@.subrange(0, n as int) =~= s@);
    }
    while i < n && is_white_space_char(s.get_char(i))
        invariant
            n == s@.len(),
            i <= n,
            trim_start(s@) == trim_start(s@.subrange(i as int, n as int)),
        decreases n - i,
    {
        proof {
            lemma_trim_start_step(s@, i as int);
        }
        i = i + 1;
    }
    proof {
        assert(trim_start(s@.subrange(i as int, n as int)) == s@.subrange(i as int, n as int));
    }
    let t = s.substring_char(i, n);
    let m = t.unicode_len();
    let mut j: usize = m;
    proof {
        assert(t@.subrange(0, m as int) =~= t@);
    }
    while j > 0 && is_white_space_char(t.get_char(j - 1))
        invariant
            m == t@.len(),
            j <= m,
            trim_end(t@) == trim_end(t@.subrange(0, j as int)),
        decreases j,
    {
        proof {
            lemma_trim_end_step(t@, j as int);
        }
        j = j - 1;
    }
    proof {
        assert(t@.subrange(0, m as int) =~= t@);
        assert(trim_end(t@.subrange(0, j as int)) == t@.subrange(0, j as int));
    }
    t.substring_char(0, j)
}

fn is_white_space_char(c: char) -> (r: bool)
    ensures
        r == is_white_space(c),
{
    let u = c as u32;
    (9 <= u && u <= 13) || u == 32 || u == 0x85 || u == 0xA0 || u == 0x1680 || (0x2000 <= u && u
        <= 0x200A) || u == 0x2028 || u == 0x2029 || u == 0x202F || u == 0x205F || u == 0x3000
}

/// `s` without any run of `c` at its end.
fn strip_end_text(s: &str, c: char) -> (r: &str)
    ensures
        r@ == strip_end(s@, c),
{
    let m = s.unicode_len();
    let mut j: usize = m;
    proof {
        assert(s@.subrange(0, m as int) =~= s@);
    }
    while j > 0 && s.get_char(j - 1) == c
        invariant
            m == s@.len(),
            j <= m,
            strip_end(s@, c) == strip_end(s@.subrange(0, j as int), c),
        decreases j,
    {
        proof {
            assert(s@.subrange(0, j as int).drop_last() =~= s@.subrange(0, j - 1));
        }
        j = j - 1;
    }
    proof {
        assert(s@.subrange(0, m as int) =~= s@);
    }
    s.substring_char(0, j)
}

/// Parses an `i64` written in decimal with an optional sign.
pub fn parse_i64(s: &str) -> (r: Option<i64>)
    ensures
        match r {
            Some(v) => parse_i64_text(s@) == Some(v as int),
            None => parse_i64_text(s@) is None,
        },
{
    let n = s.unicode_len();
    let mut start: usize = 0;
    let mut neg = false;
    if n > 0 {
        let c = s.get_char(0);
        if c == '-' {
            neg = true;
            start = 1;
        } else if c == '+' {
            start = 1;
        }
    }
    let ghost body = unsigned_part(s@);
    proof {
        assert(body =~= s@.subrange(start as int, n as int));
    }
    if start == n {
        return None;
    }
    // digits_value of the prefix read so far, or `big` once it exceeds 2^63
    let mut acc: u128 = 0;
    let mut big = false;
    let mut k: usize = start;
    while k < n
        invariant
            n == s@.len(),
            start <= k <= n,
            start <= 1,
            body == unsigned_part(s@),
            neg == (s@.len() > 0 && s@[0] == '-'),
            body == s@.subrange(start as int, n as int),
            forall|i: int| 0 <= i < k - start ==> is_ascii_digit(#[trigger] body[i]),
            !big ==> acc == digits_value(body.subrange(0, k - start)) && acc <= 0x8000_0000_0000_0000u128,
            big ==> digits_value(body.subrange(0, k - start)) > 0x8000_0000_0000_0000u128,
        decreases n - k,
    {
        let c = s.get_char(k);
        if !is_digit_char(c) {
            proof {
                assert(body[k - start] == c);
                assert(!is_ascii_digit(body[k - start]));
                assert(body.len() > 0);
                assert(!all_digits(body));
            }
            return None;
        }
        let d = (c as u32 - 48) as u128;
        proof {
            let p = body.subrange(0, k - start);
            let q = body.subrange(0, k + 1 - start);
            assert(q.drop_last() =~= p);
            assert(q.last() == c);
            assert(digits_value(q) == digits_value(p) * 10 + d);
        }
        if !big {
            acc = acc * 10 + d;
            if acc > 0x8000_0000_0000_0000u128 {
                big = true;
            }
        }
        k = k + 1;
    }
    proof {
        assert(body.subrange(0, n - start) =~= body);
    }
    if big {
        return None;
    }
    if neg {
        if acc == 0x8000_0000_0000_0000u128 {
            Some(i64::MIN)
        } else {
            Some(-(acc as i64))
        }
    } else {
        if acc > 0x7FFF_FFFF_FFFF_FFFFu128 {
            None
        } else {
            Some(acc as i64)
        }
    }
}

fn is_digit_char(c: char) -> (r: bool)
    ensures
        r == is_ascii_digit(c),
{
    let u = c as u32;
    48 <= u && u <= 57
}

/// The number and the seconds per unit of a trimmed duration text.
fn duration_parts(t: &str) -> (r: (Option<i64>, i64))
    ensures
        r.1 == duration_unit(t@),
        match r.0 {
            Some(v) => parse_i64_text(duration_number(t@)) == Some(v as int),
            None => parse_i64_text(duration_number(t@)) is None,
        },
{
    let m = t.unicode_len();
    let last = if m > 0 {
        t.get_char(m - 1)
    } else {
        ' '
    };
    if m > 0 && (last == 's' || last == 'm' || last == 'h' || last == 'd') {
        let unit: i64 = if last == 's' {
            1
        } else if last == 'm' {
            60
        } else if last == 'h' {
            3600
        } else {
            86400
        };
        (parse_i64(strip_end_text(t, last)), unit)
    } else {
        (parse_i64(t), 1)
    }
}

/// Whether a duration text stays within the range of a duration (an
/// unreadable number counts as in range: it is refused with a message).
pub fn duration_in_range(s: &str) -> (r: bool)
    ensures
        r == duration_fits(trim(s@)),
{
    let t = trim_text(s);
    let (v, unit) = duration_parts(t);
    match v {
        Some(v) => {
            assert(-0x8000_0000_0000_0000i128 * 86400 <= (v as i128) * (unit as i128) <= 0x8000_0000_0000_0000i128 * 86400)
                by (nonlinear_arith)
                requires
                    i64::MIN <= v <= i64::MAX,
                    1 <= unit <= 86400,
            ;
            let x: i128 = (v as i128) * (unit as i128);
            -9223372036854775i128 <= x && x <= 9223372036854775i128
        },
        None => true,
    }
}

/// Reads a duration such as `60s`, `5m`, `1h`, `2d` or a bare number of
/// seconds, in nanoseconds.
pub fn parse_duration(s: &str) -> (r: Result<i128, String>)
    requires
        duration_fits(trim(s@)),
    ensures
        match duration_result(trim(s@)) {
            Ok(v) => r matches Ok(x) && x == v,
            Err(m) => r matches Err(e) && e@ == m,
        },
{
    let t = trim_text(s);
    let (v, unit) = duration_parts(t);
    match v {
        Some(v) => {
            let x: i128 = (v as i128) * (unit as i128) * 1_000_000_000;
            Ok(x)
        },
        None => {
            let m = t.unicode_len();
            let last = if m > 0 {
                t.get_char(m - 1)
            } else {
                ' '
            };
            let mut e = if m > 0 && last == 's' {
                String::from_str("invalid seconds: ")
            } else if m > 0 && last == 'm' {
                String::from_str("invalid minutes: ")
            } else if m > 0 && last == 'h' {
                String::from_str("invalid hours: ")
            } else if m > 0 && last == 'd' {
                String::from_str("invalid days: ")
            } else {
                String::from_str("invalid duration: ")
            };
            e.append(t);
            if !(m > 0 && (last == 's' || last == 'm' || last == 'h' || last == 'd')) {
                e.append(" (use 60s, 5m, 1h)");
            }
            Err(e)
        },
    }
}

/// What `str::parse::<chrono::DateTime<chrono::Utc>>` gives for a text (a
/// relaxed RFC 3339 date and time), as its `timestamp` (whole seconds since
/// the epoch) and `timestamp_subsec_nanos`, or the text of its error.
pub uninterp spec fn instant_parse(s: Seq<char>) -> Result<(i64, u32), Seq<char>>;

/// Parses an instant with chrono's `FromStr` for `DateTime<Utc>` and reads
/// it back with `timestamp` and `timestamp_subsec_nanos`; an error is kept
/// as its displayed text.  What chrono accepts is only named here
/// (`instant_parse`).
#[verifier::external_body]
pub(crate) fn parse_instant(s: &str) -> (r: Result<(i64, u32), String>)
    ensures
        match r {
            Ok(v) => instant_parse(s@) == Ok::<(i64, u32), Seq<char>>(v),
            Err(e) => instant_parse(s@) == Err::<(i64, u32), Seq<char>>(e@),
        },
{
    match s.parse::<chrono::DateTime<chrono::Utc>>() {
        Ok(dt) => Ok((dt.timestamp(), dt.timestamp_subsec_nanos())),
        Err(e) => Err(e.to_string()),
    }
}

/// The instant, in nanoseconds since the epoch, of whole seconds and a
/// count of nanoseconds past them.
pub open spec fn instant_nanos(p: (i64, u32)) -> int {
    p.0 * 1_000_000_000 + p.1
}

/// Counts an instant in nanoseconds from its seconds and nanoseconds.
pub fn nanos_from_parts(p: (i64, u32)) -> (r: i128)
    ensures
        r == instant_nanos(p),
{
    (p.0 as i128) * 1_000_000_000 + (p.1 as i128)
}

/// What `str::parse::<uuid::Uuid>` gives for a text, as its 128-bit value,
/// or the text of its error.
pub uninterp spec fn uuid_parse(s: Seq<char>) -> Result<u128, Seq<char>>;

/// Parses an identifier with uuid's `FromStr` for `Uuid` and reads it back
/// with `as_u128`; an error is kept as its displayed text.  Which spellings
/// uuid accepts is only named here (`uuid_parse`).
#[verifier::external_body]
pub(crate) fn parse_uuid_value(s: &str) -> (r: Result<u128, String>)
    ensures
        match r {
            Ok(v) => uuid_parse(s@) == Ok::<u128, Seq<char>>(v),
            Err(e) => uuid_parse(s@) == Err::<u128, Seq<char>>(e@),
        },
{
    match s.parse::<uuid::Uuid>() {
        Ok(u) => Ok(u.as_u128()),
        Err(e) => Err(e.to_string()),
    }
}

/// What reading a text as a `serde_json::Value` and writing the value back
/// with its `Display` gives: the JSON text serde_json writes for it, or the
/// text of the parse error.
pub uninterp spec fn json_text(s: Seq<char>) -> Result<Seq<char>, Seq<char>>;

/// Reads a text with `serde_json::from_str::<serde_json::Value>` and writes
/// the value back with `to_string`; an error is kept as its displayed text.
/// Which texts are JSON, and how serde_json writes them, is only named here
/// (`json_text`).
#[verifier::external_body]
pub(crate) fn canonical_json(s: &str) -> (r: Result<String, String>)
    ensures
        match r {
            Ok(t) => json_text(s@) == Ok::<Seq<char>, Seq<char>>(t@),
            Err(e) => json_text(s@) == Err::<Seq<char>, Seq<char>>(e@),
        },
{
    match serde_json::from_str::<serde_json::Value>(s) {
        Ok(v) => Ok(v.to_string()),
        Err(e) => Err(e.to_string()),
    }
}

/// A time text is relative when it starts with `+`.
pub open spec fn is_relative(s: Seq<char>) -> bool {
    s.len() > 0 && s[0] == '+'
}

/// A relative time text names a duration in range whose end, counted from
/// `now`, is an instant in range.
pub open spec fn time_fits(s: Seq<char>, now: int) -> bool {
    is_relative(s) ==> {
        let t = trim(s.drop_first());
        &&& duration_fits(t)
        &&& (duration_result(t) matches Ok(v) ==> i128::MIN <= now + v <= i128::MAX)
    }
}

/// What reading a time gives: `+` and a duration counts from `now`; any
/// other text is read as a date and time.
pub open spec fn time_result(s: Seq<char>, now: int) -> Result<int, Seq<char>> {
    if is_relative(s) {
        match duration_result(trim(s.drop_first())) {
            Ok(v) => Ok(now + v),
            Err(m) => Err(m),
        }
    } else {
        match instant_parse(s) {
            Ok(p) => Ok(instant_nanos(p)),
            Err(e) => Err("invalid time '"@ + s + "': "@ + e),
        }
    }
}

/// Reads a time: `+` and a duration (such as `+5m`) counts from `now`, in
/// nanoseconds; anything else is read as an RFC 3339 date and time.
pub fn parse_time(s: &str, now: i128) -> (r: Result<i128, String>)
    requires
        time_fits(s@, now as int),
    ensures
        match time_result(s@, now as int) {
            Ok(v) => r matches Ok(x) && x == v,
            Err(m) => r matches Err(e) && e@ == m,
        },
{
    let n = s.unicode_len();
    if n > 0 && s.get_char(0) == '+' {
        let rest = s.substring_char(1, n);
        proof {
            assert(rest@ =~= s@.drop_first());
        }
        let d = parse_duration(rest)?;
        Ok(now + d)
    } else {
        match parse_instant(s) {
            Ok(p) => Ok(nanos_from_parts(p)),
            Err(e) => {
                let mut m = String::from_str("invalid time '");
                m.append(s);
                m.append("': ");
                m.append(e.as_str());
                Err(m)
            },
        }
    }
}

/// What reading an identifier gives.
pub open spec fn uuid_result(s: Seq<char>) -> Result<u128, Seq<char>> {
    match uuid_parse(s) {
        Ok(v) => Ok(v),
        Err(e) => Err("invalid UUID '"@ + s + "': "@ + e),
    }
}

/// Reads an identifier written as a UUID.
pub fn parse_uuid(s: &str) -> (r: Result<u128, String>)
    ensures
        match uuid_result(s@) {
            Ok(v) => r matches Ok(x) && x == v,
            Err(m) => r matches Err(e) && e@ == m,
        },
{
    match parse_uuid_value(s) {
        Ok(v) => Ok(v),
        Err(e) => {
            let mut m = String::from_str("invalid UUID '");
            m.append(s);
            m.append("': ");
            m.append(e.as_str());
            Err(m)
        },
    }
}

} // verus!
