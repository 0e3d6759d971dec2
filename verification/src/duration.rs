//! Durations as people write them (`1h 33m`, `90s`, `500ms`) and as a
//! board prints them.
use vstd::prelude::*;
use vstd::string::*;

use crate::text::{trim, trim_chars, parse_u64, parse_u64_spec, string_of, cat, debug_char, debug_quote, debug_quote_char, debug_str, decimal, decimal2, decimal2_string, decimal_string, digits_value, is_digit, is_ws, push_char, strip_ws, without_ws, chars_of, exec_is_ws, lemma_digits_value_prefix, digit_value, all_digits, lemma_decimal_digits, lemma_strip_ws_concat, lemma_strip_ws_none, decimal_string_wide};

verus! {

broadcast use vstd::string::group_string_axioms;

/// The seconds a formatter works from: negative input reads as zero.
pub open spec fn clamp0(seconds: i64) -> nat {
    if seconds < 0 { 0 } else { seconds as nat }
}

/// Fish-compatible compact form, as a sequence of chars: the minutes
/// are rounded UP, and sixty of them carry into the hours.
pub open spec fn compact_text(seconds: i64) -> Seq<char> {
    let s = clamp0(seconds);
    let hours0 = s / 3600;
    let minutes0 = (s % 3600 + 59) / 60;
    let (hours, minutes) = if minutes0 == 60 { (hours0 + 1, 0nat) } else { (hours0, minutes0) };
    if hours > 0 {
        decimal(hours) + seq!['h', ' '] + decimal2(minutes) + seq!['m']
    } else {
        decimal(minutes) + seq!['m']
    }
}

/// Fish-script-compatible compact form: ceil the minutes, carry into hours.
pub fn format_compact(seconds: i64) -> (r: String)
    ensures
        r@ == compact_text(seconds),
{
    let s: u64 = if seconds < 0 { 0 } else { seconds as u64 };
    let mut hours: u64 = s / 3600;
    let mut minutes: u64 = (s % 3600 + 59) / 60;
    if minutes == 60 {
        hours = hours + 1;
        minutes = 0;
    }
    if hours > 0 {
        let mut r = decimal_string(hours);
        r.append("h ");
        let m = decimal2_string(minutes);
        r.append(m.as_str());
        r.append("m");
        proof {
            reveal_strlit("h ");
            reveal_strlit("m");
        }
        r
    } else {
        let mut r = decimal_string(minutes);
        r.append("m");
        proof {
            reveal_strlit("m");
        }
        r
    }
}

/// One component of the long form: the count and its unit letter, or
/// nothing when the count is zero.
pub open spec fn long_part(n: nat, unit: char) -> Seq<Seq<char>> {
    if n > 0 { seq![decimal(n).push(unit)] } else { seq![] }
}

/// Pieces joined with single spaces.
pub open spec fn join_spaced(parts: Seq<Seq<char>>) -> Seq<char>
    decreases parts.len(),
{
    if parts.len() == 0 {
        seq![]
    } else if parts.len() == 1 {
        parts[0]
    } else {
        join_spaced(parts.drop_last()) + seq![' '] + parts.last()
    }
}

/// The long form's components: hours, minutes, seconds, the zero ones
/// left out — except that a zero duration still says `0s`.
pub open spec fn long_parts(seconds: i64) -> Seq<Seq<char>> {
    let s = clamp0(seconds);
    let head = long_part(s / 3600, 'h') + long_part((s % 3600) / 60, 'm');
    if s % 60 > 0 || head.len() == 0 {
        head.push(decimal(s % 60).push('s'))
    } else {
        head
    }
}

pub open spec fn long_text(seconds: i64) -> Seq<char> {
    join_spaced(long_parts(seconds))
}

fn push_part(parts: &mut Vec<String>, n: u64, unit: char)
    ensures
        final(parts)@.len() == old(parts)@.len() + (if n > 0 { 1int } else { 0int }),
        forall|i: int| 0 <= i < old(parts)@.len() ==> final(parts)@[i] == old(parts)@[i],
        n > 0 ==> final(parts)@[old(parts)@.len() as int]@ == decimal(n as nat).push(unit),
{
    if n > 0 {
        let mut p = decimal_string(n);
        push_char(&mut p, unit);
        parts.push(p);
    }
}

/// `parts` joined with single spaces, as `[String]::join(" ")` does.
fn join_with_spaces(parts: &Vec<String>) -> (r: String)
    ensures
        r@ == join_spaced(parts@.map_values(|p: String| p@)),
{
    let ghost views = parts@.map_values(|p: String| p@);
    let mut r = String::new();
    let mut i: usize = 0;
    while i < parts.len()
        invariant
            i <= parts@.len(),
            views == parts@.map_values(|p: String| p@),
            r@ == join_spaced(views.take(i as int)),
        decreases parts@.len() - i,
    {
        assert(views.take(i + 1).drop_last() =~= views.take(i as int));
        if i > 0 {
            push_char(&mut r, ' ');
        } else {
            assert(views.take(0) =~= Seq::<Seq<char>>::empty());
        }
        r.append(parts[i].as_str());
        i = i + 1;
    }
    assert(views.take(parts@.len() as int) =~= views);
    r
}

/// Exact components, zero components omitted: "1h 33m 12s".
pub fn format_long(seconds: i64) -> (r: String)
    ensures
        r@ == long_text(seconds),
{
    let s: u64 = if seconds < 0 { 0 } else { seconds as u64 };
    let h = s / 3600;
    let m = (s % 3600) / 60;
    let sec = s % 60;
    let mut parts: Vec<String> = Vec::new();
    push_part(&mut parts, h, 'h');
    push_part(&mut parts, m, 'm');
    if sec > 0 || parts.len() == 0 {
        let mut p = decimal_string(sec);
        push_char(&mut p, 's');
        parts.push(p);
    }
    let r = join_with_spaces(&parts);
    proof {
        let views = parts@.map_values(|p: String| p@);
        assert(views =~= long_parts(seconds));
    }
    r
}

pub open spec fn clock_text(seconds: i64) -> Seq<char> {
    let s = clamp0(seconds);
    decimal2(s / 3600) + seq![':'] + decimal2((s % 3600) / 60) + seq![':'] + decimal2(s % 60)
}

/// HH:MM:SS, hours unbounded.
pub fn format_clock(seconds: i64) -> (r: String)
    ensures
        r@ == clock_text(seconds),
{
    let s: u64 = if seconds < 0 { 0 } else { seconds as u64 };
    let mut r = decimal2_string(s / 3600);
    push_char(&mut r, ':');
    let m = decimal2_string((s % 3600) / 60);
    r.append(m.as_str());
    push_char(&mut r, ':');
    let sec = decimal2_string(s % 60);
    r.append(sec.as_str());
    r
}

} // verus!

verus! {

/// Where reading a duration's chars has got to: the running total, the
/// digits not yet given a unit, and whether any unit has been seen — or
/// the way reading stopped.
pub enum DurationScan {
    Going { total: int, digits: Seq<char>, saw_unit: bool },
    /// A unit letter with no number before it, or a char that is
    /// neither a digit nor a letter in a unit position.
    Invalid,
    /// A number that does not fit an `i64`.
    TooLarge,
    /// A letter after a number that is not one of `d`, `h`, `m`, `s`.
    Unit(char),
    /// The running total left the `i64` range — where the original
    /// arithmetic overflows.
    Overflow,
}

pub open spec fn unit_seconds(c: char) -> Option<int> {
    if c == 'd' { Some(86_400) }
    else if c == 'h' { Some(3_600) }
    else if c == 'm' { Some(60) }
    else if c == 's' { Some(1) }
    else { None }
}

pub open spec fn fits_i64(x: int) -> bool {
    i64::MIN <= x <= i64::MAX
}

pub open spec fn scan_step(state: DurationScan, c: char) -> DurationScan {
    match state {
        DurationScan::Going { total, digits, saw_unit } => {
            if is_digit(c) {
                DurationScan::Going { total, digits: digits.push(c), saw_unit }
            } else if digits.len() == 0 {
                DurationScan::Invalid
            } else if digits_value(digits) > i64::MAX {
                DurationScan::TooLarge
            } else {
                match unit_seconds(c) {
                    Some(m) => {
                        let n = digits_value(digits) as int;
                        if !fits_i64(n * m) || !fits_i64(total + n * m) {
                            DurationScan::Overflow
                        } else {
                            DurationScan::Going { total: total + n * m, digits: seq![], saw_unit: true }
                        }
                    },
                    None => DurationScan::Unit(c),
                }
            }
        },
        other => other,
    }
}

pub open spec fn scan(cs: Seq<char>) -> DurationScan
    decreases cs.len(),
{
    if cs.len() == 0 {
        DurationScan::Going { total: 0, digits: seq![], saw_unit: false }
    } else {
        scan_step(scan(cs.drop_last()), cs.last())
    }
}

/// What `parse_duration` makes of its input.
pub enum DurationOutcome {
    Total(int),
    Empty,
    Invalid,
    TooLarge,
    Unit(char),
    Trailing,
    Overflow,
}

pub open spec fn duration_outcome(input: Seq<char>) -> DurationOutcome {
    let compact = strip_ws(input);
    if compact.len() == 0 {
        DurationOutcome::Empty
    } else {
        match scan(compact) {
            DurationScan::Going { total, digits, saw_unit } => {
                if digits.len() == 0 {
                    DurationOutcome::Total(total)
                } else if saw_unit {
                    DurationOutcome::Trailing
                } else if digits_value(digits) > i64::MAX {
                    DurationOutcome::Invalid
                } else {
                    DurationOutcome::Total(digits_value(digits) as int)
                }
            },
            DurationScan::Invalid => DurationOutcome::Invalid,
            DurationScan::TooLarge => DurationOutcome::TooLarge,
            DurationScan::Unit(c) => DurationOutcome::Unit(c),
            DurationScan::Overflow => DurationOutcome::Overflow,
        }
    }
}

/// The refusal each failed outcome is worded as.
pub open spec fn duration_error(input: Seq<char>, outcome: DurationOutcome) -> Seq<char> {
    match outcome {
        DurationOutcome::Empty => "empty duration"@,
        DurationOutcome::TooLarge => "number too large to fit in target type"@,
        DurationOutcome::Unit(c) => "invalid duration unit "@ + debug_char(c) + " in "@ + debug_str(input),
        DurationOutcome::Trailing => "trailing number without unit in "@ + debug_str(input),
        _ => "invalid duration: "@ + debug_str(input),
    }
}

spec fn scan_invariant(digits: Seq<char>, value: int) -> bool {
    &&& all_digits(digits)
    &&& (digits_value(digits) <= i64::MAX ==> value == digits_value(digits))
    &&& (digits_value(digits) > i64::MAX ==> value == -1)
}

fn push_digit(digits: &mut Vec<char>, value: i64, c: char) -> (v: i64)
    requires
        is_digit(c),
        scan_invariant(old(digits)@, value as int),
    ensures
        final(digits)@ == old(digits)@.push(c),
        scan_invariant(final(digits)@, v as int),
{
    digits.push(c);
    let ghost d = digits@;
    assert(d.drop_last() =~= old(digits)@);
    assert(all_digits(d)) by {
        assert forall|i: int| 0 <= i < d.len() implies is_digit(#[trigger] d[i]) by {
            if i < d.len() - 1 {
                assert(d[i] == old(digits)@[i]);
            }
        }
    }
    let dv = (c as u32 - '0' as u32) as i64;
    if value < 0 || value > (i64::MAX - dv) / 10 {
        proof {
            if value >= 0 {
                assert(value * 10 + dv > i64::MAX) by (nonlinear_arith)
                    requires value > (i64::MAX - dv) / 10, 0 <= dv <= 9;
            }
        }
        -1
    } else {
        proof {
            assert(value * 10 + dv <= i64::MAX) by (nonlinear_arith)
                requires value <= (i64::MAX - dv) / 10, 0 <= dv <= 9, value >= 0;
        }
        value * 10 + dv
    }
}

fn unit_mult(c: char) -> (m: Option<i64>)
    ensures
        m.is_some() == unit_seconds(c).is_some(),
        m.is_some() ==> m.unwrap() as int == unit_seconds(c).unwrap(),
{
    if c == 'd' { Some(86_400) }
    else if c == 'h' { Some(3_600) }
    else if c == 'm' { Some(60) }
    else if c == 's' { Some(1) }
    else { None }
}

fn duration_err(input: &str, outcome: Ghost<DurationOutcome>, kind: u8, c: char) -> (r: String)
    requires
        kind == 0 ==> outcome@ == DurationOutcome::Empty,
        kind == 1 ==> outcome@ == DurationOutcome::TooLarge,
        kind == 2 ==> outcome@ == DurationOutcome::Unit(c),
        kind == 3 ==> outcome@ == DurationOutcome::Trailing,
        kind == 4 ==> outcome@ == DurationOutcome::Invalid,
        kind > 4 ==> outcome@ == DurationOutcome::Overflow,
    ensures
        r@ == duration_error(input@, outcome@),
{
    proof {
        reveal_strlit("empty duration");
        reveal_strlit("number too large to fit in target type");
        reveal_strlit("invalid duration unit ");
        reveal_strlit(" in ");
        reveal_strlit("trailing number without unit in ");
        reveal_strlit("invalid duration: ");
    }
    if kind == 0 {
        String::from_str("empty duration")
    } else if kind == 1 {
        String::from_str("number too large to fit in target type")
    } else if kind == 2 {
        let mut r = String::from_str("invalid duration unit ");
        let q = debug_quote_char(c);
        r.append(q.as_str());
        r.append(" in ");
        let qi = debug_quote(input);
        r.append(qi.as_str());
        r
    } else if kind == 3 {
        let mut r = String::from_str("trailing number without unit in ");
        let qi = debug_quote(input);
        r.append(qi.as_str());
        r
    } else {
        let mut r = String::from_str("invalid duration: ");
        let qi = debug_quote(input);
        r.append(qi.as_str());
        r
    }
}

/// Parse "1h33m", "90s", "1d", "2" (bare seconds); whitespace tolerated.
///
/// Every number is followed by a unit (`d`, `h`, `m`, `s`) and the
/// units add up — except that a number standing alone is seconds.
pub fn parse_duration(input: &str) -> (r: Result<i64, String>)
    ensures
        match duration_outcome(input@) {
            DurationOutcome::Total(t) => r == Ok::<i64, String>(t as i64) && fits_i64(t),
            other => r is Err && r->Err_0@ == duration_error(input@, other),
        },
{
    let chars = chars_of(input);
    let compact = without_ws(chars.as_slice());
    if compact.len() == 0 {
        return Err(duration_err(input, Ghost(DurationOutcome::Empty), 0, ' '));
    }
    let mut total: i64 = 0;
    let mut digits: Vec<char> = Vec::new();
    let mut value: i64 = 0;
    let mut saw_unit = false;
    let mut i: usize = 0;
    while i < compact.len()
        invariant
            i <= compact@.len(),
            compact@ == strip_ws(input@),
            compact@.len() > 0,
            scan(compact@.take(i as int)) == (DurationScan::Going {
                total: total as int,
                digits: digits@,
                saw_unit,
            }),
            scan_invariant(digits@, value as int),
        decreases compact@.len() - i,
    {
        let c = compact[i];
        proof {
            assert(compact@.take(i + 1).drop_last() =~= compact@.take(i as int));
        }
        if '0' <= c && c <= '9' {
            value = push_digit(&mut digits, value, c);
        } else {
            if digits.len() == 0 {
                proof { lemma_scan_stuck(compact@, i as int + 1); }
                return Err(duration_err(input, Ghost(DurationOutcome::Invalid), 4, c));
            }
            if value < 0 {
                proof { lemma_scan_stuck(compact@, i as int + 1); }
                return Err(duration_err(input, Ghost(DurationOutcome::TooLarge), 1, c));
            }
            match unit_mult(c) {
                Some(m) => {
                    let step = match value.checked_mul(m) {
                        Some(p) => p.checked_add(total),
                        None => None,
                    };
                    if step.is_none() {
                        proof { lemma_scan_stuck(compact@, i as int + 1); }
                        return Err(duration_err(input, Ghost(DurationOutcome::Overflow), 5, c));
                    }
                    total = step.unwrap();
                    digits = Vec::new();
                    value = 0;
                    saw_unit = true;
                    proof {
                        assert(all_digits(digits@));
                    }
                },
                None => {
                    proof { lemma_scan_stuck(compact@, i as int + 1); }
                    return Err(duration_err(input, Ghost(DurationOutcome::Unit(c)), 2, c));
                },
            }
        }
        i = i + 1;
    }
    assert(compact@.take(compact@.len() as int) =~= compact@);
    if digits.len() > 0 {
        if saw_unit {
            return Err(duration_err(input, Ghost(DurationOutcome::Trailing), 3, ' '));
        }
        if value < 0 {
            return Err(duration_err(input, Ghost(DurationOutcome::Invalid), 4, ' '));
        }
        total = value;
    }
    Ok(total)
}

/// Once reading has stopped, the rest of the input changes nothing.
pub proof fn lemma_scan_stuck(cs: Seq<char>, k: int)
    requires
        0 <= k <= cs.len(),
        !(scan(cs.take(k)) is Going),
    ensures
        scan(cs) == scan(cs.take(k)),
    decreases cs.len() - k,
{
    if k < cs.len() {
        assert(cs.take(k + 1).drop_last() =~= cs.take(k));
        lemma_scan_stuck(cs, k + 1);
    } else {
        assert(cs.take(k) =~= cs);
    }
}

} // verus!

verus! {

/// The `Duration` of `ms` milliseconds: what `Duration::from_millis`
/// gives, and `Duration::from_secs` for a whole number of seconds.
pub uninterp spec fn duration_of_millis(ms: nat) -> std::time::Duration;

/// The `Duration` of `s` whole seconds: `s * 1000` milliseconds, so
/// `2s` and `2000ms` are one interval.
pub open spec fn duration_of_secs(s: nat) -> std::time::Duration {
    duration_of_millis(s * 1000)
}

/// `std::time::Duration::from_millis`: the duration of `ms` milliseconds.
#[verifier::external_body]
pub fn from_millis(ms: u64) -> (d: std::time::Duration)
    ensures
        d == duration_of_millis(ms as nat),
{
    std::time::Duration::from_millis(ms)
}

/// `std::time::Duration::from_secs`: the duration of `s` whole seconds,
/// which is the duration of `s * 1000` milliseconds.
#[verifier::external_body]
pub fn from_secs(s: u64) -> (d: std::time::Duration)
    ensures
        d == duration_of_secs(s as nat),
{
    std::time::Duration::from_secs(s)
}

/// What `parse_interval` makes of its input.
pub enum IntervalOutcome {
    Millis(nat),
    Secs(nat),
    Refused(Seq<char>),
}

pub open spec fn ends_in_ms(t: Seq<char>) -> bool {
    t.len() >= 2 && t[t.len() - 2] == 'm' && t[t.len() - 1] == 's'
}

pub open spec fn interval_outcome(s: Seq<char>) -> IntervalOutcome {
    let t = trim(s);
    if ends_in_ms(t) {
        match parse_u64_spec(trim(t.subrange(0, t.len() - 2))) {
            Some(n) => IntervalOutcome::Millis(n as nat),
            None => IntervalOutcome::Refused("invalid interval: "@ + debug_str(s)),
        }
    } else {
        match duration_outcome(t) {
            DurationOutcome::Total(x) => if x < 0 {
                IntervalOutcome::Refused("interval must be positive"@)
            } else {
                IntervalOutcome::Secs(x as nat)
            },
            other => IntervalOutcome::Refused(duration_error(t, other)),
        }
    }
}

/// Parse a watch interval: "2s", "500ms", "1m", or bare seconds.
pub fn parse_interval(s: &str) -> (r: Result<std::time::Duration, String>)
    ensures
        match interval_outcome(s@) {
            IntervalOutcome::Millis(n) => r == Ok::<std::time::Duration, String>(duration_of_millis(n)),
            IntervalOutcome::Secs(n) => r == Ok::<std::time::Duration, String>(duration_of_secs(n)),
            IntervalOutcome::Refused(m) => r is Err && r->Err_0@ == m,
        },
{
    let chars = chars_of(s);
    let t = trim_chars(chars.as_slice());
    let n = t.len();
    if n >= 2 && t[n - 2] == 'm' && t[n - 1] == 's' {
        let head = slice_prefix(&t, n - 2);
        let inner = trim_chars(head.as_slice());
        match parse_u64(inner.as_slice()) {
            Some(ms) => Ok(from_millis(ms)),
            None => {
                let mut r = String::from_str("invalid interval: ");
                let q = debug_quote(s);
                r.append(q.as_str());
                proof { reveal_strlit("invalid interval: "); }
                Err(r)
            },
        }
    } else {
        let trimmed = string_of(t.as_slice());
        match parse_duration(trimmed.as_str()) {
            Ok(secs) => {
                if secs < 0 {
                    proof { reveal_strlit("interval must be positive"); }
                    Err(String::from_str("interval must be positive"))
                } else {
                    Ok(from_secs(secs as u64))
                }
            },
            Err(e) => Err(e),
        }
    }
}

/// The first `n` chars of `v`.
pub fn slice_prefix(v: &Vec<char>, n: usize) -> (r: Vec<char>)
    requires
        n <= v@.len(),
    ensures
        r@ == v@.subrange(0, n as int),
{
    let mut r: Vec<char> = Vec::new();
    let mut i: usize = 0;
    while i < n
        invariant
            i <= n <= v@.len(),
            r@ == v@.subrange(0, i as int),
        decreases n - i,
    {
        r.push(v[i]);
        i = i + 1;
        assert(r@ =~= v@.subrange(0, i as int));
    }
    r
}

} // verus!

verus! {

/// How a duration is printed: `1h 33m`, `1h 33m 12s`, or `01:33:12`.
#[derive(Clone, Copy, PartialEq, Eq, Debug)]
pub enum DurationFormat {
    Compact,
    Long,
    Clock,
}

} // verus!

verus! {

/// `Duration` is `Copy`: its `clone` hands back the same value.
pub assume_specification [<std::time::Duration as Clone>::clone](d: &std::time::Duration) -> (r: std::time::Duration)
    ensures
        r == *d,
;

} // verus!

verus! {

/// Reading digits only gathers them.
proof fn lemma_scan_digits(p: Seq<char>, d: Seq<char>, total: int, saw: bool)
    requires
        scan(p) == (DurationScan::Going { total, digits: Seq::<char>::empty(), saw_unit: saw }),
        all_digits(d),
    ensures
        scan(p + d) == (DurationScan::Going { total, digits: d, saw_unit: saw }),
    decreases d.len(),
{
    if d.len() == 0 {
        assert(p + d =~= p);
        assert(d =~= Seq::<char>::empty());
    } else {
        assert((p + d).drop_last() =~= p + d.drop_last());
        assert forall|i: int| 0 <= i < d.drop_last().len() implies is_digit(#[trigger] d.drop_last()[i]) by {
            assert(d.drop_last()[i] == d[i]);
        }
        lemma_scan_digits(p, d.drop_last(), total, saw);
        assert(d.drop_last().push(d.last()) =~= d);
        assert(is_digit(d[d.len() - 1]));
    }
}

/// One written component, `<n><unit>`, adds `n` units to the total.
proof fn lemma_scan_component(p: Seq<char>, n: nat, u: char, total: int, saw: bool)
    requires
        scan(p) == (DurationScan::Going { total, digits: Seq::<char>::empty(), saw_unit: saw }),
        unit_seconds(u) is Some,
        0 <= total,
        total + n * unit_seconds(u)->0 <= i64::MAX,
    ensures
        scan(p + decimal(n).push(u)) == (DurationScan::Going {
            total: total + n * unit_seconds(u)->0,
            digits: Seq::<char>::empty(),
            saw_unit: true,
        }),
{
    let m = unit_seconds(u)->0;
    lemma_decimal_digits(n);
    lemma_scan_digits(p, decimal(n), total, saw);
    let q = p + decimal(n).push(u);
    assert(q.drop_last() =~= p + decimal(n));
    assert(q.last() == u);
    assert(n * m >= 0) by (nonlinear_arith)
        requires
            m > 0,
    ;
    assert(i64::MIN <= n * m <= i64::MAX);
    assert(i64::MIN <= total + n * m <= i64::MAX);
}

/// A component that may be left out.
pub open spec fn optional_token(present: bool, n: nat, u: char) -> Seq<char> {
    if present { decimal(n).push(u) } else { Seq::empty() }
}

proof fn lemma_scan_optional(p: Seq<char>, present: bool, n: nat, u: char, total: int, saw: bool)
    requires
        scan(p) == (DurationScan::Going { total, digits: Seq::<char>::empty(), saw_unit: saw }),
        unit_seconds(u) is Some,
        0 <= total,
        total + n * unit_seconds(u)->0 <= i64::MAX,
    ensures
        scan(p + optional_token(present, n, u)) == (DurationScan::Going {
            total: if present { total + n * unit_seconds(u)->0 } else { total },
            digits: Seq::<char>::empty(),
            saw_unit: present || saw,
        }),
{
    if present {
        lemma_scan_component(p, n, u, total, saw);
    } else {
        assert(p + optional_token(present, n, u) =~= p);
    }
}

/// The pieces of a list laid end to end.
pub open spec fn laid_end_to_end(parts: Seq<Seq<char>>) -> Seq<char>
    decreases parts.len(),
{
    if parts.len() == 0 { Seq::empty() } else { laid_end_to_end(parts.drop_last()) + parts.last() }
}

proof fn lemma_strip_joined(parts: Seq<Seq<char>>)
    requires
        forall|i: int| 0 <= i < parts.len() ==> strip_ws(#[trigger] parts[i]) == parts[i],
    ensures
        strip_ws(join_spaced(parts)) == laid_end_to_end(parts),
    decreases parts.len(),
{
    let e = Seq::<char>::empty();
    if parts.len() == 0 {
        assert(join_spaced(parts) =~= e);
        assert(laid_end_to_end(parts) =~= e);
    } else if parts.len() == 1 {
        assert(parts.drop_last() =~= Seq::<Seq<char>>::empty());
        assert(laid_end_to_end(Seq::<Seq<char>>::empty()) =~= e);
        assert(laid_end_to_end(parts) == laid_end_to_end(parts.drop_last()) + parts.last());
        assert(e + parts[0] =~= parts[0]);
        assert(join_spaced(parts) == parts[0]);
        assert(strip_ws(parts[0]) == parts[0]);
    } else {
        let init = parts.drop_last();
        assert forall|i: int| 0 <= i < init.len() implies strip_ws(#[trigger] init[i]) == init[i] by {
            assert(init[i] == parts[i]);
        }
        lemma_strip_joined(init);
        let space = seq![' '];
        assert(join_spaced(parts) == join_spaced(init) + space + parts.last());
        lemma_strip_ws_concat(join_spaced(init) + space, parts.last());
        lemma_strip_ws_concat(join_spaced(init), space);
        assert(space.drop_last() =~= e);
        assert(is_ws(' '));
        assert(strip_ws(e) =~= e);
        assert(strip_ws(space) =~= e);
        assert(strip_ws(parts.last()) == parts.last()) by {
            assert(parts.last() == parts[parts.len() - 1]);
        }
        assert(laid_end_to_end(init) + e =~= laid_end_to_end(init));
        assert(laid_end_to_end(parts) == laid_end_to_end(init) + parts.last());
    }
}

proof fn lemma_token_clean(n: nat, u: char)
    requires
        !is_ws(u),
    ensures
        strip_ws(decimal(n).push(u)) == decimal(n).push(u),
        decimal(n).push(u).len() >= 2,
{
    lemma_decimal_digits(n);
    let t = decimal(n).push(u);
    assert forall|i: int| 0 <= i < t.len() implies !is_ws(#[trigger] t[i]) by {
        if i < t.len() - 1 {
            assert(t[i] == decimal(n)[i]);
        }
    }
    lemma_strip_ws_none(t);
}

/// The long form reads back as the duration it was written from:
/// `parse_duration(format_long(s))` gives `s` for every `s >= 0`, and
/// zero for a negative `s`, which the long form writes as `0s`.
#[verifier::spinoff_prover]
pub proof fn law_long_form_parses_back(seconds: i64)
    ensures
        duration_outcome(long_text(seconds)) == DurationOutcome::Total(clamp0(seconds) as int),
{
    let s = clamp0(seconds);
    let h = s / 3600;
    let m = (s % 3600) / 60;
    let sec = s % 60;
    let th = decimal(h).push('h');
    let tm = decimal(m).push('m');
    let ts = decimal(sec).push('s');
    lemma_token_clean(h, 'h');
    lemma_token_clean(m, 'm');
    lemma_token_clean(sec, 's');
    let head = long_part(h, 'h') + long_part(m, 'm');
    let with_s = sec > 0 || head.len() == 0;
    let parts = long_parts(seconds);
    assert(laid_end_to_end(head) == optional_token(h > 0, h, 'h') + optional_token(m > 0, m, 'm')) by {
        let e = Seq::<char>::empty();
        assert(laid_end_to_end(Seq::<Seq<char>>::empty()) =~= e);
        if h > 0 && m > 0 {
            assert(head =~= seq![th, tm]);
            assert(seq![th, tm].drop_last() =~= seq![th]);
            assert(seq![th].drop_last() =~= Seq::<Seq<char>>::empty());
            assert(e + th =~= th);
            assert(laid_end_to_end(seq![th]) == th);
            assert(laid_end_to_end(seq![th, tm]) == th + tm);
        } else if h > 0 {
            assert(head =~= seq![th]);
            assert(seq![th].drop_last() =~= Seq::<Seq<char>>::empty());
            assert(e + th =~= th);
            assert(th + e =~= th);
            assert(laid_end_to_end(seq![th]) == th);
        } else if m > 0 {
            assert(head =~= seq![tm]);
            assert(seq![tm].drop_last() =~= Seq::<Seq<char>>::empty());
            assert(e + tm =~= tm);
            assert(laid_end_to_end(seq![tm]) == tm);
        } else {
            assert(head =~= Seq::<Seq<char>>::empty());
            assert(e + e =~= e);
        }
    }
    assert(laid_end_to_end(parts) == laid_end_to_end(head) + optional_token(with_s, sec, 's')) by {
        if with_s {
            assert(parts.drop_last() =~= head);
        } else {
            assert(laid_end_to_end(head) + Seq::<char>::empty() =~= laid_end_to_end(head));
        }
    }
    assert forall|i: int| 0 <= i < parts.len() implies strip_ws(#[trigger] parts[i]) == parts[i] by {
        if h > 0 && m > 0 {
            assert(head =~= seq![th, tm]);
        } else if h > 0 {
            assert(head =~= seq![th]);
        } else if m > 0 {
            assert(head =~= seq![tm]);
        } else {
            assert(head =~= Seq::<Seq<char>>::empty());
        }
        if i < head.len() {
            assert(parts[i] == head[i]);
        }
    }
    lemma_strip_joined(parts);
    let a = optional_token(h > 0, h, 'h');
    let b = optional_token(m > 0, m, 'm');
    let c = optional_token(with_s, sec, 's');
    let e = Seq::<char>::empty();
    assert(strip_ws(long_text(seconds)) == a + b + c);
    assert(s == h * 3600 + m * 60 + sec);
    assert(0 <= h * 3600 <= s) by (nonlinear_arith)
        requires
            h == s / 3600,
            s >= 0,
    ;
    assert(0 <= m * 60 <= s % 3600) by (nonlinear_arith)
        requires
            m == (s % 3600) / 60,
            s >= 0,
    ;
    assert(scan(e) == (DurationScan::Going { total: 0, digits: Seq::<char>::empty(), saw_unit: false }));
    lemma_scan_optional(e, h > 0, h, 'h', 0, false);
    assert(e + a =~= a);
    let t1: int = if h > 0 { (h * 3600) as int } else { 0 };
    lemma_scan_optional(a, m > 0, m, 'm', t1, h > 0);
    let t2: int = if m > 0 { t1 + m * 60 } else { t1 };
    assert(t1 == h * 3600);
    assert(t2 == h * 3600 + m * 60);
    assert(unit_seconds('s') == Some(1int));
    assert(unit_seconds('m') == Some(60int));
    assert(unit_seconds('h') == Some(3600int));
    assert(s <= i64::MAX);
    assert(t2 + sec == s);
    assert(t2 + sec * unit_seconds('s')->0 <= i64::MAX);
    lemma_scan_optional(a + b, with_s, sec, 's', t2, h > 0 || m > 0);
    assert(with_s || h > 0 || m > 0);
    assert((a + b + c).len() > 0);
}

} // verus!

verus! {

/// A wait, briefly: whole seconds as `5s`, anything finer as `300ms`.
pub open spec fn brief_text(millis: nat) -> Seq<char> {
    if millis % 1000 == 0 { decimal(millis / 1000) + "s"@ } else { decimal(millis) + "ms"@ }
}

/// `5s` / `300ms` — a wait, briefly, from its whole milliseconds (what
/// `Duration::as_millis` gives; nothing finer shows). Parse and render
/// live side by side: this is the one spelling every surface uses for
/// a bound, so two of them cannot drift.
pub fn brief_duration(millis: u128) -> (r: String)
    ensures
        r@ == brief_text(millis as nat),
{
    if millis % 1000 == 0 {
        let mut r = decimal_string_wide(millis / 1000);
        r.append("s");
        r
    } else {
        let mut r = decimal_string_wide(millis);
        r.append("ms");
        r
    }
}

} // verus!
