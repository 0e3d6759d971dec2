//! Character-level helpers the parsers and formatters share: a string
//! as its sequence of chars, and the few std calls on `String` that
//! vstd leaves unspecified.
use vstd::prelude::*;
use vstd::string::*;

verus! {

broadcast use vstd::string::group_string_axioms;

/// The chars of `s`, in order.
pub fn chars_of(s: &str) -> (v: Vec<char>)
    ensures
        v@ == s@,
{
    let mut v: Vec<char> = Vec::new();
    for c in it: s.chars()
        invariant
            v@ == it.seq().take(it.index() as int),
            it.seq() == s@,
    {
        v.push(c);
    }
    v
}

} // verus!

verus! {

/// `String::push`: the string grows by exactly `c`.
#[verifier::external_body]
pub fn push_char(s: &mut String, c: char)
    ensures
        final(s)@ == old(s)@.push(c),
{
    s.push(c);
}

/// A string holding exactly the chars of `v`.
pub fn string_of(v: &[char]) -> (s: String)
    ensures
        s@ == v@,
{
    let mut s = String::new();
    let mut i: usize = 0;
    while i < v.len()
        invariant
            i <= v@.len(),
            s@ == v@.take(i as int),
        decreases v@.len() - i,
    {
        push_char(&mut s, v[i]);
        i = i + 1;
        assert(s@ =~= v@.take(i as int));
    }
    assert(v@.take(v@.len() as int) =~= v@);
    s
}

/// `a` followed by `b`, as a new string.
pub fn cat(a: &str, b: &str) -> (s: String)
    ensures
        s@ == a@ + b@,
{
    let mut s = String::from_str(a);
    s.append(b);
    s
}

/// The decimal digits of `n`, most significant first, no sign, no padding.
pub open spec fn decimal(n: nat) -> Seq<char>
    decreases n,
{
    if n < 10 {
        seq![digit_char(n)]
    } else {
        decimal(n / 10).push(digit_char(n % 10))
    }
}

pub open spec fn digit_char(d: nat) -> char {
    if d == 0 { '0' }
    else if d == 1 { '1' }
    else if d == 2 { '2' }
    else if d == 3 { '3' }
    else if d == 4 { '4' }
    else if d == 5 { '5' }
    else if d == 6 { '6' }
    else if d == 7 { '7' }
    else if d == 8 { '8' }
    else { '9' }
}

fn exec_digit_char(d: u64) -> (c: char)
    requires
        d < 10,
    ensures
        c == digit_char(d as nat),
{
    if d == 0 { '0' }
    else if d == 1 { '1' }
    else if d == 2 { '2' }
    else if d == 3 { '3' }
    else if d == 4 { '4' }
    else if d == 5 { '5' }
    else if d == 6 { '6' }
    else if d == 7 { '7' }
    else if d == 8 { '8' }
    else { '9' }
}

/// `n` in decimal, as `u64`'s `Display` writes it.
pub fn decimal_string(n: u64) -> (s: String)
    ensures
        s@ == decimal(n as nat),
    decreases n,
{
    if n < 10 {
        let mut s = String::new();
        push_char(&mut s, exec_digit_char(n));
        assert(s@ =~= decimal(n as nat));
        s
    } else {
        let mut s = decimal_string(n / 10);
        push_char(&mut s, exec_digit_char(n % 10));
        s
    }
}

/// `n` in decimal, for the wide integers a duration counts in.
pub fn decimal_string_wide(n: u128) -> (s: String)
    ensures
        s@ == decimal(n as nat),
    decreases n,
{
    if n < 10 {
        let mut s = String::new();
        push_char(&mut s, exec_digit_char(n as u64));
        assert(s@ =~= decimal(n as nat));
        s
    } else {
        let mut s = decimal_string_wide(n / 10);
        push_char(&mut s, exec_digit_char((n % 10) as u64));
        s
    }
}

/// `i` in decimal with a leading `-` when negative, as `i32`'s
/// `Display` writes it.
pub open spec fn signed_decimal(i: int) -> Seq<char> {
    if i < 0 { seq!['-'] + decimal((-i) as nat) } else { decimal(i as nat) }
}

pub fn signed_decimal_string(i: i32) -> (s: String)
    ensures
        s@ == signed_decimal(i as int),
{
    if i < 0 {
        let magnitude: u64 = (-(i as i64)) as u64;
        let digits = decimal_string(magnitude);
        let mut s = String::from_str("-");
        s.append(digits.as_str());
        proof { reveal_strlit("-"); }
        s
    } else {
        decimal_string(i as u64)
    }
}

/// `n` in decimal, left-padded with zeros to at least two digits.
pub open spec fn decimal2(n: nat) -> Seq<char> {
    if n < 10 { seq!['0'] + decimal(n) } else { decimal(n) }
}

pub fn decimal2_string(n: u64) -> (s: String)
    ensures
        s@ == decimal2(n as nat),
{
    if n < 10 {
        let mut s = String::new();
        push_char(&mut s, '0');
        push_char(&mut s, exec_digit_char(n));
        assert(s@ =~= seq!['0'] + decimal(n as nat));
        s
    } else {
        decimal_string(n)
    }
}

} // verus!

verus! {

/// What `{:?}` writes for a string: Rust's quoted, escaped form.
pub uninterp spec fn debug_str(s: Seq<char>) -> Seq<char>;

/// What `{:?}` writes for a char: Rust's single-quoted, escaped form.
pub uninterp spec fn debug_char(c: char) -> Seq<char>;

/// `<str as Debug>::fmt`, through `format!("{:?}")`: the string quoted
/// and escaped the way Rust's `Debug` writes it.
#[verifier::external_body]
pub fn debug_quote(s: &str) -> (r: String)
    ensures
        r@ == debug_str(s@),
{
    format!("{s:?}")
}

/// `<char as Debug>::fmt`, through `format!("{:?}")`.
#[verifier::external_body]
pub fn debug_quote_char(c: char) -> (r: String)
    ensures
        r@ == debug_char(c),
{
    format!("{c:?}")
}

/// `char::is_whitespace`: the Unicode `White_Space` property.
pub open spec fn is_ws(c: char) -> bool {
    ||| c == '\t' || c == '\n' || c == '\u{0B}' || c == '\u{0C}' || c == '\r' || c == ' '
    ||| c == '\u{85}' || c == '\u{A0}' || c == '\u{1680}'
    ||| ('\u{2000}' <= c && c <= '\u{200A}')
    ||| c == '\u{2028}' || c == '\u{2029}' || c == '\u{202F}' || c == '\u{205F}' || c == '\u{3000}'
}

pub fn exec_is_ws(c: char) -> (b: bool)
    ensures
        b == is_ws(c),
{
    c == '\t' || c == '\n' || c == '\u{0B}' || c == '\u{0C}' || c == '\r' || c == ' '
        || c == '\u{85}' || c == '\u{A0}' || c == '\u{1680}'
        || ('\u{2000}' <= c && c <= '\u{200A}')
        || c == '\u{2028}' || c == '\u{2029}' || c == '\u{202F}' || c == '\u{205F}' || c == '\u{3000}'
}

pub open spec fn is_digit(c: char) -> bool {
    '0' <= c && c <= '9'
}

pub open spec fn digit_value(c: char) -> nat {
    (c as int - '0' as int) as nat
}

/// The number a run of ASCII digits spells, most significant first.
pub open spec fn digits_value(d: Seq<char>) -> nat
    decreases d.len(),
{
    if d.len() == 0 {
        0
    } else {
        digits_value(d.drop_last()) * 10 + digit_value(d.last())
    }
}

pub open spec fn all_digits(d: Seq<char>) -> bool {
    forall|i: int| 0 <= i < d.len() ==> is_digit(#[trigger] d[i])
}

/// A longer run of digits never spells a smaller number.
pub proof fn lemma_digits_value_prefix(d: Seq<char>, k: int)
    requires
        0 <= k <= d.len(),
    ensures
        digits_value(d.take(k)) <= digits_value(d),
    decreases d.len() - k,
{
    if k < d.len() {
        lemma_digits_value_prefix(d, k + 1);
        assert(d.take(k + 1).drop_last() =~= d.take(k));
    } else {
        assert(d.take(k) =~= d);
    }
}

/// `decimal(n)` is a non-empty run of digits that spells `n`.
pub proof fn lemma_decimal_digits(n: nat)
    ensures
        decimal(n).len() >= 1,
        all_digits(decimal(n)),
        digits_value(decimal(n)) == n,
        forall|i: int| 0 <= i < decimal(n).len() ==> !is_ws(#[trigger] decimal(n)[i]),
    decreases n,
{
    let d = n % 10;
    assert(digit_value(digit_char(d)) == d && is_digit(digit_char(d)) && !is_ws(digit_char(d))) by {
        if d == 0 {} else if d == 1 {} else if d == 2 {} else if d == 3 {} else if d == 4 {}
        else if d == 5 {} else if d == 6 {} else if d == 7 {} else if d == 8 {} else {}
    }
    if n >= 10 {
        lemma_decimal_digits(n / 10);
        let d = decimal(n);
        assert(d.drop_last() =~= decimal(n / 10));
        assert(d.last() == digit_char(n % 10));
        assert(digits_value(d) == digits_value(d.drop_last()) * 10 + digit_value(d.last()));
        assert((n / 10) * 10 + n % 10 == n);
        assert forall|i: int| 0 <= i < d.len() implies is_digit(#[trigger] d[i]) && !is_ws(d[i]) by {
            if i < d.len() - 1 {
                assert(d[i] == decimal(n / 10)[i]);
            }
        }
    } else {
        assert(decimal(n).drop_last() =~= Seq::<char>::empty());
        assert(digits_value(Seq::<char>::empty()) == 0);
        assert(decimal(n).last() == digit_char(n % 10));
    }
}

/// Removing whitespace from a concatenation removes it from each side.
pub proof fn lemma_strip_ws_concat(a: Seq<char>, b: Seq<char>)
    ensures
        strip_ws(a + b) == strip_ws(a) + strip_ws(b),
    decreases b.len(),
{
    if b.len() == 0 {
        assert(a + b =~= a);
        assert(strip_ws(a) + strip_ws(b) =~= strip_ws(a));
    } else {
        assert((a + b).drop_last() =~= a + b.drop_last());
        lemma_strip_ws_concat(a, b.drop_last());
        if !is_ws(b.last()) {
            assert(strip_ws(a) + strip_ws(b.drop_last()).push(b.last()) =~= (strip_ws(a) + strip_ws(b.drop_last())).push(b.last()));
        }
    }
}

/// A string without whitespace is left as it is.
pub proof fn lemma_strip_ws_none(s: Seq<char>)
    requires
        forall|i: int| 0 <= i < s.len() ==> !is_ws(#[trigger] s[i]),
    ensures
        strip_ws(s) == s,
    decreases s.len(),
{
    if s.len() > 0 {
        assert forall|i: int| 0 <= i < s.drop_last().len() implies !is_ws(#[trigger] s.drop_last()[i]) by {
            assert(s.drop_last()[i] == s[i]);
        }
        lemma_strip_ws_none(s.drop_last());
        assert(s.drop_last().push(s.last()) =~= s);
    }
}

/// `s` with every whitespace char removed.
pub open spec fn strip_ws(s: Seq<char>) -> Seq<char>
    decreases s.len(),
{
    if s.len() == 0 {
        s
    } else if is_ws(s.last()) {
        strip_ws(s.drop_last())
    } else {
        strip_ws(s.drop_last()).push(s.last())
    }
}

/// Every char of `s` that is not whitespace, in order.
pub fn without_ws(s: &[char]) -> (v: Vec<char>)
    ensures
        v@ == strip_ws(s@),
{
    let mut v: Vec<char> = Vec::new();
    let mut i: usize = 0;
    while i < s.len()
        invariant
            i <= s@.len(),
            v@ == strip_ws(s@.take(i as int)),
        decreases s@.len() - i,
    {
        assert(s@.take(i + 1).drop_last() =~= s@.take(i as int));
        if !exec_is_ws(s[i]) {
            v.push(s[i]);
        }
        i = i + 1;
    }
    assert(s@.take(s@.len() as int) =~= s@);
    v
}

} // verus!

verus! {

/// `s` with its leading whitespace removed.
pub open spec fn trim_start(s: Seq<char>) -> Seq<char>
    decreases s.len(),
{
    if s.len() > 0 && is_ws(s[0]) { trim_start(s.drop_first()) } else { s }
}

/// `s` with its trailing whitespace removed.
pub open spec fn trim_end(s: Seq<char>) -> Seq<char>
    decreases s.len(),
{
    if s.len() > 0 && is_ws(s.last()) { trim_end(s.drop_last()) } else { s }
}

/// `str::trim`: both ends, whitespace as `char::is_whitespace` means it.
pub open spec fn trim(s: Seq<char>) -> Seq<char> {
    trim_end(trim_start(s))
}

proof fn lemma_trim_start_skip(s: Seq<char>, i: int)
    requires
        0 <= i <= s.len(),
        forall|j: int| 0 <= j < i ==> is_ws(#[trigger] s[j]),
    ensures
        trim_start(s) == trim_start(s.subrange(i, s.len() as int)),
    decreases i,
{
    if i > 0 {
        assert(s.drop_first().subrange(i - 1, s.drop_first().len() as int) =~= s.subrange(i, s.len() as int));
        assert forall|j: int| 0 <= j < i - 1 implies is_ws(#[trigger] s.drop_first()[j]) by {
            assert(s.drop_first()[j] == s[j + 1]);
        }
        lemma_trim_start_skip(s.drop_first(), i - 1);
    } else {
        assert(s.subrange(0, s.len() as int) =~= s);
    }
}

proof fn lemma_trim_end_skip(s: Seq<char>, k: int)
    requires
        0 <= k <= s.len(),
        forall|j: int| k <= j < s.len() ==> is_ws(#[trigger] s[j]),
    ensures
        trim_end(s) == trim_end(s.subrange(0, k)),
    decreases s.len() - k,
{
    if k < s.len() {
        assert(s.drop_last().subrange(0, k) =~= s.subrange(0, k));
        assert forall|j: int| k <= j < s.drop_last().len() implies is_ws(#[trigger] s.drop_last()[j]) by {
            assert(s.drop_last()[j] == s[j]);
        }
        lemma_trim_end_skip(s.drop_last(), k);
    } else {
        assert(s.subrange(0, k) =~= s);
    }
}

/// `str::trim` on a char sequence.
pub fn trim_chars(s: &[char]) -> (r: Vec<char>)
    ensures
        r@ == trim(s@),
{
    let mut i: usize = 0;
    while i < s.len() && exec_is_ws(s[i])
        invariant
            i <= s@.len(),
            forall|j: int| 0 <= j < i ==> is_ws(#[trigger] s@[j]),
        decreases s@.len() - i,
    {
        i = i + 1;
    }
    let mut k: usize = s.len();
    while k > i && exec_is_ws(s[k - 1])
        invariant
            i <= k <= s@.len(),
            forall|j: int| k <= j < s@.len() ==> is_ws(#[trigger] s@[j]),
        decreases k,
    {
        k = k - 1;
    }
    proof {
        lemma_trim_start_skip(s@, i as int);
        let rest = s@.subrange(i as int, s@.len() as int);
        // `rest` starts with a non-space (or is empty), so trim_start is done.
        assert(trim_start(rest) == rest);
        assert forall|j: int| (k - i) <= j < rest.len() implies is_ws(#[trigger] rest[j]) by {
            assert(rest[j] == s@[j + i]);
        }
        lemma_trim_end_skip(rest, k - i);
        assert(rest.subrange(0, k - i) =~= s@.subrange(i as int, k as int));
        let mid = s@.subrange(i as int, k as int);
        assert(trim_end(mid) == mid);
    }
    let mut r: Vec<char> = Vec::new();
    let mut j: usize = i;
    while j < k
        invariant
            i <= j <= k <= s@.len(),
            r@ == s@.subrange(i as int, j as int),
        decreases k - j,
    {
        r.push(s[j]);
        j = j + 1;
        assert(r@ =~= s@.subrange(i as int, j as int));
    }
    r
}

/// What `str::parse::<u64>` accepts: an optional `+`, then one or
/// more ASCII digits whose value fits a `u64`.
pub open spec fn parse_u64_spec(s: Seq<char>) -> Option<u64> {
    let d = if s.len() > 0 && s[0] == '+' { s.drop_first() } else { s };
    if d.len() > 0 && all_digits(d) && digits_value(d) <= u64::MAX {
        Some(digits_value(d) as u64)
    } else {
        None
    }
}

/// `str::parse::<u64>`, read off the chars.
pub fn parse_u64(s: &[char]) -> (r: Option<u64>)
    ensures
        r == parse_u64_spec(s@),
{
    let start: usize = if s.len() > 0 && s[0] == '+' { 1 } else { 0 };
    let ghost d = if s@.len() > 0 && s@[0] == '+' { s@.drop_first() } else { s@ };
    assert(d =~= s@.subrange(start as int, s@.len() as int));
    if start >= s.len() {
        return None;
    }
    let mut value: u64 = 0;
    let mut over = false;
    let mut i: usize = start;
    while i < s.len()
        invariant
            start <= i <= s@.len(),
            d == s@.subrange(start as int, s@.len() as int),
            d == (if s@.len() > 0 && s@[0] == '+' { s@.drop_first() } else { s@ }),
            all_digits(d.take(i - start)),
            !over ==> value as nat == digits_value(d.take(i - start)),
            over ==> digits_value(d.take(i - start)) > u64::MAX,
        decreases s@.len() - i,
    {
        let c = s[i];
        assert(d.take(i - start + 1).drop_last() =~= d.take(i - start));
        assert(d[i - start] == c);
        if !('0' <= c && c <= '9') {
            assert(!all_digits(d)) by {
                assert(!is_digit(d[i - start]));
            }
            assert(parse_u64_spec(s@).is_none());
            return None;
        }
        assert(all_digits(d.take(i - start + 1))) by {
            let t = d.take(i - start + 1);
            assert forall|j: int| 0 <= j < t.len() implies is_digit(#[trigger] t[j]) by {
                if j < t.len() - 1 {
                    assert(t[j] == d.take(i - start)[j]);
                }
            }
        }
        let dv = (c as u32 - '0' as u32) as u64;
        if over || value > (u64::MAX - dv) / 10 {
            proof {
                if !over {
                    assert(value * 10 + dv > u64::MAX) by (nonlinear_arith)
                        requires value > (u64::MAX - dv) / 10, 0 <= dv <= 9;
                } else {
                    assert(digits_value(d.take(i - start + 1)) >= digits_value(d.take(i - start)) * 10) by (nonlinear_arith)
                        requires digits_value(d.take(i - start + 1)) == digits_value(d.take(i - start)) * 10 + digit_value(c);
                }
            }
            over = true;
        } else {
            proof {
                assert(value * 10 + dv <= u64::MAX) by (nonlinear_arith)
                    requires value <= (u64::MAX - dv) / 10, 0 <= dv <= 9;
            }
            value = value * 10 + dv;
        }
        i = i + 1;
    }
    assert(d.take(i - start) =~= d);
    if over { None } else { Some(value) }
}

} // verus!

verus! {

/// Whether `v` spells exactly `lit`.
pub fn chars_eq(v: &[char], lit: &str) -> (b: bool)
    ensures
        b == (v@ == lit@),
{
    let l = chars_of(lit);
    if v.len() != l.len() {
        return false;
    }
    let mut i: usize = 0;
    while i < v.len()
        invariant
            i <= v@.len(),
            v@.len() == l@.len(),
            l@ == lit@,
            forall|j: int| 0 <= j < i ==> v@[j] == l@[j],
        decreases v@.len() - i,
    {
        if v[i] != l[i] {
            return false;
        }
        i = i + 1;
    }
    assert(v@ =~= l@);
    true
}

pub open spec fn starts_with(v: Seq<char>, p: Seq<char>) -> bool {
    p.len() <= v.len() && v.subrange(0, p.len() as int) == p
}

/// Whether `v` begins with `lit`.
pub fn chars_start_with(v: &[char], lit: &str) -> (b: bool)
    ensures
        b == starts_with(v@, lit@),
{
    let l = chars_of(lit);
    if l.len() > v.len() {
        return false;
    }
    let mut i: usize = 0;
    while i < l.len()
        invariant
            i <= l@.len() <= v@.len(),
            l@ == lit@,
            forall|j: int| 0 <= j < i ==> v@[j] == l@[j],
        decreases l@.len() - i,
    {
        if v[i] != l[i] {
            assert(v@.subrange(0, l@.len() as int)[i as int] != l@[i as int]);
            return false;
        }
        i = i + 1;
    }
    assert(v@.subrange(0, l@.len() as int) =~= l@);
    true
}

/// The chars of `v` from `start` on.
pub fn chars_from(v: &[char], start: usize) -> (r: Vec<char>)
    requires
        start <= v@.len(),
    ensures
        r@ == v@.subrange(start as int, v@.len() as int),
{
    let mut r: Vec<char> = Vec::new();
    let mut i: usize = start;
    while i < v.len()
        invariant
            start <= i <= v@.len(),
            r@ == v@.subrange(start as int, i as int),
        decreases v@.len() - i,
    {
        r.push(v[i]);
        i = i + 1;
        assert(r@ =~= v@.subrange(start as int, i as int));
    }
    r
}

/// The chars of `v` from `start` up to (not including) `end`.
pub fn chars_range(v: &[char], start: usize, end: usize) -> (r: Vec<char>)
    requires
        start <= end <= v@.len(),
    ensures
        r@ == v@.subrange(start as int, end as int),
{
    let mut r: Vec<char> = Vec::new();
    let mut i: usize = start;
    while i < end
        invariant
            start <= i <= end <= v@.len(),
            r@ == v@.subrange(start as int, i as int),
        decreases end - i,
    {
        r.push(v[i]);
        i = i + 1;
        assert(r@ =~= v@.subrange(start as int, i as int));
    }
    r
}

pub open spec fn ascii_lower(c: char) -> char {
    if 'A' <= c && c <= 'Z' { ((c as u8) + 32) as char } else { c }
}

pub fn exec_ascii_lower(c: char) -> (r: char)
    ensures
        r == ascii_lower(c),
{
    if 'A' <= c && c <= 'Z' { ((c as u8) + 32) as char } else { c }
}

/// `str::eq_ignore_ascii_case`, read on chars: the same length, and
/// equal once ASCII letters are folded to lower case.
pub open spec fn eq_ignore_ascii_case(a: Seq<char>, b: Seq<char>) -> bool {
    a.len() == b.len() && forall|i: int| 0 <= i < a.len() ==> ascii_lower(#[trigger] a[i]) == ascii_lower(b[i])
}

pub fn chars_eq_ignore_ascii_case(v: &[char], lit: &str) -> (b: bool)
    ensures
        b == eq_ignore_ascii_case(v@, lit@),
{
    let l = chars_of(lit);
    if v.len() != l.len() {
        return false;
    }
    let mut i: usize = 0;
    while i < v.len()
        invariant
            i <= v@.len(),
            v@.len() == l@.len(),
            l@ == lit@,
            forall|j: int| 0 <= j < i ==> ascii_lower(#[trigger] v@[j]) == ascii_lower(l@[j]),
        decreases v@.len() - i,
    {
        if exec_ascii_lower(v[i]) != exec_ascii_lower(l[i]) {
            return false;
        }
        i = i + 1;
    }
    true
}

/// A string holding the chars of `lit` and then those of `v`.
pub fn lit_then(lit: &str, v: &[char]) -> (s: String)
    ensures
        s@ == lit@ + v@,
{
    let mut s = String::from_str(lit);
    let t = string_of(v);
    s.append(t.as_str());
    s
}

} // verus!

verus! {

/// A space or a tab — the only whitespace a `#!` line trims.
pub open spec fn is_sp(c: char) -> bool {
    c == ' ' || c == '\t'
}

pub open spec fn trim_sp_start(s: Seq<char>) -> Seq<char>
    decreases s.len(),
{
    if s.len() > 0 && is_sp(s[0]) { trim_sp_start(s.drop_first()) } else { s }
}

pub open spec fn trim_sp_end(s: Seq<char>) -> Seq<char>
    decreases s.len(),
{
    if s.len() > 0 && is_sp(s.last()) { trim_sp_end(s.drop_last()) } else { s }
}

/// `str::trim_matches([' ', '\t'])`.
pub open spec fn trim_sp(s: Seq<char>) -> Seq<char> {
    trim_sp_end(trim_sp_start(s))
}

proof fn lemma_trim_sp_start_skip(s: Seq<char>, i: int)
    requires
        0 <= i <= s.len(),
        forall|j: int| 0 <= j < i ==> is_sp(#[trigger] s[j]),
    ensures
        trim_sp_start(s) == trim_sp_start(s.subrange(i, s.len() as int)),
    decreases i,
{
    if i > 0 {
        assert(s.drop_first().subrange(i - 1, s.drop_first().len() as int) =~= s.subrange(i, s.len() as int));
        assert forall|j: int| 0 <= j < i - 1 implies is_sp(#[trigger] s.drop_first()[j]) by {
            assert(s.drop_first()[j] == s[j + 1]);
        }
        lemma_trim_sp_start_skip(s.drop_first(), i - 1);
    } else {
        assert(s.subrange(0, s.len() as int) =~= s);
    }
}

proof fn lemma_trim_sp_end_skip(s: Seq<char>, k: int)
    requires
        0 <= k <= s.len(),
        forall|j: int| k <= j < s.len() ==> is_sp(#[trigger] s[j]),
    ensures
        trim_sp_end(s) == trim_sp_end(s.subrange(0, k)),
    decreases s.len() - k,
{
    if k < s.len() {
        assert(s.drop_last().subrange(0, k) =~= s.subrange(0, k));
        assert forall|j: int| k <= j < s.drop_last().len() implies is_sp(#[trigger] s.drop_last()[j]) by {
            assert(s.drop_last()[j] == s[j]);
        }
        lemma_trim_sp_end_skip(s.drop_last(), k);
    } else {
        assert(s.subrange(0, k) =~= s);
    }
}

/// `trim_matches([' ', '\t'])` on a char sequence.
pub fn trim_sp_chars(s: &[char]) -> (r: Vec<char>)
    ensures
        r@ == trim_sp(s@),
{
    let mut i: usize = 0;
    while i < s.len() && (s[i] == ' ' || s[i] == '\t')
        invariant
            i <= s@.len(),
            forall|j: int| 0 <= j < i ==> is_sp(#[trigger] s@[j]),
        decreases s@.len() - i,
    {
        i = i + 1;
    }
    let mut k: usize = s.len();
    while k > i && (s[k - 1] == ' ' || s[k - 1] == '\t')
        invariant
            i <= k <= s@.len(),
            forall|j: int| k <= j < s@.len() ==> is_sp(#[trigger] s@[j]),
        decreases k,
    {
        k = k - 1;
    }
    proof {
        lemma_trim_sp_start_skip(s@, i as int);
        let rest = s@.subrange(i as int, s@.len() as int);
        assert(trim_sp_start(rest) == rest);
        assert forall|j: int| (k - i) <= j < rest.len() implies is_sp(#[trigger] rest[j]) by {
            assert(rest[j] == s@[j + i]);
        }
        lemma_trim_sp_end_skip(rest, k - i);
        assert(rest.subrange(0, k - i) =~= s@.subrange(i as int, k as int));
        let mid = s@.subrange(i as int, k as int);
        assert(trim_sp_end(mid) == mid);
    }
    chars_range(s, i, k)
}

/// The first index at or after `i` holding `c`, or the length.
pub open spec fn index_of_from(s: Seq<char>, c: char, i: int) -> int
    decreases s.len() - i,
{
    if i < 0 || i >= s.len() {
        s.len() as int
    } else if s[i] == c {
        i
    } else {
        index_of_from(s, c, i + 1)
    }
}

pub fn find_char_from(s: &[char], c: char, start: usize) -> (r: usize)
    requires
        start <= s@.len(),
    ensures
        r as int == index_of_from(s@, c, start as int),
        start <= r <= s@.len(),
        forall|j: int| start <= j < r ==> s@[j] != c,
        r < s@.len() ==> s@[r as int] == c,
{
    let mut i = start;
    while i < s.len() && s[i] != c
        invariant
            start <= i <= s@.len(),
            index_of_from(s@, c, start as int) == index_of_from(s@, c, i as int),
            forall|j: int| start <= j < i ==> s@[j] != c,
        decreases s@.len() - i,
    {
        i = i + 1;
    }
    i
}

/// The first index at or after `i` holding a space or a tab, or the length.
pub open spec fn sp_index_from(s: Seq<char>, i: int) -> int
    decreases s.len() - i,
{
    if i < 0 || i >= s.len() {
        s.len() as int
    } else if is_sp(s[i]) {
        i
    } else {
        sp_index_from(s, i + 1)
    }
}

pub fn find_sp(s: &[char]) -> (r: usize)
    ensures
        r as int == sp_index_from(s@, 0),
        r <= s@.len(),
{
    let mut i: usize = 0;
    while i < s.len() && !(s[i] == ' ' || s[i] == '\t')
        invariant
            i <= s@.len(),
            sp_index_from(s@, 0) == sp_index_from(s@, i as int),
        decreases s@.len() - i,
    {
        i = i + 1;
    }
    i
}

} // verus!

verus! {

/// Lexicographic order on chars by code point — the order `str`'s own
/// comparison gives, since UTF-8 preserves it.
pub open spec fn lex_le(a: Seq<char>, b: Seq<char>) -> bool
    decreases a.len(),
{
    if a.len() == 0 {
        true
    } else if b.len() == 0 {
        false
    } else if a[0] != b[0] {
        a[0] < b[0]
    } else {
        lex_le(a.drop_first(), b.drop_first())
    }
}

/// Any two sequences are ordered one way or the other.
pub proof fn lemma_lex_total(a: Seq<char>, b: Seq<char>)
    ensures
        lex_le(a, b) || lex_le(b, a),
    decreases a.len(),
{
    if a.len() > 0 && b.len() > 0 && a[0] == b[0] {
        lemma_lex_total(a.drop_first(), b.drop_first());
    }
}

/// The order is transitive.
pub proof fn lemma_lex_trans(a: Seq<char>, b: Seq<char>, c: Seq<char>)
    requires
        lex_le(a, b),
        lex_le(b, c),
    ensures
        lex_le(a, c),
    decreases a.len(),
{
    if a.len() > 0 && b.len() > 0 && c.len() > 0 && a[0] == b[0] && b[0] == c[0] {
        lemma_lex_trans(a.drop_first(), b.drop_first(), c.drop_first());
    }
}

/// Whether `a` sorts no later than `b`.
pub fn str_le(a: &str, b: &str) -> (r: bool)
    ensures
        r == lex_le(a@, b@),
{
    let x = chars_of(a);
    let y = chars_of(b);
    let mut i: usize = 0;
    assert(x@.skip(0) =~= x@);
    assert(y@.skip(0) =~= y@);
    while i < x.len()
        invariant
            i <= x@.len(),
            x@ == a@,
            y@ == b@,
            i <= y@.len(),
            x@.take(i as int) == y@.take(i as int),
            lex_le(a@, b@) == lex_le(x@.skip(i as int), y@.skip(i as int)),
        decreases x@.len() - i,
    {
        if i >= y.len() {
            return false;
        }
        if x[i] != y[i] {
            proof {
                assert(x@.skip(i as int)[0] == x@[i as int]);
                assert(y@.skip(i as int)[0] == y@[i as int]);
            }
            return x[i] < y[i];
        }
        proof {
            assert(x@.skip(i as int).drop_first() =~= x@.skip(i + 1));
            assert(y@.skip(i as int).drop_first() =~= y@.skip(i + 1));
            assert(x@.take(i + 1) =~= x@.take(i as int).push(x@[i as int]));
            assert(y@.take(i + 1) =~= y@.take(i as int).push(y@[i as int]));
        }
        i = i + 1;
    }
    true
}

/// The pieces, with `sep` between each neighbouring pair.
pub open spec fn joined(parts: Seq<Seq<char>>, sep: Seq<char>) -> Seq<char>
    decreases parts.len(),
{
    if parts.len() == 0 {
        seq![]
    } else if parts.len() == 1 {
        parts[0]
    } else {
        joined(parts.drop_last(), sep) + sep + parts.last()
    }
}

/// `slice.join(sep)` over strings.
pub fn join_strings(parts: &[String], sep: &str) -> (r: String)
    ensures
        r@ == joined(parts@.map_values(|s: String| s@), sep@),
{
    let ghost views = parts@.map_values(|s: String| s@);
    let mut r = String::new();
    let mut i: usize = 0;
    while i < parts.len()
        invariant
            i <= parts@.len(),
            views == parts@.map_values(|s: String| s@),
            r@ == joined(views.take(i as int), sep@),
        decreases parts@.len() - i,
    {
        proof {
            assert(views.take(i + 1).drop_last() =~= views.take(i as int));
        }
        if i > 0 {
            r.append(sep);
        }
        r.append(parts[i].as_str());
        i = i + 1;
    }
    assert(views.take(parts@.len() as int) =~= views);
    r
}

} // verus!

verus! {

/// `str::trim_start` on a char sequence.
pub fn trim_start_chars(s: &[char]) -> (r: Vec<char>)
    ensures
        r@ == trim_start(s@),
{
    let mut i: usize = 0;
    while i < s.len() && exec_is_ws(s[i])
        invariant
            i <= s@.len(),
            forall|j: int| 0 <= j < i ==> is_ws(#[trigger] s@[j]),
        decreases s@.len() - i,
    {
        i = i + 1;
    }
    proof {
        lemma_trim_start_skip(s@, i as int);
        let rest = s@.subrange(i as int, s@.len() as int);
        assert(trim_start(rest) == rest);
    }
    chars_from(s, i)
}

} // verus!

verus! {

/// `str::trim_end` on a char sequence.
pub fn trim_end_chars(s: &[char]) -> (r: Vec<char>)
    ensures
        r@ == trim_end(s@),
{
    let mut k: usize = s.len();
    while k > 0 && exec_is_ws(s[k - 1])
        invariant
            k <= s@.len(),
            forall|j: int| k <= j < s@.len() ==> is_ws(#[trigger] s@[j]),
        decreases k,
    {
        k = k - 1;
    }
    proof {
        lemma_trim_end_skip(s@, k as int);
        let head = s@.subrange(0, k as int);
        assert(trim_end(head) == head);
    }
    chars_range(s, 0, k)
}

/// The bytes `c` takes in UTF-8.
pub open spec fn utf8_len(c: char) -> nat {
    if (c as u32) < 0x80 {
        1
    } else if (c as u32) < 0x800 {
        2
    } else if (c as u32) < 0x10000 {
        3
    } else {
        4
    }
}

pub fn exec_utf8_len(c: char) -> (n: usize)
    ensures
        n == utf8_len(c),
{
    let u = c as u32;
    if u < 0x80 {
        1
    } else if u < 0x800 {
        2
    } else if u < 0x10000 {
        3
    } else {
        4
    }
}

} // verus!

verus! {

/// The bytes a char sequence takes in UTF-8.
pub open spec fn bytes_of(s: Seq<char>) -> int
    decreases s.len(),
{
    if s.len() == 0 {
        0
    } else {
        bytes_of(s.drop_last()) + utf8_len(s.last())
    }
}

/// The bytes of the first `k` chars, summed without overflow.
pub fn prefix_bytes(s: &[char], k: usize) -> (n: u128)
    requires
        k <= s@.len(),
    ensures
        n as int == bytes_of(s@.take(k as int)),
        n <= 4 * k,
{
    let mut n: u128 = 0;
    let mut i: usize = 0;
    while i < k
        invariant
            i <= k <= s@.len(),
            n as int == bytes_of(s@.take(i as int)),
            n <= 4 * i,
        decreases k - i,
    {
        assert(s@.take(i + 1).drop_last() =~= s@.take(i as int));
        n = n + exec_utf8_len(s[i]) as u128;
        i = i + 1;
    }
    n
}

/// The char index whose bytes before it come to exactly `b`, searching
/// from `k`: `None` when `b` falls inside a char or past the end.
pub open spec fn char_at_byte(t: Seq<char>, b: int, k: int) -> Option<int>
    decreases t.len() + 1 - k,
{
    if k < 0 || k > t.len() {
        None
    } else if bytes_of(t.take(k)) == b {
        Some(k)
    } else if bytes_of(t.take(k)) > b {
        None
    } else {
        char_at_byte(t, b, k + 1)
    }
}

/// The char index at byte `b`, when `b` is a char boundary.
pub fn char_index_at_byte(t: &[char], b: usize) -> (r: Option<usize>)
    ensures
        r is Some ==> char_at_byte(t@, b as int, 0) == Some(r->0 as int) && r->0 <= t@.len(),
        r is None ==> char_at_byte(t@, b as int, 0) is None,
{
    let mut k: usize = 0;
    let mut acc: u128 = 0;
    loop
        invariant
            k <= t@.len(),
            acc as int == bytes_of(t@.take(k as int)),
            acc <= 4 * k,
            char_at_byte(t@, b as int, 0) == char_at_byte(t@, b as int, k as int),
        decreases t@.len() - k,
    {
        if acc == b as u128 {
            return Some(k);
        }
        if acc > b as u128 {
            return None;
        }
        if k == t.len() {
            assert(char_at_byte(t@, b as int, k + 1) is None);
            return None;
        }
        assert(t@.take(k + 1).drop_last() =~= t@.take(k as int));
        acc = acc + exec_utf8_len(t[k]) as u128;
        k = k + 1;
    }
}

/// The first index from `i` at which `needle` occurs in `hay`.
pub open spec fn sub_index(hay: Seq<char>, needle: Seq<char>, i: int) -> Option<int>
    decreases hay.len() + 1 - i,
{
    if i < 0 || i + needle.len() > hay.len() {
        None
    } else if hay.subrange(i, i + needle.len()) == needle {
        Some(i)
    } else {
        sub_index(hay, needle, i + 1)
    }
}

/// `str::find` over chars: the first occurrence of `needle`.
pub fn find_sub(hay: &[char], needle: &[char]) -> (r: Option<usize>)
    ensures
        r is Some ==> sub_index(hay@, needle@, 0) == Some(r->0 as int) && r->0 + needle@.len() <= hay@.len(),
        r is None ==> sub_index(hay@, needle@, 0) is None,
{
    if needle.len() > hay.len() {
        return None;
    }
    let mut i: usize = 0;
    let last = hay.len() - needle.len();
    while i <= last
        invariant
            needle@.len() <= hay@.len(),
            hay@.len() <= usize::MAX,
            last == hay@.len() - needle@.len(),
            i <= last + 1,
            sub_index(hay@, needle@, 0) == sub_index(hay@, needle@, i as int),
        decreases last + 1 - i,
    {
        let mut j: usize = 0;
        let mut same = true;
        while j < needle.len() && same
            invariant
                i <= last,
                last == hay@.len() - needle@.len(),
                needle@.len() <= hay@.len(),
                hay@.len() <= usize::MAX,
                j <= needle@.len(),
                forall|m: int| 0 <= m < j ==> hay@[i + m] == needle@[m],
                !same ==> j < needle@.len() && hay@[i + j] != needle@[j as int],
            decreases needle@.len() - j + (if same { 1int } else { 0int }),
        {
            if hay[i + j] != needle[j] {
                same = false;
            } else {
                j = j + 1;
            }
        }
        if j == needle.len() {
            assert(hay@.subrange(i as int, i + needle@.len()) =~= needle@);
            return Some(i);
        }
        assert(hay@.subrange(i as int, i + needle@.len())[j as int] != needle@[j as int]);
        i = i + 1;
    }
    None
}

} // verus!
