//! The spelling a board writes for a key, and the key it names.
//!
//! | Written | Means |
//! |---|---|
//! | one ASCII printable — `"r"`, `"7"`, `"?"`, and `"["`/`"]"`/`"O"` | [`Key::Char`] |
//! | a named key — `"Enter"`, `"PageDown"` (thirteen) | that variant |
//! | `"Alt-"` and one ASCII printable **except `[`, `]`, `O`** | [`Key::Alt`] |
//!
//! The grammar is unambiguous by length: every named key is at least
//! three characters, a bare character is exactly one, and the chord
//! form carries a `-`. Control chords, `Backspace`, `Delete` and every
//! non-ASCII character are refused: the terminal reader on unix never
//! delivers them. `Alt-[`, `Alt-]` and `Alt-O` are refused because
//! those two bytes open an escape sequence rather than a chord.
use vstd::prelude::*;
use vstd::string::*;

use crate::text::{
    chars_eq, chars_eq_ignore_ascii_case, chars_from, chars_of, chars_start_with, eq_ignore_ascii_case,
    push_char, starts_with, string_of,
};

verus! {

broadcast use vstd::string::group_string_axioms;

/// A key as the board's loop reads it.
#[derive(Clone, Copy, PartialEq, Eq, Debug, Structural)]
pub enum Key {
    Char(char),
    Alt(char),
    CtrlA,
    CtrlC,
    CtrlE,
    CtrlU,
    CtrlW,
    Backspace,
    Delete,
    Up,
    Down,
    Left,
    Right,
    Home,
    End,
    PageUp,
    PageDown,
    Enter,
    Esc,
    Tab,
    BackTab,
    Space,
}

/// The thirteen keys with a written name, in table order.
pub open spec fn named_keys() -> Seq<(Seq<char>, Key)> {
    seq![
        ("Enter"@, Key::Enter),
        ("Esc"@, Key::Esc),
        ("Tab"@, Key::Tab),
        ("BackTab"@, Key::BackTab),
        ("Space"@, Key::Space),
        ("Up"@, Key::Up),
        ("Down"@, Key::Down),
        ("Left"@, Key::Left),
        ("Right"@, Key::Right),
        ("Home"@, Key::Home),
        ("End"@, Key::End),
        ("PageUp"@, Key::PageUp),
        ("PageDown"@, Key::PageDown),
    ]
}

/// The first row of the table whose name is `s`, read from row `i` on.
pub open spec fn named_from(s: Seq<char>, i: int) -> Option<Key>
    decreases 13 - i,
{
    if i < 0 || i >= 13 {
        None
    } else if named_keys()[i].0 == s {
        Some(named_keys()[i].1)
    } else {
        named_from(s, i + 1)
    }
}

/// The first row whose name matches `s` ignoring ASCII case.
pub open spec fn named_folded_from(s: Seq<char>, i: int) -> Option<Seq<char>>
    decreases 13 - i,
{
    if i < 0 || i >= 13 {
        None
    } else if eq_ignore_ascii_case(named_keys()[i].0, s) {
        Some(named_keys()[i].0)
    } else {
        named_folded_from(s, i + 1)
    }
}

/// The table's name for a key, if it has a row.
pub open spec fn name_of_from(k: Key, i: int) -> Option<Seq<char>>
    decreases 13 - i,
{
    if i < 0 || i >= 13 {
        None
    } else if named_keys()[i].1 == k {
        Some(named_keys()[i].0)
    } else {
        name_of_from(k, i + 1)
    }
}

/// A character a board may spell: the ASCII printables other than the space.
pub open spec fn is_spellable_char(c: char) -> bool {
    '\u{21}' <= c && c <= '\u{7e}'
}

/// A character a board may spell under `Alt-`: the bare set minus the
/// three escape-sequence introducers.
pub open spec fn is_alt_spellable_char(c: char) -> bool {
    is_spellable_char(c) && !(c == '[' || c == ']' || c == 'O')
}

fn exec_is_spellable_char(c: char) -> (b: bool)
    ensures
        b == is_spellable_char(c),
{
    '\u{21}' <= c && c <= '\u{7e}'
}

fn exec_is_alt_spellable_char(c: char) -> (b: bool)
    ensures
        b == is_alt_spellable_char(c),
{
    exec_is_spellable_char(c) && !(c == '[' || c == ']' || c == 'O')
}

pub open spec fn is_ascii_char(c: char) -> bool {
    (c as u32) < 128
}

/// Exactly one character, or nothing.
pub open spec fn one_char(s: Seq<char>) -> Option<char> {
    if s.len() == 1 { Some(s[0]) } else { None }
}

pub open spec fn all_ascii_digits(s: Seq<char>) -> bool {
    forall|i: int| 0 <= i < s.len() ==> '0' <= #[trigger] s[i] && s[i] <= '9'
}

/// Why a multi-character spelling names nothing.
pub open spec fn why_not(s: Seq<char>) -> Seq<char> {
    if eq_ignore_ascii_case(s, "Backspace"@) || eq_ignore_ascii_case(s, "Delete"@) {
        "rat does not read that key on every platform"@
    } else if named_folded_from(s, 0) is Some {
        "write `"@ + named_folded_from(s, 0)->0 + "`"@
    } else if s.len() > 1 && s[0] == 'F' && all_ascii_digits(s.drop_first()) {
        "rat never sees a function key"@
    } else {
        "no key is spelled that way"@
    }
}

/// The key a spelling names, or the reason it names none.
pub open spec fn parse_key_spec(s: Seq<char>) -> Result<Key, Seq<char>> {
    if named_from(s, 0) is Some {
        Ok(named_from(s, 0)->0)
    } else if starts_with(s, "Ctrl-"@) {
        if starts_with(s.subrange(5, s.len() as int), "Alt-"@) {
            Err("Alt and Ctrl together arrive as neither chord"@)
        } else {
            Err("rat does not read control chords as bindings"@)
        }
    } else if starts_with(s, "Alt-"@) {
        let rest = s.subrange(4, s.len() as int);
        if starts_with(rest, "Ctrl-"@) {
            Err("Alt and Ctrl together arrive as neither chord"@)
        } else {
            match one_char(rest) {
                Some(c) => if is_alt_spellable_char(c) {
                    Ok(Key::Alt(c))
                } else if is_spellable_char(c) {
                    Err("that byte opens an escape sequence, so rat never sees it as an Alt chord"@)
                } else if !is_ascii_char(c) {
                    Err("rat reads its keys as ASCII"@)
                } else {
                    Err("no key is spelled that way"@)
                },
                None => Err("no key is spelled that way"@),
            }
        }
    } else {
        match one_char(s) {
            Some(c) => if is_spellable_char(c) {
                Ok(Key::Char(c))
            } else if c == ' ' {
                Err("a space is written `Space`"@)
            } else if c == '\t' {
                Err("a tab is written `Tab`"@)
            } else if c == '\r' || c == '\n' {
                Err("a newline is written `Enter`"@)
            } else if !is_ascii_char(c) {
                Err("rat reads its keys as ASCII"@)
            } else {
                Err("no key is spelled that way"@)
            },
            None => if s.len() == 0 {
                Err("a binding needs a key to name"@)
            } else {
                Err(why_not(s))
            },
        }
    }
}

/// Names joined with `", "`.
pub open spec fn join_names(names: Seq<Seq<char>>) -> Seq<char>
    decreases names.len(),
{
    if names.len() == 0 {
        seq![]
    } else if names.len() == 1 {
        names[0]
    } else {
        join_names(names.drop_last()) + ", "@ + names.last()
    }
}

/// The whole grammar in one sentence, its list of names read off the table.
pub open spec fn spellable_text() -> Seq<char> {
    "A binding names one ASCII character (`r`, `7`, `?`), a named key ("@
        + join_names(named_keys().map_values(|row: (Seq<char>, Key)| row.0))
        + "), or `Alt-` and one ASCII character other than `[`, `]` or `O`"@
}

/// Every refusal: what was written, why it cannot be a key, and the grammar.
pub open spec fn refusal_text(s: Seq<char>, reason: Seq<char>) -> Seq<char> {
    "`"@ + s + "` is not a key a binding can name — "@ + reason + ". "@ + spellable_text()
}

/// The table, for the executable side: (name, key) in table order.
fn named_rows() -> (rows: Vec<(&'static str, Key)>)
    ensures
        rows@.len() == 13,
        forall|i: int| 0 <= i < 13 ==> (#[trigger] rows@[i]).0@ == named_keys()[i].0 && rows@[i].1 == named_keys()[i].1,
{
    let rows = vec![
        ("Enter", Key::Enter),
        ("Esc", Key::Esc),
        ("Tab", Key::Tab),
        ("BackTab", Key::BackTab),
        ("Space", Key::Space),
        ("Up", Key::Up),
        ("Down", Key::Down),
        ("Left", Key::Left),
        ("Right", Key::Right),
        ("Home", Key::Home),
        ("End", Key::End),
        ("PageUp", Key::PageUp),
        ("PageDown", Key::PageDown),
    ];
    rows
}

fn find_named(s: &[char]) -> (r: Option<Key>)
    ensures
        r == named_from(s@, 0),
{
    let rows = named_rows();
    let mut i: usize = 0;
    while i < 13
        invariant
            i <= 13,
            rows@.len() == 13,
            forall|j: int| 0 <= j < 13 ==> (#[trigger] rows@[j]).0@ == named_keys()[j].0 && rows@[j].1 == named_keys()[j].1,
            named_from(s@, 0) == named_from(s@, i as int),
        decreases 13 - i,
    {
        let (name, key) = rows[i];
        if chars_eq(s, name) {
            return Some(key);
        }
        i = i + 1;
    }
    None
}

fn find_named_folded(s: &[char]) -> (r: Option<&'static str>)
    ensures
        r is Some == named_folded_from(s@, 0) is Some,
        r is Some ==> r->0@ == named_folded_from(s@, 0)->0,
{
    let rows = named_rows();
    let mut i: usize = 0;
    while i < 13
        invariant
            i <= 13,
            rows@.len() == 13,
            forall|j: int| 0 <= j < 13 ==> (#[trigger] rows@[j]).0@ == named_keys()[j].0 && rows@[j].1 == named_keys()[j].1,
            named_folded_from(s@, 0) == named_folded_from(s@, i as int),
        decreases 13 - i,
    {
        let (name, _) = rows[i];
        if chars_eq_ignore_ascii_case(s, name) {
            proof {
                // Folding is symmetric in its two arguments.
                assert(eq_ignore_ascii_case(named_keys()[i as int].0, s@));
            }
            return Some(name);
        }
        proof {
            assert(!eq_ignore_ascii_case(named_keys()[i as int].0, s@));
        }
        i = i + 1;
    }
    None
}

fn is_ascii(c: char) -> (b: bool)
    ensures
        b == is_ascii_char(c),
{
    (c as u32) < 128
}

fn is_function_key(s: &[char]) -> (b: bool)
    ensures
        b == (s@.len() > 1 && s@[0] == 'F' && all_ascii_digits(s@.drop_first())),
{
    if !(s.len() > 1 && s[0] == 'F') {
        return false;
    }
    let mut i: usize = 1;
    while i < s.len()
        invariant
            1 <= i <= s@.len(),
            forall|j: int| 1 <= j < i ==> '0' <= #[trigger] s@[j] && s@[j] <= '9',
        decreases s@.len() - i,
    {
        if !('0' <= s[i] && s[i] <= '9') {
            assert(!all_ascii_digits(s@.drop_first())) by {
                assert(s@.drop_first()[i - 1] == s@[i as int]);
            }
            return false;
        }
        i = i + 1;
    }
    assert(all_ascii_digits(s@.drop_first())) by {
        assert forall|j: int| 0 <= j < s@.drop_first().len() implies '0' <= #[trigger] s@.drop_first()[j]
            && s@.drop_first()[j] <= '9' by {
            assert(s@.drop_first()[j] == s@[j + 1]);
        }
    }
    true
}

fn why_not_text(s: &[char]) -> (r: String)
    ensures
        r@ == why_not(s@),
{
    if chars_eq_ignore_ascii_case(s, "Backspace") || chars_eq_ignore_ascii_case(s, "Delete") {
        return String::from_str("rat does not read that key on every platform");
    }
    match find_named_folded(s) {
        Some(name) => {
            let mut r = String::from_str("write `");
            r.append(name);
            r.append("`");
            return r;
        },
        None => {},
    }
    if is_function_key(s) {
        return String::from_str("rat never sees a function key");
    }
    String::from_str("no key is spelled that way")
}

fn spellable() -> (r: String)
    ensures
        r@ == spellable_text(),
{
    let rows = named_rows();
    let ghost names = named_keys().map_values(|row: (Seq<char>, Key)| row.0);
    let mut r = String::from_str("A binding names one ASCII character (`r`, `7`, `?`), a named key (");
    let ghost head = r@;
    let mut i: usize = 0;
    while i < 13
        invariant
            i <= 13,
            rows@.len() == 13,
            forall|j: int| 0 <= j < 13 ==> (#[trigger] rows@[j]).0@ == named_keys()[j].0 && rows@[j].1 == named_keys()[j].1,
            names == named_keys().map_values(|row: (Seq<char>, Key)| row.0),
            r@ == head + join_names(names.take(i as int)),
        decreases 13 - i,
    {
        assert(names.take(i + 1).drop_last() =~= names.take(i as int));
        if i > 0 {
            r.append(", ");
        } else {
            assert(names.take(0) =~= Seq::<Seq<char>>::empty());
        }
        r.append(rows[i].0);
        i = i + 1;
    }
    assert(names.take(13) =~= names);
    r.append("), or `Alt-` and one ASCII character other than `[`, `]` or `O`");
    r
}

fn refuse(s: &[char], reason: &str) -> (r: String)
    ensures
        r@ == refusal_text(s@, reason@),
{
    let mut r = String::from_str("`");
    let written = string_of(s);
    r.append(written.as_str());
    r.append("` is not a key a binding can name — ");
    r.append(reason);
    r.append(". ");
    let tail = spellable();
    r.append(tail.as_str());
    r
}

/// A written spelling as the key it names; a refusal says what was
/// written, why it names no key, and the whole grammar.
pub fn parse_key(spelling: &str) -> (r: Result<Key, String>)
    ensures
        match parse_key_spec(spelling@) {
            Ok(k) => r == Ok::<Key, String>(k),
            Err(reason) => r is Err && r->Err_0@ == refusal_text(spelling@, reason),
        },
{
    let s = chars_of(spelling);
    if let Some(key) = find_named(s.as_slice()) {
        return Ok(key);
    }
    if chars_start_with(s.as_slice(), "Ctrl-") {
        proof { reveal_strlit("Ctrl-"); }
        let rest = chars_from(s.as_slice(), 5);
        if chars_start_with(rest.as_slice(), "Alt-") {
            return Err(refuse(s.as_slice(), "Alt and Ctrl together arrive as neither chord"));
        }
        return Err(refuse(s.as_slice(), "rat does not read control chords as bindings"));
    }
    if chars_start_with(s.as_slice(), "Alt-") {
        proof { reveal_strlit("Alt-"); }
        let rest = chars_from(s.as_slice(), 4);
        if chars_start_with(rest.as_slice(), "Ctrl-") {
            return Err(refuse(s.as_slice(), "Alt and Ctrl together arrive as neither chord"));
        }
        if rest.len() == 1 {
            let c = rest[0];
            if exec_is_alt_spellable_char(c) {
                return Ok(Key::Alt(c));
            } else if exec_is_spellable_char(c) {
                return Err(refuse(
                    s.as_slice(),
                    "that byte opens an escape sequence, so rat never sees it as an Alt chord",
                ));
            } else if !is_ascii(c) {
                return Err(refuse(s.as_slice(), "rat reads its keys as ASCII"));
            }
        }
        return Err(refuse(s.as_slice(), "no key is spelled that way"));
    }
    if s.len() == 1 {
        let c = s[0];
        if exec_is_spellable_char(c) {
            return Ok(Key::Char(c));
        } else if c == ' ' {
            return Err(refuse(s.as_slice(), "a space is written `Space`"));
        } else if c == '\t' {
            return Err(refuse(s.as_slice(), "a tab is written `Tab`"));
        } else if c == '\r' || c == '\n' {
            return Err(refuse(s.as_slice(), "a newline is written `Enter`"));
        } else if !is_ascii(c) {
            return Err(refuse(s.as_slice(), "rat reads its keys as ASCII"));
        }
        return Err(refuse(s.as_slice(), "no key is spelled that way"));
    }
    if s.len() == 0 {
        return Err(refuse(s.as_slice(), "a binding needs a key to name"));
    }
    let reason = why_not_text(s.as_slice());
    Err(refuse(s.as_slice(), reason.as_str()))
}

/// The one spelling a key renders as.
pub open spec fn spelling_spec(key: Key) -> Seq<char> {
    match key {
        Key::Char(c) => seq![c],
        Key::Alt(c) => "Alt-"@.push(c),
        Key::CtrlA => "Ctrl-a"@,
        Key::CtrlC => "Ctrl-c"@,
        Key::CtrlE => "Ctrl-e"@,
        Key::CtrlU => "Ctrl-u"@,
        Key::CtrlW => "Ctrl-w"@,
        Key::Backspace => "Backspace"@,
        Key::Delete => "Delete"@,
        _ => name_of_from(key, 0)->0,
    }
}

/// The one spelling a key renders as — the inverse of [`parse_key`]
/// on every key a board can spell.
pub fn spelling_of(key: Key) -> (r: String)
    ensures
        r@ == spelling_spec(key),
{
    match key {
        Key::Char(c) => {
            let mut r = String::new();
            push_char(&mut r, c);
            proof { assert(r@ =~= seq![c]); }
            r
        },
        Key::Alt(c) => {
            let mut r = String::from_str("Alt-");
            push_char(&mut r, c);
            r
        },
        Key::CtrlA => String::from_str("Ctrl-a"),
        Key::CtrlC => String::from_str("Ctrl-c"),
        Key::CtrlE => String::from_str("Ctrl-e"),
        Key::CtrlU => String::from_str("Ctrl-u"),
        Key::CtrlW => String::from_str("Ctrl-w"),
        Key::Backspace => String::from_str("Backspace"),
        Key::Delete => String::from_str("Delete"),
        _ => {
            let rows = named_rows();
            let mut i: usize = 0;
            while i < 13
                invariant
                    i <= 13,
                    rows@.len() == 13,
                    forall|j: int| 0 <= j < 13 ==> (#[trigger] rows@[j]).0@ == named_keys()[j].0 && rows@[j].1 == named_keys()[j].1,
                    name_of_from(key, 0) == name_of_from(key, i as int),
                    forall|j: int| 0 <= j < i ==> named_keys()[j].1 != key,
                decreases 13 - i,
            {
                if rows[i].1 == key {
                    return String::from_str(rows[i].0);
                }
                i = i + 1;
            }
            // Every key without a bespoke arm above has a row.
            proof {
                assert(named_keys()[0].1 != key);
                assert(false);
            }
            String::new()
        },
    }
}

} // verus!

verus! {

/// Every key a board can spell, in the order the table, then the bare
/// characters, then the `Alt-` chords list them.
pub fn ascii_spellable() -> (keys: Vec<Key>)
    ensures
        forall|k: Key| keys@.contains(k) <==> (named_from_key(k) || (k matches Key::Char(c) && is_spellable_char(c))
            || (k matches Key::Alt(c) && is_alt_spellable_char(c))),
{
    let rows = named_rows();
    let mut keys: Vec<Key> = Vec::new();
    let mut i: usize = 0;
    while i < 13
        invariant
            i <= 13,
            rows@.len() == 13,
            forall|j: int| 0 <= j < 13 ==> (#[trigger] rows@[j]).0@ == named_keys()[j].0 && rows@[j].1 == named_keys()[j].1,
            keys@ == named_keys().take(i as int).map_values(|row: (Seq<char>, Key)| row.1),
        decreases 13 - i,
    {
        keys.push(rows[i].1);
        i = i + 1;
        assert(keys@ =~= named_keys().take(i as int).map_values(|row: (Seq<char>, Key)| row.1));
    }
    let named_len = keys.len();
    let mut b: u8 = 0x21;
    while b <= 0x7e
        invariant
            0x21 <= b <= 0x7f,
            keys@.len() == named_len + (b - 0x21),
            named_len == 13,
            keys@.take(13) == named_keys().map_values(|row: (Seq<char>, Key)| row.1),
            forall|j: int| 13 <= j < keys@.len() ==> keys@[j] == Key::Char((0x21 + (j - 13)) as char),
        decreases 0x7f - b,
    {
        keys.push(Key::Char(b as char));
        b = b + 1;
        assert(keys@.take(13) =~= keys@.take(keys@.len() - 1).take(13));
    }
    let bare_end = keys.len();
    let mut b: u8 = 0x21;
    while b <= 0x7e
        invariant
            0x21 <= b <= 0x7f,
            bare_end == 13 + 94,
            keys@.len() >= bare_end,
            keys@.take(13) == named_keys().map_values(|row: (Seq<char>, Key)| row.1),
            forall|j: int| 13 <= j < bare_end ==> keys@[j] == Key::Char((0x21 + (j - 13)) as char),
            forall|j: int| bare_end <= j < keys@.len() ==> (#[trigger] keys@[j] matches Key::Alt(c) && is_alt_spellable_char(c) && (c as u32) < b),
            forall|c: char| is_alt_spellable_char(c) && (c as u32) < b ==> keys@.contains(Key::Alt(c)),
        decreases 0x7f - b,
    {
        let c = b as char;
        let ghost prev = keys@;
        if exec_is_alt_spellable_char(c) {
            keys.push(Key::Alt(c));
            assert(keys@.take(13) =~= keys@.take(keys@.len() - 1).take(13));
            assert(keys@[keys@.len() - 1] == Key::Alt(c));
        }
        proof {
            assert forall|d: char| is_alt_spellable_char(d) && (d as u32) < b + 1 implies keys@.contains(Key::Alt(d)) by {
                if (d as u32) == b as u32 {
                    assert(d == c);
                    assert(keys@[keys@.len() - 1] == Key::Alt(c));
                } else {
                    assert(prev.contains(Key::Alt(d)));
                    let j = choose|j: int| 0 <= j < prev.len() && prev[j] == Key::Alt(d);
                    assert(keys@[j] == prev[j]);
                }
            }
        }
        b = b + 1;
    }
    proof {
        assert forall|k: Key| keys@.contains(k) <==> (named_from_key(k) || (k matches Key::Char(c) && is_spellable_char(c))
            || (k matches Key::Alt(c) && is_alt_spellable_char(c))) by {
            if keys@.contains(k) {
                let j = choose|j: int| 0 <= j < keys@.len() && keys@[j] == k;
                if j < 13 {
                    assert(keys@.take(13)[j] == k);
                    assert(named_keys()[j].1 == k);
                    lemma_named_from_key(k, j);
                }
            } else {
                if named_from_key(k) {
                    let j = choose|j: int| 0 <= j < 13 && named_keys()[j].1 == k;
                    assert(keys@.take(13)[j] == k);
                    assert(keys@[j] == k);
                }
                if let Key::Char(c) = k {
                    if is_spellable_char(c) {
                        let j = 13 + (c as u32 - 0x21);
                        assert(keys@[j as int] == Key::Char(c));
                    }
                }
            }
        }
    }
    keys
}

/// The key has a row in the named-key table.
pub open spec fn named_from_key(k: Key) -> bool {
    exists|j: int| 0 <= j < 13 && named_keys()[j].1 == k
}

proof fn lemma_named_from_key(k: Key, j: int)
    requires
        0 <= j < 13,
        named_keys()[j].1 == k,
    ensures
        named_from_key(k),
{
}

} // verus!

verus! {

/// A key a board can spell: a named key, a bare ASCII printable, or an
/// `Alt-` chord on one that does not open an escape sequence.
pub open spec fn spellable_key(k: Key) -> bool {
    named_from_key(k) || (k matches Key::Char(c) && is_spellable_char(c)) || (k matches Key::Alt(c)
        && is_alt_spellable_char(c))
}


/// Reading back the spelling of any spellable key gives that key:
/// `spelling_of` is the inverse of `parse_key`.
pub proof fn law_spelling_parses_back(k: Key)
    requires
        spellable_key(k),
    ensures
        parse_key_spec(spelling_spec(k)) == Ok::<Key, Seq<char>>(k),
{
    reveal_strlit("Enter");
    reveal_strlit("Esc");
    reveal_strlit("Tab");
    reveal_strlit("BackTab");
    reveal_strlit("Space");
    reveal_strlit("Up");
    reveal_strlit("Down");
    reveal_strlit("Left");
    reveal_strlit("Right");
    reveal_strlit("Home");
    reveal_strlit("End");
    reveal_strlit("PageUp");
    reveal_strlit("PageDown");
    reveal_strlit("Alt-");
    reveal_strlit("Ctrl-");
    reveal_with_fuel(named_from, 14);
    reveal_with_fuel(name_of_from, 14);
    let s = spelling_spec(k);
    match k {
        Key::Char(c) => {
            assert(s.len() == 1);
            assert(named_from(s, 0) is None);
            assert(!starts_with(s, "Ctrl-"@));
            assert(!starts_with(s, "Alt-"@));
        },
        Key::Alt(c) => {
            assert(s.len() == 5);
            assert(s[0] == 'A');
            assert(named_from(s, 0) is None);
            assert(s.subrange(0, 5)[0] != "Ctrl-"@[0]);
            assert(s.subrange(0, 4) =~= "Alt-"@);
            assert(s.subrange(4, 5) =~= seq![c]);
        },
        Key::CtrlA | Key::CtrlC | Key::CtrlE | Key::CtrlU | Key::CtrlW | Key::Backspace | Key::Delete => {
            let j = choose|j: int| 0 <= j < 13 && named_keys()[j].1 == k;
            assert(false);
        },
        Key::Enter => assert(named_from(s, 0) == Some(k)),
        Key::Esc => assert(named_from(s, 0) == Some(k)),
        Key::Tab => {
            assert("Tab"@[0] != "Esc"@[0]);
            assert(named_from(s, 0) == Some(k));
        },
        Key::BackTab => assert(named_from(s, 0) == Some(k)),
        Key::Space => assert(named_from(s, 0) == Some(k)),
        Key::Up => assert(named_from(s, 0) == Some(k)),
        Key::Down => assert(named_from(s, 0) == Some(k)),
        Key::Left => {
            assert("Left"@[0] != "Down"@[0]);
            assert(named_from(s, 0) == Some(k));
        },
        Key::Right => assert(named_from(s, 0) == Some(k)),
        Key::Home => {
            assert("Home"@[0] != "Down"@[0] && "Home"@[0] != "Left"@[0]);
            assert(named_from(s, 0) == Some(k));
        },
        Key::End => {
            assert("End"@[1] != "Esc"@[1] && "End"@[0] != "Tab"@[0]);
            assert(named_from(s, 0) == Some(k));
        },
        Key::PageUp => assert(named_from(s, 0) == Some(k)),
        Key::PageDown => assert(named_from(s, 0) == Some(k)),
    }
}

/// A spelling that parses is the one spelling of its key: no key has
/// two accepted spellings.
pub proof fn law_parsed_spelling_is_canonical(s: Seq<char>)
    requires
        parse_key_spec(s) is Ok,
    ensures
        spelling_spec(parse_key_spec(s)->Ok_0) == s,
        spellable_key(parse_key_spec(s)->Ok_0),
{
    reveal_strlit("Enter");
    reveal_strlit("Esc");
    reveal_strlit("Tab");
    reveal_strlit("BackTab");
    reveal_strlit("Space");
    reveal_strlit("Up");
    reveal_strlit("Down");
    reveal_strlit("Left");
    reveal_strlit("Right");
    reveal_strlit("Home");
    reveal_strlit("End");
    reveal_strlit("PageUp");
    reveal_strlit("PageDown");
    reveal_strlit("Alt-");
    reveal_strlit("Ctrl-");
    reveal_with_fuel(named_from, 14);
    reveal_with_fuel(name_of_from, 14);
    let k = parse_key_spec(s)->Ok_0;
    if named_from(s, 0) is Some {
        assert(spelling_spec(k) == s);
        assert(named_from_key(k));
    } else if starts_with(s, "Alt-"@) {
        let c = s[4];
        assert(k == Key::Alt(c));
        assert(s =~= "Alt-"@.push(c));
    } else {
        assert(s =~= seq![s[0]]);
    }
}

} // verus!
