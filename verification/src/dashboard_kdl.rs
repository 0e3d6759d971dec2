//! The KDL constructor: a walk over the parsed document to a
//! [`DashboardFile`] — parsing only; every rule lives once, in
//! `into_registry`.
//!
//! Every key a `pane` or `defaults` block accepts holds exactly one
//! value, so it may be written as a property or as a child node.
//! `command`'s argv and `trigger`'s specs hold lists and have no
//! property spelling, because a KDL property holds exactly one value.
//! `row`, `column`, `gap` and `row-gap` are not keys — containers hold
//! only cells, and `gap`/`row-gap` are the dashboard's, written once at
//! the top level.
use vstd::prelude::*;
use vstd::string::*;

use crate::dashboard_file::{DashboardFile, LayoutDecl, PaneDecl, TitleDecl};
use crate::kdl_doc::{KDiagnostic, KEntry, KNode, KValue, KdlFailure};
use crate::registry::ShellDecl;
use crate::template::{is_reference_name, refs_spec, Template};
use crate::text::{chars_eq, chars_of, debug_quote, debug_str, decimal, decimal_string, join_strings, joined, utf8_len};
use crate::variables::{Tier, VarSource, Variable, VariableBlock};

verus! {

broadcast use vstd::string::group_string_axioms;

/// A key a `pane` or `defaults` block accepts.
#[derive(Clone, Copy, PartialEq, Eq, Debug, Structural)]
pub enum PaneKey {
    Command,
    Script,
    Shell,
    Interval,
    Trigger,
    TriggerDebounce,
    Height,
    Width,
    Overflow,
    Border,
    Padding,
    Title,
    Chrome,
    Focusable,
    Live,
}

/// What a key's value looks like, and therefore where it may be
/// written: only a list lacks a property spelling.
#[derive(Clone, Copy, PartialEq, Eq, Debug, Structural)]
pub enum Shape {
    Text,
    Count,
    Flag,
    List,
    FlagOrText,
}

/// Every key, in the order every accepted-set list names them.
pub open spec fn pane_keys() -> Seq<PaneKey> {
    seq![
        PaneKey::Command, PaneKey::Script, PaneKey::Shell, PaneKey::Interval, PaneKey::Trigger,
        PaneKey::TriggerDebounce, PaneKey::Height, PaneKey::Width, PaneKey::Overflow, PaneKey::Border,
        PaneKey::Padding, PaneKey::Title, PaneKey::Chrome, PaneKey::Focusable, PaneKey::Live,
    ]
}

impl PaneKey {
    pub open spec fn name_spec(self) -> Seq<char> {
        match self {
            PaneKey::Command => "command"@,
            PaneKey::Script => "script"@,
            PaneKey::Shell => "shell"@,
            PaneKey::Interval => "interval"@,
            PaneKey::Trigger => "trigger"@,
            PaneKey::TriggerDebounce => "trigger-debounce"@,
            PaneKey::Height => "height"@,
            PaneKey::Width => "width"@,
            PaneKey::Overflow => "overflow"@,
            PaneKey::Border => "border"@,
            PaneKey::Padding => "padding"@,
            PaneKey::Title => "title"@,
            PaneKey::Chrome => "chrome"@,
            PaneKey::Focusable => "focusable"@,
            PaneKey::Live => "live"@,
        }
    }

    /// The key's name as written.
    pub fn name(&self) -> (s: &'static str)
        ensures
            s@ == self.name_spec(),
    {
        match self {
            PaneKey::Command => "command",
            PaneKey::Script => "script",
            PaneKey::Shell => "shell",
            PaneKey::Interval => "interval",
            PaneKey::Trigger => "trigger",
            PaneKey::TriggerDebounce => "trigger-debounce",
            PaneKey::Height => "height",
            PaneKey::Width => "width",
            PaneKey::Overflow => "overflow",
            PaneKey::Border => "border",
            PaneKey::Padding => "padding",
            PaneKey::Title => "title",
            PaneKey::Chrome => "chrome",
            PaneKey::Focusable => "focusable",
            PaneKey::Live => "live",
        }
    }

    pub open spec fn example_spec(self) -> Seq<char> {
        match self {
            PaneKey::Command => "command \"git\" \"log\""@,
            PaneKey::Script => "script \"#!/bin/sh\\necho hi\""@,
            PaneKey::Shell => "shell #true"@,
            PaneKey::Interval => "interval \"5s\""@,
            PaneKey::Trigger => "trigger \"file:./stamp\""@,
            PaneKey::TriggerDebounce => "trigger-debounce \"250ms\""@,
            PaneKey::Height => "height 7"@,
            PaneKey::Width => "width \"2fr\""@,
            PaneKey::Overflow => "overflow \"keep-bottom\""@,
            PaneKey::Border => "border \"rounded\""@,
            PaneKey::Padding => "padding \"0 1\""@,
            PaneKey::Title => "title \"Recent commits\""@,
            PaneKey::Chrome => "chrome #false"@,
            PaneKey::Focusable => "focusable #false"@,
            PaneKey::Live => "live #true"@,
        }
    }

    /// The example every teaching error shows.
    pub fn example(&self) -> (s: &'static str)
        ensures
            s@ == self.example_spec(),
    {
        match self {
            PaneKey::Command => "command \"git\" \"log\"",
            PaneKey::Script => "script \"#!/bin/sh\\necho hi\"",
            PaneKey::Shell => "shell #true",
            PaneKey::Interval => "interval \"5s\"",
            PaneKey::Trigger => "trigger \"file:./stamp\"",
            PaneKey::TriggerDebounce => "trigger-debounce \"250ms\"",
            PaneKey::Height => "height 7",
            PaneKey::Width => "width \"2fr\"",
            PaneKey::Overflow => "overflow \"keep-bottom\"",
            PaneKey::Border => "border \"rounded\"",
            PaneKey::Padding => "padding \"0 1\"",
            PaneKey::Title => "title \"Recent commits\"",
            PaneKey::Chrome => "chrome #false",
            PaneKey::Focusable => "focusable #false",
            PaneKey::Live => "live #true",
        }
    }

    pub open spec fn shape_spec(self) -> Shape {
        match self {
            PaneKey::Command | PaneKey::Trigger => Shape::List,
            PaneKey::Shell => Shape::FlagOrText,
            PaneKey::Height => Shape::Count,
            PaneKey::Chrome | PaneKey::Focusable | PaneKey::Live => Shape::Flag,
            _ => Shape::Text,
        }
    }

    /// The key's shape: what its value looks like.
    pub fn shape(&self) -> (s: Shape)
        ensures
            s == self.shape_spec(),
    {
        match self {
            PaneKey::Command | PaneKey::Trigger => Shape::List,
            PaneKey::Shell => Shape::FlagOrText,
            PaneKey::Height => Shape::Count,
            PaneKey::Chrome | PaneKey::Focusable | PaneKey::Live => Shape::Flag,
            _ => Shape::Text,
        }
    }

    /// A list key has no property spelling; every other shape has both.
    pub fn takes_a_property(&self) -> (b: bool)
        ensures
            b == !(self.shape_spec() is List),
    {
        !matches!(self.shape(), Shape::List)
    }

    /// The one example, in property position: its first space becomes `=`.
    pub open spec fn property_example_spec(self) -> Seq<char> {
        let e = self.example_spec();
        let i = crate::text::index_of_from(e, ' ', 0);
        if i < e.len() {
            e.subrange(0, i) + "="@ + e.subrange(i + 1, e.len() as int)
        } else {
            e
        }
    }

    pub fn property_example(&self) -> (s: String)
        ensures
            s@ == self.property_example_spec(),
    {
        let e = self.example();
        let v = chars_of(e);
        let i = crate::text::find_char_from(v.as_slice(), ' ', 0);
        if i >= v.len() {
            return String::from_str(e);
        }
        let head = crate::text::chars_range(v.as_slice(), 0, i);
        let tail = crate::text::chars_from(v.as_slice(), i + 1);
        let mut s = crate::text::string_of(head.as_slice());
        s.append("=");
        let t = crate::text::string_of(tail.as_slice());
        s.append(t.as_str());
        s
    }
}

/// What a key takes, in the words an error uses.
pub open spec fn takes_spec(k: PaneKey) -> Seq<char> {
    match k.shape_spec() {
        Shape::Text => "one string"@,
        Shape::Count => "one integer"@,
        Shape::Flag => "#true or #false"@,
        Shape::List => "one or more strings"@,
        Shape::FlagOrText => "#true, #false, or one string"@,
    }
}

pub fn takes(k: PaneKey) -> (s: &'static str)
    ensures
        s@ == takes_spec(k),
{
    match k.shape() {
        Shape::Text => "one string",
        Shape::Count => "one integer",
        Shape::Flag => "#true or #false",
        Shape::List => "one or more strings",
        Shape::FlagOrText => "#true, #false, or one string",
    }
}

/// The first key from position `i` of the table named `name`.
pub open spec fn key_from(name: Seq<char>, i: int) -> Option<PaneKey>
    decreases 15 - i,
{
    if i < 0 || i >= 15 {
        None
    } else if pane_keys()[i].name_spec() == name {
        Some(pane_keys()[i])
    } else {
        key_from(name, i + 1)
    }
}

/// The key `name` names, if it names one.
pub fn key(name: &str) -> (r: Option<PaneKey>)
    ensures
        r == key_from(name@, 0),
{
    proof { reveal_with_fuel(key_from, 16); }
    let v = chars_of(name);
    let s = v.as_slice();
    if chars_eq(s, "command") { Some(PaneKey::Command) }
    else if chars_eq(s, "script") { Some(PaneKey::Script) }
    else if chars_eq(s, "shell") { Some(PaneKey::Shell) }
    else if chars_eq(s, "interval") { Some(PaneKey::Interval) }
    else if chars_eq(s, "trigger") { Some(PaneKey::Trigger) }
    else if chars_eq(s, "trigger-debounce") { Some(PaneKey::TriggerDebounce) }
    else if chars_eq(s, "height") { Some(PaneKey::Height) }
    else if chars_eq(s, "width") { Some(PaneKey::Width) }
    else if chars_eq(s, "overflow") { Some(PaneKey::Overflow) }
    else if chars_eq(s, "border") { Some(PaneKey::Border) }
    else if chars_eq(s, "padding") { Some(PaneKey::Padding) }
    else if chars_eq(s, "title") { Some(PaneKey::Title) }
    else if chars_eq(s, "chrome") { Some(PaneKey::Chrome) }
    else if chars_eq(s, "focusable") { Some(PaneKey::Focusable) }
    else if chars_eq(s, "live") { Some(PaneKey::Live) }
    else { None }
}

/// The keys legal in the position an error is complaining about.
pub open spec fn key_list_spec(property_position: bool) -> Seq<char> {
    if property_position {
        "script, shell, interval, trigger-debounce, height, width, overflow, border, padding, title, chrome, focusable, live"@
    } else {
        "command, script, shell, interval, trigger, trigger-debounce, height, width, overflow, border, padding, title, chrome, focusable, live"@
    }
}

pub fn key_list(property_position: bool) -> (s: &'static str)
    ensures
        s@ == key_list_spec(property_position),
{
    if property_position {
        "script, shell, interval, trigger-debounce, height, width, overflow, border, padding, title, chrome, focusable, live"
    } else {
        "command, script, shell, interval, trigger, trigger-debounce, height, width, overflow, border, padding, title, chrome, focusable, live"
    }
}

pub open spec fn shape_err_spec(k: PaneKey, at: Seq<char>) -> Seq<char> {
    at + ": `"@ + k.name_spec() + "` takes "@ + takes_spec(k) + " — write `"@ + k.example_spec() + "`"@
}

/// Every shape error is generated from the key's own example.
pub fn shape_err(k: PaneKey, at: &str) -> (e: String)
    ensures
        e@ == shape_err_spec(k, at@),
{
    let mut e = String::from_str(at);
    e.append(": `");
    e.append(k.name());
    e.append("` takes ");
    e.append(takes(k));
    e.append(" — write `");
    e.append(k.example());
    e.append("`");
    e
}

pub open spec fn prop_shape_err_spec(k: PaneKey, at: Seq<char>) -> Seq<char> {
    at + ": `"@ + k.name_spec() + "` takes "@ + takes_spec(k) + " — write `"@ + k.property_example_spec() + "`"@
}

/// The same complaint against the property spelling.
pub fn prop_shape_err(k: PaneKey, at: &str) -> (e: String)
    ensures
        e@ == prop_shape_err_spec(k, at@),
{
    let mut e = String::from_str(at);
    e.append(": `");
    e.append(k.name());
    e.append("` takes ");
    e.append(takes(k));
    e.append(" — write `");
    let p = k.property_example();
    e.append(p.as_str());
    e.append("`");
    e
}

} // verus!

verus! {

fn copy_opt(o: &Option<String>) -> (r: Option<String>)
    ensures
        r == *o,
{
    match o {
        Some(s) => Some(s.clone()),
        None => None,
    }
}

/// The same entry, field for field.
pub fn copy_entry(e: &KEntry) -> (r: KEntry)
    ensures
        r == *e,
{
    KEntry {
        name: copy_opt(&e.name),
        ty: copy_opt(&e.ty),
        value: match &e.value {
            KValue::Text(s) => KValue::Text(s.clone()),
            KValue::Int(i) => KValue::Int(*i),
            KValue::Flag(b) => KValue::Flag(*b),
            KValue::Other => KValue::Other,
        },
        written: e.written.clone(),
        repr: copy_opt(&e.repr),
        offset: e.offset,
        len: e.len,
    }
}

/// A node's positional entries — the values a key was written with —
/// in order.
pub open spec fn positional_spec(entries: Seq<KEntry>) -> Seq<KEntry>
    decreases entries.len(),
{
    if entries.len() == 0 {
        seq![]
    } else {
        positional_spec(entries.drop_last()) + (if entries.last().name is None {
            seq![entries.last()]
        } else {
            seq![]
        })
    }
}

pub fn positional(node: &KNode) -> (r: Vec<KEntry>)
    ensures
        r@ == positional_spec(node.entries@),
{
    let mut r: Vec<KEntry> = Vec::new();
    let mut i: usize = 0;
    while i < node.entries.len()
        invariant
            i <= node.entries@.len(),
            r@ == positional_spec(node.entries@.take(i as int)),
        decreases node.entries@.len() - i,
    {
        proof {
            assert(node.entries@.take(i + 1).drop_last() =~= node.entries@.take(i as int));
        }
        let ghost before = r@;
        if node.entries[i].name.is_none() {
            r.push(copy_entry(&node.entries[i]));
            assert(r@ =~= before + seq![node.entries@[i as int]]);
        } else {
            assert(before + Seq::<KEntry>::empty() =~= before);
        }
        i = i + 1;
    }
    assert(node.entries@.take(node.entries@.len() as int) =~= node.entries@);
    r
}

/// The text a value holds, when it is a string.
pub open spec fn text_of(e: KEntry) -> Option<Seq<char>> {
    match e.value {
        KValue::Text(s) => Some(s@),
        _ => None,
    }
}

pub open spec fn annotation_text(at: Seq<char>, ty: Seq<char>, key: Seq<char>) -> Seq<char> {
    at + ": the ("@ + ty + ") type annotation on `"@ + key + "` has no meaning here — remove it"@
}

/// A type annotation never means anything to this grammar.
pub fn refuse_annotation(ty: &Option<String>, key: &str, at: &str) -> (r: Result<(), String>)
    ensures
        match ty {
            Some(t) => r is Err && r->Err_0@ == annotation_text(at@, t@, key@),
            None => r is Ok,
        },
{
    match ty {
        Some(t) => {
            let mut m = String::from_str(at);
            m.append(": the (");
            m.append(t.as_str());
            m.append(") type annotation on `");
            m.append(key);
            m.append("` has no meaning here — remove it");
            Err(m)
        },
        None => Ok(()),
    }
}

/// A document setting is declared once.
pub fn declared_once(name: &str, seen: &mut Vec<String>) -> (r: Result<(), String>)
    ensures
        crate::dashboard_file::name_views(old(seen)@).contains(name@) ==> r is Err && r->Err_0@ == "`"@ + name@
            + "` is declared twice — a dashboard declares it once"@ && final(seen)@ == old(seen)@,
        !crate::dashboard_file::name_views(old(seen)@).contains(name@) ==> r is Ok && crate::dashboard_file::name_views(
            final(seen)@) == crate::dashboard_file::name_views(old(seen)@).push(name@),
{
    if crate::dashboard_file::names_contain(seen.as_slice(), name) {
        let mut m = String::from_str("`");
        m.append(name);
        m.append("` is declared twice — a dashboard declares it once");
        return Err(m);
    }
    let ghost before = seen@;
    seen.push(String::from_str(name));
    assert(crate::dashboard_file::name_views(seen@) =~= crate::dashboard_file::name_views(before).push(name@));
    Ok(())
}

/// One key, one place, once.
pub fn record(seen: &mut Vec<PaneKey>, k: PaneKey, at: &str) -> (r: Result<(), String>)
    ensures
        old(seen)@.contains(k) ==> r is Err && r->Err_0@ == at@ + ": `"@ + k.name_spec()
            + "` is declared twice — declare it once, as a property or a child node"@,
        !old(seen)@.contains(k) ==> r is Ok && final(seen)@ == old(seen)@.push(k),
{
    let mut i: usize = 0;
    while i < seen.len()
        invariant
            i <= seen@.len(),
            seen@ == old(seen)@,
            forall|j: int| 0 <= j < i ==> seen@[j] != k,
        decreases seen@.len() - i,
    {
        if seen[i] == k {
            let mut m = String::from_str(at);
            m.append(": `");
            m.append(k.name());
            m.append("` is declared twice — declare it once, as a property or a child node");
            return Err(m);
        }
        i = i + 1;
    }
    seen.push(k);
    Ok(())
}

/// A key node carries its value and nothing else: no property, no
/// block, no annotation.
/// Why a key's child node is more than one value, if it is: an
/// annotation, a property, or a block.
pub open spec fn value_refusal(node: KNode, k: PaneKey, at: Seq<char>) -> Option<Seq<char>> {
    if node.ty is Some {
        Some(annotation_text(at, node.ty->0@, k.name_spec()))
    } else {
        entries_value_refusal(node.entries@, 0, node, k, at)
    }
}

pub open spec fn entries_value_refusal(entries: Seq<KEntry>, i: int, node: KNode, k: PaneKey, at: Seq<char>) -> Option<
    Seq<char>,
>
    decreases entries.len() - i,
{
    if i < 0 || i >= entries.len() {
        if node.children is Some {
            Some(at + ": `"@ + k.name_spec() + "` takes "@ + takes_spec(k) + " and holds no block — write `"@
                + k.example_spec() + "`"@)
        } else {
            None
        }
    } else {
        match entries[i].name {
            Some(p) => Some(at + ": `"@ + k.name_spec() + "` takes "@ + takes_spec(k) + ", but "@ + debug_str(p@)
                + " is set — write `"@ + k.example_spec() + "`"@),
            None => if entries[i].ty is Some {
                Some(annotation_text(at, entries[i].ty->0@, k.name_spec()))
            } else {
                entries_value_refusal(entries, i + 1, node, k, at)
            },
        }
    }
}

pub fn only_a_value(node: &KNode, k: PaneKey, at: &str) -> (r: Result<(), String>)
    ensures
        node.ty matches Some(t) ==> r is Err && r->Err_0@ == annotation_text(at@, t@, k.name_spec()),
        r is Ok ==> node.ty is None && node.children is None && forall|i: int| 0 <= i < node.entries@.len()
            ==> (#[trigger] node.entries@[i]).name is None && node.entries@[i].ty is None,
        match value_refusal(*node, k, at@) {
            Some(m) => r is Err && r->Err_0@ == m,
            None => r is Ok,
        },
{
    match refuse_annotation(&node.ty, k.name(), at) {
        Ok(()) => {},
        Err(e) => return Err(e),
    }
    let mut i: usize = 0;
    while i < node.entries.len()
        invariant
            i <= node.entries@.len(),
            node.ty is None,
            forall|j: int| 0 <= j < i ==> (#[trigger] node.entries@[j]).name is None && node.entries@[j].ty is None,
            value_refusal(*node, k, at@) == entries_value_refusal(node.entries@, i as int, *node, k, at@),
        decreases node.entries@.len() - i,
    {
        let entry = &node.entries[i];
        match &entry.name {
            Some(prop) => {
                let mut m = String::from_str(at);
                m.append(": `");
                m.append(k.name());
                m.append("` takes ");
                m.append(takes(k));
                m.append(", but ");
                let q = debug_quote(prop.as_str());
                m.append(q.as_str());
                m.append(" is set — write `");
                m.append(k.example());
                m.append("`");
                return Err(m);
            },
            None => {
                match refuse_annotation(&entry.ty, k.name(), at) {
                    Ok(()) => {},
                    Err(e) => return Err(e),
                }
            },
        }
        i = i + 1;
    }
    if node.children.is_some() {
        let mut m = String::from_str(at);
        m.append(": `");
        m.append(k.name());
        m.append("` takes ");
        m.append(takes(k));
        m.append(" and holds no block — write `");
        m.append(k.example());
        m.append("`");
        return Err(m);
    }
    Ok(())
}

/// A user's token, quoted the way the rest of the catalog quotes them:
/// a string as Rust's `{:?}` spells it, anything else as rendered.
pub fn as_written(e: &KEntry) -> (s: String)
    ensures
        text_of(*e) matches Some(t) ==> s@ == debug_str(t),
        text_of(*e) is None ==> s@ == crate::text::trim(e.written@),
{
    match &e.value {
        KValue::Text(t) => debug_quote(t.as_str()),
        _ => {
            let v = chars_of(e.written.as_str());
            let t = crate::text::trim_chars(v.as_slice());
            crate::text::string_of(t.as_slice())
        },
    }
}

/// The first value, from `i` on, that is a string naming a pane key.
pub open spec fn stray_key_from(values: Seq<KEntry>, i: int) -> Option<PaneKey>
    decreases values.len() - i,
{
    if i < 0 || i >= values.len() {
        None
    } else if text_of(values[i]) is Some && key_from(text_of(values[i])->0, 0) is Some {
        key_from(text_of(values[i])->0, 0)
    } else {
        stray_key_from(values, i + 1)
    }
}

/// A bare positional that names a pane key — found only when a string
/// names one.
pub fn stray_key(values: &[KEntry]) -> (r: Option<PaneKey>)
    ensures
        r == stray_key_from(values@, 0),
{
    let mut i: usize = 0;
    while i < values.len()
        invariant
            i <= values@.len(),
            stray_key_from(values@, 0) == stray_key_from(values@, i as int),
        decreases values@.len() - i,
    {
        match &values[i].value {
            KValue::Text(t) => {
                match key(t.as_str()) {
                    Some(k) => return Some(k),
                    None => {},
                }
            },
            _ => {},
        }
        i = i + 1;
    }
    None
}

/// The first value, from `i` on, that is the string `gap` or `row-gap`.
pub open spec fn stray_setting_from(values: Seq<KEntry>, i: int) -> Option<Seq<char>>
    decreases values.len() - i,
{
    if i < 0 || i >= values.len() {
        None
    } else if text_of(values[i]) == Some("gap"@) {
        Some("gap"@)
    } else if text_of(values[i]) == Some("row-gap"@) {
        Some("row-gap"@)
    } else {
        stray_setting_from(values, i + 1)
    }
}

/// The same scan for the document settings, which are not pane keys.
pub fn stray_setting(values: &[KEntry]) -> (r: Option<&'static str>)
    ensures
        match stray_setting_from(values@, 0) {
            Some(s) => r is Some && r->0@ == s,
            None => r is None,
        },
{
    let mut i: usize = 0;
    while i < values.len()
        invariant
            i <= values@.len(),
            stray_setting_from(values@, 0) == stray_setting_from(values@, i as int),
        decreases values@.len() - i,
    {
        match &values[i].value {
            KValue::Text(t) => {
                let v = chars_of(t.as_str());
                if chars_eq(v.as_slice(), "gap") {
                    return Some("gap");
                }
                if chars_eq(v.as_slice(), "row-gap") {
                    return Some("row-gap");
                }
            },
            _ => {},
        }
        i = i + 1;
    }
    None
}

/// The first position, from `i` on, holding the string `name`, or the length.
pub open spec fn text_index(values: Seq<KEntry>, name: Seq<char>, i: int) -> int
    decreases values.len() - i,
{
    if i < 0 || i >= values.len() {
        values.len() as int
    } else if text_of(values[i]) == Some(name) {
        i
    } else {
        text_index(values, name, i + 1)
    }
}

fn find_text(values: &[KEntry], name: &str) -> (i: usize)
    ensures
        i as int == text_index(values@, name@, 0),
        i <= values@.len(),
{
    let mut i: usize = 0;
    while i < values.len()
        invariant
            i <= values@.len(),
            text_index(values@, name@, 0) == text_index(values@, name@, i as int),
        decreases values@.len() - i,
    {
        match &values[i].value {
            KValue::Text(t) => {
                let v = chars_of(t.as_str());
                if chars_eq(v.as_slice(), name) {
                    return i;
                }
            },
            _ => {},
        }
        i = i + 1;
    }
    i
}

/// Whether a value may be echoed as the key's own spelling: it fits
/// the key's shape, and a string for `shell` names no other key.
pub open spec fn fits_spec(k: PaneKey, e: KEntry) -> bool {
    match k.shape_spec() {
        Shape::Flag => e.value is Flag,
        Shape::Count => e.value is Int,
        Shape::Text => e.value is Text,
        Shape::List => false,
        Shape::FlagOrText => match e.value {
            KValue::Flag(_) => true,
            KValue::Text(s) => crate::text::trim(s@).len() > 0 && key_from(s@, 0) is None,
            _ => false,
        },
    }
}

fn fits(k: PaneKey, e: &KEntry) -> (b: bool)
    ensures
        b == fits_spec(k, *e),
{
    match k.shape() {
        Shape::Flag => matches!(e.value, KValue::Flag(_)),
        Shape::Count => matches!(e.value, KValue::Int(_)),
        Shape::Text => matches!(e.value, KValue::Text(_)),
        Shape::List => false,
        Shape::FlagOrText => match &e.value {
            KValue::Flag(_) => true,
            KValue::Text(s) => {
                let v = chars_of(s.as_str());
                let t = crate::text::trim_chars(v.as_slice());
                t.len() > 0 && key(s.as_str()).is_none()
            },
            _ => false,
        },
    }
}

pub open spec fn list_key_text(at: Seq<char>, k: PaneKey) -> Seq<char> {
    at + ": `"@ + k.name_spec() + "` holds a list, so it must be a child node — write `"@ + k.example_spec()
        + "` inside the block"@
}

/// An entry as the author wrote it: a string quoted, anything else
/// as its trimmed source text.
pub open spec fn as_written_spec(e: KEntry) -> Seq<char> {
    match text_of(e) {
        Some(t) => debug_str(t),
        None => crate::text::trim(e.written@),
    }
}

/// The teaching sentence for a pane key written in name position:
/// where it was, and the property spelling that was meant — with the
/// value that followed it, when that value fits the key.
pub open spec fn stray_key_text(at: Seq<char>, k: PaneKey, values: Seq<KEntry>) -> Seq<char> {
    if k.shape_spec() is List {
        list_key_text(at, k)
    } else {
        let i = text_index(values, k.name_spec(), 0);
        let spelling = if i + 1 < values.len() && fits_spec(k, values[i + 1]) {
            k.name_spec() + "="@ + as_written_spec(values[i + 1])
        } else {
            k.property_example_spec()
        };
        at + ": `"@ + k.name_spec() + "` is a key, not an id — write `"@ + spelling + "`"@
    }
}

/// The teaching sentence for a pane key written bare in name position.
pub fn stray_key_err(at: &str, k: PaneKey, values: &[KEntry]) -> (e: String)
    ensures
        e@ == stray_key_text(at@, k, values@),
{
    if matches!(k.shape(), Shape::List) {
        let mut m = String::from_str(at);
        m.append(": `");
        m.append(k.name());
        m.append("` holds a list, so it must be a child node — write `");
        m.append(k.example());
        m.append("` inside the block");
        return m;
    }
    let i = find_text(values, k.name());
    let spelling = if i < values.len() && i + 1 < values.len() && fits(k, &values[i + 1]) {
        let mut s = String::from_str(k.name());
        s.append("=");
        let w = as_written(&values[i + 1]);
        s.append(w.as_str());
        s
    } else {
        k.property_example()
    };
    let mut m = String::from_str(at);
    m.append(": `");
    m.append(k.name());
    m.append("` is a key, not an id — write `");
    m.append(spelling.as_str());
    m.append("`");
    m
}

/// The teaching sentence for a document setting written on a block:
/// the setting belongs at the top level, shown with the number that
/// followed it, or with `1`.
pub open spec fn stray_setting_text(at: Seq<char>, name: Seq<char>, values: Seq<KEntry>) -> Seq<char> {
    let i = text_index(values, name, 0);
    let example = if i + 1 < values.len() && values[i + 1].value is Int {
        name + " "@ + as_written_spec(values[i + 1])
    } else {
        name + " 1"@
    };
    at + ": `"@ + name + "` is the whole dashboard's, declared once at the top level as `"@ + example + "`"@
}

/// The teaching sentence for a document setting written on a block.
pub fn stray_setting_err(at: &str, name: &str, values: &[KEntry]) -> (e: String)
    ensures
        e@ == stray_setting_text(at@, name@, values@),
{
    let i = find_text(values, name);
    let example = if i < values.len() && i + 1 < values.len() && matches!(values[i + 1].value, KValue::Int(_)) {
        let mut s = String::from_str(name);
        s.append(" ");
        let w = as_written(&values[i + 1]);
        s.append(w.as_str());
        s
    } else {
        let mut s = String::from_str(name);
        s.append(" 1");
        s
    };
    let mut m = String::from_str(at);
    m.append(": `");
    m.append(name);
    m.append("` is the whole dashboard's, declared once at the top level as `");
    m.append(example.as_str());
    m.append("`");
    m
}

/// The container's own name — `a row` / `a column`.
pub fn container_kind(node: &KNode) -> (s: &'static str)
    ensures
        node.name@ == "column"@ ==> s@ == "a column"@,
        node.name@ != "column"@ ==> s@ == "a row"@,
{
    let v = chars_of(node.name.as_str());
    if chars_eq(v.as_slice(), "column") {
        "a column"
    } else {
        "a row"
    }
}

/// A container holds cells, never keys.
/// The first property set on a row or column, as its refusal.
pub open spec fn container_props_refusal(entries: Seq<KEntry>, i: int, label: Seq<char>, kind: Seq<char>) -> Option<Seq<char>>
    decreases entries.len() - i,
{
    if i < 0 || i >= entries.len() {
        None
    } else {
        match entries[i].name {
            None => container_props_refusal(entries, i + 1, label, kind),
            Some(p) => Some(if p@ == "gap"@ || p@ == "row-gap"@ {
                label + ": "@ + kind + " takes no properties — `"@ + p@
                    + "` is the whole dashboard's, declared once at the top level as `"@ + p@ + " 1`"@
            } else {
                label + ": "@ + kind + " takes no properties, but "@ + debug_str(p@) + " is set — "@ + kind
                    + " holds only `pane`, `row`, and `column` blocks"@
            }),
        }
    }
}

pub fn refuse_container_properties(node: &KNode, label: &str, kind: &str) -> (r: Result<(), String>)
    ensures
        r is Ok <==> forall|i: int| 0 <= i < node.entries@.len() ==> (#[trigger] node.entries@[i]).name is None,
        match container_props_refusal(node.entries@, 0, label@, kind@) {
            Some(m) => r is Err && r->Err_0@ == m,
            None => r is Ok,
        },
{
    let mut i: usize = 0;
    while i < node.entries.len()
        invariant
            i <= node.entries@.len(),
            forall|j: int| 0 <= j < i ==> (#[trigger] node.entries@[j]).name is None,
            container_props_refusal(node.entries@, 0, label@, kind@) == container_props_refusal(
                node.entries@,
                i as int,
                label@,
                kind@,
            ),
        decreases node.entries@.len() - i,
    {
        match &node.entries[i].name {
            Some(prop) => {
                let v = chars_of(prop.as_str());
                let mut m = String::from_str(label);
                m.append(": ");
                m.append(kind);
                if chars_eq(v.as_slice(), "gap") || chars_eq(v.as_slice(), "row-gap") {
                    m.append(" takes no properties — `");
                    m.append(prop.as_str());
                    m.append("` is the whole dashboard's, declared once at the top level as `");
                    m.append(prop.as_str());
                    m.append(" 1`");
                } else {
                    m.append(" takes no properties, but ");
                    let q = debug_quote(prop.as_str());
                    m.append(q.as_str());
                    m.append(" is set — ");
                    m.append(kind);
                    m.append(" holds only `pane`, `row`, and `column` blocks");
                }
                return Err(m);
            },
            None => {},
        }
        i = i + 1;
    }
    Ok(())
}

} // verus!

verus! {

/// The place of byte `offset`, walking chars from index `i` (at byte
/// `byte`) with the current line and column: a `\n` turns the line, a
/// `\r` is not a column, the walk stops at the first char starting at
/// or past the offset.
pub open spec fn line_col_from(t: Seq<char>, offset: int, i: int, byte: int, line: int, col: int) -> (int, int)
    decreases t.len() - i,
{
    if i < 0 || i >= t.len() || byte >= offset {
        (line, col)
    } else if t[i] == '\n' {
        line_col_from(t, offset, i + 1, byte + utf8_len(t[i]), line + 1, 1)
    } else if t[i] == '\r' {
        line_col_from(t, offset, i + 1, byte + utf8_len(t[i]), line, col)
    } else {
        line_col_from(t, offset, i + 1, byte + utf8_len(t[i]), line, col + 1)
    }
}

pub open spec fn line_column_spec(text: Seq<char>, offset: int) -> (int, int) {
    line_col_from(text, offset, 0, 0, 1, 1)
}

proof fn lemma_line_col_bounds(t: Seq<char>, offset: int, i: int, byte: int, line: int, col: int)
    requires
        0 <= i <= t.len(),
        1 <= line <= i + 1,
        1 <= col <= i + 1,
    ensures
        1 <= line_col_from(t, offset, i, byte, line, col).0 <= t.len() + 1,
        1 <= line_col_from(t, offset, i, byte, line, col).1 <= t.len() + 1,
    decreases t.len() - i,
{
    if i < t.len() && byte < offset {
        if t[i] == '\n' {
            lemma_line_col_bounds(t, offset, i + 1, byte + utf8_len(t[i]), line + 1, 1);
        } else if t[i] == '\r' {
            lemma_line_col_bounds(t, offset, i + 1, byte + utf8_len(t[i]), line, col);
        } else {
            lemma_line_col_bounds(t, offset, i + 1, byte + utf8_len(t[i]), line, col + 1);
        }
    }
}

/// Place a byte offset into 1-based (line, column). The offset walks
/// bytes while the column counts chars; a `\r` is not a column; a
/// mid-char offset lands after that char; an offset past the end
/// clamps to wherever the walk stops.
pub fn line_column(text: &str, offset: usize) -> (r: (usize, usize))
    requires
        text@.len() < usize::MAX,
    ensures
        r.0 as int == line_column_spec(text@, offset as int).0,
        r.1 as int == line_column_spec(text@, offset as int).1,
{
    let t = chars_of(text);
    let mut line: usize = 1;
    let mut column: usize = 1;
    let mut byte: usize = 0;
    let mut i: usize = 0;
    proof { lemma_line_col_bounds(t@, offset as int, 0, 0, 1, 1); }
    while i < t.len() && byte < offset
        invariant
            i <= t@.len(),
            t@ == text@,
            t@.len() < usize::MAX,
            1 <= line <= i + 1,
            1 <= column <= i + 1,
            line_column_spec(text@, offset as int) == line_col_from(t@, offset as int, i as int, byte as int,
                line as int, column as int),
        decreases t@.len() - i,
    {
        let c = t[i];
        if c == '\n' {
            line = line + 1;
            column = 1;
        } else if c == '\r' {
        } else {
            column = column + 1;
        }
        let step = crate::text::exec_utf8_len(c);
        i = i + 1;
        match byte.checked_add(step) {
            Some(b) => byte = b,
            None => {
                proof {
                    assert(line_col_from(t@, offset as int, i as int, byte + step, line as int, column as int)
                        == (line as int, column as int));
                }
                return (line, column);
            },
        }
    }
    (line, column)
}

pub open spec fn syntax_error_text_spec(line: nat, column: nat, message: Option<Seq<char>>) -> Seq<char> {
    "line "@ + decimal(line) + ", column "@ + decimal(column) + ": "@ + match message {
        Some(m) => m,
        None => "invalid KDL"@,
    }
}

/// The head line: `line N, column M: <message>` — the greppable form.
pub fn syntax_error_text(line: usize, column: usize, message: Option<&str>) -> (s: String)
    ensures
        s@ == syntax_error_text_spec(line as nat, column as nat, crate::kdl_doc::opt_text(message)),
{
    let mut s = String::from_str("line ");
    let l = decimal_string(line as u64);
    s.append(l.as_str());
    s.append(", column ");
    let c = decimal_string(column as u64);
    s.append(c.as_str());
    s.append(": ");
    match message {
        Some(m) => s.append(m),
        None => s.append("invalid KDL"),
    }
    s
}

/// The first diagnostic from `i` on with the least offset.
pub open spec fn first_min_from(d: Seq<KDiagnostic>, i: int, best: int) -> int
    decreases d.len() - i,
{
    if i < 0 || i >= d.len() {
        best
    } else if d[i].offset < d[best].offset {
        first_min_from(d, i + 1, i)
    } else {
        first_min_from(d, i + 1, best)
    }
}

/// Diagnostic `i` renders before diagnostic `j`: a smaller offset, or
/// the same offset and the earlier position.
pub open spec fn goes_before(d: Seq<KDiagnostic>, i: int, j: int) -> bool {
    d[i].offset < d[j].offset || (d[i].offset == d[j].offset && i < j)
}

/// `order` lists every diagnostic once, by offset, ties in place.
pub open spec fn offset_order(d: Seq<KDiagnostic>, order: Seq<int>) -> bool {
    &&& order.len() == d.len()
    &&& order.no_duplicates()
    &&& forall|k: int| 0 <= k < order.len() ==> 0 <= #[trigger] order[k] < d.len()
    &&& forall|a: int, b: int| 0 <= a < b < order.len() ==> goes_before(d, #[trigger] order[a], #[trigger] order[b])
}

/// The snippet blocks of the diagnostics in `order`, each on lines of
/// its own, trailing whitespace trimmed.
pub open spec fn blocks_text(d: Seq<KDiagnostic>, order: Seq<int>) -> Seq<char>
    decreases order.len(),
{
    if order.len() == 0 {
        Seq::empty()
    } else {
        blocks_text(d, order.drop_last()) + match d[order.last()].block {
            Some(b) => "\n"@ + crate::text::trim_end(b@),
            None => Seq::empty(),
        }
    }
}

/// The message for a document that did not parse: the crate's own
/// sentence when it gives no diagnostic, else the head line and every
/// snippet block in offset order.
pub open spec fn syntax_message(text: Seq<char>, f: KdlFailure, s: Seq<char>) -> bool {
    if f.diagnostics@.len() == 0 {
        s == f.display@
    } else {
        exists|order: Seq<int>| offset_order(f.diagnostics@, order) && s == syntax_head(text, f) + blocks_text(f.diagnostics@, order)
    }
}

/// The head line of a failed parse: the earliest diagnostic's place and message.
pub open spec fn syntax_head(text: Seq<char>, f: KdlFailure) -> Seq<char> {
    let d = f.diagnostics@;
    let first = d[first_min_from(d, 1, 0)];
    let (line, column) = line_column_spec(text, first.offset as int);
    syntax_error_text_spec(line as nat, column as nat, match first.message {
        Some(m) => Some(m@),
        None => None,
    })
}

proof fn lemma_first_min_bounds(d: Seq<KDiagnostic>, i: int, best: int)
    requires
        0 <= best < d.len(),
        best < i,
    ensures
        0 <= first_min_from(d, i, best) < d.len(),
    decreases d.len() - i,
{
    if 0 <= i < d.len() {
        if d[i].offset < d[best].offset {
            lemma_first_min_bounds(d, i + 1, i);
        } else {
            lemma_first_min_bounds(d, i + 1, best);
        }
    }
}

/// The placed error for a document that failed to parse: the earliest
/// diagnostic heads the message, and every diagnostic's snippet block
/// follows in offset order. An error with no diagnostics keeps the
/// crate's own sentence verbatim.
pub fn syntax_error(text: &str, failure: &KdlFailure) -> (s: String)
    requires
        text@.len() < usize::MAX,
    ensures
        failure.diagnostics@.len() == 0 ==> s@ == failure.display@,
        failure.diagnostics@.len() > 0 ==> s@.len() >= syntax_head(text@, *failure).len()
            && s@.subrange(0, syntax_head(text@, *failure).len() as int) == syntax_head(text@, *failure),
        failure.diagnostics@.len() > 0 ==> exists|order: Seq<int>| offset_order(failure.diagnostics@, order)
            && s@ == syntax_head(text@, *failure) + blocks_text(failure.diagnostics@, order),
{
    let d = &failure.diagnostics;
    if d.len() == 0 {
        return failure.display.clone();
    }
    let mut best: usize = 0;
    let mut i: usize = 1;
    proof { lemma_first_min_bounds(d@, 1, 0); }
    while i < d.len()
        invariant
            1 <= i <= d@.len(),
            best < i,
            first_min_from(d@, 1, 0) == first_min_from(d@, i as int, best as int),
        decreases d@.len() - i,
    {
        if d[i].offset < d[best].offset {
            best = i;
        }
        i = i + 1;
    }
    let first = &d[best];
    let (line, column) = line_column(text, first.offset);
    let message: Option<&str> = match &first.message {
        Some(m) => Some(m.as_str()),
        None => None,
    };
    let mut s = syntax_error_text(line, column, message);
    let ghost head = s@;
    // Every block, in offset order; equal offsets keep their order.
    let n = d.len();
    let mut used: Vec<bool> = Vec::new();
    let mut k: usize = 0;
    while k < n
        invariant
            k <= n,
            n == d@.len(),
            used@.len() == k,
            forall|j: int| 0 <= j < k ==> !(#[trigger] used@[j]),
        decreases n - k,
    {
        used.push(false);
        k = k + 1;
    }
    let ghost order: Seq<int> = Seq::empty();
    assert(s@ =~= head + blocks_text(d@, order));
    let mut round: usize = 0;
    while round < n
        invariant
            round <= n,
            n == d@.len(),
            used@.len() == n,
            order.len() == round,
            order.no_duplicates(),
            forall|k: int| 0 <= k < order.len() ==> 0 <= #[trigger] order[k] < n,
            forall|j: int| 0 <= j < n ==> (#[trigger] used@[j] <==> order.contains(j)),
            forall|a: int, b: int| 0 <= a < b < order.len() ==> goes_before(d@, #[trigger] order[a], #[trigger] order[b]),
            forall|a: int, j: int| #![trigger order[a], used@[j]] 0 <= a < order.len() && 0 <= j < n && !used@[j] ==> goes_before(d@, order[a], j),
            s@ == head + blocks_text(d@, order),
        decreases n - round,
    {
        let mut pick: usize = n;
        let mut j: usize = 0;
        while j < n
            invariant
                j <= n,
                n == d@.len(),
                used@.len() == n,
                pick <= n,
                pick < n ==> pick < j && !used@[pick as int],
                forall|jj: int| 0 <= jj < j && !(#[trigger] used@[jj]) ==> pick < n && (jj == pick || goes_before(
                    d@,
                    pick as int,
                    jj,
                )),
            decreases n - j,
        {
            if !used[j] && (pick == n || d[j].offset < d[pick].offset) {
                pick = j;
            }
            j = j + 1;
        }
        proof {
            lemma_some_unused(order, n as int);
            let free = choose|jj: int| 0 <= jj < n && !order.contains(jj);
            assert(!used@[free]);
        }
        assert(pick < n);
        let ghost before_used = used@;
        used.set(pick, true);
        let ghost prev = order;
        proof {
            order = order.push(pick as int);
            assert(order.drop_last() =~= prev);
            assert forall|x: int, y: int| 0 <= x < order.len() && 0 <= y < order.len() && x != y implies order[x] != order[y] by {
                if x < prev.len() && y < prev.len() {
                    assert(order[x] == prev[x] && order[y] == prev[y]);
                } else if x < prev.len() {
                    assert(prev.contains(prev[x]));
                } else {
                    assert(prev.contains(prev[y]));
                }
            }
            assert forall|jj: int| 0 <= jj < n implies (#[trigger] used@[jj] <==> order.contains(jj)) by {
                if jj == pick {
                    assert(order[order.len() - 1] == jj);
                } else {
                    if order.contains(jj) {
                        let q = choose|q: int| 0 <= q < order.len() && order[q] == jj;
                        assert(q < prev.len());
                        assert(prev[q] == jj);
                    }
                    if prev.contains(jj) {
                        let q = choose|q: int| 0 <= q < prev.len() && prev[q] == jj;
                        assert(order[q] == jj);
                    }
                }
            }
            assert forall|a: int, b: int| 0 <= a < b < order.len() implies goes_before(d@, #[trigger] order[a], #[trigger] order[b]) by {
                if b < prev.len() {
                    assert(order[a] == prev[a] && order[b] == prev[b]);
                } else {
                    assert(order[a] == prev[a]);
                    assert(!before_used[pick as int]);
                }
            }
            assert forall|a: int, jj: int| #![trigger order[a], used@[jj]] 0 <= a < order.len() && 0 <= jj < n && !used@[jj] implies goes_before(
                d@,
                order[a],
                jj,
            ) by {
                assert(!before_used[jj]);
                if a < prev.len() {
                    assert(order[a] == prev[a]);
                } else {
                    assert(jj != pick);
                }
            }
        }
        match &d[pick].block {
            Some(b) => {
                let v = chars_of(b.as_str());
                let t = crate::text::trim_end_chars(v.as_slice());
                let tail = crate::text::string_of(t.as_slice());
                let ghost before = s@;
                s.append("\n");
                s.append(tail.as_str());
                assert(s@ =~= head + blocks_text(d@, order));
            },
            None => {
                assert(blocks_text(d@, order) =~= blocks_text(d@, prev));
            },
        }
        round = round + 1;
    }
    proof {
        assert(offset_order(d@, order));
        assert(s@.subrange(0, head.len() as int) =~= head);
    }
    s
}

/// Fewer distinct positions than there are leave one unused.
proof fn lemma_some_unused(order: Seq<int>, n: int)
    requires
        order.no_duplicates(),
        order.len() < n,
        forall|k: int| 0 <= k < order.len() ==> 0 <= #[trigger] order[k] < n,
    ensures
        exists|j: int| 0 <= j < n && !order.contains(j),
{
    if forall|j: int| 0 <= j < n ==> order.contains(j) {
        vstd::set_lib::lemma_int_range(0, n);
        order.unique_seq_to_set();
        assert(vstd::set_lib::set_int_range(0, n).subset_of(order.to_set()));
        vstd::seq_lib::seq_to_set_is_finite(order);
        vstd::set_lib::lemma_len_subset(vstd::set_lib::set_int_range(0, n), order.to_set());
    }
}

pub open spec fn placed_error_spec(
    text: Seq<char>,
    start: usize,
    len: usize,
    message: Seq<char>,
    help: Option<Seq<char>>,
    colored: bool,
) -> Seq<char> {
    let (line, column) = line_column_spec(text, start as int);
    syntax_error_text_spec(line as nat, column as nat, Some(message)) + if start + len > crate::text::bytes_of(text) {
        Seq::empty()
    } else {
        match crate::kdl_doc::snippet_block(text, start, len, message, "here"@, help, colored) {
            Some(b) => "\n"@ + crate::text::trim_end(b),
            None => ""@,
        }
    }
}

/// A semantic error, placed in the source the way a syntax error is:
/// the `line N, column M: …` head, then miette's snippet block echoing
/// the offending line. A span that runs past the text has no line to
/// echo, and gets no block.
pub fn placed_error(text: &str, start: usize, len: usize, message: &str, help: Option<&str>, colored: bool) -> (s: String)
    requires
        text@.len() < usize::MAX,
    ensures
        s@ == placed_error_spec(text@, start, len, message@, crate::kdl_doc::opt_text(help), colored),
{
    let (line, column) = line_column(text, start);
    let mut out = syntax_error_text(line, column, Some(message));
    let all = chars_of(text);
    let total = crate::text::prefix_bytes(all.as_slice(), all.len());
    proof {
        assert(all@.take(all@.len() as int) =~= all@);
    }
    if start as u128 + len as u128 > total {
        assert(out@ + Seq::<char>::empty() =~= out@);
        return out;
    }
    match crate::kdl_doc::render_snippet(text, start, len, message, "here", help, colored) {
        Some(b) => {
            let v = chars_of(b.as_str());
            let t = crate::text::trim_end_chars(v.as_slice());
            let tail = crate::text::string_of(t.as_slice());
            out.append("\n");
            out.append(tail.as_str());
        },
        None => {
            out.append("");
        },
    }
    out
}

} // verus!

verus! {

/// What a string site needs beyond its own bytes: the document an
/// error is placed into, the caller's color verdict, and the declared
/// variables to hold its references to.
pub struct Load<'a> {
    pub text: &'a str,
    pub colored: bool,
    pub vars: &'a VariableBlock,
}

/// Whether an entry's value is a raw KDL string: its verbatim source
/// opens with one or more `#` and then a quote.
pub open spec fn is_raw_spec(e: KEntry) -> bool {
    match e.repr {
        None => false,
        Some(r) => {
            let rt = crate::text::trim_start(r@);
            let n = leading_hashes(rt, 0);
            n > 0 && n < rt.len() && rt[n] == '"'
        },
    }
}

/// How many `#` open `s` from `i` on.
pub open spec fn leading_hashes(s: Seq<char>, i: int) -> int
    decreases s.len() - i,
{
    if i < 0 || i >= s.len() || s[i] != '#' {
        if i < 0 { 0 } else { i }
    } else {
        leading_hashes(s, i + 1)
    }
}

/// Double quotes interpolate, raw strings don't: decided lexically from
/// the value's verbatim source. With no source kept, the value is normal.
pub fn is_raw(entry: &KEntry) -> (b: bool)
    ensures
        b == is_raw_spec(*entry),
{
    match &entry.repr {
        None => false,
        Some(r) => {
            let v = chars_of(r.as_str());
            let rt = crate::text::trim_start_chars(v.as_slice());
            let mut n: usize = 0;
            while n < rt.len() && rt[n] == '#'
                invariant
                    n <= rt@.len(),
                    leading_hashes(rt@, 0) == leading_hashes(rt@, n as int),
                decreases rt@.len() - n,
            {
                n = n + 1;
            }
            n > 0 && n < rt.len() && rt[n] == '"'
        },
    }
}

/// A string site's record: literal when raw, extracted otherwise.
pub open spec fn flavored(text: Seq<char>, raw: bool, t: Template) -> bool {
    t.text@ == text && t.interpolating == !raw && t.wf()
}

fn template_for(text: &str, raw: bool) -> (t: Template)
    ensures
        flavored(text@, raw, t),
{
    if raw {
        Template::literal(text)
    } else {
        Template::extract(text)
    }
}

/// A `shell` entry as a declaration: `#true` is the platform's shell,
/// `#false` no shell at all, and a non-blank string names the program.
pub open spec fn shell_decl_spec(e: KEntry) -> Option<ShellDecl> {
    match e.value {
        KValue::Flag(true) => Some(ShellDecl::Platform),
        KValue::Flag(false) => Some(ShellDecl::Direct),
        KValue::Text(s) => if crate::text::trim(s@).len() > 0 {
            Some(ShellDecl::Named(arbitrary()))
        } else {
            None
        },
        _ => None,
    }
}

pub fn shell_decl(entry: &KEntry) -> (r: Option<ShellDecl>)
    ensures
        (r is Some) == (shell_decl_spec(*entry) is Some),
        entry.value == KValue::Flag(true) ==> r == Some(ShellDecl::Platform),
        entry.value == KValue::Flag(false) ==> r == Some(ShellDecl::Direct),
        entry.value is Text && r is Some ==> (r->0 matches ShellDecl::Named(t) && flavored(
            entry.value->Text_0@, is_raw_spec(*entry), t)),
{
    match &entry.value {
        KValue::Flag(b) => Some(if *b { ShellDecl::Platform } else { ShellDecl::Direct }),
        KValue::Text(name) => {
            let v = chars_of(name.as_str());
            let t = crate::text::trim_chars(v.as_slice());
            if t.len() == 0 {
                None
            } else {
                Some(ShellDecl::Named(template_for(name.as_str(), is_raw(entry))))
            }
        },
        _ => None,
    }
}

/// Where a reference sits in the source: the entry's span, walked to
/// the value's verbatim source and then to the `{{name}}` inside it —
/// each miss falling back to the span's start.
pub open spec fn reference_offset_spec(text: Seq<char>, e: KEntry, name: Seq<char>) -> int {
    let start = e.offset as int;
    let end = start + e.len;
    if end > usize::MAX {
        start
    } else {
        match (crate::text::char_at_byte(text, start, 0), crate::text::char_at_byte(text, end, 0)) {
            (Some(cs), Some(ce)) => if cs > ce {
                start
            } else {
                match e.repr {
                    None => start,
                    Some(rep) => {
                        let src = text.subrange(cs, ce);
                        match crate::text::sub_index(src, rep@, 0) {
                            None => start,
                            Some(p) => {
                                let q = match crate::text::sub_index(rep@, "{{"@ + name + "}}"@, 0) {
                                    Some(q) => crate::text::bytes_of(rep@.take(q)),
                                    None => 0,
                                };
                                let total = start + crate::text::bytes_of(src.take(p)) + q;
                                if total > usize::MAX { start } else { total }
                            },
                        }
                    },
                }
            },
            _ => start,
        }
    }
}

pub fn reference_offset(text: &str, entry: &KEntry, name: &str) -> (r: usize)
    ensures
        r as int == reference_offset_spec(text@, *entry, name@),
{
    let start = entry.offset;
    let end = match start.checked_add(entry.len) {
        Some(e) => e,
        None => return start,
    };
    let t = chars_of(text);
    let cs = match crate::text::char_index_at_byte(t.as_slice(), start) {
        Some(k) => k,
        None => return start,
    };
    let ce = match crate::text::char_index_at_byte(t.as_slice(), end) {
        Some(k) => k,
        None => return start,
    };
    if cs > ce {
        return start;
    }
    let repr = match &entry.repr {
        Some(r) => r,
        None => return start,
    };
    let src = crate::text::chars_range(t.as_slice(), cs, ce);
    let rv = chars_of(repr.as_str());
    let p = match crate::text::find_sub(src.as_slice(), rv.as_slice()) {
        Some(p) => p,
        None => return start,
    };
    let mut pat = String::from_str("{{");
    pat.append(name);
    pat.append("}}");
    let pv = chars_of(pat.as_str());
    let q: u128 = match crate::text::find_sub(rv.as_slice(), pv.as_slice()) {
        Some(q) => crate::text::prefix_bytes(rv.as_slice(), q),
        None => 0,
    };
    let pb = crate::text::prefix_bytes(src.as_slice(), p);
    let total: u128 = start as u128 + pb + q;
    if total > usize::MAX as u128 {
        start
    } else {
        total as usize
    }
}

} // verus!

verus! {

/// The help an unknown-variable error shows: the declared names, or
/// that there are none.
pub open spec fn unknown_help(vars: VariableBlock, h: Seq<char>) -> bool {
    if vars.vars@.len() == 0 {
        h == "this board declares no variables — add a `variables` block, or write the value literally"@
    } else {
        exists|s: Seq<Seq<char>>|
            crate::variables::sorted_seq(s) && s.to_multiset() == crate::variables::var_names(vars.vars@).to_multiset()
                && h == "declared variables are "@ + joined(s, ", "@)
    }
}

/// An unknown variable, placed at the reference, with the declared set
/// as its help.
pub fn unknown_variable_err(
    text: &str,
    start: usize,
    len: usize,
    name: &str,
    declared: &VariableBlock,
    colored: bool,
) -> (e: String)
    requires
        text@.len() < usize::MAX,
    ensures
        exists|h: Seq<char>| unknown_help(*declared, h) && e@ == placed_error_spec(text@, start, len,
            "unknown variable `"@ + name@ + "`"@, Some(h), colored),
{
    let help = if declared.is_empty() {
        String::from_str("this board declares no variables — add a `variables` block, or write the value literally")
    } else {
        let mut h = String::from_str("declared variables are ");
        let list = declared.declared_list();
        h.append(list.as_str());
        h
    };
    let mut message = String::from_str("unknown variable `");
    message.append(name);
    message.append("`");
    let e = placed_error(text, start, len, message.as_str(), Some(help.as_str()), colored);
    assert(unknown_help(*declared, help@));
    e
}

/// The bytes a `{{name}}` reference spans.
pub open spec fn ref_span_len(name: Seq<char>) -> usize {
    if crate::text::bytes_of(name) + 4 <= usize::MAX { (crate::text::bytes_of(name) + 4) as usize } else { usize::MAX }
}

/// The help line for a board declaring `names`.
pub open spec fn help_for(names: Seq<Seq<char>>, h: Seq<char>) -> bool {
    exists|b: VariableBlock| #[trigger] crate::variables::block_names(b) == names && unknown_help(b, h)
}

/// `e` refuses `entry`'s reference to `name`, placed at the reference.
pub open spec fn undeclared_at(text: Seq<char>, colored: bool, entry: KEntry, name: Seq<char>, h: Seq<char>, e: Seq<char>) -> bool {
    e == placed_error_spec(text, reference_offset_spec(text, entry, name) as usize, ref_span_len(name), "unknown variable `"@
        + name + "`"@, Some(h), colored)
}

/// `e` refuses a reference to a name the board does not declare: placed
/// at the reference, with the declared names as help.
pub open spec fn undeclared_refusal(text: Seq<char>, colored: bool, names: Seq<Seq<char>>, e: Seq<char>) -> bool {
    exists|entry: KEntry, name: Seq<char>, h: Seq<char>| #[trigger] undeclared_at(text, colored, entry, name, h, e)
        && !names.contains(name) && help_for(names, h)
}

/// `undeclared_refusal` against a load's document and variables.
pub open spec fn load_refused(load: Load, e: Seq<char>) -> bool {
    undeclared_refusal(load.text@, load.colored, crate::variables::block_names(*load.vars), e)
}

/// Whether every name is declared.
pub open spec fn all_declared(refs: Seq<String>, vars: VariableBlock) -> bool {
    forall|i: int| 0 <= i < refs.len() ==> crate::variables::position_of(vars.vars@, (#[trigger] refs[i])@, 0) is Some
}

/// Hold a recorded string's references to the declared set; the first
/// unknown one is refused, placed at the reference.
pub fn validate_refs(refs: &[String], entry: &KEntry, load: &Load) -> (r: Result<(), String>)
    requires
        load.text@.len() < usize::MAX,
    ensures
        r is Ok <==> all_declared(refs@, *load.vars),
        r is Err ==> load_refused(*load, r->Err_0@),
{
    let mut i: usize = 0;
    while i < refs.len()
        invariant
            i <= refs@.len(),
            load.text@.len() < usize::MAX,
            forall|j: int| 0 <= j < i ==> crate::variables::position_of(load.vars.vars@, (#[trigger] refs@[j])@, 0) is Some,
        decreases refs@.len() - i,
    {
        let name = refs[i].as_str();
        if !load.vars.contains(name) {
            let at = reference_offset(load.text, entry, name);
            let nv = chars_of(name);
            let nb = crate::text::prefix_bytes(nv.as_slice(), nv.len());
            let len: usize = if nb + 4 <= usize::MAX as u128 { (nb + 4) as usize } else { usize::MAX };
            let e = unknown_variable_err(load.text, at, len, name, load.vars, load.colored);
            proof {
                assert(nv@.take(nv@.len() as int) =~= nv@);
                crate::variables::lemma_declared_iff(load.vars.vars@, name@);
                let h = choose|h: Seq<char>| unknown_help(*load.vars, h) && e@ == placed_error_spec(load.text@, at, len,
                    "unknown variable `"@ + name@ + "`"@, Some(h), load.colored);
                assert(help_for(crate::variables::block_names(*load.vars), h));
                assert(undeclared_at(load.text@, load.colored, *entry, name@, h, e@));
            }
            return Err(e);
        }
        i = i + 1;
    }
    Ok(())
}

/// Record a string site under its flavor and hold its references to
/// the declared set.
pub fn template_of(text: &str, entry: &KEntry, load: &Load) -> (r: Result<Template, String>)
    requires
        load.text@.len() < usize::MAX,
    ensures
        r is Ok ==> flavored(text@, is_raw_spec(*entry), r->Ok_0) && all_declared(r->Ok_0.refs@, *load.vars),
        r is Ok <==> text_ok(text@, *entry, crate::variables::block_names(*load.vars)),
        r is Err ==> load_refused(*load, r->Err_0@),
{
    let t = template_for(text, is_raw(entry));
    proof {
        if is_raw_spec(*entry) {
            assert(t.refs@.len() == 0) by {
                assert(crate::template::names_of(t.refs@).len() == t.refs@.len());
            }
        }
    }
    proof {
        lemma_text_ok(text@, *entry, t, *load.vars);
    }
    match validate_refs(t.refs(), entry, load) {
        Ok(()) => Ok(t),
        Err(e) => Err(e),
    }
}


/// A flavored template's references are all declared exactly when its
/// text is accepted.
pub proof fn lemma_text_ok(text: Seq<char>, entry: KEntry, t: Template, vars: VariableBlock)
    requires
        flavored(text, is_raw_spec(entry), t),
    ensures
        all_declared(t.refs@, vars) <==> text_ok(text, entry, crate::variables::block_names(vars)),
{
    let names = crate::variables::block_names(vars);
    assert(crate::template::names_of(t.refs@).len() == t.refs@.len());
    if !is_raw_spec(entry) {
        assert(crate::template::names_of(t.refs@) == refs_spec(text));
        assert forall|i: int| 0 <= i < t.refs@.len() implies (#[trigger] t.refs@[i])@ == refs_spec(text)[i] by {
            assert(crate::template::names_of(t.refs@)[i] == t.refs@[i]@);
        }
        if names_declared(refs_spec(text), names) {
            assert forall|i: int| 0 <= i < t.refs@.len() implies crate::variables::position_of(
                vars.vars@, (#[trigger] t.refs@[i])@, 0) is Some by {
                assert(refs_spec(text)[i] == t.refs@[i]@);
                crate::variables::lemma_declared_iff(vars.vars@, t.refs@[i]@);
            }
        }
        if all_declared(t.refs@, vars) {
            assert forall|i: int| 0 <= i < refs_spec(text).len() implies names.contains(
                #[trigger] refs_spec(text)[i]) by {
                assert(refs_spec(text)[i] == t.refs@[i]@);
                crate::variables::lemma_declared_iff(vars.vars@, t.refs@[i]@);
            }
        }
    } else {
        assert(t.refs@.len() == 0);
    }
}

/// Every name is declared.
pub open spec fn names_declared(names: Seq<Seq<char>>, vars: Seq<Seq<char>>) -> bool {
    forall|i: int| 0 <= i < names.len() ==> vars.contains(#[trigger] names[i])
}

/// Whether a string site's text is accepted: a raw string always is;
/// a normal one when every reference in it is declared.
pub open spec fn text_ok(text: Seq<char>, entry: KEntry, vars: Seq<Seq<char>>) -> bool {
    is_raw_spec(entry) || names_declared(refs_spec(text), vars)
}

/// `shell_words::split`'s words for a line, when its quoting balances.
pub uninterp spec fn shell_split(line: Seq<char>) -> Option<Seq<Seq<char>>>;

/// `shell_words::split`: the line cut into words as a POSIX shell
/// would, or `None` when a quote is left open (the crate's one error,
/// "missing closing quote"). The words themselves are named, not
/// described.
#[verifier::external_body]
fn split_words(line: &str) -> (r: Option<Vec<String>>)
    ensures
        match r {
            Some(v) => shell_split(line@) == Some(crate::dashboard_file::name_views(v@)),
            None => shell_split(line@) is None,
        },
{
    shell_words::split(line).ok()
}

/// Each word re-recorded under the whole value's flavor, so an
/// expansion lands inside the word that held it.
pub fn reslice(line: &Template, words: &Vec<String>) -> (r: Vec<Template>)
    ensures
        r@.len() == words@.len(),
        forall|i: int| 0 <= i < words@.len() ==> flavored(words@[i]@, !line.interpolating, #[trigger] r@[i]),
{
    let mut r: Vec<Template> = Vec::new();
    let mut i: usize = 0;
    while i < words.len()
        invariant
            i <= words@.len(),
            r@.len() == i,
            forall|k: int| 0 <= k < i ==> flavored(words@[k]@, !line.interpolating, #[trigger] r@[k]),
        decreases words@.len() - i,
    {
        r.push(template_for(words[i].as_str(), !line.interpolates()));
        i = i + 1;
    }
    r
}

pub open spec fn unbalanced_text(at: Seq<char>) -> Seq<char> {
    at + ": command has unbalanced quoting (missing closing quote)"@
}

/// A command's argv: one word under a shell stays one word; a single
/// line is split into words; a list is taken as written.
pub fn command_argv(argv: Vec<Template>, shell: bool, at: &str) -> (r: Result<Vec<Template>, String>)
    ensures
        argv@.len() != 1 ==> r == Ok::<Vec<Template>, String>(argv),
        argv@.len() == 1 && shell ==> r == Ok::<Vec<Template>, String>(argv),
        argv@.len() == 1 && !shell && shell_split(argv@[0].text@) is None ==> r is Err && r->Err_0@
            == unbalanced_text(at@),
        argv@.len() == 1 && !shell && shell_split(argv@[0].text@) is Some ==> r is Ok
            && r->Ok_0@.len() == shell_split(argv@[0].text@)->0.len() && forall|i: int| 0 <= i < r->Ok_0@.len()
            ==> flavored(shell_split(argv@[0].text@)->0[i], !argv@[0].interpolating, #[trigger] r->Ok_0@[i]),
{
    if argv.len() != 1 || shell {
        return Ok(argv);
    }
    match split_words(argv[0].as_str()) {
        None => {
            let mut m = String::from_str(at);
            m.append(": command has unbalanced quoting (missing closing quote)");
            Err(m)
        },
        Some(words) => {
            let r = reslice(&argv[0], &words);
            Ok(r)
        },
    }
}

pub open spec fn height_text(at: Seq<char>) -> Seq<char> {
    at + ": height must be a non-negative integer (max 65535)"@
}

/// A height fits a `u16` or is refused.
pub fn height_of(cells: i128, at: &str) -> (r: Result<u16, String>)
    ensures
        0 <= cells <= 65535 ==> r == Ok::<u16, String>(cells as u16),
        !(0 <= cells <= 65535) ==> r is Err && r->Err_0@ == height_text(at@),
{
    if 0 <= cells && cells <= 65535 {
        Ok(cells as u16)
    } else {
        let mut m = String::from_str(at);
        m.append(": height must be a non-negative integer (max 65535)");
        Err(m)
    }
}

/// Put a string-valued key on the declaration.
pub fn apply_text(decl: &mut PaneDecl, k: PaneKey, t: Template)
    requires
        k.shape_spec() is Text,
    ensures
        k == PaneKey::Script ==> final(decl).script == Some(t),
        k == PaneKey::Interval ==> final(decl).interval == Some(t),
        k == PaneKey::TriggerDebounce ==> final(decl).trigger_debounce == Some(t),
        k == PaneKey::Width ==> final(decl).width == Some(t),
        k == PaneKey::Overflow ==> final(decl).overflow == Some(t),
        k == PaneKey::Border ==> final(decl).border == Some(t),
        k == PaneKey::Padding ==> final(decl).padding == Some(t),
        k == PaneKey::Title ==> final(decl).title == Some(t),
        same_except(*old(decl), *final(decl), k),
        final(decl).id == old(decl).id,
        final(decl).command == old(decl).command,
        final(decl).shell == old(decl).shell,
        final(decl).trigger == old(decl).trigger,
        final(decl).height == old(decl).height,
        final(decl).chrome == old(decl).chrome,
        final(decl).focusable == old(decl).focusable,
        final(decl).live == old(decl).live,
{
    match k {
        PaneKey::Script => decl.script = Some(t),
        PaneKey::Interval => decl.interval = Some(t),
        PaneKey::TriggerDebounce => decl.trigger_debounce = Some(t),
        PaneKey::Width => decl.width = Some(t),
        PaneKey::Overflow => decl.overflow = Some(t),
        PaneKey::Border => decl.border = Some(t),
        PaneKey::Padding => decl.padding = Some(t),
        _ => decl.title = Some(t),
    }
}

/// Put a flag-valued key on the declaration.
pub fn apply_flag(decl: &mut PaneDecl, k: PaneKey, b: bool)
    requires
        k.shape_spec() is Flag,
    ensures
        k == PaneKey::Chrome ==> final(decl).chrome == Some(b) && final(decl).focusable == old(decl).focusable
            && final(decl).live == old(decl).live,
        k == PaneKey::Focusable ==> final(decl).focusable == Some(b) && final(decl).chrome == old(decl).chrome
            && final(decl).live == old(decl).live,
        k == PaneKey::Live ==> final(decl).live == Some(b) && final(decl).chrome == old(decl).chrome
            && final(decl).focusable == old(decl).focusable,
        same_except(*old(decl), *final(decl), k),
        final(decl).id == old(decl).id,
        final(decl).command == old(decl).command,
        final(decl).script == old(decl).script,
        final(decl).height == old(decl).height,
{
    match k {
        PaneKey::Chrome => decl.chrome = Some(b),
        PaneKey::Focusable => decl.focusable = Some(b),
        _ => decl.live = Some(b),
    }
}

} // verus!

verus! {

/// A property's string, recorded and validated.
pub fn prop_text(entry: &KEntry, k: PaneKey, at: &str, load: &Load) -> (r: Result<Template, String>)
    requires
        load.text@.len() < usize::MAX,
    ensures
        !(entry.value is Text) ==> r is Err && r->Err_0@ == prop_shape_err_spec(k, at@),
        r is Ok ==> entry.value is Text && flavored(entry.value->Text_0@, is_raw_spec(*entry), r->Ok_0),
        r is Ok <==> entry.value is Text && text_ok(entry.value->Text_0@, *entry, crate::variables::block_names(*load.vars)),
        entry.value is Text && r is Err ==> load_refused(*load, r->Err_0@),
{
    match &entry.value {
        KValue::Text(s) => template_of(s.as_str(), entry, load),
        _ => Err(prop_shape_err(k, at)),
    }
}

/// A property's integer.
pub fn prop_count(entry: &KEntry, k: PaneKey, at: &str) -> (r: Result<i128, String>)
    ensures
        match entry.value {
            KValue::Int(i) => r == Ok::<i128, String>(i),
            _ => r is Err && r->Err_0@ == prop_shape_err_spec(k, at@),
        },
{
    match &entry.value {
        KValue::Int(i) => Ok(*i),
        _ => Err(prop_shape_err(k, at)),
    }
}

/// A property's boolean.
pub fn prop_flag(entry: &KEntry, k: PaneKey, at: &str) -> (r: Result<bool, String>)
    ensures
        match entry.value {
            KValue::Flag(b) => r == Ok::<bool, String>(b),
            _ => r is Err && r->Err_0@ == prop_shape_err_spec(k, at@),
        },
{
    match &entry.value {
        KValue::Flag(b) => Ok(*b),
        _ => Err(prop_shape_err(k, at)),
    }
}

/// A child node's one string.
pub fn one_text(node: &KNode, k: PaneKey, at: &str, load: &Load) -> (r: Result<Template, String>)
    requires
        load.text@.len() < usize::MAX,
    ensures
        !(positional_spec(node.entries@).len() == 1 && positional_spec(node.entries@)[0].value is Text) ==> r is Err
            && r->Err_0@ == shape_err_spec(k, at@),
        r is Ok ==> positional_spec(node.entries@).len() == 1 && flavored(
            positional_spec(node.entries@)[0].value->Text_0@, is_raw_spec(positional_spec(node.entries@)[0]),
            r->Ok_0),
        r is Ok <==> positional_spec(node.entries@).len() == 1 && positional_spec(node.entries@)[0].value is Text
            && text_ok(positional_spec(node.entries@)[0].value->Text_0@, positional_spec(node.entries@)[0], crate::variables::block_names(*load.vars)),
        positional_spec(node.entries@).len() == 1 && positional_spec(node.entries@)[0].value is Text && r is Err
            ==> load_refused(*load, r->Err_0@),
{
    let values = positional(node);
    if values.len() != 1 {
        return Err(shape_err(k, at));
    }
    match &values[0].value {
        KValue::Text(s) => template_of(s.as_str(), &values[0], load),
        _ => Err(shape_err(k, at)),
    }
}

/// A child node's one integer.
pub fn one_count(node: &KNode, k: PaneKey, at: &str) -> (r: Result<i128, String>)
    ensures
        positional_spec(node.entries@).len() == 1 && positional_spec(node.entries@)[0].value is Int ==> r
            == Ok::<i128, String>(positional_spec(node.entries@)[0].value->Int_0),
        !(positional_spec(node.entries@).len() == 1 && positional_spec(node.entries@)[0].value is Int) ==> r is Err
            && r->Err_0@ == shape_err_spec(k, at@),
{
    let values = positional(node);
    if values.len() != 1 {
        return Err(shape_err(k, at));
    }
    match &values[0].value {
        KValue::Int(i) => Ok(*i),
        _ => Err(shape_err(k, at)),
    }
}

/// A child node's one boolean.
pub fn one_flag(node: &KNode, k: PaneKey, at: &str) -> (r: Result<bool, String>)
    ensures
        positional_spec(node.entries@).len() == 1 && positional_spec(node.entries@)[0].value is Flag ==> r
            == Ok::<bool, String>(positional_spec(node.entries@)[0].value->Flag_0),
        !(positional_spec(node.entries@).len() == 1 && positional_spec(node.entries@)[0].value is Flag) ==> r is Err
            && r->Err_0@ == shape_err_spec(k, at@),
{
    let values = positional(node);
    if values.len() != 1 {
        return Err(shape_err(k, at));
    }
    match &values[0].value {
        KValue::Flag(b) => Ok(*b),
        _ => Err(shape_err(k, at)),
    }
}

/// A pane's `shell`, property spelling: the one shell reader plus the
/// validation of a templated dialect name.
pub fn prop_mode(entry: &KEntry, k: PaneKey, at: &str, load: &Load) -> (r: Result<ShellDecl, String>)
    requires
        load.text@.len() < usize::MAX,
    ensures
        shell_decl_spec(*entry) is None ==> r is Err && r->Err_0@ == prop_shape_err_spec(k, at@),
        r is Ok ==> shell_decl_spec(*entry) is Some && all_declared(r->Ok_0.refs_spec(), *load.vars),
        r is Ok ==> shell_from_entry(r->Ok_0, *entry) || entry.value == KValue::Flag(false) && r->Ok_0 is Direct,
        r is Ok <==> shell_decl_spec(*entry) is Some && (entry.value is Flag || text_ok(
            entry.value->Text_0@,
            *entry,
            crate::variables::block_names(*load.vars),
        )),
        shell_decl_spec(*entry) is Some && r is Err ==> load_refused(*load, r->Err_0@),
{
    let decl = match shell_decl(entry) {
        Some(d) => d,
        None => return Err(prop_shape_err(k, at)),
    };
    proof {
        if entry.value is Text && decl is Named {
            lemma_text_ok(entry.value->Text_0@, *entry, decl->Named_0, *load.vars);
        }
    }
    match validate_refs(decl.refs(), entry, load) {
        Ok(()) => Ok(decl),
        Err(e) => Err(e),
    }
}

/// A pane's `shell`, child-node spelling.
pub fn one_mode(node: &KNode, k: PaneKey, at: &str, load: &Load) -> (r: Result<ShellDecl, String>)
    requires
        load.text@.len() < usize::MAX,
    ensures
        positional_spec(node.entries@).len() != 1 ==> r is Err && r->Err_0@ == shape_err_spec(k, at@),
        positional_spec(node.entries@).len() == 1 && shell_decl_spec(positional_spec(node.entries@)[0]) is None ==> r is Err
            && r->Err_0@ == shape_err_spec(k, at@),
        r is Ok ==> all_declared(r->Ok_0.refs_spec(), *load.vars),
        r is Ok ==> shell_from_entry(r->Ok_0, positional_spec(node.entries@)[0]) || positional_spec(node.entries@)[0].value
            == KValue::Flag(false) && r->Ok_0 is Direct,
        r is Ok <==> positional_spec(node.entries@).len() == 1 && shell_decl_spec(positional_spec(node.entries@)[0]) is Some
            && (positional_spec(node.entries@)[0].value is Flag || text_ok(
            positional_spec(node.entries@)[0].value->Text_0@,
            positional_spec(node.entries@)[0],
            crate::variables::block_names(*load.vars),
        )),
        positional_spec(node.entries@).len() == 1 && shell_decl_spec(positional_spec(node.entries@)[0]) is Some && r is Err
            ==> load_refused(*load, r->Err_0@),
{
    let values = positional(node);
    if values.len() != 1 {
        return Err(shape_err(k, at));
    }
    let decl = match shell_decl(&values[0]) {
        Some(d) => d,
        None => return Err(shape_err(k, at)),
    };
    proof {
        if values@[0].value is Text && decl is Named {
            lemma_text_ok(values@[0].value->Text_0@, values@[0], decl->Named_0, *load.vars);
        }
    }
    match validate_refs(decl.refs(), &values[0], load) {
        Ok(()) => Ok(decl),
        Err(e) => Err(e),
    }
}

/// A string entry and the template recorded from it.
pub open spec fn text_entry_ok(e: KEntry, t: Template) -> bool {
    e.value is Text && flavored(e.value->Text_0@, is_raw_spec(e), t)
}

/// A list key's strings: one or more, each recorded and validated.
pub fn many_text(node: &KNode, k: PaneKey, at: &str, load: &Load) -> (r: Result<Vec<Template>, String>)
    requires
        load.text@.len() < usize::MAX,
    ensures
        positional_spec(node.entries@).len() == 0 ==> r is Err && r->Err_0@ == shape_err_spec(k, at@),
        r is Ok ==> r->Ok_0@.len() == positional_spec(node.entries@).len() && forall|i: int| 0 <= i < r->Ok_0@.len()
            ==> text_entry_ok(positional_spec(node.entries@)[i], #[trigger] r->Ok_0@[i]),
        r is Ok <==> positional_spec(node.entries@).len() > 0 && forall|i: int| 0 <= i < positional_spec(node.entries@).len()
            ==> (#[trigger] positional_spec(node.entries@)[i]).value is Text && text_ok(
            positional_spec(node.entries@)[i].value->Text_0@,
            positional_spec(node.entries@)[i],
            crate::variables::block_names(*load.vars),
        ),
        positional_spec(node.entries@).len() > 0 ==> match list_refusal(positional_spec(node.entries@), 0, k, at@, crate::variables::block_names(*load.vars)) {
            Some(Some(m)) => r is Err && r->Err_0@ == m,
            Some(None) => r is Err && load_refused(*load, r->Err_0@),
            None => r is Ok,
        },
{
    let values = positional(node);
    if values.len() == 0 {
        return Err(shape_err(k, at));
    }
    let mut out: Vec<Template> = Vec::new();
    let mut i: usize = 0;
    while i < values.len()
        invariant
            i <= values@.len(),
            values@ == positional_spec(node.entries@),
            load.text@.len() < usize::MAX,
            out@.len() == i,
            forall|j: int| 0 <= j < i ==> text_entry_ok(values@[j], #[trigger] out@[j]),
            forall|j: int| 0 <= j < i ==> (#[trigger] values@[j]).value is Text && text_ok(
                values@[j].value->Text_0@,
                values@[j],
                crate::variables::block_names(*load.vars),
            ),
            values@.len() > 0,
            list_refusal(values@, 0, k, at@, crate::variables::block_names(*load.vars)) == list_refusal(values@, i as int, k, at@, crate::variables::block_names(*load.vars)),
        decreases values@.len() - i,
    {
        match &values[i].value {
            KValue::Text(s) => {
                assert(values@[i as int].value->Text_0 == *s);
                match template_of(s.as_str(), &values[i], load) {
                    Ok(t) => {
                        assert(flavored(values@[i as int].value->Text_0@, is_raw_spec(values@[i as int]), t));
                        let ghost before = out@;
                        out.push(t);
                        assert forall|j: int| 0 <= j <= i implies text_entry_ok(values@[j], #[trigger] out@[j]) by {
                            if j < i {
                                assert(out@[j] == before[j]);
                            }
                        }
                    },
                    Err(e) => return Err(e),
                }
            },
            _ => return Err(shape_err(k, at)),
        }
        i = i + 1;
    }
    Ok(out)
}

/// The last property named `name`, as the crate's own lookup finds it.
pub open spec fn last_prop(entries: Seq<KEntry>, name: Seq<char>) -> Option<KEntry>
    decreases entries.len(),
{
    if entries.len() == 0 {
        None
    } else if entries.last().name matches Some(n) && n@ == name {
        Some(entries.last())
    } else {
        last_prop(entries.drop_last(), name)
    }
}

fn find_last_prop(entries: &Vec<KEntry>, name: &str) -> (r: Option<usize>)
    ensures
        match last_prop(entries@, name@) {
            Some(e) => r is Some && r->0 < entries@.len() && entries@[r->0 as int] == e,
            None => r is None,
        },
{
    let mut i: usize = entries.len();
    assert(entries@.take(i as int) =~= entries@);
    while i > 0
        invariant
            i <= entries@.len(),
            last_prop(entries@, name@) == last_prop(entries@.take(i as int), name@),
        decreases i,
    {
        let matched = match &entries[i - 1].name {
            Some(n) => {
                let v = chars_of(n.as_str());
                chars_eq(v.as_slice(), name)
            },
            None => false,
        };
        assert(entries@.take(i as int).last() == entries@[i - 1]);
        if matched {
            return Some(i - 1);
        }
        assert(entries@.take(i as int).drop_last() =~= entries@.take(i - 1));
        i = i - 1;
    }
    None
}

/// The first child named `name`.
fn find_child(children: &Vec<KNode>, name: &str) -> (r: Option<usize>)
    ensures
        r is Some ==> r->0 < children@.len() && children@[r->0 as int].name@ == name@,
        r is Some ==> r->0 == first_child_named(children@, name@, 0),
        r is None ==> first_child_named(children@, name@, 0) >= children@.len(),
        r is None ==> forall|i: int| 0 <= i < children@.len() ==> (#[trigger] children@[i]).name@ != name@,
{
    let mut i: usize = 0;
    while i < children.len()
        invariant
            i <= children@.len(),
            forall|j: int| 0 <= j < i ==> (#[trigger] children@[j]).name@ != name@,
            first_child_named(children@, name@, 0) == first_child_named(children@, name@, i as int),
        decreases children@.len() - i,
    {
        let v = chars_of(children[i].name.as_str());
        if chars_eq(v.as_slice(), name) {
            return Some(i);
        }
        i = i + 1;
    }
    None
}

/// The first child from `i` on with the name, or the count.
pub open spec fn first_child_named(children: Seq<KNode>, name: Seq<char>, i: int) -> int
    decreases children.len() - i,
{
    if i < 0 || i >= children.len() {
        children.len() as int
    } else if children[i].name@ == name {
        i
    } else {
        first_child_named(children, name, i + 1)
    }
}

/// Whether a block's own `shell` runs a shell — read before the pass
/// that assigns it: the last `shell` property if any, else the first
/// `shell` child — or why it cannot be read.
pub open spec fn peek_spec(node: KNode, at: Seq<char>) -> Result<Option<bool>, Seq<char>> {
    match last_prop(node.entries@, "shell"@) {
        Some(e) => if shell_decl_spec(e) is Some {
            Ok(Some(e.value != KValue::Flag(false)))
        } else {
            Err(prop_shape_err_spec(PaneKey::Shell, at))
        },
        None => match node.children {
            None => Ok(None),
            Some(cs) => {
                let c = first_child_named(cs@, "shell"@, 0);
                if c >= cs@.len() {
                    Ok(None)
                } else {
                    let vals = positional_spec(cs@[c].entries@);
                    if vals.len() != 1 || shell_decl_spec(vals[0]) is None {
                        Err(shape_err_spec(PaneKey::Shell, at))
                    } else {
                        Ok(Some(vals[0].value != KValue::Flag(false)))
                    }
                }
            },
        },
    }
}

/// `shell` is read before the pass that assigns it, because the command
/// split depends on it: the property if written, else the first child
/// node.
pub fn peek_shell(node: &KNode, at: &str) -> (r: Result<Option<ShellDecl>, String>)
    ensures
        match peek_spec(*node, at@) {
            Err(m) => r is Err && r->Err_0@ == m,
            Ok(None) => r == Ok::<Option<ShellDecl>, String>(None),
            Ok(Some(runs)) => r is Ok && r->Ok_0 is Some && (!(r->Ok_0->0 is Direct) == runs),
        },
        last_prop(node.entries@, "shell"@) matches Some(e) ==> (shell_decl_spec(e) is Some ==> r is Ok && r->Ok_0 is Some)
            && (shell_decl_spec(e) is None ==> r is Err && r->Err_0@ == prop_shape_err_spec(PaneKey::Shell, at@)),
        last_prop(node.entries@, "shell"@) is None && (node.children is None || forall|i: int| 0 <= i < node.children->0@.len()
            ==> (#[trigger] node.children->0@[i]).name@ != "shell"@) ==> r == Ok::<Option<ShellDecl>, String>(None),
{
    match find_last_prop(&node.entries, "shell") {
        Some(i) => {
            return match shell_decl(&node.entries[i]) {
                Some(d) => Ok(Some(d)),
                None => Err(prop_shape_err(PaneKey::Shell, at)),
            };
        },
        None => {},
    }
    match &node.children {
        Some(children) => match find_child(children, "shell") {
            Some(c) => {
                let values = positional(&children[c]);
                if values.len() != 1 {
                    return Err(shape_err(PaneKey::Shell, at));
                }
                match shell_decl(&values[0]) {
                    Some(d) => Ok(Some(d)),
                    None => Err(shape_err(PaneKey::Shell, at)),
                }
            },
            None => Ok(None),
        },
        None => Ok(None),
    }
}

} // verus!

verus! {

/// The phrase every error about a block opens with.
pub open spec fn block_at(id: Option<String>) -> Seq<char> {
    match id {
        Some(name) => "pane "@ + debug_str(name@),
        None => "defaults"@,
    }
}

pub open spec fn twice_key_text(at: Seq<char>, k: PaneKey) -> Seq<char> {
    at + ": `"@ + k.name_spec() + "` is declared twice — declare it once, as a property or a child node"@
}

/// A named entry of a block: the key it records, or why it is refused
/// — `Err(Some(m))` with the sentence, `Err(None)` when its text names
/// an undeclared variable.
pub open spec fn entry_outcome(e: KEntry, seen: Seq<PaneKey>, at: Seq<char>, vars: Seq<Seq<char>>) -> Result<
    PaneKey,
    Option<Seq<char>>,
> {
    let p = e.name->0@;
    if e.ty is Some {
        Err(Some(annotation_text(at, e.ty->0@, p)))
    } else {
        match key_from(p, 0) {
            None => Err(Some(at + ": unknown property "@ + debug_str(p) + " — a pane's keys with a property spelling are "@
                + key_list_spec(true))),
            Some(k) => if seen.contains(k) {
                Err(Some(twice_key_text(at, k)))
            } else {
                match k.shape_spec() {
                    Shape::List => Err(Some(list_key_text(at, k))),
                    Shape::Text => if !(e.value is Text) {
                        Err(Some(prop_shape_err_spec(k, at)))
                    } else if !text_ok(e.value->Text_0@, e, vars) {
                        Err(None)
                    } else {
                        Ok(k)
                    },
                    Shape::Count => match e.value {
                        KValue::Int(c) => if 0 <= c <= 65535 { Ok(k) } else { Err(Some(height_text(at))) },
                        _ => Err(Some(prop_shape_err_spec(k, at))),
                    },
                    Shape::Flag => if e.value is Flag { Ok(k) } else { Err(Some(prop_shape_err_spec(k, at))) },
                    Shape::FlagOrText => if shell_decl_spec(e) is None {
                        Err(Some(prop_shape_err_spec(k, at)))
                    } else if !(e.value is Flag || text_ok(e.value->Text_0@, e, vars)) {
                        Err(None)
                    } else {
                        Ok(k)
                    },
                }
            },
        }
    }
}

/// A block's entries from `i` on, read in order: the keys recorded by
/// then, or the first refusal.
pub open spec fn entries_outcome(entries: Seq<KEntry>, i: int, seen: Seq<PaneKey>, at: Seq<char>, vars: Seq<Seq<char>>) -> Result<
    Seq<PaneKey>,
    Option<Seq<char>>,
>
    decreases entries.len() - i,
{
    if i < 0 || i >= entries.len() {
        Ok(seen)
    } else if entries[i].name is None {
        entries_outcome(entries, i + 1, seen, at, vars)
    } else {
        match entry_outcome(entries[i], seen, at, vars) {
            Err(e) => Err(e),
            Ok(k) => entries_outcome(entries, i + 1, seen.push(k), at, vars),
        }
    }
}

/// The first value of a list from `i` on that is not an accepted string.
pub open spec fn list_refusal(vals: Seq<KEntry>, i: int, k: PaneKey, at: Seq<char>, vars: Seq<Seq<char>>) -> Option<
    Option<Seq<char>>,
>
    decreases vals.len() - i,
{
    if i < 0 || i >= vals.len() {
        None
    } else if !(vals[i].value is Text) {
        Some(Some(shape_err_spec(k, at)))
    } else if !text_ok(vals[i].value->Text_0@, vals[i], vars) {
        Some(None)
    } else {
        list_refusal(vals, i + 1, k, at, vars)
    }
}

/// A child node of a block: the key it records, or why it is refused.
pub open spec fn child_outcome(c: KNode, seen: Seq<PaneKey>, at: Seq<char>, shell_on: bool, vars: Seq<Seq<char>>) -> Result<
    PaneKey,
    Option<Seq<char>>,
> {
    let vals = positional_spec(c.entries@);
    match key_from(c.name@, 0) {
        None => Err(Some(at + ": unknown node "@ + debug_str(c.name@) + " — a pane's keys are "@ + key_list_spec(false))),
        Some(k) => if seen.contains(k) {
            Err(Some(twice_key_text(at, k)))
        } else {
            match value_refusal(c, k, at) {
                Some(m) => Err(Some(m)),
                None => match k.shape_spec() {
                    Shape::Text => if !(vals.len() == 1 && vals[0].value is Text) {
                        Err(Some(shape_err_spec(k, at)))
                    } else if !text_ok(vals[0].value->Text_0@, vals[0], vars) {
                        Err(None)
                    } else {
                        Ok(k)
                    },
                    Shape::Count => if vals.len() == 1 && vals[0].value is Int {
                        if 0 <= vals[0].value->Int_0 <= 65535 { Ok(k) } else { Err(Some(height_text(at))) }
                    } else {
                        Err(Some(shape_err_spec(k, at)))
                    },
                    Shape::Flag => if vals.len() == 1 && vals[0].value is Flag {
                        Ok(k)
                    } else {
                        Err(Some(shape_err_spec(k, at)))
                    },
                    Shape::List => if vals.len() == 0 {
                        Err(Some(shape_err_spec(k, at)))
                    } else {
                        match list_refusal(vals, 0, k, at, vars) {
                            Some(e) => Err(e),
                            None => if k == PaneKey::Command && vals.len() == 1 && !shell_on && shell_split(
                                vals[0].value->Text_0@,
                            ) is None {
                                Err(Some(unbalanced_text(at)))
                            } else {
                                Ok(k)
                            },
                        }
                    },
                    Shape::FlagOrText => if vals.len() != 1 || shell_decl_spec(vals[0]) is None {
                        Err(Some(shape_err_spec(k, at)))
                    } else if !(vals[0].value is Flag || text_ok(vals[0].value->Text_0@, vals[0], vars)) {
                        Err(None)
                    } else {
                        Ok(k)
                    },
                },
            }
        },
    }
}

/// A block's children from `c` on, read in order.
pub open spec fn children_outcome(
    children: Seq<KNode>,
    c: int,
    seen: Seq<PaneKey>,
    at: Seq<char>,
    shell_on: bool,
    vars: Seq<Seq<char>>,
) -> Result<Seq<PaneKey>, Option<Seq<char>>>
    decreases children.len() - c,
{
    if c < 0 || c >= children.len() {
        Ok(seen)
    } else {
        match child_outcome(children[c], seen, at, shell_on, vars) {
            Err(e) => Err(e),
            Ok(k) => children_outcome(children, c + 1, seen.push(k), at, shell_on, vars),
        }
    }
}

/// What a `pane` or `defaults` block makes of its node: the keys it
/// declares, or the first refusal — its own `shell` first, then its
/// properties, then its child nodes, each in order.
pub open spec fn pane_outcome(node: KNode, id: Option<String>, default_shell: bool, vars: Seq<Seq<char>>) -> Result<
    Seq<PaneKey>,
    Option<Seq<char>>,
> {
    pane_outcome_at(node, block_at(id), default_shell, vars)
}

/// `pane_outcome` for a block whose errors open with `at`.
pub open spec fn pane_outcome_at(node: KNode, at: Seq<char>, default_shell: bool, vars: Seq<Seq<char>>) -> Result<
    Seq<PaneKey>,
    Option<Seq<char>>,
> {
    match peek_spec(node, at) {
        Err(m) => Err(Some(m)),
        Ok(p) => {
            let shell_on = match p {
                Some(b) => b,
                None => default_shell,
            };
            match entries_outcome(node.entries@, 0, Seq::empty(), at, vars) {
                Err(e) => Err(e),
                Ok(seen) => match node.children {
                    None => Ok(seen),
                    Some(cs) => children_outcome(cs@, 0, seen, at, shell_on, vars),
                },
            }
        },
    }
}

/// One `pane "name" { … }` or `defaults { … }` block. The block's own
/// `shell` is read first because the command split depends on it.
/// The `Option` field a text-valued key fills.
pub open spec fn text_field(d: PaneDecl, k: PaneKey) -> Option<Template> {
    match k {
        PaneKey::Script => d.script,
        PaneKey::Interval => d.interval,
        PaneKey::TriggerDebounce => d.trigger_debounce,
        PaneKey::Width => d.width,
        PaneKey::Overflow => d.overflow,
        PaneKey::Border => d.border,
        PaneKey::Padding => d.padding,
        PaneKey::Title => d.title,
        _ => None,
    }
}

/// The `Option` field a flag key fills.
pub open spec fn flag_field(d: PaneDecl, k: PaneKey) -> Option<bool> {
    match k {
        PaneKey::Chrome => d.chrome,
        PaneKey::Focusable => d.focusable,
        PaneKey::Live => d.live,
        _ => None,
    }
}

/// The key's field is still unset.
pub open spec fn field_none(d: PaneDecl, k: PaneKey) -> bool {
    match k {
        PaneKey::Command => d.command is None,
        PaneKey::Shell => d.shell is None,
        PaneKey::Trigger => d.trigger is None,
        PaneKey::Height => d.height is None,
        _ => text_field(d, k) is None && flag_field(d, k) is None,
    }
}

/// Two declarations agree on every field but the one `k` fills.
pub open spec fn same_except(a: PaneDecl, b: PaneDecl, k: PaneKey) -> bool {
    &&& a.id == b.id
    &&& a.selectable == b.selectable
    &&& (k != PaneKey::Command ==> a.command == b.command)
    &&& (k != PaneKey::Script ==> a.script == b.script)
    &&& (k != PaneKey::Shell ==> a.shell == b.shell)
    &&& (k != PaneKey::Interval ==> a.interval == b.interval)
    &&& (k != PaneKey::Trigger ==> a.trigger == b.trigger)
    &&& (k != PaneKey::TriggerDebounce ==> a.trigger_debounce == b.trigger_debounce)
    &&& (k != PaneKey::Height ==> a.height == b.height)
    &&& (k != PaneKey::Width ==> a.width == b.width)
    &&& (k != PaneKey::Overflow ==> a.overflow == b.overflow)
    &&& (k != PaneKey::Border ==> a.border == b.border)
    &&& (k != PaneKey::Padding ==> a.padding == b.padding)
    &&& (k != PaneKey::Title ==> a.title == b.title)
    &&& (k != PaneKey::Chrome ==> a.chrome == b.chrome)
    &&& (k != PaneKey::Focusable ==> a.focusable == b.focusable)
    &&& (k != PaneKey::Live ==> a.live == b.live)
}

/// A command list as declared: one string under no shell is split into
/// words, each keeping the string's flavor; otherwise each string is a
/// word of its own.
pub open spec fn command_from(v: Seq<Template>, vals: Seq<KEntry>, shell_on: bool) -> bool {
    if vals.len() == 1 && !shell_on {
        let words = shell_split(vals[0].value->Text_0@)->0;
        v.len() == words.len() && forall|i: int| 0 <= i < v.len() ==> flavored(words[i], is_raw_spec(vals[0]), #[trigger] v[i])
    } else {
        v.len() == vals.len() && forall|i: int| 0 <= i < v.len() ==> text_entry_ok(vals[i], #[trigger] v[i])
    }
}

/// The field of key `k` holds what its declaration wrote: `e` is the
/// property's entry or the child's one value, `c` the child node when
/// the key was written as one.
pub open spec fn field_from(d: PaneDecl, k: PaneKey, e: KEntry, c: Option<KNode>, shell_on: bool) -> bool {
    match k.shape_spec() {
        Shape::Text => text_field(d, k) matches Some(t) && flavored(e.value->Text_0@, is_raw_spec(e), t),
        Shape::Flag => flag_field(d, k) == Some(e.value->Flag_0),
        Shape::Count => d.height == Some(e.value->Int_0 as u16),
        Shape::FlagOrText => d.shell matches Some(sd) && (shell_from_entry(sd, e) || e.value == KValue::Flag(false)
            && sd is Direct),
        Shape::List => c is Some && if k == PaneKey::Command {
            d.command matches Some(v) && command_from(v@, positional_spec(c->0.entries@), shell_on)
        } else {
            d.trigger matches Some(v) && v@.len() == positional_spec(c->0.entries@).len() && forall|i: int|
                0 <= i < v@.len() ==> text_entry_ok(positional_spec(c->0.entries@)[i], #[trigger] v@[i])
        },
    }
}

/// Whether an entry is a property spelling key `k`.
pub open spec fn entry_has_key(e: KEntry, k: PaneKey) -> bool {
    e.name is Some && key_from(e.name->0@, 0) == Some(k)
}

/// The first property from `i` on that spells key `k`, or the count.
pub open spec fn first_prop_key(entries: Seq<KEntry>, k: PaneKey, i: int) -> int
    decreases entries.len() - i,
{
    if i < 0 || i >= entries.len() {
        entries.len() as int
    } else if entry_has_key(entries[i], k) {
        i
    } else {
        first_prop_key(entries, k, i + 1)
    }
}

/// The first child from `c` on that spells key `k`, or the count.
pub open spec fn first_child_key(children: Seq<KNode>, k: PaneKey, c: int) -> int
    decreases children.len() - c,
{
    if c < 0 || c >= children.len() {
        children.len() as int
    } else if key_from(children[c].name@, 0) == Some(k) {
        c
    } else {
        first_child_key(children, k, c + 1)
    }
}

proof fn lemma_first_prop_key(entries: Seq<KEntry>, k: PaneKey, a: int)
    requires
        0 <= a <= entries.len(),
    ensures
        a <= first_prop_key(entries, k, a) <= entries.len(),
        forall|j: int| a <= j < first_prop_key(entries, k, a) ==> !entry_has_key(#[trigger] entries[j], k),
        first_prop_key(entries, k, a) < entries.len() ==> entry_has_key(entries[first_prop_key(entries, k, a)], k),
    decreases entries.len() - a,
{
    if a < entries.len() && !entry_has_key(entries[a], k) {
        lemma_first_prop_key(entries, k, a + 1);
    }
}

proof fn lemma_first_child_key(children: Seq<KNode>, k: PaneKey, a: int)
    requires
        0 <= a <= children.len(),
    ensures
        a <= first_child_key(children, k, a) <= children.len(),
        forall|j: int| a <= j < first_child_key(children, k, a) ==> key_from((#[trigger] children[j]).name@, 0) != Some(k),
        first_child_key(children, k, a) < children.len() ==> key_from(children[first_child_key(children, k, a)].name@, 0)
            == Some(k),
    decreases children.len() - a,
{
    if a < children.len() && key_from(children[a].name@, 0) != Some(k) {
        lemma_first_child_key(children, k, a + 1);
    }
}

/// What a block's node declares for key `k`: its property if it has
/// one, else its child node, else nothing.
pub open spec fn key_declared(d: PaneDecl, node: KNode, k: PaneKey, shell_on: bool) -> bool {
    let i = first_prop_key(node.entries@, k, 0);
    if i < node.entries@.len() {
        field_from(d, k, node.entries@[i], None, shell_on)
    } else {
        match node.children {
            Some(cs) => {
                let c = first_child_key(cs@, k, 0);
                if c < cs@.len() {
                    field_from(d, k, positional_spec(cs@[c].entries@)[0], Some(cs@[c]), shell_on)
                } else {
                    field_none(d, k)
                }
            },
            None => field_none(d, k),
        }
    }
}

proof fn lemma_same_except_keeps(a: PaneDecl, b: PaneDecl, k: PaneKey, k2: PaneKey, e: KEntry, c: Option<KNode>, sh: bool)
    requires
        same_except(a, b, k),
        k2 != k,
    ensures
        field_none(a, k2) == field_none(b, k2),
        field_from(a, k2, e, c, sh) == field_from(b, k2, e, c, sh),
{
}

/// Whether a block's command runs under a shell: its own `shell` if it
/// declares one, else the inherited answer.
pub open spec fn block_shell_on(node: KNode, id: Option<String>, default_shell: bool) -> bool {
    block_shell_on_at(node, block_at(id), default_shell)
}

pub open spec fn block_shell_on_at(node: KNode, at: Seq<char>, default_shell: bool) -> bool {
    match peek_spec(node, at) {
        Ok(Some(b)) => b,
        _ => default_shell,
    }
}

/// What key `k` holds so far, once the block's entries are all read:
/// its property if it has one, else its child node.
pub open spec fn key_now(d: PaneDecl, entries: Seq<KEntry>, children: Seq<KNode>, k: PaneKey, shell_on: bool) -> bool {
    let i = first_prop_key(entries, k, 0);
    if i < entries.len() {
        field_from(d, k, entries[i], None, false)
    } else {
        let c = first_child_key(children, k, 0);
        c < children.len() && field_from(d, k, positional_spec(children[c].entries@)[0], Some(children[c]), shell_on)
    }
}

proof fn lemma_key_now_keeps(
    a: PaneDecl,
    b: PaneDecl,
    entries: Seq<KEntry>,
    children: Seq<KNode>,
    k: PaneKey,
    k2: PaneKey,
    shell_on: bool,
)
    requires
        same_except(a, b, k),
        k2 != k,
    ensures
        key_now(a, entries, children, k2, shell_on) == key_now(b, entries, children, k2, shell_on),
{
    let i = first_prop_key(entries, k2, 0);
    if i < entries.len() {
        lemma_same_except_keeps(a, b, k, k2, entries[i], None, false);
    } else {
        let c = first_child_key(children, k2, 0);
        if 0 <= c < children.len() {
            lemma_same_except_keeps(a, b, k, k2, positional_spec(children[c].entries@)[0], Some(children[c]), shell_on);
        }
    }
}

/// One named entry of a block, applied: its key recorded and its field
/// set, or the refusal.
fn entry_step(decl: &mut PaneDecl, seen: &mut Vec<PaneKey>, entry: &KEntry, at: &str, load: &Load) -> (r: Result<(), String>)
    requires
        entry.name is Some,
        load.text@.len() < usize::MAX,
    ensures
        match entry_outcome(*entry, old(seen)@, at@, crate::variables::block_names(*load.vars)) {
            Err(Some(m)) => r is Err && r->Err_0@ == m,
            Err(None) => r is Err && load_refused(*load, r->Err_0@),
            Ok(k) => r is Ok && final(seen)@ == old(seen)@.push(k) && same_except(*old(decl), *final(decl), k)
                && field_from(*final(decl), k, *entry, None, false),
        },
        final(decl).id == old(decl).id,
{
    let prop = match &entry.name {
        Some(p) => p,
        None => return Ok(()),
    };
    match &entry.ty {
        Some(ty) => {
            let mut m = String::from_str(at);
            m.append(": the (");
            m.append(ty.as_str());
            m.append(") type annotation on `");
            m.append(prop.as_str());
            m.append("` has no meaning here — remove it");
            return Err(m);
        },
        None => {},
    }
    let k = match key(prop.as_str()) {
        Some(k) => k,
        None => {
            let mut m = String::from_str(at);
            m.append(": unknown property ");
            let q = debug_quote(prop.as_str());
            m.append(q.as_str());
            m.append(" — a pane's keys with a property spelling are ");
            m.append(key_list(true));
            return Err(m);
        },
    };
    match record(seen, k, at) {
        Ok(()) => {},
        Err(e) => return Err(e),
    }
    match k.shape() {
        Shape::List => {
            let mut m = String::from_str(at);
            m.append(": `");
            m.append(k.name());
            m.append("` holds a list, so it must be a child node — write `");
            m.append(k.example());
            m.append("` inside the block");
            Err(m)
        },
        Shape::Text => {
            match prop_text(entry, k, at, load) {
                Ok(t) => {
                    apply_text(decl, k, t);
                    Ok(())
                },
                Err(e) => Err(e),
            }
        },
        Shape::Count => {
            let cells = match prop_count(entry, k, at) {
                Ok(c) => c,
                Err(e) => return Err(e),
            };
            match height_of(cells, at) {
                Ok(h) => {
                    decl.height = Some(h);
                    Ok(())
                },
                Err(e) => Err(e),
            }
        },
        Shape::Flag => {
            match prop_flag(entry, k, at) {
                Ok(b) => {
                    apply_flag(decl, k, b);
                    Ok(())
                },
                Err(e) => Err(e),
            }
        },
        Shape::FlagOrText => {
            match prop_mode(entry, k, at, load) {
                Ok(m) => {
                    decl.shell = Some(m);
                    Ok(())
                },
                Err(e) => Err(e),
            }
        },
    }
}

/// One child node of a block, applied.
fn child_step(
    decl: &mut PaneDecl,
    seen: &mut Vec<PaneKey>,
    child: &KNode,
    at: &str,
    shell_on: bool,
    load: &Load,
) -> (r: Result<(), String>)
    requires
        load.text@.len() < usize::MAX,
    ensures
        match child_outcome(*child, old(seen)@, at@, shell_on, crate::variables::block_names(*load.vars)) {
            Err(Some(m)) => r is Err && r->Err_0@ == m,
            Err(None) => r is Err && load_refused(*load, r->Err_0@),
            Ok(k) => r is Ok && final(seen)@ == old(seen)@.push(k) && same_except(*old(decl), *final(decl), k)
                && field_from(*final(decl), k, positional_spec(child.entries@)[0], Some(*child), shell_on),
        },
        final(decl).id == old(decl).id,
{
    let k = match key(child.name.as_str()) {
        Some(k) => k,
        None => {
            let mut m = String::from_str(at);
            m.append(": unknown node ");
            let q = debug_quote(child.name.as_str());
            m.append(q.as_str());
            m.append(" — a pane's keys are ");
            m.append(key_list(false));
            return Err(m);
        },
    };
    match record(seen, k, at) {
        Ok(()) => {},
        Err(e) => return Err(e),
    }
    match only_a_value(child, k, at) {
        Ok(()) => {},
        Err(e) => return Err(e),
    }
    match k.shape() {
        Shape::Text => {
            match one_text(child, k, at, load) {
                Ok(t) => {
                    apply_text(decl, k, t);
                    Ok(())
                },
                Err(e) => Err(e),
            }
        },
        Shape::Count => {
            let cells = match one_count(child, k, at) {
                Ok(n) => n,
                Err(e) => return Err(e),
            };
            match height_of(cells, at) {
                Ok(h) => {
                    decl.height = Some(h);
                    Ok(())
                },
                Err(e) => Err(e),
            }
        },
        Shape::Flag => {
            match one_flag(child, k, at) {
                Ok(b) => {
                    apply_flag(decl, k, b);
                    Ok(())
                },
                Err(e) => Err(e),
            }
        },
        Shape::List => {
            let argv = match many_text(child, k, at, load) {
                Ok(v) => v,
                Err(e) => return Err(e),
            };
            if k == PaneKey::Command {
                match command_argv(argv, shell_on, at) {
                    Ok(v) => {
                        decl.command = Some(v);
                        Ok(())
                    },
                    Err(e) => Err(e),
                }
            } else {
                decl.trigger = Some(argv);
                Ok(())
            }
        },
        Shape::FlagOrText => {
            match one_mode(child, k, at, load) {
                Ok(m) => {
                    decl.shell = Some(m);
                    Ok(())
                },
                Err(e) => Err(e),
            }
        },
    }
}

/// One `pane "name" { … }` or `defaults { … }` block. The block's own
/// `shell` is read first because the command split depends on it.
pub fn pane_block(node: &KNode, id: Option<String>, default_shell: bool, load: &Load) -> (r: Result<PaneDecl, String>)
    requires
        load.text@.len() < usize::MAX,
    ensures
        r is Ok ==> r->Ok_0.id == id,
        match pane_outcome(*node, id, default_shell, crate::variables::block_names(*load.vars)) {
            Err(Some(m)) => r is Err && r->Err_0@ == m,
            Err(None) => r is Err && load_refused(*load, r->Err_0@),
            Ok(_) => r is Ok,
        },
        r is Ok ==> r->Ok_0.selectable is None && forall|k: PaneKey| #[trigger] key_declared(
            r->Ok_0,
            *node,
            k,
            block_shell_on(*node, id, default_shell),
        ),
{
    let at = match &id {
        Some(name) => {
            let mut a = String::from_str("pane ");
            let q = debug_quote(name.as_str());
            a.append(q.as_str());
            a
        },
        None => String::from_str("defaults"),
    };
    let shell = match peek_shell(node, at.as_str()) {
        Ok(s) => s,
        Err(e) => return Err(e),
    };
    let shell_on = match &shell {
        Some(s) => s.runs_a_shell(),
        None => default_shell,
    };
    let ghost shell_on_spec = match peek_spec(*node, block_at(id)) {
        Ok(Some(b)) => b,
        _ => default_shell,
    };
    assert(shell_on == shell_on_spec);
    let mut decl = PaneDecl::default();
    decl.id = id;
    let mut seen: Vec<PaneKey> = Vec::new();
    let mut i: usize = 0;
    proof {
        assert forall|k: PaneKey| #[trigger] seen@.contains(k) <==> first_prop_key(node.entries@, k, 0) < 0 by {
            lemma_first_prop_key(node.entries@, k, 0);
        }
    }
    while i < node.entries.len()
        invariant
            i <= node.entries@.len(),
            load.text@.len() < usize::MAX,
            decl.id == id,
            at@ == block_at(id),
            peek_spec(*node, block_at(id)) is Ok,
            shell_on == shell_on_spec,
            shell_on_spec == (match peek_spec(*node, block_at(id)) {
                Ok(Some(b)) => b,
                _ => default_shell,
            }),
            entries_outcome(node.entries@, 0, Seq::empty(), at@, crate::variables::block_names(*load.vars)) == entries_outcome(
                node.entries@,
                i as int,
                seen@,
                at@,
                crate::variables::block_names(*load.vars),
            ),
            decl.selectable is None,
            forall|k: PaneKey| #[trigger] seen@.contains(k) <==> first_prop_key(node.entries@, k, 0) < i,
            forall|k: PaneKey| !seen@.contains(k) ==> #[trigger] field_none(decl, k),
            forall|k: PaneKey| #[trigger] seen@.contains(k) ==> field_from(
                decl,
                k,
                node.entries@[first_prop_key(node.entries@, k, 0)],
                None,
                false,
            ),
        decreases node.entries@.len() - i,
    {
        let entry = &node.entries[i];
        let ghost before = decl;
        let ghost seen_before = seen@;
        if entry.name.is_some() {
            match entry_step(&mut decl, &mut seen, entry, at.as_str(), load) {
                Ok(()) => {},
                Err(e) => return Err(e),
            }
            proof {
                let k = seen@.last();
                assert(seen@ == seen_before.push(k));
                assert(entry_has_key(node.entries@[i as int], k));
                assert forall|k2: PaneKey| #[trigger] seen@.contains(k2) <==> first_prop_key(node.entries@, k2, 0) < i + 1 by {
                    lemma_first_prop_key(node.entries@, k2, 0);
                    if k2 == k {
                        assert(seen@[seen@.len() - 1] == k);
                        assert(!seen_before.contains(k));
                    } else {
                        if seen@.contains(k2) {
                            let j = choose|j: int| 0 <= j < seen@.len() && seen@[j] == k2;
                            assert(seen_before[j] == k2);
                        }
                        if seen_before.contains(k2) {
                            let j = choose|j: int| 0 <= j < seen_before.len() && seen_before[j] == k2;
                            assert(seen@[j] == k2);
                        }
                    }
                }
                assert forall|k2: PaneKey| !seen@.contains(k2) implies #[trigger] field_none(decl, k2) by {
                    assert(seen@[seen@.len() - 1] == k);
                    assert(k2 != k);
                    if seen_before.contains(k2) {
                        let j = choose|j: int| 0 <= j < seen_before.len() && seen_before[j] == k2;
                        assert(seen@[j] == k2);
                    }
                    lemma_same_except_keeps(before, decl, k, k2, *entry, None, false);
                }
                assert forall|k2: PaneKey| #[trigger] seen@.contains(k2) implies field_from(
                    decl,
                    k2,
                    node.entries@[first_prop_key(node.entries@, k2, 0)],
                    None,
                    false,
                ) by {
                    lemma_first_prop_key(node.entries@, k2, 0);
                    if k2 == k {
                        assert(!seen_before.contains(k));
                        assert(first_prop_key(node.entries@, k, 0) == i);
                    } else {
                        let j = choose|j: int| 0 <= j < seen@.len() && seen@[j] == k2;
                        assert(j < seen_before.len());
                        assert(seen_before[j] == k2);
                        assert(seen_before.contains(k2));
                        lemma_same_except_keeps(
                            before,
                            decl,
                            k,
                            k2,
                            node.entries@[first_prop_key(node.entries@, k2, 0)],
                            None,
                            false,
                        );
                    }
                }
            }
        } else {
            proof {
                assert forall|k2: PaneKey| #[trigger] seen@.contains(k2) <==> first_prop_key(node.entries@, k2, 0) < i + 1 by {
                    lemma_first_prop_key(node.entries@, k2, 0);
                }
            }
        }
        i = i + 1;
    }
    match &node.children {
        None => {},
        Some(children) => {
            let mut c: usize = 0;
            proof {
                assert forall|k: PaneKey| #[trigger] seen@.contains(k) <==> (first_prop_key(node.entries@, k, 0)
                    < node.entries@.len() || first_child_key(children@, k, 0) < 0) by {
                    lemma_first_child_key(children@, k, 0);
                }
                assert forall|k: PaneKey| #[trigger] seen@.contains(k) implies key_now(decl, node.entries@, children@, k, shell_on) by {
                    assert(field_from(decl, k, node.entries@[first_prop_key(node.entries@, k, 0)], None, false));
                }
            }
            while c < children.len()
                invariant
                    c <= children@.len(),
                    load.text@.len() < usize::MAX,
                    decl.id == id,
                    at@ == block_at(id),
                    peek_spec(*node, block_at(id)) is Ok,
                    shell_on == shell_on_spec,
                    shell_on_spec == (match peek_spec(*node, block_at(id)) {
                        Ok(Some(b)) => b,
                        _ => default_shell,
                    }),
                    node.children == Some(*children),
                    entries_outcome(node.entries@, 0, Seq::empty(), at@, crate::variables::block_names(*load.vars)) is Ok,
                    children_outcome(children@, 0, entries_outcome(node.entries@, 0, Seq::empty(), at@, crate::variables::block_names(*load.vars))->Ok_0, at@, shell_on, crate::variables::block_names(*load.vars))
                        == children_outcome(children@, c as int, seen@, at@, shell_on, crate::variables::block_names(*load.vars)),
                    decl.selectable is None,
                    forall|k: PaneKey| #[trigger] seen@.contains(k) <==> (first_prop_key(node.entries@, k, 0)
                        < node.entries@.len() || first_child_key(children@, k, 0) < c),
                    forall|k: PaneKey| !seen@.contains(k) ==> #[trigger] field_none(decl, k),
                    forall|k: PaneKey| #[trigger] seen@.contains(k) ==> key_now(decl, node.entries@, children@, k, shell_on),
                decreases children@.len() - c,
            {
                let ghost before = decl;
                let ghost seen_before = seen@;
                match child_step(&mut decl, &mut seen, &children[c], at.as_str(), shell_on, load) {
                    Ok(()) => {},
                    Err(e) => return Err(e),
                }
                proof {
                    let k = seen@.last();
                    assert(seen@ == seen_before.push(k));
                    assert(!seen_before.contains(k));
                    assert(key_from(children@[c as int].name@, 0) == Some(k));
                    assert forall|k2: PaneKey| #[trigger] seen@.contains(k2) <==> (first_prop_key(node.entries@, k2, 0)
                        < node.entries@.len() || first_child_key(children@, k2, 0) < c + 1) by {
                        lemma_first_child_key(children@, k2, 0);
                        if k2 == k {
                            assert(seen@[seen@.len() - 1] == k);
                        } else {
                            if seen@.contains(k2) {
                                let j = choose|j: int| 0 <= j < seen@.len() && seen@[j] == k2;
                                assert(seen_before[j] == k2);
                            }
                            if seen_before.contains(k2) {
                                let j = choose|j: int| 0 <= j < seen_before.len() && seen_before[j] == k2;
                                assert(seen@[j] == k2);
                            }
                        }
                    }
                    assert forall|k2: PaneKey| !seen@.contains(k2) implies #[trigger] field_none(decl, k2) by {
                        assert(seen@[seen@.len() - 1] == k);
                        if seen_before.contains(k2) {
                            let j = choose|j: int| 0 <= j < seen_before.len() && seen_before[j] == k2;
                            assert(seen@[j] == k2);
                        }
                        lemma_same_except_keeps(before, decl, k, k2, children@[c as int].entries@[0], None, false);
                    }
                    assert forall|k2: PaneKey| #[trigger] seen@.contains(k2) implies key_now(decl, node.entries@, children@, k2, shell_on) by {
                        lemma_first_prop_key(node.entries@, k2, 0);
                        lemma_first_child_key(children@, k2, 0);
                        if k2 == k {
                            assert(first_child_key(children@, k, 0) == c);
                        } else {
                            let j = choose|j: int| 0 <= j < seen@.len() && seen@[j] == k2;
                            assert(seen_before[j] == k2);
                            assert(seen_before.contains(k2));
                            lemma_key_now_keeps(before, decl, node.entries@, children@, k, k2, shell_on);
                        }
                    }
                }
                c = c + 1;
            }
            proof {
                assert forall|k: PaneKey| #[trigger] key_declared(decl, *node, k, shell_on) by {
                    lemma_first_prop_key(node.entries@, k, 0);
                    lemma_first_child_key(children@, k, 0);
                    if seen@.contains(k) {
                        assert(key_now(decl, node.entries@, children@, k, shell_on));
                    } else {
                        assert(field_none(decl, k));
                    }
                }
            }
        },
    }
    proof {
        if node.children is None {
            assert forall|k: PaneKey| #[trigger] key_declared(decl, *node, k, shell_on) by {
                lemma_first_prop_key(node.entries@, k, 0);
                if seen@.contains(k) {
                    assert(field_from(decl, k, node.entries@[first_prop_key(node.entries@, k, 0)], None, false));
                } else {
                    assert(field_none(decl, k));
                }
            }
        }
    }
    Ok(decl)
}

} // verus!

verus! {

pub open spec fn cell_label_spec(inside: Option<Seq<char>>, name: Seq<char>, index: nat) -> Seq<char> {
    let here = name + " #"@ + decimal(index + 1);
    match inside {
        Some(path) => path + " > "@ + here,
        None => here,
    }
}

/// Where a cell sits, as a breadcrumb — `row #1 > pane #2`.
pub fn cell_label(inside: Option<&str>, node: &KNode, index: usize) -> (s: String)
    requires
        index < usize::MAX,
    ensures
        s@ == cell_label_spec(crate::kdl_doc::opt_text(inside), node.name@, index as nat),
{
    let mut here = node.name.clone();
    here.append(" #");
    let n = decimal_string((index + 1) as u64);
    here.append(n.as_str());
    match inside {
        Some(path) => {
            let mut s = String::from_str(path);
            s.append(" > ");
            s.append(here.as_str());
            s
        },
        None => here,
    }
}

/// A char an id may hold: RFC 3986's unreserved set.
pub open spec fn id_char(c: char) -> bool {
    ('a' <= c && c <= 'z') || ('A' <= c && c <= 'Z') || ('0' <= c && c <= '9') || c == '-' || c == '.' || c == '_'
        || c == '~'
}

/// The first annotation on the node or on one of its positional values.
pub open spec fn id_annotation(node: KNode) -> Option<Seq<char>> {
    match node.ty {
        Some(t) => Some(t@),
        None => first_positional_ty(node.entries@, 0),
    }
}

pub open spec fn first_positional_ty(entries: Seq<KEntry>, i: int) -> Option<Seq<char>>
    decreases entries.len() - i,
{
    if i < 0 || i >= entries.len() {
        None
    } else if entries[i].name is None && entries[i].ty is Some {
        Some(entries[i].ty->0@)
    } else {
        first_positional_ty(entries, i + 1)
    }
}

/// What a pane's id reads as: exactly one string of unreserved chars.
pub open spec fn id_spec(node: KNode) -> Option<Seq<char>> {
    let values = positional_spec(node.entries@);
    if id_annotation(node) is None && values.len() == 1 && values[0].value is Text {
        let id = values[0].value->Text_0@;
        if id.len() > 0 && forall|i: int| 0 <= i < id.len() ==> id_char(#[trigger] id[i]) {
            Some(id)
        } else {
            None
        }
    } else {
        None
    }
}

/// Why a pane node's id is refused, once it is.
pub open spec fn id_refusal(node: KNode, label: Seq<char>) -> Seq<char> {
    let values = positional_spec(node.entries@);
    if id_annotation(node) is Some {
        label + ": the ("@ + id_annotation(node)->0 + ") type annotation on a pane has no meaning here — remove it"@
    } else if values.len() == 0 {
        label + ": this pane needs an id — write `pane \"log\" { … }`"@
    } else if values.len() >= 2 {
        let rest = values.subrange(1, values.len() as int);
        match stray_key_from(rest, 0) {
            Some(k) => stray_key_text(label, k, rest),
            None => label + ": a pane takes ONE id, but "@ + as_written_spec(values[1]) + " follows "@ + as_written_spec(
                values[0],
            ),
        }
    } else if !(values[0].value is Text) {
        label + ": a pane's id is a string — write `pane \"log\" { … }`"@
    } else {
        label + ": a pane's id sticks to letters, digits, and - . _ ~ — display text belongs in `title`"@
    }
}

/// A pane's id: exactly one string, unannotated, of letters, digits and
/// `- . _ ~` — every id is literally a valid URI fragment.
pub fn one_id(node: &KNode, label: &str) -> (r: Result<String, String>)
    ensures
        match id_spec(*node) {
            Some(id) => r is Ok && r->Ok_0@ == id,
            None => r is Err && r->Err_0@ == id_refusal(*node, label@),
        },
{
    let annotation: Option<&String> = match &node.ty {
        Some(t) => Some(t),
        None => {
            let mut found: Option<&String> = None;
            let mut i: usize = 0;
            while i < node.entries.len()
                invariant
                    i <= node.entries@.len(),
                    node.ty is None,
                    found is None ==> first_positional_ty(node.entries@, 0) == first_positional_ty(node.entries@, i as int),
                    found is Some ==> first_positional_ty(node.entries@, 0) == Some(found->0@),
                decreases node.entries@.len() - i,
            {
                if found.is_none() && node.entries[i].name.is_none() {
                    match &node.entries[i].ty {
                        Some(t) => found = Some(t),
                        None => {},
                    }
                }
                i = i + 1;
            }
            found
        },
    };
    match annotation {
        Some(ty) => {
            let mut m = String::from_str(label);
            m.append(": the (");
            m.append(ty.as_str());
            m.append(") type annotation on a pane has no meaning here — remove it");
            return Err(m);
        },
        None => {},
    }
    let values = positional(node);
    if values.len() == 0 {
        let mut m = String::from_str(label);
        m.append(": this pane needs an id — write `pane \"log\" { … }`");
        return Err(m);
    }
    if values.len() >= 2 {
        let rest = tail_entries(&values, 1);
        match stray_key(rest.as_slice()) {
            Some(k) => return Err(stray_key_err(label, k, rest.as_slice())),
            None => {},
        }
        let mut m = String::from_str(label);
        m.append(": a pane takes ONE id, but ");
        let second = as_written(&values[1]);
        m.append(second.as_str());
        m.append(" follows ");
        let first = as_written(&values[0]);
        m.append(first.as_str());
        return Err(m);
    }
    let id = match &values[0].value {
        KValue::Text(s) => s,
        _ => {
            let mut m = String::from_str(label);
            m.append(": a pane's id is a string — write `pane \"log\" { … }`");
            return Err(m);
        },
    };
    let v = chars_of(id.as_str());
    let mut ok = v.len() > 0;
    let mut i: usize = 0;
    while i < v.len()
        invariant
            i <= v@.len(),
            v@ == id@,
            ok == (v@.len() > 0 && forall|j: int| 0 <= j < i ==> id_char(#[trigger] v@[j])),
        decreases v@.len() - i,
    {
        let c = v[i];
        let good = ('a' <= c && c <= 'z') || ('A' <= c && c <= 'Z') || ('0' <= c && c <= '9') || c == '-' || c == '.'
            || c == '_' || c == '~';
        ok = ok && good;
        i = i + 1;
    }
    if !ok {
        let mut m = String::from_str(label);
        m.append(": a pane's id sticks to letters, digits, and - . _ ~ — display text belongs in `title`");
        return Err(m);
    }
    Ok(id.clone())
}

} // verus!

verus! {

/// The entries from `from` on, copied.
pub fn tail_entries(v: &Vec<KEntry>, from: usize) -> (r: Vec<KEntry>)
    requires
        from <= v@.len(),
    ensures
        r@ == v@.subrange(from as int, v@.len() as int),
{
    let mut r: Vec<KEntry> = Vec::new();
    let mut i: usize = from;
    while i < v.len()
        invariant
            from <= i <= v@.len(),
            r@ == v@.subrange(from as int, i as int),
        decreases v@.len() - i,
    {
        r.push(copy_entry(&v[i]));
        i = i + 1;
        assert(r@ =~= v@.subrange(from as int, i as int));
    }
    r
}

} // verus!

verus! {

/// How many `pane` blocks a node of the inline tree declares.
pub open spec fn pane_count(node: KNode) -> nat
    decreases node,
{
    if node.name@ == "pane"@ {
        1
    } else {
        match node.children {
            Some(c) => cells_pane_count(c@),
            None => 0,
        }
    }
}

pub open spec fn cells_pane_count(cells: Seq<KNode>) -> nat
    decreases cells,
{
    if cells.len() == 0 {
        0
    } else {
        cells_pane_count(cells.drop_last()) + pane_count(cells.last())
    }
}

/// Whether a node's name is one a container may hold.
pub open spec fn is_cell_kind(name: Seq<char>) -> bool {
    name == "pane"@ || name == "row"@ || name == "column"@
}

pub open spec fn kind_phrase_spec(name: Seq<char>) -> Seq<char> {
    if name == "column"@ { "a column"@ } else { "a row"@ }
}

/// Why a row or column is refused before its cells are read.
pub open spec fn container_refusal(node: KNode, label: Seq<char>) -> Option<Seq<char>> {
    let kind = kind_phrase_spec(node.name@);
    let vals = positional_spec(node.entries@);
    let name = node.name@;
    if node.ty is Some {
        Some(annotation_text(label, node.ty->0@, name))
    } else if container_props_refusal(node.entries@, 0, label, kind) is Some {
        container_props_refusal(node.entries@, 0, label, kind)
    } else if vals.len() > 0 {
        match stray_setting_from(vals, 0) {
            Some(st) => Some(stray_setting_text(label, st, vals)),
            None => match stray_key_from(vals, 0) {
                Some(k) => Some(label + ": `"@ + k.name_spec() + "` is a pane's key — write it on a `pane` block inside this "@
                    + name),
                None => Some(label + ": a "@ + name
                    + " holds `pane` blocks, not pane ids — declare the pane where it sits, like `"@ + name
                    + " { pane \"log\" { … } }`"@),
            },
        }
    } else if !(node.children is Some && node.children->0@.len() > 0) {
        Some(label + ": this "@ + name + " is empty — put at least one pane in it"@)
    } else {
        None
    }
}

/// A cell of the inline tree: the pane nodes it declares, in document
/// order, or why it is refused — `Err(None)` where the wording is not
/// pinned here (an undeclared variable).
pub open spec fn tree_outcome(node: KNode, label: Seq<char>, ds: bool, vars: Seq<Seq<char>>) -> Result<Seq<KNode>, Option<Seq<char>>>
    decreases node, 0int,
{
    if node.name@ == "pane"@ {
        match id_spec(node) {
            None => Err(Some(id_refusal(node, label))),
            Some(name) => match pane_outcome_at(node, "pane "@ + debug_str(name), ds, vars) {
                Err(e) => Err(e),
                Ok(_) => Ok(seq![node]),
            },
        }
    } else {
        match container_refusal(node, label) {
            Some(m) => Err(Some(m)),
            None => {
                proof {
                    let c = node.children->0;
                    assert(decreases_to!(node => node.children));
                    assert(decreases_to!(node.children => c));
                    assert(decreases_to!(c => c@));
                }
                cells_outcome(node.children->0@, 0, label, kind_phrase_spec(node.name@), ds, vars)
            },
        }
    }
}

/// The cells of a row or column from `i` on, read in order.
pub open spec fn cells_outcome(
    cells: Seq<KNode>,
    i: int,
    label: Seq<char>,
    kind: Seq<char>,
    ds: bool,
    vars: Seq<Seq<char>>,
) -> Result<Seq<KNode>, Option<Seq<char>>>
    decreases cells, cells.len() - i,
{
    if i < 0 || i >= cells.len() {
        Ok(Seq::empty())
    } else {
        let cell = cells[i];
        let inner = cell_label_spec(Some(label), cell.name@, i as nat);
        if !is_cell_kind(cell.name@) {
            Err(Some(inner + ": unknown node "@ + debug_str(cell.name@) + " — "@ + kind
                + " holds `pane`, `row`, and `column` blocks"@))
        } else {
            match tree_outcome(cell, inner, ds, vars) {
                Err(e) => Err(e),
                Ok(ps) => match cells_outcome(cells, i + 1, label, kind, ds, vars) {
                    Err(e) => Err(e),
                    Ok(rest) => Ok(ps + rest),
                },
            }
        }
    }
}

/// A lifted pane declaration is its node's block: the node's id, and
/// every key as the node declares it.
pub open spec fn pane_decl_ok(d: PaneDecl, n: KNode, ds: bool) -> bool {
    &&& id_spec(n) matches Some(name) && d.id matches Some(s) && s@ == name
    &&& d.selectable is None
    &&& forall|k: PaneKey| #[trigger] key_declared(d, n, k, block_shell_on_at(n, "pane "@ + debug_str(id_spec(n)->0), ds))
}

/// The layout a node of the inline tree declares: a pane by its id, a
/// row or column by its cells' layouts, in order.
pub open spec fn tree_view(node: KNode) -> crate::dashboard_file::LayoutView
    decreases node, 0int,
{
    if node.name@ == "pane"@ {
        crate::dashboard_file::LayoutView::Pane(id_spec(node)->0)
    } else {
        match node.children {
            Some(cs) => {
                proof {
                    assert(decreases_to!(node => node.children));
                    assert(decreases_to!(node.children => cs));
                    assert(decreases_to!(cs => cs@));
                }
                if node.name@ == "row"@ {
                    crate::dashboard_file::LayoutView::Row(cells_view(cs@))
                } else {
                    crate::dashboard_file::LayoutView::Column(cells_view(cs@))
                }
            },
            None => if node.name@ == "row"@ {
                crate::dashboard_file::LayoutView::Row(seq![])
            } else {
                crate::dashboard_file::LayoutView::Column(seq![])
            },
        }
    }
}

/// The layouts of cells, in order.
pub open spec fn cells_view(cells: Seq<KNode>) -> Seq<crate::dashboard_file::LayoutView>
    decreases cells, 1int,
{
    if cells.len() == 0 {
        seq![]
    } else {
        cells_view(cells.drop_last()).push(tree_view(cells.last()))
    }
}

pub open spec fn prepend_nodes(acc: Seq<KNode>, r: Result<Seq<KNode>, Option<Seq<char>>>) -> Result<Seq<KNode>, Option<Seq<char>>> {
    match r {
        Ok(rest) => Ok(acc + rest),
        Err(e) => Err(e),
    }
}

/// One node of the inline tree, lifting every pane it meets into
/// `panes`: a pane becomes its declaration and its name in the tree; a
/// row or column holds one or more cells.
pub fn inline_node(
    node: &KNode,
    label: &str,
    default_shell: bool,
    panes: &mut Vec<PaneDecl>,
    load: &Load,
) -> (r: Result<LayoutDecl, String>)
    requires
        load.text@.len() < usize::MAX,
    ensures
        r is Ok ==> final(panes)@.len() == old(panes)@.len() + pane_count(*node)
            && final(panes)@.subrange(0, old(panes)@.len() as int) == old(panes)@,
        r is Ok && node.name@ == "pane"@ ==> (r->Ok_0 matches LayoutDecl::Pane(name) && id_spec(*node) == Some(name@)),
        r is Ok ==> crate::dashboard_file::layout_view(r->Ok_0) == tree_view(*node),
        match tree_outcome(*node, label@, default_shell, crate::variables::block_names(*load.vars)) {
            Err(Some(m)) => r is Err && r->Err_0@ == m,
            Err(None) => r is Err && load_refused(*load, r->Err_0@),
            Ok(ps) => r is Ok && final(panes)@.len() == old(panes)@.len() + ps.len() && forall|j: int| 0 <= j < ps.len()
                ==> pane_decl_ok(#[trigger] final(panes)@[old(panes)@.len() + j], ps[j], default_shell),
        },
    decreases node,
{
    let pane_kind = {
        let v = chars_of(node.name.as_str());
        chars_eq(v.as_slice(), "pane")
    };
    if pane_kind {
        let name = match one_id(node, label) {
            Ok(n) => n,
            Err(e) => return Err(e),
        };
        let name_copy = name.clone();
        assert(name_copy@ == name@);
        let decl = match pane_block(node, Some(name_copy), default_shell, load) {
            Ok(d) => d,
            Err(e) => return Err(e),
        };
        let ghost before = panes@;
        panes.push(decl);
        assert(panes@.subrange(0, before.len() as int) =~= before);
        proof {
            assert(panes@[before.len() as int] == decl);
            assert(block_shell_on(*node, Some(name_copy), default_shell) == block_shell_on_at(
                *node,
                "pane "@ + debug_str(id_spec(*node)->0),
                default_shell,
            ));
            assert forall|k: PaneKey| #[trigger] key_declared(
                decl,
                *node,
                k,
                block_shell_on_at(*node, "pane "@ + debug_str(id_spec(*node)->0), default_shell),
            ) by {
                assert(key_declared(decl, *node, k, block_shell_on(*node, Some(name_copy), default_shell)));
            }
            assert(pane_decl_ok(decl, *node, default_shell));
        }
        return Ok(LayoutDecl::Pane(name));
    }
    match refuse_annotation(&node.ty, node.name.as_str(), label) {
        Ok(()) => {},
        Err(e) => return Err(e),
    }
    let kind_phrase = container_kind(node);
    match refuse_container_properties(node, label, kind_phrase) {
        Ok(()) => {},
        Err(e) => return Err(e),
    }
    let values = positional(node);
    if values.len() > 0 {
        match stray_setting(values.as_slice()) {
            Some(name) => return Err(stray_setting_err(label, name, values.as_slice())),
            None => {},
        }
        match stray_key(values.as_slice()) {
            Some(k) => {
                let mut m = String::from_str(label);
                m.append(": `");
                m.append(k.name());
                m.append("` is a pane's key — write it on a `pane` block inside this ");
                m.append(node.name.as_str());
                return Err(m);
            },
            None => {},
        }
        let mut m = String::from_str(label);
        m.append(": a ");
        m.append(node.name.as_str());
        m.append(" holds `pane` blocks, not pane ids — declare the pane where it sits, like `");
        m.append(node.name.as_str());
        m.append(" { pane \"log\" { … } }`");
        return Err(m);
    }
    let empty: Vec<KNode> = Vec::new();
    let cells: &Vec<KNode> = match &node.children {
        Some(c) => c,
        None => &empty,
    };
    if cells.len() == 0 {
        let mut m = String::from_str(label);
        m.append(": this ");
        m.append(node.name.as_str());
        m.append(" is empty — put at least one pane in it");
        return Err(m);
    }
    let ghost start = panes@;
    let ghost mut found: Seq<KNode> = Seq::empty();
    let mut decls: Vec<LayoutDecl> = Vec::new();
    let mut i: usize = 0;
    while i < cells.len()
        invariant
            i <= cells@.len(),
            load.text@.len() < usize::MAX,
            node.children == Some(*cells),
            node.name@ != "pane"@,
            panes@.len() == start.len() + cells_pane_count(cells@.take(i as int)),
            panes@.subrange(0, start.len() as int) == start,
            container_refusal(*node, label@) is None,
            kind_phrase@ == kind_phrase_spec(node.name@),
            tree_outcome(*node, label@, default_shell, crate::variables::block_names(*load.vars)) == prepend_nodes(
                found,
                cells_outcome(cells@, i as int, label@, kind_phrase@, default_shell, crate::variables::block_names(*load.vars)),
            ),
            panes@.len() == start.len() + found.len(),
            forall|j: int| 0 <= j < found.len() ==> pane_decl_ok(#[trigger] panes@[start.len() + j], found[j], default_shell),
            crate::dashboard_file::views_of(decls@) == cells_view(cells@.take(i as int)),
        decreases cells@.len() - i,
    {
        let cell = &cells[i];
        let inner = cell_label(Some(label), cell, i);
        let cell_ok = {
            let v = chars_of(cell.name.as_str());
            chars_eq(v.as_slice(), "pane") || chars_eq(v.as_slice(), "row") || chars_eq(v.as_slice(), "column")
        };
        if !cell_ok {
            let mut m = inner.clone();
            m.append(": unknown node ");
            let q = debug_quote(cell.name.as_str());
            m.append(q.as_str());
            m.append(" — ");
            m.append(kind_phrase);
            m.append(" holds `pane`, `row`, and `column` blocks");
            return Err(m);
        }
        let ghost mid = panes@;
        proof {
            let c = node.children->0;
            assert(decreases_to!(*node => node.children));
            assert(decreases_to!(node.children => c));
            assert(decreases_to!(c => c@));
            assert(decreases_to!(c@ => c@[i as int]));
            assert(c@[i as int] == *cell);
        }
        let ghost panes_mid = panes@;
        let d = match inline_node(cell, inner.as_str(), default_shell, panes, load) {
            Ok(d) => d,
            Err(e) => return Err(e),
        };
        proof {
            assert(cells@[i as int] == *cell);
            let ps = tree_outcome(*cell, inner@, default_shell, crate::variables::block_names(*load.vars))->Ok_0;
            assert forall|j: int| 0 <= j < found.len() + ps.len() implies pane_decl_ok(
                #[trigger] panes@[start.len() + j],
                (found + ps)[j],
                default_shell,
            ) by {
                if j < found.len() {
                    assert(panes@[start.len() + j] == panes_mid[start.len() + j]) by {
                        assert(panes@.subrange(0, panes_mid.len() as int) == panes_mid);
                        assert(panes@.subrange(0, panes_mid.len() as int)[start.len() + j] == panes@[start.len() + j]);
                    }
                } else {
                    let jj = j - found.len();
                    assert(panes@[panes_mid.len() + jj] == panes@[start.len() + j]);
                }
            }
            let old_found = found;
            found = found + ps;
            assert(crate::kdl_doc::opt_text(Some(label)) == Some(label@));
            assert(inner@ == cell_label_spec(Some(label@), cell.name@, i as nat));
            assert(is_cell_kind(cell.name@));
            assert(tree_outcome(*cell, inner@, default_shell, crate::variables::block_names(*load.vars)) == Ok::<Seq<KNode>, Option<Seq<char>>>(ps));
            match cells_outcome(cells@, i + 1, label@, kind_phrase@, default_shell, crate::variables::block_names(*load.vars)) {
                Ok(rest) => {
                    assert(old_found + (ps + rest) =~= (old_found + ps) + rest);
                },
                Err(e) => {},
            }
        }
        proof {
            assert(cells@.take(i + 1).drop_last() =~= cells@.take(i as int));
            assert(cells@.take(i + 1).last() == cells@[i as int]);
            assert(panes@.subrange(0, start.len() as int) =~= mid.subrange(0, start.len() as int)) by {
                assert(panes@.subrange(0, mid.len() as int) == mid);
            }
        }
        proof {
            assert(decls@.push(d).drop_last() =~= decls@);
            assert(cells@.take(i + 1).drop_last() =~= cells@.take(i as int));
        }
        decls.push(d);
        i = i + 1;
    }
    proof {
        assert(cells@.take(cells@.len() as int) =~= cells@);
    }
    let row = {
        let v = chars_of(node.name.as_str());
        chars_eq(v.as_slice(), "row")
    };
    if row {
        Ok(LayoutDecl::Row(decls))
    } else {
        Ok(LayoutDecl::Column(decls))
    }
}

} // verus!

verus! {

pub open spec fn title_annotation_text(ty: Seq<char>) -> Seq<char> {
    "the ("@ + ty + ") type annotation on `title` has no meaning here — remove it"@
}

pub open spec fn title_ref_reused_text(frag: Seq<char>) -> Seq<char> {
    "title ref \"#"@ + frag
        + "\": a pane's id is not substitutable — it is the `RAT_PANE` value, the anchor a `ref` binds to, and a URI fragment. Display text belongs in `title`, which IS substitutable"@
}

/// The `ref` a title's entries `i..` declare, walked in order: every
/// entry is checked, and the first problem refuses the title.
pub open spec fn title_ref_from(entries: Seq<KEntry>, i: int, found: Option<Seq<char>>) -> Result<Option<Seq<char>>, Seq<char>>
    decreases entries.len() - i,
{
    if i < 0 || i >= entries.len() {
        Ok(found)
    } else {
        let e = entries[i];
        if e.ty is Some {
            Err(title_annotation_text(e.ty->0@))
        } else {
            match e.name {
                None => title_ref_from(entries, i + 1, found),
                Some(p) => if p@ != "ref"@ {
                    Err("title's one property is `ref` — write `title \"Deploy status\"` or `title ref=\"#header\"`"@)
                } else {
                    match e.value {
                        KValue::Text(v) => if v@.len() == 0 || v@[0] != '#' {
                            Err("title's ref is a URI fragment — write `ref=\"#header\"`"@)
                        } else {
                            let frag = v@.subrange(1, v@.len() as int);
                            if frag.len() == 0 {
                                Err("title ref \"#\" is the whole document — name a pane id, like `ref=\"#header\"`"@)
                            } else if refs_spec(frag).len() > 0 {
                                Err(title_ref_reused_text(frag))
                            } else if found is Some {
                                Err("`title` is declared twice — a dashboard declares it once"@)
                            } else {
                                title_ref_from(entries, i + 1, Some(frag))
                            }
                        },
                        _ => Err("title's ref takes one string — write `ref=\"#header\"`"@),
                    }
                },
            }
        }
    }
}

/// What a `title` node declares — its text and its `ref` — or why it
/// is refused: `Err(Some(m))` with the sentence, `Err(None)` when the
/// text names an undeclared variable.
pub open spec fn title_outcome(node: KNode, vars: Seq<Seq<char>>) -> Result<(Option<Seq<char>>, Option<Seq<char>>), Option<Seq<char>>> {
    if node.ty is Some {
        Err(Some(title_annotation_text(node.ty->0@)))
    } else {
        match title_ref_from(node.entries@, 0, None) {
            Err(m) => Err(Some(m)),
            Ok(reference) => if node.children is Some {
                Err(Some("title holds no block — write `title \"Deploy status\"` or `title ref=\"#header\"`"@))
            } else {
                let vals = positional_spec(node.entries@);
                let text: Result<Option<Seq<char>>, Option<Seq<char>>> = if vals.len() == 0 {
                    Ok(None)
                } else if vals.len() == 1 {
                    match vals[0].value {
                        KValue::Text(x) => if text_ok(x@, vals[0], vars) { Ok(Some(x@)) } else { Err(None) },
                        _ => Err(Some("title takes one string — write `title \"Deploy status\"`"@)),
                    }
                } else {
                    Err(Some("title takes one string — write `title \"Deploy status\"`"@))
                };
                match text {
                    Err(e) => Err(e),
                    Ok(t) => if t is None && reference is None {
                        Err(Some("title takes a text, a ref=\"#id\", or both — write `title \"Deploy status\"` or `title ref=\"#header\"`"@))
                    } else {
                        Ok((t, reference))
                    },
                }
            },
        }
    }
}


/// The title a `title` node builds from its text and its fragment.
pub open spec fn title_built(node: KNode, text: Option<Seq<char>>, reference: Option<Seq<char>>, t: TitleDecl) -> bool {
    &&& match text {
        None => t.text is None,
        Some(x) => t.text is Some && flavored(x, is_raw_spec(positional_spec(node.entries@)[0]), t.text->0),
    }
    &&& match reference {
        None => t.reference is None,
        Some(f) => t.reference is Some && t.reference->0@ == f,
    }
}

/// The `title` setting: an optional text, an optional `ref="#id"`, at
/// least one of the two; no annotation anywhere, no block.
pub fn title_field(node: &KNode, load: &Load) -> (r: Result<TitleDecl, String>)
    requires
        load.text@.len() < usize::MAX,
    ensures
        r is Ok ==> r->Ok_0.text is Some || r->Ok_0.reference is Some,
        match title_outcome(*node, crate::variables::block_names(*load.vars)) {
            Ok((text, reference)) => r is Ok && title_built(*node, text, reference, r->Ok_0),
            Err(Some(m)) => r is Err && r->Err_0@ == m,
            Err(None) => r is Err && load_refused(*load, r->Err_0@),
        },
{
    match &node.ty {
        Some(ty) => {
            let mut m = String::from_str("the (");
            m.append(ty.as_str());
            m.append(") type annotation on `title` has no meaning here — remove it");
            return Err(m);
        },
        None => {},
    }
    let mut reference: Option<String> = None;
    let mut i: usize = 0;
    while i < node.entries.len()
        invariant
            i <= node.entries@.len(),
            node.ty is None,
            title_ref_from(node.entries@, 0, None) == title_ref_from(node.entries@, i as int, match reference {
                None => None,
                Some(f) => Some(f@),
            }),
        decreases node.entries@.len() - i,
    {
        let entry = &node.entries[i];
        match &entry.ty {
            Some(ty) => {
                let mut m = String::from_str("the (");
                m.append(ty.as_str());
                m.append(") type annotation on `title` has no meaning here — remove it");
                return Err(m);
            },
            None => {},
        }
        match &entry.name {
            None => {},
            Some(prop) => {
                let pv = chars_of(prop.as_str());
                if !chars_eq(pv.as_slice(), "ref") {
                    return Err(String::from_str("title's one property is `ref` — write `title \"Deploy status\"` or `title ref=\"#header\"`"));
                }
                let value = match &entry.value {
                    KValue::Text(s) => s,
                    _ => return Err(String::from_str("title's ref takes one string — write `ref=\"#header\"`")),
                };
                let vv = chars_of(value.as_str());
                if vv.len() == 0 || vv[0] != '#' {
                    return Err(String::from_str("title's ref is a URI fragment — write `ref=\"#header\"`"));
                }
                let frag_chars = crate::text::chars_from(vv.as_slice(), 1);
                if frag_chars.len() == 0 {
                    return Err(String::from_str("title ref \"#\" is the whole document — name a pane id, like `ref=\"#header\"`"));
                }
                let fragment = crate::text::string_of(frag_chars.as_slice());
                let probe = Template::extract(fragment.as_str());
                if probe.refs().len() > 0 {
                    let mut m = String::from_str("title ref \"#");
                    m.append(fragment.as_str());
                    m.append("\": a pane's id is not substitutable — it is the `RAT_PANE` value, the anchor a `ref` binds to, and a URI fragment. Display text belongs in `title`, which IS substitutable");
                    return Err(m);
                }
                if reference.is_some() {
                    return Err(String::from_str("`title` is declared twice — a dashboard declares it once"));
                }
                reference = Some(fragment);
            },
        }
        i = i + 1;
    }
    if node.children.is_some() {
        return Err(String::from_str("title holds no block — write `title \"Deploy status\"` or `title ref=\"#header\"`"));
    }
    let values = positional(node);
    let text = if values.len() == 0 {
        None
    } else if values.len() == 1 {
        match &values[0].value {
            KValue::Text(s) => match template_of(s.as_str(), &values[0], load) {
                Ok(t) => Some(t),
                Err(e) => return Err(e),
            },
            _ => return Err(String::from_str("title takes one string — write `title \"Deploy status\"`")),
        }
    } else {
        return Err(String::from_str("title takes one string — write `title \"Deploy status\"`"));
    };
    if text.is_none() && reference.is_none() {
        return Err(String::from_str("title takes a text, a ref=\"#id\", or both — write `title \"Deploy status\"` or `title ref=\"#header\"`"));
    }
    Ok(TitleDecl { text, reference })
}

/// The type annotation of the first entry from `j` on that has one.
pub open spec fn first_entry_annotation(entries: Seq<KEntry>, j: int) -> Option<Seq<char>>
    decreases entries.len() - j,
{
    if j < 0 || j >= entries.len() {
        None
    } else if entries[j].ty is Some {
        Some(entries[j].ty->0@)
    } else {
        first_entry_annotation(entries, j + 1)
    }
}

pub open spec fn setting_annotation_text(ty: Seq<char>, name: Seq<char>) -> Seq<char> {
    "the ("@ + ty + ") type annotation on `"@ + name + "` has no meaning here — remove it"@
}

/// What an integer setting named `name` reads as, or why it is refused.
pub open spec fn usize_outcome(node: KNode, name: Seq<char>) -> Result<usize, Seq<char>> {
    let entries = node.entries@;
    let vals = positional_spec(entries);
    if node.ty is Some {
        Err(setting_annotation_text(node.ty->0@, name))
    } else if exists|k: int| 0 <= k < entries.len() && (#[trigger] entries[k]).name is Some {
        Err(name + " takes no properties — write `"@ + name + " 1`"@)
    } else if first_entry_annotation(entries, 0) is Some {
        Err(setting_annotation_text(first_entry_annotation(entries, 0)->0, name))
    } else if node.children is Some {
        Err(name + " takes one integer and holds no block — write `"@ + name + " 1`"@)
    } else if vals.len() == 1 && vals[0].value is Int {
        let c = vals[0].value->Int_0;
        if c < 0 || c > usize::MAX {
            Err(name + " must be a non-negative integer"@)
        } else {
            Ok(c as usize)
        }
    } else {
        Err(name + " takes one integer — write `"@ + name + " 1`"@)
    }
}

/// A document setting holding one non-negative integer — `gap`, `row-gap`.
pub fn usize_field(node: &KNode, name: &str) -> (r: Result<usize, String>)
    ensures
        match usize_outcome(*node, name@) {
            Ok(n) => r == Ok::<usize, String>(n),
            Err(m) => r is Err && r->Err_0@ == m,
        },
{
    match &node.ty {
        Some(ty) => {
            let mut m = String::from_str("the (");
            m.append(ty.as_str());
            m.append(") type annotation on `");
            m.append(name);
            m.append("` has no meaning here — remove it");
            return Err(m);
        },
        None => {},
    }
    let mut i: usize = 0;
    while i < node.entries.len()
        invariant
            i <= node.entries@.len(),
            node.ty is None,
            forall|k: int| 0 <= k < i ==> (#[trigger] node.entries@[k]).name is None,
        decreases node.entries@.len() - i,
    {
        if node.entries[i].name.is_some() {
            let mut m = String::from_str(name);
            m.append(" takes no properties — write `");
            m.append(name);
            m.append(" 1`");
            return Err(m);
        }
        i = i + 1;
    }
    let mut j: usize = 0;
    while j < node.entries.len()
        invariant
            j <= node.entries@.len(),
            node.ty is None,
            forall|k: int| 0 <= k < node.entries@.len() ==> (#[trigger] node.entries@[k]).name is None,
            first_entry_annotation(node.entries@, 0) == first_entry_annotation(node.entries@, j as int),
        decreases node.entries@.len() - j,
    {
        match &node.entries[j].ty {
            Some(ty) => {
                let mut m = String::from_str("the (");
                m.append(ty.as_str());
                m.append(") type annotation on `");
                m.append(name);
                m.append("` has no meaning here — remove it");
                return Err(m);
            },
            None => {},
        }
        j = j + 1;
    }
    if node.children.is_some() {
        let mut m = String::from_str(name);
        m.append(" takes one integer and holds no block — write `");
        m.append(name);
        m.append(" 1`");
        return Err(m);
    }
    let values = positional(node);
    let cells: i128 = if values.len() == 1 {
        match &values[0].value {
            KValue::Int(n) => *n,
            _ => {
                let mut m = String::from_str(name);
                m.append(" takes one integer — write `");
                m.append(name);
                m.append(" 1`");
                return Err(m);
            },
        }
    } else {
        let mut m = String::from_str(name);
        m.append(" takes one integer — write `");
        m.append(name);
        m.append(" 1`");
        return Err(m);
    };
    if cells < 0 || cells > usize::MAX as i128 {
        let mut m = String::from_str(name);
        m.append(" must be a non-negative integer");
        return Err(m);
    }
    Ok(cells as usize)
}

/// The declaration a `shell` entry gives: `#true` the platform shell,
/// a string the named program under the string's flavor.
pub open spec fn shell_from_entry(d: ShellDecl, e: KEntry) -> bool {
    &&& (e.value == KValue::Flag(true) ==> d == ShellDecl::Platform)
    &&& (e.value is Text ==> (d matches ShellDecl::Named(t) && flavored(e.value->Text_0@, is_raw_spec(e), t)))
    &&& !(d is Direct)
}

pub open spec fn unknown_var_prop_text(at: Seq<char>, name: Seq<char>, prop: Seq<char>) -> Seq<char> {
    at + ": unknown property "@ + debug_str(prop) + " — a variable's properties are shell, defer"@ + if prop == "default"@ {
        " — a constant is its own default: write `"@ + name + " \"50\"` and override it with `-v "@ + name + "=200`"@
    } else {
        Seq::empty()
    }
}

/// A variable's properties from entry `i` on: the `shell` entry so far
/// and the `defer` flag so far — or the first refusal.
pub open spec fn var_props_from(
    entries: Seq<KEntry>,
    i: int,
    name: Seq<char>,
    at: Seq<char>,
    shell: Option<KEntry>,
    defer: bool,
) -> Result<(Option<KEntry>, bool), Seq<char>>
    decreases entries.len() - i,
{
    if i < 0 || i >= entries.len() {
        Ok((shell, defer))
    } else {
        let e = entries[i];
        match e.name {
            None => var_props_from(entries, i + 1, name, at, shell, defer),
            Some(p) => if e.ty is Some {
                Err(annotation_text(at, e.ty->0@, p@))
            } else if p@ == "shell"@ {
                if shell_decl_spec(e) is None {
                    Err(at + ": `shell` takes #true or one string — write `shell=#true`"@)
                } else if e.value == KValue::Flag(false) {
                    Err(at + ": `shell=#false` means no shell at all, and a variable with no shell is a constant — drop `shell` to make `"@
                        + name + "` a constant, or name the shell that runs it"@)
                } else if shell is Some {
                    Err(at + ": `shell` is declared twice — declare it once"@)
                } else {
                    var_props_from(entries, i + 1, name, at, Some(e), defer)
                }
            } else if p@ == "defer"@ {
                match e.value {
                    KValue::Flag(b) => var_props_from(entries, i + 1, name, at, shell, b),
                    _ => Err(at + ": `defer` takes #true or #false — write `defer=#true`"@),
                }
            } else {
                Err(unknown_var_prop_text(at, name, p@))
            },
        }
    }
}

pub open spec fn defer_constant_text(at: Seq<char>, name: Seq<char>) -> Seq<char> {
    at + ": `defer` re-derives a value, and `"@ + name
        + "` derives nothing — it is a constant, the same bytes at every spawn. Drop `defer`, or give `"@ + name
        + "` a `shell` command to re-run"@
}


/// `shell` and `defer` are a variable's only properties.
pub fn variable_source(node: &KNode, name: &str, at: &str) -> (r: Result<VarSource, String>)
    ensures
        r matches Ok(VarSource::LoadCommand(d)) ==> !(d is Direct),
        r matches Ok(VarSource::SpawnCommand(d)) ==> !(d is Direct),
        match var_props_from(node.entries@, 0, name@, at@, None, false) {
            Err(m) => r is Err && r->Err_0@ == m,
            Ok((None, false)) => r == Ok::<VarSource, String>(VarSource::Constant),
            Ok((None, true)) => r is Err && r->Err_0@ == defer_constant_text(at@, name@),
            Ok((Some(e), false)) => r matches Ok(VarSource::LoadCommand(d)) && shell_from_entry(d, e),
            Ok((Some(e), true)) => r matches Ok(VarSource::SpawnCommand(d)) && shell_from_entry(d, e),
        },
{
    let mut shell: Option<ShellDecl> = None;
    let ghost mut shell_entry: Option<KEntry> = None;
    let mut defer = false;
    let mut i: usize = 0;
    while i < node.entries.len()
        invariant
            i <= node.entries@.len(),
            shell matches Some(d) ==> !(d is Direct),
            shell is Some <==> shell_entry is Some,
            shell is Some ==> shell_from_entry(shell->0, shell_entry->0),
            var_props_from(node.entries@, 0, name@, at@, None, false) == var_props_from(
                node.entries@,
                i as int,
                name@,
                at@,
                shell_entry,
                defer,
            ),
        decreases node.entries@.len() - i,
    {
        let entry = &node.entries[i];
        match &entry.name {
            None => {},
            Some(prop) => {
                match refuse_annotation(&entry.ty, prop.as_str(), at) {
                    Ok(()) => {},
                    Err(e) => return Err(e),
                }
                let pv = chars_of(prop.as_str());
                if chars_eq(pv.as_slice(), "shell") {
                    let mode = match shell_decl(entry) {
                        Some(m) => m,
                        None => {
                            let mut m = String::from_str(at);
                            m.append(": `shell` takes #true or one string — write `shell=#true`");
                            return Err(m);
                        },
                    };
                    if !mode.runs_a_shell() {
                        let mut m = String::from_str(at);
                        m.append(": `shell=#false` means no shell at all, and a variable with no shell is a constant — drop `shell` to make `");
                        m.append(name);
                        m.append("` a constant, or name the shell that runs it");
                        return Err(m);
                    }
                    if shell.is_some() {
                        let mut m = String::from_str(at);
                        m.append(": `shell` is declared twice — declare it once");
                        return Err(m);
                    }
                    shell = Some(mode);
                    proof {
                        shell_entry = Some(*entry);
                    }
                } else if chars_eq(pv.as_slice(), "defer") {
                    match &entry.value {
                        KValue::Flag(b) => defer = *b,
                        _ => {
                            let mut m = String::from_str(at);
                            m.append(": `defer` takes #true or #false — write `defer=#true`");
                            return Err(m);
                        },
                    }
                } else {
                    let mut m = String::from_str(at);
                    m.append(": unknown property ");
                    let q = debug_quote(prop.as_str());
                    m.append(q.as_str());
                    m.append(" — a variable's properties are shell, defer");
                    if chars_eq(pv.as_slice(), "default") {
                        m.append(" — a constant is its own default: write `");
                        m.append(name);
                        m.append(" \"50\"` and override it with `-v ");
                        m.append(name);
                        m.append("=200`");
                    }
                    return Err(m);
                }
            },
        }
        i = i + 1;
    }
    match shell {
        None => if defer {
            let mut m = String::from_str(at);
            m.append(": `defer` re-derives a value, and `");
            m.append(name);
            m.append("` derives nothing — it is a constant, the same bytes at every spawn. Drop `defer`, or give `");
            m.append(name);
            m.append("` a `shell` command to re-run");
            Err(m)
        } else {
            Ok(VarSource::Constant)
        },
        Some(mode) => if defer {
            Ok(VarSource::SpawnCommand(mode))
        } else {
            Ok(VarSource::LoadCommand(mode))
        },
    }
}

} // verus!

verus! {

pub open spec fn var_at_text(name: Seq<char>) -> Seq<char> {
    "variable "@ + debug_str(name)
}

pub open spec fn empty_variables_text() -> Seq<char> {
    "the `variables` block is empty — declare at least one variable, like `plan \"/path/to/thing\"`, or drop the block"@
}

/// Why the `i`th declaration of a `variables` block is refused, given
/// the ones before it — or nothing when it is a variable.
pub open spec fn child_refusal(children: Seq<KNode>, i: int) -> Option<Seq<char>> {
    let c = children[i];
    let name = c.name@;
    let at = var_at_text(name);
    let vals = positional_spec(c.entries@);
    if !crate::template::is_reference_name_spec(name) {
        Some(at
            + ": a variable's name starts with a letter or `_` and continues with letters, digits, `_` or `-` — the same spelling `{{"@
            + name + "}}` uses"@)
    } else if exists|k: int| 0 <= k < i && (#[trigger] children[k]).name@ == name {
        Some(at + ": `"@ + name + "` is declared twice — declare each variable once"@)
    } else if c.ty is Some {
        Some(annotation_text(at, c.ty->0@, name))
    } else if c.children is Some {
        Some(at + ": `"@ + name + "` takes one string and holds no block — write `"@ + name + " \"value\"`"@)
    } else {
        match var_props_from(c.entries@, 0, name, at, None, false) {
            Err(m) => Some(m),
            Ok((None, true)) => Some(defer_constant_text(at, name)),
            _ => if !(vals.len() == 1 && vals[0].value is Text) {
                Some(at + ": `"@ + name + "` takes one string — write `"@ + name + " \"value\"`"@)
            } else {
                None
            },
        }
    }
}

/// The first refused declaration from `i` on.
pub open spec fn vars_refusal_from(children: Seq<KNode>, i: int) -> Option<Seq<char>>
    decreases children.len() - i,
{
    if i < 0 || i >= children.len() {
        None
    } else {
        match child_refusal(children, i) {
            Some(m) => Some(m),
            None => vars_refusal_from(children, i + 1),
        }
    }
}

/// A variable as its declaration describes it, before classification:
/// its name, its source from the `shell`/`defer` properties, and its
/// text under the string's flavor.
pub open spec fn declared_as(v: Variable, c: KNode) -> bool {
    let vals = positional_spec(c.entries@);
    &&& v.name == c.name
    &&& vals.len() == 1 && vals[0].value is Text && flavored(vals[0].value->Text_0@, is_raw_spec(vals[0]), v.text)
    &&& match var_props_from(c.entries@, 0, c.name@, var_at_text(c.name@), None, false) {
        Ok((None, false)) => v.source == VarSource::Constant,
        Ok((Some(e), false)) => v.source matches VarSource::LoadCommand(d) && shell_from_entry(d, e),
        Ok((Some(e), true)) => v.source matches VarSource::SpawnCommand(d) && shell_from_entry(d, e),
        _ => false,
    }
}

/// The variables a block's declarations describe, in order.
pub open spec fn built_from(children: Seq<KNode>, vs: Seq<Variable>) -> bool {
    vs.len() == children.len() && forall|i: int| 0 <= i < vs.len() ==> declared_as(#[trigger] vs[i], children[i])
}


/// The declarations a block describes pass the graph checks: every
/// reference declared, no cycle, tiers that follow the rule.
pub open spec fn vars_graph_ok(children: Seq<KNode>) -> bool {
    exists|vs: Seq<Variable>| built_from(children, vs) && crate::variable_graph::all_refs_declared(vs)
        && crate::variable_graph::acyclic(vs) && crate::variable_graph::tiers_consistent(vs)
}

proof fn lemma_var_props_shell(
    entries: Seq<KEntry>,
    i: int,
    name: Seq<char>,
    at: Seq<char>,
    shell: Option<KEntry>,
    defer: bool,
)
    requires
        shell matches Some(e) ==> (e.value == KValue::Flag(true) || e.value is Text),
    ensures
        var_props_from(entries, i, name, at, shell, defer) matches Ok((Some(e), _)) ==> (e.value == KValue::Flag(true)
            || e.value is Text),
    decreases entries.len() - i,
{
    if 0 <= i < entries.len() {
        let e = entries[i];
        if e.name is Some && e.ty is None && e.name->0@ == "shell"@ && shell_decl_spec(e) is Some && e.value != KValue::Flag(false)
            && shell is None {
            assert(e.value is Flag || e.value is Text);
            lemma_var_props_shell(entries, i + 1, name, at, Some(e), defer);
        } else if e.name is Some && e.ty is None && e.name->0@ == "defer"@ && e.value is Flag {
            lemma_var_props_shell(entries, i + 1, name, at, shell, e.value->Flag_0);
        } else if e.name is None {
            lemma_var_props_shell(entries, i + 1, name, at, shell, defer);
        }
    }
}

/// Two readings of one block cannot be told apart by the graph checks.
proof fn lemma_built_same(children: Seq<KNode>, a: Seq<Variable>, b: Seq<Variable>)
    requires
        built_from(children, a),
        built_from(children, b),
    ensures
        crate::variable_graph::same_graph(a, b),
{
    assert forall|i: int| 0 <= i < a.len() implies (#[trigger] a[i]).name@ == b[i].name@ && a[i].refs_spec()
        == b[i].refs_spec() && a[i].source.declared_tier_spec() == b[i].source.declared_tier_spec() by {
        let c = children[i];
        assert(declared_as(a[i], c));
        assert(declared_as(b[i], c));
        lemma_var_props_shell(c.entries@, 0, c.name@, var_at_text(c.name@), None, false);
        match var_props_from(c.entries@, 0, c.name@, var_at_text(c.name@), None, false) {
            Ok((Some(e), _)) => {
                let da = match a[i].source { VarSource::LoadCommand(d) => d, VarSource::SpawnCommand(d) => d, _ => ShellDecl::Direct };
                let db = match b[i].source { VarSource::LoadCommand(d) => d, VarSource::SpawnCommand(d) => d, _ => ShellDecl::Direct };
                assert(shell_from_entry(da, e) && shell_from_entry(db, e));
                assert(crate::template::names_of(da.refs_spec()) == crate::template::names_of(db.refs_spec()));
            },
            _ => {},
        }
    }
}

/// The `variables` block: every declared variable, checked and
/// classified but never expanded. A variable's name obeys the same
/// grammar a reference does.
#[verifier::rlimit(30)]
pub fn variables_block(node: &KNode, text: &str, colored: bool) -> (r: Result<VariableBlock, String>)
    requires
        text@.len() < usize::MAX,
    ensures
        r is Ok ==> node.children is Some && r->Ok_0.vars@.len() == node.children->0@.len() && forall|i: int|
            0 <= i < r->Ok_0.vars@.len() ==> (#[trigger] r->Ok_0.vars@[i]).name == node.children->0@[i].name
            && crate::template::is_reference_name_spec(r->Ok_0.vars@[i].name@),
        r is Ok ==> r->Ok_0.orders_declared(),
        r is Ok ==> node.children is Some && vars_declared(node.children->0@, r->Ok_0),
        node.ty is Some ==> r is Err && r->Err_0@ == annotation_text("variables"@, node.ty->0@, "variables"@),
        node.ty is None && positional_spec(node.entries@).len() > 0 ==> r is Err && r->Err_0@
            == "`variables` takes no id — it holds the board's variables, one per line"@,
        node.ty is None && positional_spec(node.entries@).len() == 0 && !(node.children is Some
            && node.children->0@.len() > 0) ==> r is Err && r->Err_0@ == empty_variables_text(),
        node.ty is None && positional_spec(node.entries@).len() == 0 && node.children is Some
            && node.children->0@.len() > 0 ==> match vars_refusal_from(node.children->0@, 0) {
            Some(m) => r is Err && r->Err_0@ == m,
            None => (r is Ok <==> vars_graph_ok(node.children->0@)) && (r is Err ==> exists|vs: Seq<Variable>| built_from(
                node.children->0@,
                vs,
            ) && crate::variable_graph::graph_refusal(vs, text@, colored, r->Err_0@)) && exists|vs: Seq<Variable>| built_from(node.children->0@, vs) && (r is Ok <==> (
                crate::variable_graph::all_refs_declared(vs) && crate::variable_graph::acyclic(vs)
                    && crate::variable_graph::tiers_consistent(vs))) && (r is Ok
                ==> crate::variable_graph::classified(vs, r->Ok_0)),
        },
{
    match refuse_annotation(&node.ty, "variables", "variables") {
        Ok(()) => {},
        Err(e) => return Err(e),
    }
    let values = positional(node);
    if values.len() > 0 {
        return Err(String::from_str("`variables` takes no id — it holds the board's variables, one per line"));
    }
    let children = match &node.children {
        Some(c) => c,
        None => return Err(String::from_str("the `variables` block is empty — declare at least one variable, like `plan \"/path/to/thing\"`, or drop the block")),
    };
    if children.len() == 0 {
        return Err(String::from_str("the `variables` block is empty — declare at least one variable, like `plan \"/path/to/thing\"`, or drop the block"));
    }
    let mut vars: Vec<Variable> = Vec::new();
    let mut i: usize = 0;
    while i < children.len()
        invariant
            i <= children@.len(),
            text@.len() < usize::MAX,
            vars@.len() == i,
            forall|k: int| 0 <= k < i ==> (#[trigger] vars@[k]).name == children@[k].name
                && crate::template::is_reference_name_spec(vars@[k].name@),
            forall|k: int| 0 <= k < i ==> declared_as(#[trigger] vars@[k], children@[k]),
            node.children == Some(*children),
            node.ty is None,
            positional_spec(node.entries@).len() == 0,
            children@.len() > 0,
            vars_refusal_from(children@, 0) == vars_refusal_from(children@, i as int),
        decreases children@.len() - i,
    {
        let child = &children[i];
        let name = child.name.as_str();
        let mut at = String::from_str("variable ");
        let q = debug_quote(name);
        at.append(q.as_str());
        if !is_reference_name(name) {
            let mut m = at.clone();
            m.append(": a variable's name starts with a letter or `_` and continues with letters, digits, `_` or `-` — the same spelling `{{");
            m.append(name);
            m.append("}}` uses");
            return Err(m);
        }
        let block_so_far = crate::variable_graph::position_in(&vars, name);
        proof {
            if block_so_far is Some {
                crate::variables::lemma_position_in_range(vars@, name@, 0);
                let p = block_so_far->0 as int;
                assert(children@[p].name@ == name@);
            } else {
                crate::variables::lemma_position_absent(vars@, name@, 0);
                assert(!exists|k: int| 0 <= k < i && (#[trigger] children@[k]).name@ == name@) by {
                    if exists|k: int| 0 <= k < i && (#[trigger] children@[k]).name@ == name@ {
                        let k = choose|k: int| 0 <= k < i && (#[trigger] children@[k]).name@ == name@;
                        assert(vars@[k].name == children@[k].name);
                    }
                }
            }
        }
        if block_so_far.is_some() {
            let mut m = at.clone();
            m.append(": `");
            m.append(name);
            m.append("` is declared twice — declare each variable once");
            return Err(m);
        }
        match refuse_annotation(&child.ty, name, at.as_str()) {
            Ok(()) => {},
            Err(e) => return Err(e),
        }
        if child.children.is_some() {
            let mut m = at.clone();
            m.append(": `");
            m.append(name);
            m.append("` takes one string and holds no block — write `");
            m.append(name);
            m.append(" \"value\"`");
            return Err(m);
        }
        let source = match variable_source(child, name, at.as_str()) {
            Ok(s) => s,
            Err(e) => return Err(e),
        };
        let entries = positional(child);
        let one_string = entries.len() == 1 && matches!(entries[0].value, KValue::Text(_));
        if !one_string {
            let mut m = at.clone();
            m.append(": `");
            m.append(name);
            m.append("` takes one string — write `");
            m.append(name);
            m.append(" \"value\"`");
            return Err(m);
        }
        let entry = &entries[0];
        let value = match &entry.value {
            KValue::Text(s) => s,
            _ => return Err(at),
        };
        let text_t = template_for(value.as_str(), is_raw(entry));
        let end = match entry.offset.checked_add(entry.len) {
            Some(e) => e,
            None => usize::MAX,
        };
        vars.push(Variable {
            name: child.name.clone(),
            source,
            text: text_t,
            tier: Tier::Load,
            span_start: entry.offset,
            span_end: end,
        });
        i = i + 1;
    }
    proof {
        assert(built_from(children@, vars@));
    }
    let ghost vs0 = vars@;
    let r = crate::variable_graph::classify(vars, text, colored);
    proof {
        if vars_graph_ok(children@) {
            let vs1 = choose|vs: Seq<Variable>| built_from(children@, vs) && crate::variable_graph::all_refs_declared(vs)
                && crate::variable_graph::acyclic(vs) && crate::variable_graph::tiers_consistent(vs);
            lemma_built_same(children@, vs0, vs1);
            crate::variable_graph::lemma_same_graph(vs0, vs1);
        }
        if r is Err {
            assert(built_from(children@, vs0) && crate::variable_graph::graph_refusal(vs0, text@, colored, r->Err_0@));
        }
        if r is Ok {
            assert(vars_declared(children@, r->Ok_0)) by {
                reveal(vars_declared);
                assert(built_from(children@, vs0) && crate::variable_graph::classified(vs0, r->Ok_0));
            }
        }
    }
    r
}

/// Whether a top-level node's name is one the document takes.
pub open spec fn top_level_kind(name: Seq<char>) -> bool {
    name == "variables"@ || name == "title"@ || name == "gap"@ || name == "row-gap"@ || name == "defaults"@
        || name == "pane"@ || name == "row"@ || name == "column"@
}

/// Some top-level node is one the document does not take.
pub open spec fn has_unknown_top_level(nodes: Seq<KNode>) -> bool {
    exists|i: int| 0 <= i < nodes.len() && !top_level_kind((#[trigger] nodes[i]).name@)
}

/// How many top-level nodes are cells of the dashboard's column.
pub open spec fn tree_count(nodes: Seq<KNode>) -> nat
    decreases nodes.len(),
{
    if nodes.len() == 0 {
        0
    } else {
        tree_count(nodes.drop_last()) + (if is_cell_kind(nodes.last().name@) { 1nat } else { 0nat })
    }
}

/// How many panes the top-level cells declare, at every depth.
pub open spec fn tree_pane_count(nodes: Seq<KNode>) -> nat
    decreases nodes.len(),
{
    if nodes.len() == 0 {
        0
    } else {
        tree_pane_count(nodes.drop_last()) + (if is_cell_kind(nodes.last().name@) {
            pane_count(nodes.last())
        } else {
            0nat
        })
    }
}

/// The positions of the first `n` nodes that are cells of the column.
pub open spec fn cell_idx(nodes: Seq<KNode>, n: int) -> Seq<usize>
    decreases n,
{
    if n <= 0 {
        seq![]
    } else {
        cell_idx(nodes, n - 1) + (if is_cell_kind(nodes[n - 1].name@) { seq![(n - 1) as usize] } else { seq![] })
    }
}

/// How many panes the nodes at the given positions declare.
pub open spec fn panes_at(nodes: Seq<KNode>, idx: Seq<usize>) -> nat
    decreases idx.len(),
{
    if idx.len() == 0 {
        0
    } else {
        panes_at(nodes, idx.drop_last()) + pane_count(nodes[idx.last() as int])
    }
}

proof fn lemma_cell_idx(nodes: Seq<KNode>, n: int)
    requires
        0 <= n <= nodes.len(),
        nodes.len() <= usize::MAX,
    ensures
        cell_idx(nodes, n).len() == tree_count(nodes.take(n)),
        cell_idx(nodes, n).len() <= n,
        panes_at(nodes, cell_idx(nodes, n)) == tree_pane_count(nodes.take(n)),
    decreases n,
{
    if n > 0 {
        lemma_cell_idx(nodes, n - 1);
        assert(nodes.take(n).drop_last() =~= nodes.take(n - 1));
        assert(nodes.take(n).last() == nodes[n - 1]);
        let prev = cell_idx(nodes, n - 1);
        if is_cell_kind(nodes[n - 1].name@) {
            assert(cell_idx(nodes, n).drop_last() =~= prev);
            assert(cell_idx(nodes, n).last() == (n - 1) as usize);
        } else {
            assert(cell_idx(nodes, n) =~= prev);
        }
    }
}

/// The names a document may hold once each.
pub open spec fn is_setting_name(name: Seq<char>) -> bool {
    name == "variables"@ || name == "title"@ || name == "gap"@ || name == "row-gap"@ || name == "defaults"@
}

pub open spec fn twice_text(name: Seq<char>) -> Seq<char> {
    "`"@ + name + "` is declared twice — a dashboard declares it once"@
}

pub open spec fn no_layout_text() -> Seq<char> {
    "there is no `layout` block — a pane is declared inside the row or column that places it: write `row { pane \"log\" { … } pane \"branch\" { … } }`"@
}

pub open spec fn unknown_top_text(name: Seq<char>) -> Seq<char> {
    "unknown node "@ + debug_str(name)
        + " — a dashboard's top level takes title, gap, row-gap, variables, defaults, pane, row, or column"@
}

/// The first pass over the top level from `i` on, with the settings in
/// `seen` already met: why it stops, if it does.
pub open spec fn scan_outcome(nodes: Seq<KNode>, i: int, seen: Seq<Seq<char>>) -> Option<Seq<char>>
    decreases nodes.len() - i,
{
    if i < 0 || i >= nodes.len() {
        None
    } else {
        let name = nodes[i].name@;
        if is_cell_kind(name) {
            scan_outcome(nodes, i + 1, seen)
        } else if is_setting_name(name) {
            if seen.contains(name) {
                Some(twice_text(name))
            } else if (name == "gap"@ || name == "row-gap"@) && usize_outcome(nodes[i], name) is Err {
                Some(usize_outcome(nodes[i], name)->Err_0)
            } else {
                scan_outcome(nodes, i + 1, seen.push(name))
            }
        } else if name == "layout"@ {
            Some(no_layout_text())
        } else {
            Some(unknown_top_text(name))
        }
    }
}

/// The last of the first `n` top-level nodes named `name`.
pub open spec fn last_named(nodes: Seq<KNode>, name: Seq<char>, n: int) -> Option<usize>
    decreases n,
{
    if n <= 0 {
        None
    } else if nodes[n - 1].name@ == name {
        Some((n - 1) as usize)
    } else {
        last_named(nodes, name, n - 1)
    }
}

proof fn lemma_last_named(nodes: Seq<KNode>, name: Seq<char>, n: int)
    requires
        0 <= n <= nodes.len(),
        nodes.len() <= usize::MAX,
    ensures
        last_named(nodes, name, n) matches Some(k) ==> k < n && nodes[k as int].name@ == name,
    decreases n,
{
    if n > 0 {
        lemma_last_named(nodes, name, n - 1);
    }
}

/// The document's node named `name`, if it has one.
pub open spec fn setting_node(nodes: Seq<KNode>, name: Seq<char>) -> Option<usize> {
    last_named(nodes, name, nodes.len() as int)
}

/// The integer an integer setting among the first `n` nodes holds.
pub open spec fn setting_value(nodes: Seq<KNode>, name: Seq<char>, n: int) -> Option<usize> {
    match last_named(nodes, name, n) {
        Some(k) => Some(usize_outcome(nodes[k as int], name)->Ok_0),
        None => None,
    }
}

/// Why a `variables` block is refused before its graph is checked.
pub open spec fn vars_block_refusal(node: KNode) -> Option<Seq<char>> {
    if node.ty is Some {
        Some(annotation_text("variables"@, node.ty->0@, "variables"@))
    } else if positional_spec(node.entries@).len() > 0 {
        Some("`variables` takes no id — it holds the board's variables, one per line"@)
    } else if !(node.children is Some && node.children->0@.len() > 0) {
        Some(empty_variables_text())
    } else {
        vars_refusal_from(node.children->0@, 0)
    }
}

pub open spec fn doc_vars_refusal(nodes: Seq<KNode>) -> Option<Seq<char>> {
    match setting_node(nodes, "variables"@) {
        Some(k) => vars_block_refusal(nodes[k as int]),
        None => None,
    }
}

/// The names the document's `variables` block declares, in order.
pub open spec fn doc_names(nodes: Seq<KNode>) -> Seq<Seq<char>> {
    match setting_node(nodes, "variables"@) {
        Some(k) => match nodes[k as int].children {
            Some(cs) => cs@.map_values(|c: KNode| c.name@),
            None => seq![],
        },
        None => seq![],
    }
}

/// The `variables` block's declarations reference an undeclared name,
/// form a cycle, or break the tier rule.
pub open spec fn doc_graph_refused(nodes: Seq<KNode>) -> bool {
    &&& setting_node(nodes, "variables"@) matches Some(k)
    &&& nodes[k as int].children is Some
    &&& !vars_graph_ok(nodes[k as int].children->0@)
}

/// Why a `defaults` block is refused before its keys are read.
pub open spec fn defaults_refusal(node: KNode) -> Option<Seq<char>> {
    let vals = positional_spec(node.entries@);
    if node.ty is Some {
        Some(annotation_text("defaults"@, node.ty->0@, "defaults"@))
    } else if vals.len() > 0 {
        match stray_key_from(vals, 0) {
            Some(k) => Some(stray_key_text("defaults"@, k, vals)),
            None => match stray_setting_from(vals, 0) {
                Some(st) => Some(stray_setting_text("defaults"@, st, vals)),
                None => Some("defaults takes no id — it holds the keys every pane inherits"@),
            },
        }
    } else {
        None
    }
}

/// Whether the document's panes run under a shell unless they say.
pub open spec fn doc_shell(nodes: Seq<KNode>) -> bool {
    match setting_node(nodes, "defaults"@) {
        Some(k) => block_shell_on(nodes[k as int], None, false),
        None => false,
    }
}

/// The top-level cells at positions `idx`, from the `t`-th on: the
/// pane nodes they declare, in document order, or why one is refused.
pub open spec fn top_outcome(nodes: Seq<KNode>, idx: Seq<usize>, t: int, ds: bool, names: Seq<Seq<char>>) -> Result<
    Seq<KNode>,
    Option<Seq<char>>,
>
    decreases idx.len() - t,
{
    if t < 0 || t >= idx.len() {
        Ok(Seq::empty())
    } else {
        let node = nodes[idx[t] as int];
        match tree_outcome(node, cell_label_spec(None, node.name@, t as nat), ds, names) {
            Err(e) => Err(e),
            Ok(ps) => match top_outcome(nodes, idx, t + 1, ds, names) {
                Err(e) => Err(e),
                Ok(rest) => Ok(ps + rest),
            },
        }
    }
}

/// Once the variables are read: the title, the defaults, then the tree.
pub open spec fn settled_outcome(nodes: Seq<KNode>) -> Result<Seq<KNode>, Option<Seq<char>>> {
    let names = doc_names(nodes);
    let tree = top_outcome(nodes, cell_idx(nodes, nodes.len() as int), 0, doc_shell(nodes), names);
    let after_title = match setting_node(nodes, "defaults"@) {
        Some(k) => match defaults_refusal(nodes[k as int]) {
            Some(m) => Err(Some(m)),
            None => match pane_outcome(nodes[k as int], None, false, names) {
                Err(e) => Err(e),
                Ok(_) => tree,
            },
        },
        None => tree,
    };
    match setting_node(nodes, "title"@) {
        Some(k) => match title_outcome(nodes[k as int], names) {
            Err(e) => Err(e),
            Ok(_) => after_title,
        },
        None => after_title,
    }
}

/// The layout items are the top-level cells' layouts, each normalized.
#[verifier::opaque]
pub open spec fn items_declared(nodes: Seq<KNode>, tree: Seq<usize>, items: Seq<LayoutDecl>) -> bool {
    &&& items.len() == tree.len()
    &&& forall|t: int| 0 <= t < items.len() ==> crate::dashboard_file::layout_view(#[trigger] items[t])
        == crate::dashboard_file::norm_view(tree_view(nodes[tree[t] as int]))
}

/// A block holds the variables its declarations describe, classified.
#[verifier::opaque]
pub open spec fn vars_declared(children: Seq<KNode>, b: VariableBlock) -> bool {
    exists|vs: Seq<Variable>| built_from(children, vs) && crate::variable_graph::classified(vs, b)
}

/// What an accepted document holds, given the pane nodes its tree declares.
pub open spec fn doc_facts(nodes: Seq<KNode>, ps: Seq<KNode>, file: DashboardFile) -> bool {
    let names = doc_names(nodes);
    &&& file.gap == setting_value(nodes, "gap"@, nodes.len() as int)
    &&& file.row_gap == setting_value(nodes, "row-gap"@, nodes.len() as int)
    &&& crate::variables::block_names(file.variables) == names
    &&& match setting_node(nodes, "title"@) {
        Some(k) => match title_outcome(nodes[k as int], names) {
            Ok((x, f)) => file.title matches Some(t) && title_built(nodes[k as int], x, f, t),
            Err(_) => false,
        },
        None => file.title is None,
    }
    &&& match setting_node(nodes, "defaults"@) {
        Some(k) => file.defaults.id is None && file.defaults.selectable is None && forall|key: PaneKey| #[trigger] key_declared(
            file.defaults,
            nodes[k as int],
            key,
            doc_shell(nodes),
        ),
        None => file.defaults.is_blank(),
    }
    &&& file.panes@.len() == ps.len()
    &&& forall|j: int| 0 <= j < ps.len() ==> pane_decl_ok(#[trigger] file.panes@[j], ps[j], doc_shell(nodes))
    &&& file.layout matches Some(items) && items_declared(nodes, cell_idx(nodes, nodes.len() as int), items@)
    &&& match setting_node(nodes, "variables"@) {
        Some(k) => nodes[k as int].children is Some && vars_declared(nodes[k as int].children->0@, file.variables),
        None => file.variables.vars@.len() == 0,
    }
}

/// What a successful walk of a document's nodes promises.
pub open spec fn walk_facts(nodes: Seq<KNode>, file: DashboardFile) -> bool {
    &&& file.layout is Some
    &&& file.layout->0@.len() == tree_count(nodes)
    &&& file.panes@.len() == tree_pane_count(nodes)
    &&& file.defaults.id is None
    &&& (file.title matches Some(t) ==> t.text is Some || t.reference is Some)
    &&& file.bindings@.len() == 0
}

/// Where the first pass found each setting, and the cells in order.
struct TopScan {
    tree: Vec<usize>,
    variables: Option<usize>,
    defaults: Option<usize>,
    title: Option<usize>,
    gap: Option<usize>,
    row_gap: Option<usize>,
}

proof fn lemma_top_names()
    ensures
        "row"@ != "gap"@,
        "layout"@ != "column"@,
        "variables"@.len() == 9,
        "title"@.len() == 5,
        "gap"@.len() == 3,
        "row-gap"@.len() == 7,
        "defaults"@.len() == 8,
        "pane"@.len() == 4,
        "row"@.len() == 3,
        "column"@.len() == 6,
        "layout"@.len() == 6,
{
    reveal_strlit("row");
    reveal_strlit("gap");
    reveal_strlit("layout");
    reveal_strlit("column");
    reveal_strlit("variables");
    reveal_strlit("title");
    reveal_strlit("row-gap");
    reveal_strlit("defaults");
    reveal_strlit("pane");
    assert("row"@[0] != "gap"@[0]);
    assert("layout"@[0] != "column"@[0]);
}

/// The first pass: each setting is met at most once and is one the
/// top level takes; the cells are noted for the second.
fn scan_top(nodes: &Vec<KNode>) -> (r: Result<TopScan, String>)
    ensures
        has_unknown_top_level(nodes@) ==> r is Err,
        match scan_outcome(nodes@, 0, seq![]) {
            Some(m) => r is Err && r->Err_0@ == m,
            None => r is Ok,
        },
        r is Ok ==> {
            let sc = r->Ok_0;
            &&& sc.tree@ == cell_idx(nodes@, nodes@.len() as int)
            &&& sc.variables == setting_node(nodes@, "variables"@)
            &&& sc.defaults == setting_node(nodes@, "defaults"@)
            &&& sc.title == setting_node(nodes@, "title"@)
            &&& sc.gap == setting_value(nodes@, "gap"@, nodes@.len() as int)
            &&& sc.row_gap == setting_value(nodes@, "row-gap"@, nodes@.len() as int)
            &&& forall|k: int| 0 <= k < sc.tree@.len() ==> (#[trigger] sc.tree@[k]) < nodes@.len() && is_cell_kind(
                nodes@[sc.tree@[k] as int].name@)
            &&& !has_unknown_top_level(nodes@)
        },
{
    let mut sc = TopScan { tree: Vec::new(), variables: None, defaults: None, title: None, gap: None, row_gap: None };
    let mut settings: Vec<String> = Vec::new();
    let mut i: usize = 0;
    assert(sc.tree@ =~= cell_idx(nodes@, 0));
    assert(crate::dashboard_file::name_views(settings@) =~= seq![]);
    proof {
        lemma_top_names();
    }
    while i < nodes.len()
        invariant
            i <= nodes@.len(),
            forall|k: int| 0 <= k < i ==> top_level_kind((#[trigger] nodes@[k]).name@),
            sc.tree@ == cell_idx(nodes@, i as int),
            forall|k: int| 0 <= k < sc.tree@.len() ==> (#[trigger] sc.tree@[k]) < i && is_cell_kind(
                nodes@[sc.tree@[k] as int].name@),
            sc.variables == last_named(nodes@, "variables"@, i as int),
            sc.defaults == last_named(nodes@, "defaults"@, i as int),
            sc.title == last_named(nodes@, "title"@, i as int),
            sc.gap == setting_value(nodes@, "gap"@, i as int),
            sc.row_gap == setting_value(nodes@, "row-gap"@, i as int),
            scan_outcome(nodes@, 0, seq![]) == scan_outcome(nodes@, i as int, crate::dashboard_file::name_views(settings@)),
            "row"@ != "gap"@,
            "layout"@ != "column"@,
            "variables"@.len() == 9,
            "title"@.len() == 5,
            "gap"@.len() == 3,
            "row-gap"@.len() == 7,
            "defaults"@.len() == 8,
            "pane"@.len() == 4,
            "row"@.len() == 3,
            "column"@.len() == 6,
            "layout"@.len() == 6,
        decreases nodes@.len() - i,
    {
        let node = &nodes[i];
        let v = chars_of(node.name.as_str());
        let is_cell = chars_eq(v.as_slice(), "pane") || chars_eq(v.as_slice(), "row") || chars_eq(v.as_slice(), "column");
        if is_cell {
            sc.tree.push(i);
            assert(sc.tree@ =~= cell_idx(nodes@, i + 1));
        } else if chars_eq(v.as_slice(), "variables") {
            match declared_once("variables", &mut settings) {
                Ok(()) => {},
                Err(e) => return Err(e),
            }
            sc.variables = Some(i);
        } else if chars_eq(v.as_slice(), "title") {
            match declared_once("title", &mut settings) {
                Ok(()) => {},
                Err(e) => return Err(e),
            }
            sc.title = Some(i);
        } else if chars_eq(v.as_slice(), "gap") {
            match declared_once("gap", &mut settings) {
                Ok(()) => {},
                Err(e) => return Err(e),
            }
            match usize_field(node, "gap") {
                Ok(g) => sc.gap = Some(g),
                Err(e) => return Err(e),
            }
        } else if chars_eq(v.as_slice(), "row-gap") {
            match declared_once("row-gap", &mut settings) {
                Ok(()) => {},
                Err(e) => return Err(e),
            }
            match usize_field(node, "row-gap") {
                Ok(g) => sc.row_gap = Some(g),
                Err(e) => return Err(e),
            }
        } else if chars_eq(v.as_slice(), "defaults") {
            match declared_once("defaults", &mut settings) {
                Ok(()) => {},
                Err(e) => return Err(e),
            }
            sc.defaults = Some(i);
        } else if chars_eq(v.as_slice(), "layout") {
            return Err(String::from_str("there is no `layout` block — a pane is declared inside the row or column that places it: write `row { pane \"log\" { … } pane \"branch\" { … } }`"));
        } else {
            let mut m = String::from_str("unknown node ");
            let q = debug_quote(node.name.as_str());
            m.append(q.as_str());
            m.append(" — a dashboard's top level takes title, gap, row-gap, variables, defaults, pane, row, or column");
            return Err(m);
        }
        proof {
            if !is_cell_kind(nodes@[i as int].name@) {
                assert(cell_idx(nodes@, i + 1) =~= cell_idx(nodes@, i as int));
            }
        }
        i = i + 1;
    }
    proof {
        assert(nodes@.take(nodes@.len() as int) =~= nodes@);
    }
    Ok(sc)
}

/// The `defaults` block: refused with an id or an annotation, else read
/// as a pane block; with it, whether the panes inherit a shell.
fn settle_defaults(node: &KNode, load: &Load) -> (r: Result<(PaneDecl, bool), String>)
    requires
        load.text@.len() < usize::MAX,
    ensures
        match defaults_refusal(*node) {
            Some(m) => r is Err && r->Err_0@ == m,
            None => match pane_outcome(*node, None, false, crate::variables::block_names(*load.vars)) {
                Err(Some(m)) => r is Err && r->Err_0@ == m,
                Err(None) => r is Err && load_refused(*load, r->Err_0@),
                Ok(_) => r is Ok,
            },
        },
        r is Ok ==> r->Ok_0.0.id is None && r->Ok_0.0.selectable is None && r->Ok_0.1 == block_shell_on(*node, None, false)
            && forall|k: PaneKey| #[trigger] key_declared(r->Ok_0.0, *node, k, block_shell_on(*node, None, false)),
{
    match refuse_annotation(&node.ty, "defaults", "defaults") {
        Ok(()) => {},
        Err(e) => return Err(e),
    }
    let values = positional(node);
    if values.len() > 0 {
        match stray_key(values.as_slice()) {
            Some(key) => return Err(stray_key_err("defaults", key, values.as_slice())),
            None => {},
        }
        match stray_setting(values.as_slice()) {
            Some(name) => return Err(stray_setting_err("defaults", name, values.as_slice())),
            None => {},
        }
        return Err(String::from_str("defaults takes no id — it holds the keys every pane inherits"));
    }
    let decl = match pane_block(node, None, false, load) {
        Ok(d) => d,
        Err(e) => return Err(e),
    };
    // The block was accepted, so its one `shell`, if any, is the one its
    // panes inherit.
    let shell_on = match peek_shell(node, "defaults") {
        Ok(Some(s)) => s.runs_a_shell(),
        _ => false,
    };
    Ok((decl, shell_on))
}

/// The second pass: each top-level cell, in order, lifting its panes.
fn lift_tree(nodes: &Vec<KNode>, tree: &Vec<usize>, default_shell: bool, load: &Load) -> (r: Result<
    (Vec<PaneDecl>, Vec<LayoutDecl>),
    String,
>)
    requires
        load.text@.len() < usize::MAX,
        tree@ == cell_idx(nodes@, nodes@.len() as int),
        forall|k: int| 0 <= k < tree@.len() ==> (#[trigger] tree@[k]) < nodes@.len() && is_cell_kind(
            nodes@[tree@[k] as int].name@),
    ensures
        match top_outcome(nodes@, tree@, 0, default_shell, crate::variables::block_names(*load.vars)) {
            Err(Some(m)) => r is Err && r->Err_0@ == m,
            Err(None) => r is Err && load_refused(*load, r->Err_0@),
            Ok(ps) => r is Ok && r->Ok_0.0@.len() == ps.len() && forall|j: int| 0 <= j < ps.len() ==> pane_decl_ok(
                #[trigger] r->Ok_0.0@[j],
                ps[j],
                default_shell,
            ),
        },
        r is Ok ==> r->Ok_0.1@.len() == tree_count(nodes@) && r->Ok_0.0@.len() == tree_pane_count(nodes@),
        r is Ok ==> items_declared(nodes@, tree@, r->Ok_0.1@),
{
    let ghost names = crate::variables::block_names(*load.vars);
    let ghost found: Seq<KNode> = Seq::empty();
    let mut panes: Vec<PaneDecl> = Vec::new();
    let mut items: Vec<LayoutDecl> = Vec::new();
    let mut t: usize = 0;
    let _n = nodes.len();
    proof {
        lemma_cell_idx(nodes@, nodes@.len() as int);
        assert(nodes@.take(nodes@.len() as int) =~= nodes@);
    }
    while t < tree.len()
        invariant
            t <= tree@.len(),
            load.text@.len() < usize::MAX,
            tree@ == cell_idx(nodes@, nodes@.len() as int),
            forall|k: int| 0 <= k < tree@.len() ==> (#[trigger] tree@[k]) < nodes@.len() && is_cell_kind(
                nodes@[tree@[k] as int].name@),
            items@.len() == t,
            tree@.len() <= nodes@.len(),
            names == crate::variables::block_names(*load.vars),
            panes@.len() == panes_at(nodes@, tree@.take(t as int)),
            top_outcome(nodes@, tree@, 0, default_shell, names) == prepend_nodes(
                found,
                top_outcome(nodes@, tree@, t as int, default_shell, names),
            ),
            panes@.len() == found.len(),
            forall|j: int| 0 <= j < found.len() ==> pane_decl_ok(#[trigger] panes@[j], found[j], default_shell),
            forall|u: int| 0 <= u < t ==> crate::dashboard_file::layout_view(#[trigger] items@[u])
                == crate::dashboard_file::norm_view(tree_view(nodes@[tree@[u] as int])),
        decreases tree@.len() - t,
    {
        let node = &nodes[tree[t]];
        let label = cell_label(None, node, t);
        let ghost before = panes@;
        let item = match inline_node(node, label.as_str(), default_shell, &mut panes, load) {
            Ok(d) => d,
            Err(e) => return Err(e),
        };
        proof {
            assert(tree@.take(t + 1).drop_last() =~= tree@.take(t as int));
            assert(tree@.take(t + 1).last() == tree@[t as int]);
            assert(crate::kdl_doc::opt_text(None) == None::<Seq<char>>);
            assert(label@ == cell_label_spec(None, node.name@, t as nat));
            let ps = tree_outcome(*node, label@, default_shell, names)->Ok_0;
            assert forall|j: int| 0 <= j < found.len() + ps.len() implies pane_decl_ok(
                #[trigger] panes@[j],
                (found + ps)[j],
                default_shell,
            ) by {
                if j < found.len() {
                    assert(panes@.subrange(0, before.len() as int)[j] == panes@[j]);
                } else {
                    let jj = j - found.len();
                    assert(panes@[before.len() + jj] == panes@[j]);
                }
            }
            let old_found = found;
            found = found + ps;
            match top_outcome(nodes@, tree@, t + 1, default_shell, names) {
                Ok(rest) => {
                    assert(old_found + (ps + rest) =~= (old_found + ps) + rest);
                },
                Err(e) => {},
            }
        }
        items.push(item.normalized());
        t = t + 1;
    }
    proof {
        assert(tree@.take(tree@.len() as int) =~= tree@);
        assert(found + Seq::<KNode>::empty() =~= found);
        reveal(items_declared);
    }
    Ok((panes, items))
}

/// What the walk over a document's nodes answers: the first refusal
/// the settings, the variables, the title, the defaults or the tree
/// meets, in that order, else the document they declare.
pub open spec fn walk_verdict(nodes: Seq<KNode>, text: Seq<char>, colored: bool, r: Result<DashboardFile, String>) -> bool {
    match scan_outcome(nodes, 0, seq![]) {
        Some(m) => r is Err && r->Err_0@ == m,
        None => match doc_vars_refusal(nodes) {
            Some(m) => r is Err && r->Err_0@ == m,
            None => if doc_graph_refused(nodes) {
                r is Err && exists|vs: Seq<Variable>| built_from(nodes[setting_node(nodes, "variables"@)->0 as int].children->0@, vs)
                    && crate::variable_graph::graph_refusal(vs, text, colored, r->Err_0@)
            } else {
                match settled_outcome(nodes) {
                    Err(Some(m)) => r is Err && r->Err_0@ == m,
                    Err(None) => r is Err && undeclared_refusal(text, colored, doc_names(nodes), r->Err_0@),
                    Ok(ps) => r is Ok && doc_facts(nodes, ps, r->Ok_0),
                }
            },
        },
    }
}

/// The walk over a parsed document: settings first, then the tree. A
/// pane is declared inside the `row` or `column` that places it.
#[verifier::rlimit(60)]
pub fn parse_nodes(nodes: &Vec<KNode>, text: &str, colored: bool) -> (r: Result<DashboardFile, String>)
    requires
        text@.len() < usize::MAX,
    ensures
        has_unknown_top_level(nodes@) ==> r is Err,
        r is Ok ==> walk_facts(nodes@, r->Ok_0),
        walk_verdict(nodes@, text@, colored, r),
{
    let sc = match scan_top(nodes) {
        Ok(sc) => sc,
        Err(e) => return Err(e),
    };
    let _n = nodes.len();
    proof {
        lemma_last_named(nodes@, "variables"@, nodes@.len() as int);
        lemma_last_named(nodes@, "title"@, nodes@.len() as int);
        lemma_last_named(nodes@, "defaults"@, nodes@.len() as int);
    }
    let mut file = DashboardFile::default();
    file.gap = sc.gap;
    file.row_gap = sc.row_gap;
    let variables = match sc.variables {
        Some(k) => match variables_block(&nodes[k], text, colored) {
            Ok(b) => b,
            Err(e) => {
                proof {
                    if vars_block_refusal(nodes@[k as int]) is None {
                        assert(setting_node(nodes@, "variables"@) == Some(k));
                        assert(nodes@[k as int].children is Some);
                        assert(!vars_graph_ok(nodes@[k as int].children->0@));
                        assert(doc_graph_refused(nodes@));
                        assert(exists|vs: Seq<Variable>| built_from(nodes@[k as int].children->0@, vs)
                            && crate::variable_graph::graph_refusal(vs, text@, colored, e@));
                        assert(scan_outcome(nodes@, 0, seq![]) is None);
                        assert(doc_vars_refusal(nodes@) is None);
                        let vs = choose|vs: Seq<Variable>| built_from(nodes@[k as int].children->0@, vs)
                            && crate::variable_graph::graph_refusal(vs, text@, colored, e@);
                        let kk = setting_node(nodes@, "variables"@)->0 as int;
                        assert(kk == k as int);
                        assert(built_from(nodes@[kk].children->0@, vs));
                        assert(Err::<DashboardFile, String>(e)->Err_0@ == e@);
                    } else {
                        assert(setting_node(nodes@, "variables"@) == Some(k));
                        assert(doc_vars_refusal(nodes@) == Some(e@));
                    }
                    assert(walk_verdict(nodes@, text@, colored, Err::<DashboardFile, String>(e)));
                }
                return Err(e);
            },
        },
        None => VariableBlock::new(Vec::new(), Vec::new()),
    };
    proof {
        assert(crate::variables::block_names(variables) =~= doc_names(nodes@));
    }
    let load = Load { text, colored, vars: &variables };
    match sc.title {
        Some(k) => match title_field(&nodes[k], &load) {
            Ok(t) => file.title = Some(t),
            Err(e) => return Err(e),
        },
        None => {},
    }
    let mut default_shell = false;
    match sc.defaults {
        Some(k) => match settle_defaults(&nodes[k], &load) {
            Ok((d, on)) => {
                file.defaults = d;
                default_shell = on;
            },
            Err(e) => return Err(e),
        },
        None => {},
    }
    assert(default_shell == doc_shell(nodes@));
    let (panes, items) = match lift_tree(nodes, &sc.tree, default_shell, &load) {
        Ok(p) => p,
        Err(e) => return Err(e),
    };
    file.variables = variables;
    file.panes = panes;
    file.layout = Some(items);
    Ok(file)
}

} // verus!

verus! {

/// What parsing a text answers: the placed syntax error when it is not
/// KDL, else the walk's verdict on its nodes.
pub open spec fn parse_verdict(text: Seq<char>, colored: bool, r: Result<DashboardFile, String>) -> bool {
    match crate::kdl_doc::kdl_document(text, colored) {
        Err(f) => r is Err && syntax_message(text, f, r->Err_0@),
        Ok(nodes) => (has_unknown_top_level(nodes) ==> r is Err) && (r is Ok ==> walk_facts(nodes, r->Ok_0))
            && walk_verdict(nodes, text, colored, r),
    }
}

/// Whether a walk accepts a document is decided by its nodes alone.
proof fn lemma_walk_ok(nodes: Seq<KNode>, text: Seq<char>, a: Result<DashboardFile, String>, b: Result<DashboardFile, String>)
    requires
        walk_verdict(nodes, text, true, a),
        walk_verdict(nodes, text, false, b),
    ensures
        a is Ok <==> b is Ok,
{
}

/// The color verdict styles only the error snippets: a text parses
/// under one theme exactly when it parses under the other.
pub proof fn law_color_styles_only_errors(text: Seq<char>, a: Result<DashboardFile, String>, b: Result<DashboardFile, String>)
    requires
        parse_verdict(text, true, a),
        parse_verdict(text, false, b),
    ensures
        a is Ok <==> b is Ok,
{
    if let Some(nodes) = crate::kdl_doc::kdl_nodes(text) {
        lemma_walk_ok(nodes, text, a, b);
    }
}

/// The document: settings, then the tree. `colored` styles the error
/// snippets for the caller's stream; the outcome is identical either way.
pub fn parse_styled(text: &str, colored: bool) -> (r: Result<DashboardFile, String>)
    requires
        text@.len() < usize::MAX,
    ensures
        crate::kdl_doc::kdl_document(text@, colored) is Err ==> r is Err,
        parse_verdict(text@, colored, r),
{
    match crate::kdl_doc::parse_kdl(text, colored) {
        Ok(nodes) => parse_nodes(&nodes, text, colored),
        Err(failure) => Err(syntax_error(text, &failure)),
    }
}

/// The plain-theme spelling of [`parse_styled`].
pub fn parse(text: &str) -> (r: Result<DashboardFile, String>)
    requires
        text@.len() < usize::MAX,
    ensures
        crate::kdl_doc::kdl_document(text@, false) is Err ==> r is Err,
        parse_verdict(text@, false, r),
{
    parse_styled(text, false)
}

} // verus!
