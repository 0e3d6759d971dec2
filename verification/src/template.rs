//! Strings an author writes, recorded with the `{{name}}` references
//! they hold. A normal KDL string interpolates; a raw one is literal
//! end to end and references nothing.
use vstd::prelude::*;
use vstd::string::*;

use crate::text::{chars_of, push_char, string_of};

verus! {

broadcast use vstd::string::group_string_axioms;

/// A char that may continue a reference name.
pub open spec fn is_name_char(c: char) -> bool {
    ('a' <= c && c <= 'z') || ('A' <= c && c <= 'Z') || ('0' <= c && c <= '9') || c == '_' || c == '-'
}

/// A char that may begin a reference name.
pub open spec fn is_name_start(c: char) -> bool {
    ('a' <= c && c <= 'z') || ('A' <= c && c <= 'Z') || c == '_'
}

/// The spelling a variable's name and a reference share: a letter or
/// `_`, then letters, digits, `_` or `-`.
pub open spec fn is_reference_name_spec(n: Seq<char>) -> bool {
    n.len() > 0 && is_name_start(n[0]) && forall|i: int| 0 <= i < n.len() ==> is_name_char(#[trigger] n[i])
}

/// The first index at or after `j` that does not continue a name.
pub open spec fn name_end(t: Seq<char>, j: int) -> int
    decreases t.len() - j,
{
    if j >= t.len() || j < 0 {
        j
    } else if is_name_char(t[j]) {
        name_end(t, j + 1)
    } else {
        j
    }
}

/// The reference that begins at `i`, if one does: its name and the
/// index just past its closing braces. `{{ name }}` (inner spaces) and
/// a jq-shaped `{{ }` are not references.
pub open spec fn ref_at(t: Seq<char>, i: int) -> Option<(Seq<char>, int)> {
    if 0 <= i && i + 1 < t.len() && t[i] == '{' && t[i + 1] == '{' {
        let j = name_end(t, i + 2);
        if j + 1 < t.len() && t[j] == '}' && t[j + 1] == '}' && is_reference_name_spec(t.subrange(i + 2, j)) {
            Some((t.subrange(i + 2, j), j + 2))
        } else {
            None
        }
    } else {
        None
    }
}

pub proof fn lemma_name_end_bounds(t: Seq<char>, j: int)
    requires
        0 <= j,
    ensures
        j <= name_end(t, j),
        j <= t.len() ==> name_end(t, j) <= t.len(),
        forall|k: int| j <= k < name_end(t, j) ==> is_name_char(#[trigger] t[k]),
    decreases t.len() - j,
{
    if j < t.len() && is_name_char(t[j]) {
        lemma_name_end_bounds(t, j + 1);
    }
}

/// Every reference in `t` from index `i` on, in order of appearance.
pub open spec fn refs_from(t: Seq<char>, i: int) -> Seq<Seq<char>>
    decreases t.len() - i,
{
    if i < 0 || i >= t.len() {
        seq![]
    } else {
        match ref_at(t, i) {
            Some((name, end)) => if end > i {
                seq![name] + refs_from(t, end)
            } else {
                seq![]
            },
            None => refs_from(t, i + 1),
        }
    }
}

pub open spec fn refs_spec(t: Seq<char>) -> Seq<Seq<char>> {
    refs_from(t, 0)
}

fn exec_is_name_char(c: char) -> (b: bool)
    ensures
        b == is_name_char(c),
{
    ('a' <= c && c <= 'z') || ('A' <= c && c <= 'Z') || ('0' <= c && c <= '9') || c == '_' || c == '-'
}

/// Whether `n` is spelled the way a reference name must be.
pub fn is_reference_name(n: &str) -> (b: bool)
    ensures
        b == is_reference_name_spec(n@),
{
    let v = chars_of(n);
    if v.len() == 0 {
        return false;
    }
    let c0 = v[0];
    if !(('a' <= c0 && c0 <= 'z') || ('A' <= c0 && c0 <= 'Z') || c0 == '_') {
        return false;
    }
    let mut i: usize = 0;
    while i < v.len()
        invariant
            i <= v@.len(),
            v@ == n@,
            forall|k: int| 0 <= k < i ==> is_name_char(#[trigger] v@[k]),
        decreases v@.len() - i,
    {
        if !exec_is_name_char(v[i]) {
            return false;
        }
        i = i + 1;
    }
    true
}

/// The reference beginning at char index `i` of `t`, if one does.
pub fn ref_at_chars(t: &[char], i: usize) -> (r: Option<(Vec<char>, usize)>)
    ensures
        match ref_at(t@, i as int) {
            Some((name, end)) => r is Some && (r->0).0@ == name && (r->0).1 as int == end,
            None => r is None,
        },
{
    if !(i < t.len() && i + 1 < t.len() && t[i] == '{' && t[i + 1] == '{') {
        return None;
    }
    let mut j: usize = i + 2;
    proof { lemma_name_end_bounds(t@, i + 2); }
    while j < t.len() && exec_is_name_char(t[j])
        invariant
            i + 2 <= j <= t@.len(),
            name_end(t@, i + 2) == name_end(t@, j as int),
        decreases t@.len() - j,
    {
        j = j + 1;
    }
    if !(j < t.len() - 1 && t[j] == '}' && t[j + 1] == '}') {
        return None;
    }
    let mut name: Vec<char> = Vec::new();
    let mut k: usize = i + 2;
    while k < j
        invariant
            i + 2 <= k <= j < t@.len(),
            name@ == t@.subrange(i + 2, k as int),
        decreases j - k,
    {
        name.push(t[k]);
        k = k + 1;
        assert(name@ =~= t@.subrange(i + 2, k as int));
    }
    // The name itself must be spelled like one.
    if name.len() == 0 {
        return None;
    }
    let c0 = name[0];
    if !(('a' <= c0 && c0 <= 'z') || ('A' <= c0 && c0 <= 'Z') || c0 == '_') {
        return None;
    }
    proof {
        lemma_name_end_bounds(t@, i + 2);
        assert forall|m: int| 0 <= m < name@.len() implies is_name_char(#[trigger] name@[m]) by {
            assert(name@[m] == t@[i + 2 + m]);
        }
    }
    Some((name, j + 2))
}

/// The reference beginning at the first char of `text`, if one does —
/// its name and where it ends (in chars).
pub fn reference_at(text: &str, i: usize) -> (r: Option<(String, usize)>)
    ensures
        match ref_at(text@, i as int) {
            Some((name, end)) => r is Some && (r->0).0@ == name && (r->0).1 as int == end,
            None => r is None,
        },
{
    let t = chars_of(text);
    match ref_at_chars(t.as_slice(), i) {
        Some((name, end)) => Some((string_of(name.as_slice()), end)),
        None => None,
    }
}

/// A string an author wrote, and the names it references.
///
/// A normal string interpolates `{{name}}`; a raw one does not, and so
/// references nothing.
#[derive(Clone, PartialEq, Eq, Debug)]
pub struct Template {
    pub text: String,
    pub refs: Vec<String>,
    pub interpolating: bool,
}

/// The names a list of strings holds, as char sequences.
pub open spec fn names_of(v: Seq<String>) -> Seq<Seq<char>> {
    v.map_values(|s: String| s@)
}

impl Template {
    /// Well-formed: the recorded references are exactly the ones the
    /// text holds under its flavor.
    pub open spec fn wf(&self) -> bool {
        names_of(self.refs@) == (if self.interpolating { refs_spec(self.text@) } else { seq![] })
    }

    pub open spec fn refs_view(&self) -> Seq<Seq<char>> {
        names_of(self.refs@)
    }

    /// A normal string: every `{{name}}` in it is a reference.
    pub fn extract(text: &str) -> (t: Template)
        ensures
            t.text@ == text@,
            t.interpolating,
            t.wf(),
    {
        let chars = chars_of(text);
        let mut refs: Vec<String> = Vec::new();
        let mut i: usize = 0;
        while i < chars.len()
            invariant
                i <= chars@.len(),
                chars@ == text@,
                names_of(refs@) + refs_from(chars@, i as int) == refs_spec(chars@),
            decreases chars@.len() - i,
        {
            match ref_at_chars(chars.as_slice(), i) {
                Some((name, end)) => {
                    proof {
                        lemma_name_end_bounds(chars@, i as int + 2);
                        assert(refs_from(chars@, i as int) == seq![name@] + refs_from(chars@, end as int));
                    }
                    let s = string_of(name.as_slice());
                    let ghost before = refs@;
                    refs.push(s);
                    proof {
                        assert(names_of(refs@) =~= names_of(before).push(name@));
                        assert(names_of(refs@) + refs_from(chars@, end as int)
                            =~= names_of(before) + refs_from(chars@, i as int));
                    }
                    i = end;
                },
                None => {
                    i = i + 1;
                },
            }
        }
        assert(names_of(refs@) =~= refs_spec(chars@));
        Template { text: String::from_str(text), refs, interpolating: true }
    }

    /// A raw string: literal end to end, referencing nothing.
    pub fn literal(text: &str) -> (t: Template)
        ensures
            t.text@ == text@,
            !t.interpolating,
            t.wf(),
    {
        let refs: Vec<String> = Vec::new();
        assert(names_of(refs@) =~= Seq::<Seq<char>>::empty());
        Template { text: String::from_str(text), refs, interpolating: false }
    }

    pub fn as_str(&self) -> (s: &str)
        ensures
            s@ == self.text@,
    {
        self.text.as_str()
    }

    pub fn refs(&self) -> (r: &[String])
        ensures
            r@ == self.refs@,
    {
        self.refs.as_slice()
    }

    /// Whether `{{name}}` means a reference in this string.
    pub fn interpolates(&self) -> (b: bool)
        ensures
            b == self.interpolating,
    {
        self.interpolating
    }

    /// The same record, field for field.
    pub fn duplicate(&self) -> (t: Template)
        ensures
            t.text == self.text,
            t.refs@ == self.refs@,
            t.interpolating == self.interpolating,
    {
        Template { text: self.text.clone(), refs: copy_strings(&self.refs), interpolating: self.interpolating }
    }
}

/// A copy of a list of strings, element for element.
pub fn copy_strings(v: &Vec<String>) -> (r: Vec<String>)
    ensures
        r@ == v@,
{
    let mut r: Vec<String> = Vec::new();
    let mut i: usize = 0;
    while i < v.len()
        invariant
            i <= v@.len(),
            r@ == v@.take(i as int),
        decreases v@.len() - i,
    {
        r.push(v[i].clone());
        i = i + 1;
        assert(r@ =~= v@.take(i as int));
    }
    assert(v@.take(v@.len() as int) =~= v@);
    r
}

} // verus!

verus! {

/// Every name's value, as the load (and each spawn) knows it.
#[derive(Clone, Debug, Default)]
pub struct Bindings {
    pub entries: Vec<(String, String)>,
}

/// The value a list of bindings gives `name`: the first entry naming it.
pub open spec fn lookup(entries: Seq<(String, String)>, name: Seq<char>) -> Option<Seq<char>>
    decreases entries.len(),
{
    if entries.len() == 0 {
        None
    } else if entries[0].0@ == name {
        Some(entries[0].1@)
    } else {
        lookup(entries.drop_first(), name)
    }
}

impl Bindings {
    pub open spec fn get_spec(&self, name: Seq<char>) -> Option<Seq<char>> {
        lookup(self.entries@, name)
    }

    /// No name has a value.
    pub fn new() -> (b: Bindings)
        ensures
            forall|n: Seq<char>| b.get_spec(n) is None,
    {
        Bindings { entries: Vec::new() }
    }

    /// The value of `name`, if it has one.
    pub fn get(&self, name: &str) -> (r: Option<&String>)
        ensures
            match self.get_spec(name@) {
                Some(v) => r is Some && r->0@ == v,
                None => r is None,
            },
    {
        let target = chars_of(name);
        let mut i: usize = 0;
        assert(self.entries@.subrange(0, self.entries@.len() as int) =~= self.entries@);
        while i < self.entries.len()
            invariant
                i <= self.entries@.len(),
                target@ == name@,
                lookup(self.entries@, name@) == lookup(self.entries@.subrange(i as int, self.entries@.len() as int), name@),
            decreases self.entries@.len() - i,
        {
            let here = chars_of(self.entries[i].0.as_str());
            let ghost rest = self.entries@.subrange(i as int, self.entries@.len() as int);
            assert(rest.drop_first() =~= self.entries@.subrange(i + 1, self.entries@.len() as int));
            if crate::text::chars_eq(here.as_slice(), name) {
                return Some(&self.entries[i].1);
            }
            i = i + 1;
        }
        None
    }

    /// `name` now has `value`; every other name keeps its own.
    pub fn insert(&mut self, name: String, value: String)
        ensures
            final(self).get_spec(name@) == Some(value@),
            forall|n: Seq<char>| n != name@ ==> final(self).get_spec(n) == old(self).get_spec(n),
    {
        let ghost old_entries = self.entries@;
        self.entries.insert(0, (name, value));
        proof {
            assert(self.entries@.drop_first() =~= old_entries);
        }
    }
}

/// A reference nothing gives a value to.
#[derive(Clone, PartialEq, Eq, Debug)]
pub struct MissingVariable {
    pub name: String,
}

/// Fill every reference from `i` on; the first reference without a
/// value stops the expansion and is named.
pub open spec fn expand_from(t: Seq<char>, i: int, b: Seq<(String, String)>) -> Result<Seq<char>, Seq<char>>
    decreases t.len() - i,
{
    if i < 0 || i >= t.len() {
        Ok(seq![])
    } else {
        match ref_at(t, i) {
            Some((name, end)) => if end > i {
                match lookup(b, name) {
                    Some(v) => match expand_from(t, end, b) {
                        Ok(rest) => Ok(v + rest),
                        Err(n) => Err(n),
                    },
                    None => Err(name),
                }
            } else {
                Ok(seq![])
            },
            None => match expand_from(t, i + 1, b) {
                Ok(rest) => Ok(seq![t[i]] + rest),
                Err(n) => Err(n),
            },
        }
    }
}

/// A template's text with its references filled.
pub open spec fn expand_spec(t: Template, b: Bindings) -> Result<Seq<char>, Seq<char>> {
    if t.interpolating { expand_from(t.text@, 0, b.entries@) } else { Ok(t.text@) }
}

pub open spec fn prefixed(acc: Seq<char>, r: Result<Seq<char>, Seq<char>>) -> Result<Seq<char>, Seq<char>> {
    match r {
        Ok(rest) => Ok(acc + rest),
        Err(n) => Err(n),
    }
}

impl Template {
    /// The text with every reference replaced by its value.
    pub fn expand(&self, bindings: &Bindings) -> (r: Result<String, MissingVariable>)
        ensures
            match expand_spec(*self, *bindings) {
                Ok(text) => r is Ok && r->Ok_0@ == text,
                Err(name) => r is Err && r->Err_0.name@ == name,
            },
    {
        if !self.interpolating {
            return Ok(self.text.clone());
        }
        let t = chars_of(self.text.as_str());
        let mut out = String::new();
        let mut i: usize = 0;
        while i < t.len()
            invariant
                i <= t@.len(),
                t@ == self.text@,
                self.interpolating,
                expand_from(t@, 0, bindings.entries@) == prefixed(out@, expand_from(t@, i as int, bindings.entries@)),
            decreases t@.len() - i,
        {
            match ref_at_chars(t.as_slice(), i) {
                Some((name, end)) => {
                    proof { lemma_name_end_bounds(t@, i as int + 2); }
                    let n = string_of(name.as_slice());
                    match bindings.get(n.as_str()) {
                        Some(v) => {
                            let ghost before = out@;
                            out.append(v.as_str());
                            proof {
                                match expand_from(t@, end as int, bindings.entries@) {
                                    Ok(rest) => { assert(before + (v@ + rest) =~= out@ + rest); },
                                    Err(_) => {},
                                }
                            }
                            i = end;
                        },
                        None => {
                            assert(expand_from(t@, i as int, bindings.entries@) == Err::<Seq<char>, Seq<char>>(name@));
                            return Err(MissingVariable { name: n });
                        },
                    }
                },
                None => {
                    let ghost before = out@;
                    push_char(&mut out, t[i]);
                    proof {
                        match expand_from(t@, i + 1, bindings.entries@) {
                            Ok(rest) => { assert(before + (seq![t@[i as int]] + rest) =~= out@ + rest); },
                            Err(_) => {},
                        }
                    }
                    i = i + 1;
                },
            }
        }
        assert(out@ + Seq::<char>::empty() =~= out@);
        Ok(out)
    }
}

} // verus!
