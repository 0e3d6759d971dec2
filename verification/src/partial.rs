//! What can be known of the variables without running anything: a
//! constant, a chain of constants and an override are known; a command,
//! and anything that references one, is opaque. A string expands
//! exactly when every name it references is known.

use vstd::prelude::*;
use vstd::string::*;

use crate::template::{lemma_name_end_bounds, ref_at, ref_at_chars, Bindings, Template};
use crate::text::{chars_of, push_char, string_of};
use crate::variables::{Tier, VarSource, VariableBlock};

verus! {

/// A variable as far as it can be known without running anything.
pub enum Resolved {
    Known(String),
    Opaque,
}

pub open spec fn resolved_view(r: Resolved) -> Option<Seq<char>> {
    match r {
        Resolved::Known(s) => Some(s@),
        Resolved::Opaque => None,
    }
}

/// Every declared variable, known or opaque, in dependency order.
pub struct Partial {
    pub entries: Vec<(String, Resolved)>,
}

/// What the first entry naming `name` holds: `Some(Some(v))` known,
/// `Some(None)` opaque, `None` absent.
pub open spec fn plookup(entries: Seq<(String, Resolved)>, name: Seq<char>) -> Option<Option<Seq<char>>>
    decreases entries.len(),
{
    if entries.len() == 0 {
        None
    } else if entries[0].0@ == name {
        Some(resolved_view(entries[0].1))
    } else {
        plookup(entries.drop_first(), name)
    }
}

impl Partial {
    /// What is known of `name`.
    pub fn get(&self, name: &str) -> (r: Option<&Resolved>)
        ensures
            match plookup(self.entries@, name@) {
                Some(v) => r is Some && resolved_view(*r->0) == v,
                None => r is None,
            },
    {
        let mut i: usize = 0;
        assert(self.entries@.subrange(0, self.entries@.len() as int) =~= self.entries@);
        while i < self.entries.len()
            invariant
                i <= self.entries@.len(),
                plookup(self.entries@, name@) == plookup(self.entries@.subrange(i as int, self.entries@.len() as int), name@),
            decreases self.entries@.len() - i,
        {
            let here = chars_of(self.entries[i].0.as_str());
            let ghost rest = self.entries@.subrange(i as int, self.entries@.len() as int);
            assert(rest.drop_first() =~= self.entries@.subrange(i + 1, self.entries@.len() as int));
            if crate::text::chars_eq(here.as_slice(), name) {
                return Some(&self.entries[i].1);
            }
            i = i + 1;
        }
        None
    }
}

/// A string as far as it can be expanded: its exact bytes, or the
/// references that kept it from them.
pub enum Expanded {
    Known(String),
    Skipped(Vec<String>),
}

/// The expansion of `t` from `i` on: the text with every known
/// reference filled, and the references that are not known, in order.
pub open spec fn pexpand_from(t: Seq<char>, i: int, e: Seq<(String, Resolved)>) -> (Seq<char>, Seq<Seq<char>>)
    decreases t.len() - i,
{
    if i < 0 || i >= t.len() {
        (seq![], seq![])
    } else {
        match ref_at(t, i) {
            Some((name, end)) => if end > i {
                let (rest, blocked) = pexpand_from(t, end, e);
                match plookup(e, name) {
                    Some(Some(v)) => (v + rest, blocked),
                    _ => (rest, seq![name] + blocked),
                }
            } else {
                (seq![], seq![])
            },
            None => {
                let (rest, blocked) = pexpand_from(t, i + 1, e);
                (seq![t[i]] + rest, blocked)
            },
        }
    }
}

/// A template expanded as far as `p` knows: `Ok` with its exact bytes
/// when every reference is known (a raw string always is), else `Err`
/// with the references that blocked it.
pub open spec fn expand_partial_spec(t: Template, e: Seq<(String, Resolved)>) -> Result<Seq<char>, Seq<Seq<char>>> {
    if !t.interpolating {
        Ok(t.text@)
    } else {
        let (text, blocked) = pexpand_from(t.text@, 0, e);
        if blocked.len() == 0 { Ok(text) } else { Err(blocked) }
    }
}

pub open spec fn names_view(v: Seq<String>) -> Seq<Seq<char>> {
    v.map_values(|s: String| s@)
}

/// Expand a template as far as the partial values allow.
pub fn expand_partial(t: &Template, p: &Partial) -> (r: Expanded)
    ensures
        match expand_partial_spec(*t, p.entries@) {
            Ok(text) => r is Known && r->Known_0@ == text,
            Err(blocked) => r is Skipped && names_view(r->Skipped_0@) == blocked,
        },
{
    if !t.interpolating {
        return Expanded::Known(t.text.clone());
    }
    let cs = chars_of(t.text.as_str());
    let mut out = String::new();
    let mut blocked: Vec<String> = Vec::new();
    let mut i: usize = 0;
    while i < cs.len()
        invariant
            i <= cs@.len(),
            cs@ == t.text@,
            pexpand_from(cs@, 0, p.entries@) == ({
                let (x, y) = pexpand_from(cs@, i as int, p.entries@);
                (out@ + x, names_view(blocked@) + y)
            }),
        decreases cs@.len() - i,
    {
        match ref_at_chars(cs.as_slice(), i) {
            Some((name, end)) => {
                proof { lemma_name_end_bounds(cs@, i as int + 2); }
                let n = string_of(name.as_slice());
                let ghost (rest, bl) = pexpand_from(cs@, end as int, p.entries@);
                match p.get(n.as_str()) {
                    Some(Resolved::Known(v)) => {
                        let ghost before = out@;
                        out.append(v.as_str());
                        assert(before + (v@ + rest) =~= out@ + rest);
                    },
                    _ => {
                        let ghost before = blocked@;
                        blocked.push(n);
                        assert(names_view(blocked@) =~= names_view(before).push(name@));
                        assert(names_view(before) + (seq![name@] + bl) =~= names_view(blocked@) + bl);
                    },
                }
                i = end;
            },
            None => {
                let ghost before = out@;
                push_char(&mut out, cs[i]);
                let ghost (rest, bl) = pexpand_from(cs@, i + 1, p.entries@);
                assert(before + (seq![cs@[i as int]] + rest) =~= out@ + rest);
                i = i + 1;
            },
        }
    }
    assert(out@ + Seq::<char>::empty() =~= out@);
    assert(names_view(blocked@) + Seq::<Seq<char>>::empty() =~= names_view(blocked@));
    if blocked.len() == 0 {
        Expanded::Known(out)
    } else {
        Expanded::Skipped(blocked)
    }
}

/// What is known of one variable, given what is known of those before
/// it: an override's value; nothing of a command or a deferred one;
/// a constant's text expanded, when everything it references is known.
pub open spec fn known_value(block: VariableBlock, overrides: Bindings, i: int, before: Seq<(String, Resolved)>) -> Option<Seq<char>> {
    let v = block.vars@[i];
    match overrides.get_spec(v.name@) {
        Some(o) => Some(o),
        None => if v.tier is Spawn || !(v.source is Constant) {
            None
        } else {
            match expand_partial_spec(v.text, before) {
                Ok(x) => Some(x),
                Err(_) => None,
            }
        },
    }
}

/// Every variable, in the block's dependency order, as far as it can be
/// known without running anything. `-v` overrides are known, and so is
/// everything downstream of them.
pub fn resolve_partial(block: &VariableBlock, overrides: &Bindings) -> (p: Partial)
    requires
        block.orders_declared(),
    ensures
        p.entries@.len() == block.order@.len(),
        forall|k: int| 0 <= k < p.entries@.len() ==> {
            &&& (#[trigger] p.entries@[k]).0@ == block.vars@[block.order@[k] as int].name@
            &&& resolved_view(p.entries@[k].1) == known_value(
                *block,
                *overrides,
                block.order@[k] as int,
                p.entries@.take(k),
            )
        },
{
    let mut p = Partial { entries: Vec::new() };
    let mut k: usize = 0;
    while k < block.order.len()
        invariant
            block.orders_declared(),
            k <= block.order@.len(),
            p.entries@.len() == k,
            forall|j: int| 0 <= j < k ==> (#[trigger] p.entries@[j]).0@ == block.vars@[block.order@[j] as int].name@,
            forall|j: int| 0 <= j < k ==> resolved_view((#[trigger] p.entries@[j]).1) == known_value(
                *block,
                *overrides,
                block.order@[j] as int,
                p.entries@.take(j),
            ),
        decreases block.order@.len() - k,
    {
        let i = block.order[k];
        let var = &block.vars[i];
        let value = match overrides.get(var.name.as_str()) {
            Some(o) => Resolved::Known(o.clone()),
            None => {
                let constant = match (&var.tier, &var.source) {
                    (Tier::Load, VarSource::Constant) => true,
                    _ => false,
                };
                if constant {
                    match expand_partial(&var.text, &p) {
                        Expanded::Known(x) => Resolved::Known(x),
                        Expanded::Skipped(_) => Resolved::Opaque,
                    }
                } else {
                    Resolved::Opaque
                }
            },
        };
        let ghost before = p.entries@;
        assert(before.take(k as int) =~= before);
        p.entries.push((var.name.clone(), value));
        assert forall|j: int| 0 <= j <= k implies #[trigger] p.entries@.take(j) == before.take(j) || j == k by {
            if j < k {
                assert(p.entries@.take(j) =~= before.take(j));
            }
        }
        assert(p.entries@.take(k as int) =~= before);
        k = k + 1;
    }
    p
}

} // verus!
