//! A board's `variables` block: every declared variable, where its
//! value comes from, and the tier at which it is known.
use vstd::prelude::*;
use vstd::string::*;

use crate::registry::ShellDecl;
use crate::template::{copy_strings, names_of, Template};
use crate::text::{chars_eq, chars_of, join_strings, joined, lemma_lex_total, lemma_lex_trans, lex_le, str_le};

verus! {

broadcast use vstd::string::group_string_axioms;

/// When a variable's value is known: once at load, or at each spawn.
#[derive(Copy, Clone, PartialEq, Eq, Debug, Structural)]
pub enum Tier {
    Load,
    Spawn,
}

impl Tier {
    /// The later of two tiers: a value that needs a per-spawn value is
    /// itself per-spawn.
    pub fn max(self, other: Tier) -> (t: Tier)
        ensures
            t == (if self is Spawn || other is Spawn { Tier::Spawn } else { Tier::Load }),
    {
        match (self, other) {
            (Tier::Load, Tier::Load) => Tier::Load,
            _ => Tier::Spawn,
        }
    }
}

/// Where a variable's value comes from.
#[derive(Clone, PartialEq, Eq, Debug)]
pub enum VarSource {
    /// The text itself.
    Constant,
    /// A command run once, when the board loads.
    LoadCommand(ShellDecl),
    /// A command re-run at every spawn that needs it (`defer=#true`).
    SpawnCommand(ShellDecl),
}

impl VarSource {
    pub open spec fn declared_tier_spec(&self) -> Tier {
        match self {
            VarSource::SpawnCommand(_) => Tier::Spawn,
            _ => Tier::Load,
        }
    }

    /// The tier the declaration alone asks for.
    pub fn declared_tier(&self) -> (t: Tier)
        ensures
            t == self.declared_tier_spec(),
    {
        match self {
            VarSource::SpawnCommand(_) => Tier::Spawn,
            _ => Tier::Load,
        }
    }

    /// The shell that runs a command variable.
    pub fn shell(&self) -> (s: Option<&ShellDecl>)
        ensures
            match self {
                VarSource::Constant => s is None,
                VarSource::LoadCommand(d) => s == Some(d),
                VarSource::SpawnCommand(d) => s == Some(d),
            },
    {
        match self {
            VarSource::Constant => None,
            VarSource::LoadCommand(d) => Some(d),
            VarSource::SpawnCommand(d) => Some(d),
        }
    }
}

/// One declared variable.
#[derive(Clone, PartialEq, Eq, Debug)]
pub struct Variable {
    pub name: String,
    pub source: VarSource,
    /// The value as written — a constant's bytes, or a command line.
    pub text: Template,
    /// The effective tier, after its references are classified.
    pub tier: Tier,
    /// Where the value is written in the document, in bytes.
    pub span_start: usize,
    pub span_end: usize,
}

impl Variable {
    /// The names this variable depends on: its text's references, then
    /// those of a templated shell name.
    pub open spec fn refs_spec(&self) -> Seq<Seq<char>> {
        names_of(self.text.refs@) + match self.source {
            VarSource::LoadCommand(d) => names_of(d.refs_spec()),
            VarSource::SpawnCommand(d) => names_of(d.refs_spec()),
            VarSource::Constant => seq![],
        }
    }

    pub fn refs(&self) -> (r: Vec<String>)
        ensures
            names_of(r@) == self.refs_spec(),
    {
        let mut r = copy_strings(&self.text.refs);
        let shell_refs: Vec<String> = match &self.source {
            VarSource::LoadCommand(d) => copy_strings_slice(d.refs()),
            VarSource::SpawnCommand(d) => copy_strings_slice(d.refs()),
            VarSource::Constant => Vec::new(),
        };
        let ghost a = r@;
        let mut i: usize = 0;
        while i < shell_refs.len()
            invariant
                i <= shell_refs@.len(),
                r@ == a + shell_refs@.take(i as int),
            decreases shell_refs@.len() - i,
        {
            r.push(shell_refs[i].clone());
            i = i + 1;
            assert(r@ =~= a + shell_refs@.take(i as int));
        }
        assert(shell_refs@.take(shell_refs@.len() as int) =~= shell_refs@);
        assert(names_of(r@) =~= names_of(a) + names_of(shell_refs@));
        r
    }
}

/// A copy of a slice of strings.
pub fn copy_strings_slice(v: &[String]) -> (r: Vec<String>)
    ensures
        r@ == v@,
{
    let mut r: Vec<String> = Vec::new();
    let mut i: usize = 0;
    while i < v.len()
        invariant
            i <= v@.len(),
            r@ == v@.take(i as int),
        decreases v@.len() - i,
    {
        r.push(v[i].clone());
        i = i + 1;
        assert(r@ =~= v@.take(i as int));
    }
    assert(v@.take(v@.len() as int) =~= v@);
    r
}

/// Every pair in order.
pub open spec fn sorted_seq(s: Seq<Seq<char>>) -> bool {
    forall|i: int, j: int| 0 <= i < j < s.len() ==> lex_le(s[i], s[j])
}

/// The declared names, in declaration order.
pub open spec fn var_names(vars: Seq<Variable>) -> Seq<Seq<char>> {
    vars.map_values(|v: Variable| v.name@)
}

/// The first variable named `name`, by position.
pub open spec fn position_of(vars: Seq<Variable>, name: Seq<char>, i: int) -> Option<int>
    decreases vars.len() - i,
{
    if i < 0 || i >= vars.len() {
        None
    } else if vars[i].name@ == name {
        Some(i)
    } else {
        position_of(vars, name, i + 1)
    }
}

/// Every declared variable, in declaration order, and the order in
/// which they can be derived — each after everything it references.
#[derive(Clone, PartialEq, Debug, Default)]
pub struct VariableBlock {
    pub vars: Vec<Variable>,
    pub order: Vec<usize>,
}

impl VariableBlock {
    pub fn new(vars: Vec<Variable>, order: Vec<usize>) -> (b: VariableBlock)
        ensures
            b.vars@ == vars@,
            b.order@ == order@,
    {
        VariableBlock { vars, order }
    }

    pub fn is_empty(&self) -> (b: bool)
        ensures
            b == (self.vars@.len() == 0),
    {
        self.vars.len() == 0
    }

    /// The position of the variable named `name`.
    pub fn position(&self, name: &str) -> (r: Option<usize>)
        ensures
            r is Some ==> position_of(self.vars@, name@, 0) == Some(r->0 as int),
            r is None ==> position_of(self.vars@, name@, 0) is None,
    {
        let mut i: usize = 0;
        while i < self.vars.len()
            invariant
                i <= self.vars@.len(),
                position_of(self.vars@, name@, 0) == position_of(self.vars@, name@, i as int),
            decreases self.vars@.len() - i,
        {
            let here = chars_of(self.vars[i].name.as_str());
            if chars_eq(here.as_slice(), name) {
                return Some(i);
            }
            i = i + 1;
        }
        None
    }

    pub fn contains(&self, name: &str) -> (b: bool)
        ensures
            b == (position_of(self.vars@, name@, 0) is Some),
    {
        self.position(name).is_some()
    }

    pub fn get(&self, name: &str) -> (r: Option<&Variable>)
        ensures
            match position_of(self.vars@, name@, 0) {
                Some(i) => r == Some(&self.vars@[i]),
                None => r is None,
            },
    {
        match self.position(name) {
            Some(i) => {
                proof { lemma_position_in_range(self.vars@, name@, 0); }
                Some(&self.vars[i])
            },
            None => None,
        }
    }

    /// The effective tier of the variable named `name`.
    pub fn tier(&self, name: &str) -> (r: Option<Tier>)
        ensures
            match position_of(self.vars@, name@, 0) {
                Some(i) => r == Some(self.vars@[i].tier),
                None => r is None,
            },
    {
        match self.get(name) {
            Some(v) => Some(v.tier),
            None => None,
        }
    }

    /// Every declared name, sorted.
    pub fn sorted_names(&self) -> (r: Vec<String>)
        ensures
            sorted_seq(names_of(r@)),
            names_of(r@).to_multiset() == var_names(self.vars@).to_multiset(),
    {
        let mut out: Vec<String> = Vec::new();
        let mut i: usize = 0;
        assert(names_of(out@) =~= var_names(self.vars@.take(0)));
        while i < self.vars.len()
            invariant
                i <= self.vars@.len(),
                sorted_seq(names_of(out@)),
                names_of(out@).to_multiset() == var_names(self.vars@.take(i as int)).to_multiset(),
            decreases self.vars@.len() - i,
        {
            let name = self.vars[i].name.clone();
            let mut p: usize = 0;
            while p < out.len() && str_le(out[p].as_str(), name.as_str())
                invariant
                    p <= out@.len(),
                    forall|k: int| 0 <= k < p ==> lex_le(#[trigger] out@[k]@, name@),
                decreases out@.len() - p,
            {
                p = p + 1;
            }
            let ghost before = names_of(out@);
            proof {
                if p < out@.len() {
                    lemma_lex_total(out@[p as int]@, name@);
                    assert forall|q: int| p <= q < before.len() implies lex_le(name@, before[q]) by {
                        if q > p {
                            lemma_lex_trans(name@, before[p as int], before[q]);
                        }
                    }
                }
            }
            out.insert(p, name);
            proof {
                assert(names_of(out@) =~= before.insert(p as int, name@));
                assert(var_names(self.vars@.take(i + 1)) =~= var_names(self.vars@.take(i as int)).push(
                    self.vars@[i as int].name@));
                vstd::seq_lib::to_multiset_insert(before, p as int, name@);
                vstd::seq_lib::to_multiset_build(var_names(self.vars@.take(i as int)), name@);
                let now = names_of(out@);
                assert forall|a: int, b: int| 0 <= a < b < now.len() implies lex_le(now[a], now[b]) by {
                    if b == p {
                    } else if a == p {
                    } else if a < p && b > p {
                        lemma_lex_trans(now[a], name@, now[b]);
                    }
                }
            }
            i = i + 1;
        }
        assert(self.vars@.take(self.vars@.len() as int) =~= self.vars@);
        out
    }

    /// The declared names, sorted and comma-separated — the breadcrumb
    /// an unknown-variable error shows.
    pub fn declared_list(&self) -> (r: String)
        ensures
            exists|s: Seq<Seq<char>>|
                sorted_seq(s) && s.to_multiset() == var_names(self.vars@).to_multiset() && r@ == joined(s, ", "@),
    {
        let names = self.sorted_names();
        let r = join_strings(names.as_slice(), ", ");
        assert(names@.map_values(|s: String| s@) =~= names_of(names@));
        r
    }

    /// The variables in derivation order.
    pub fn in_order(&self) -> (r: Vec<&Variable>)
        requires
            self.orders_declared(),
        ensures
            r@.len() == self.order@.len(),
            forall|k: int| 0 <= k < r@.len() ==> *r@[k] == self.vars@[self.order@[k] as int],
    {
        let mut r: Vec<&Variable> = Vec::new();
        let mut k: usize = 0;
        while k < self.order.len()
            invariant
                k <= self.order@.len(),
                self.orders_declared(),
                r@.len() == k,
                forall|j: int| 0 <= j < k ==> *r@[j] == self.vars@[self.order@[j] as int],
            decreases self.order@.len() - k,
        {
            let i = self.order[k];
            r.push(&self.vars[i]);
            k = k + 1;
        }
        r
    }

    /// Every entry of `order` is the position of a declared variable.
    pub open spec fn orders_declared(&self) -> bool {
        forall|k: int| 0 <= k < self.order@.len() ==> self.order@[k] < self.vars@.len()
    }
}

pub proof fn lemma_position_in_range(vars: Seq<Variable>, name: Seq<char>, i: int)
    requires
        0 <= i,
    ensures
        position_of(vars, name, i) is Some ==> i <= position_of(vars, name, i)->0 < vars.len()
            && vars[position_of(vars, name, i)->0].name@ == name,
    decreases vars.len() - i,
{
    if i < vars.len() && vars[i].name@ != name {
        lemma_position_in_range(vars, name, i + 1);
    }
}

/// No variable from `i` on has the name when the search finds none.
pub proof fn lemma_position_absent(vars: Seq<Variable>, name: Seq<char>, i: int)
    requires
        0 <= i,
        position_of(vars, name, i) is None,
    ensures
        forall|k: int| i <= k < vars.len() ==> (#[trigger] vars[k]).name@ != name,
    decreases vars.len() - i,
{
    if i < vars.len() {
        lemma_position_absent(vars, name, i + 1);
    }
}

/// The declared names of a block, in declaration order.
pub open spec fn block_names(b: VariableBlock) -> Seq<Seq<char>> {
    var_names(b.vars@)
}

proof fn lemma_position_from(vs: Seq<Variable>, n: Seq<char>, i: int)
    requires
        0 <= i <= vs.len(),
    ensures
        position_of(vs, n, i) is Some <==> exists|j: int| i <= j < vs.len() && (#[trigger] vs[j]).name@ == n,
    decreases vs.len() - i,
{
    if i < vs.len() {
        lemma_position_from(vs, n, i + 1);
        if vs[i].name@ != n {
            assert forall|j: int| i <= j < vs.len() && (#[trigger] vs[j]).name@ == n implies i + 1 <= j by {}
        }
    }
}

/// A name has a position exactly when it is among the names.
pub proof fn lemma_declared_iff(vs: Seq<Variable>, n: Seq<char>)
    ensures
        position_of(vs, n, 0) is Some <==> var_names(vs).contains(n),
{
    lemma_position_from(vs, n, 0);
    if var_names(vs).contains(n) {
        let j = choose|j: int| 0 <= j < var_names(vs).len() && var_names(vs)[j] == n;
        assert(vs[j].name@ == n);
    }
    if position_of(vs, n, 0) is Some {
        let j = choose|j: int| 0 <= j < vs.len() && (#[trigger] vs[j]).name@ == n;
        assert(var_names(vs)[j] == n);
    }
}

} // verus!
