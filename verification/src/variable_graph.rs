//! The `variables` block as a graph: every reference an edge, cycles
//! refused by name path, variables ordered dependencies-first, and
//! every effective tier classified — one post-order walk.
use vstd::prelude::*;
use vstd::string::*;

use crate::dashboard_kdl::{placed_error, placed_error_spec, unknown_help, unknown_variable_err};
use crate::template::names_of;
use crate::text::{joined, chars_of, chars_eq};
use crate::variables::{position_of, var_names, Tier, VarSource, Variable, VariableBlock};

verus! {

broadcast use vstd::string::group_string_axioms;

/// The position of the variable named `name`, by a linear scan.
pub fn position_in(vars: &Vec<Variable>, name: &str) -> (r: Option<usize>)
    ensures
        r is Some ==> position_of(vars@, name@, 0) == Some(r->0 as int) && r->0 < vars@.len(),
        r is None ==> position_of(vars@, name@, 0) is None,
{
    let mut i: usize = 0;
    while i < vars.len()
        invariant
            i <= vars@.len(),
            position_of(vars@, name@, 0) == position_of(vars@, name@, i as int),
        decreases vars@.len() - i,
    {
        let v = chars_of(vars[i].name.as_str());
        if chars_eq(v.as_slice(), name) {
            return Some(i);
        }
        i = i + 1;
    }
    None
}

/// Sum of a sequence of integers.
pub open spec fn sum_of(s: Seq<int>) -> int
    decreases s.len(),
{
    if s.len() == 0 { 0 } else { sum_of(s.drop_last()) + s.last() }
}

proof fn lemma_sum_update(s: Seq<int>, i: int, x: int)
    requires
        0 <= i < s.len(),
    ensures
        sum_of(s.update(i, x)) == sum_of(s) - s[i] + x,
    decreases s.len(),
{
    if i < s.len() - 1 {
        lemma_sum_update(s.drop_last(), i, x);
        assert(s.update(i, x).drop_last() =~= s.drop_last().update(i, x));
    } else {
        assert(s.update(i, x).drop_last() =~= s.drop_last());
    }
}

proof fn lemma_sum_nonneg(s: Seq<int>)
    requires
        forall|i: int| 0 <= i < s.len() ==> s[i] >= 0,
    ensures
        sum_of(s) >= 0,
    decreases s.len(),
{
    if s.len() > 0 {
        lemma_sum_nonneg(s.drop_last());
    }
}

/// How many marks are not yet finished.
pub open spec fn open_count(m: Seq<u8>) -> int
    decreases m.len(),
{
    if m.len() == 0 { 0 } else { open_count(m.drop_last()) + (if m.last() == 2 { 0int } else { 1int }) }
}

proof fn lemma_open_update(m: Seq<u8>, i: int, x: u8)
    requires
        0 <= i < m.len(),
    ensures
        open_count(m.update(i, x)) == open_count(m) - (if m[i] == 2 { 0int } else { 1int }) + (if x == 2 { 0int } else {
            1int
        }),
    decreases m.len(),
{
    if i < m.len() - 1 {
        lemma_open_update(m.drop_last(), i, x);
        assert(m.update(i, x).drop_last() =~= m.drop_last().update(i, x));
    } else {
        assert(m.update(i, x).drop_last() =~= m.drop_last());
    }
}

proof fn lemma_open_nonneg(m: Seq<u8>)
    ensures
        open_count(m) >= 0,
    decreases m.len(),
{
    if m.len() > 0 {
        lemma_open_nonneg(m.drop_last());
    }
}

/// The length of a variable's declaration span, in bytes.
pub open spec fn span_len(v: Variable) -> usize {
    if v.span_start <= v.span_end { (v.span_end - v.span_start) as usize } else { 0 }
}

/// `e` is `message` placed at variable `v`'s declaration, with `help`.
pub open spec fn placed_at_var(vars: Seq<Variable>, text: Seq<char>, colored: bool, e: Seq<char>, v: int, message: Seq<char>, help: Seq<char>) -> bool {
    e == placed_error_spec(text, vars[v].span_start, span_len(vars[v]), message, Some(help), colored)
}

/// Reference `k` of variable `v` is the first, in declaration order,
/// that names no variable.
pub open spec fn first_unknown_at(vars: Seq<Variable>, v: int, k: int) -> bool {
    &&& 0 <= v < vars.len()
    &&& 0 <= k < vars[v].refs_spec().len()
    &&& position_of(vars, vars[v].refs_spec()[k], 0) is None
    &&& forall|a: int, j: int| 0 <= a < v && 0 <= j < vars[a].refs_spec().len() ==> position_of(vars,
        #[trigger] vars[a].refs_spec()[j], 0) is Some
    &&& forall|j: int| 0 <= j < k ==> position_of(vars, #[trigger] vars[v].refs_spec()[j], 0) is Some
}

/// The refusal of the first undeclared reference: placed at its
/// variable, with the declared names as help.
pub open spec fn unknown_refusal(vars: Seq<Variable>, text: Seq<char>, colored: bool, e: Seq<char>) -> bool {
    exists|v: int, k: int, h: Seq<char>| #![trigger first_unknown_at(vars, v, k), placed_at_var(vars, text, colored, e, v,
        "unknown variable `"@ + vars[v].refs_spec()[k] + "`"@, h)] first_unknown_at(vars, v, k) && placed_at_var(vars, text, colored, e, v,
        "unknown variable `"@ + vars[v].refs_spec()[k] + "`"@, h) && (exists|b: VariableBlock| var_names(b.vars@) == var_names(vars) && #[trigger] unknown_help(b, h))
}

/// `idx` walks the references from a variable back to itself.
pub open spec fn cycle_walk(vars: Seq<Variable>, idx: Seq<int>) -> bool {
    &&& idx.len() >= 2
    &&& idx[0] == idx.last()
    &&& forall|j: int| 0 <= j < idx.len() ==> 0 <= #[trigger] idx[j] < vars.len()
    &&& forall|j: int| 0 <= j < idx.len() - 1 ==> #[trigger] refd(vars, idx[j], idx[j + 1])
}

pub open spec fn walk_names(vars: Seq<Variable>, idx: Seq<int>) -> Seq<Seq<char>> {
    idx.map_values(|i: int| vars[i].name@)
}

pub open spec fn cycle_help() -> Seq<char> {
    "a variable cannot derive from itself, however many hops away"@
}

/// A cycle, every hop named, placed at the variable it closes on.
pub open spec fn cycle_refusal(vars: Seq<Variable>, text: Seq<char>, colored: bool, e: Seq<char>) -> bool {
    exists|idx: Seq<int>| #[trigger] cycle_walk(vars, idx) && placed_at_var(vars, text, colored, e, idx[0], cycle_text(
        walk_names(vars, idx),
    ), cycle_help())
}

pub open spec fn tier_help(who: Seq<char>, referent: Seq<char>) -> Seq<char> {
    "add `defer=#true` to `"@ + who + "`, or drop it from `"@ + referent + "`"@
}

/// A load-time declaration `a` that references `w`.
pub open spec fn tier_clash(vars: Seq<Variable>, a: int, w: int) -> bool {
    0 <= a < vars.len() && 0 <= w < vars.len() && vars[a].source.declared_tier_spec() is Load && refd(vars, a, w)
}

/// A load-time variable that references a deferred one, placed at it.
pub open spec fn tier_refusal(vars: Seq<Variable>, text: Seq<char>, colored: bool, e: Seq<char>) -> bool {
    exists|a: int, w: int| #[trigger] tier_clash(vars, a, w) && placed_at_var(vars, text, colored, e, a, tier_violation_text(
        vars[a].name@,
        vars[w].name@,
    ), tier_help(vars[a].name@, vars[w].name@))
}

/// Why the graph check refused: the first undeclared reference when
/// there is one; else a cycle, or a load-time variable referencing a
/// deferred one.
pub open spec fn graph_refusal(vars: Seq<Variable>, text: Seq<char>, colored: bool, e: Seq<char>) -> bool {
    if !all_refs_declared(vars) {
        unknown_refusal(vars, text, colored, e)
    } else {
        cycle_refusal(vars, text, colored, e) || tier_refusal(vars, text, colored, e)
    }
}

pub open spec fn cycle_text(path: Seq<Seq<char>>) -> Seq<char> {
    "variable cycle: "@ + joined(path.map_values(|n: Seq<char>| "`"@ + n + "`"@), " → "@)
}

/// A cycle, placed at the variable it closes on, with every hop named.
pub fn cycle_err(text: &str, start: usize, len: usize, path: &Vec<String>, colored: bool) -> (e: String)
    requires
        text@.len() < usize::MAX,
    ensures
        e@ == placed_error_spec(text@, start, len, cycle_text(names_of(path@)), Some(
            "a variable cannot derive from itself, however many hops away"@), colored),
{
    let mut quoted: Vec<String> = Vec::new();
    let mut i: usize = 0;
    while i < path.len()
        invariant
            i <= path@.len(),
            quoted@.len() == i,
            forall|k: int| 0 <= k < i ==> (#[trigger] quoted@[k])@ == "`"@ + path@[k]@ + "`"@,
        decreases path@.len() - i,
    {
        let mut q = String::from_str("`");
        q.append(path[i].as_str());
        q.append("`");
        quoted.push(q);
        i = i + 1;
    }
    let mut message = String::from_str("variable cycle: ");
    let hops = crate::text::join_strings(quoted.as_slice(), " → ");
    message.append(hops.as_str());
    proof {
        assert(quoted@.map_values(|s: String| s@) =~= names_of(path@).map_values(|n: Seq<char>| "`"@ + n + "`"@));
    }
    placed_error(text, start, len, message.as_str(), Some("a variable cannot derive from itself, however many hops away"), colored)
}

pub open spec fn tier_violation_text(who: Seq<char>, referent: Seq<char>) -> Seq<char> {
    "`"@ + who + "` is not deferred but references `"@ + referent + "`, which is"@
}

/// A load-time variable that references a deferred one.
pub fn tier_violation_err(text: &str, start: usize, len: usize, who: &str, referent: &str, colored: bool) -> (e: String)
    requires
        text@.len() < usize::MAX,
    ensures
        e@ == placed_error_spec(text@, start, len, tier_violation_text(who@, referent@), Some(
            "add `defer=#true` to `"@ + who@ + "`, or drop it from `"@ + referent@ + "`"@), colored),
{
    let mut message = String::from_str("`");
    message.append(who);
    message.append("` is not deferred but references `");
    message.append(referent);
    message.append("`, which is");
    let mut help = String::from_str("add `defer=#true` to `");
    help.append(who);
    help.append("`, or drop it from `");
    help.append(referent);
    help.append("`");
    placed_error(text, start, len, message.as_str(), Some(help.as_str()), colored)
}

/// A variable's span as start and length.
fn span_of(v: &Variable) -> (r: (usize, usize))
    ensures
        r.0 == v.span_start,
        r.1 == span_len(*v),
{
    if v.span_start <= v.span_end {
        (v.span_start, v.span_end - v.span_start)
    } else {
        (v.span_start, 0)
    }
}

} // verus!

verus! {

/// The same variable with its tier replaced.
pub open spec fn same_but_tier(a: Variable, b: Variable) -> bool {
    a.name == b.name && a.source == b.source && a.text == b.text && a.span_start == b.span_start
        && a.span_end == b.span_end
}

/// Replace every variable's tier, keeping everything else.
fn with_tiers(vars: Vec<Variable>, tiers: &Vec<Tier>) -> (r: Vec<Variable>)
    requires
        tiers@.len() == vars@.len(),
    ensures
        r@.len() == vars@.len(),
        forall|i: int| 0 <= i < vars@.len() ==> same_but_tier(#[trigger] r@[i], vars@[i]) && r@[i].tier == tiers@[i],
{
    let ghost orig = vars@;
    let mut rest = vars;
    let mut rev: Vec<Variable> = Vec::new();
    while rest.len() > 0
        invariant
            rest@.len() + rev@.len() == orig.len(),
            rest@ == orig.take(rest@.len() as int),
            forall|k: int| 0 <= k < rev@.len() ==> #[trigger] rev@[k] == orig[orig.len() - 1 - k],
        decreases rest@.len(),
    {
        let ghost n = rest@.len();
        let v = rest.pop().unwrap();
        assert(rest@ =~= orig.take(n - 1));
        rev.push(v);
    }
    let mut out: Vec<Variable> = Vec::new();
    while rev.len() > 0
        invariant
            rev@.len() + out@.len() == orig.len(),
            tiers@.len() == orig.len(),
            forall|k: int| 0 <= k < rev@.len() ==> #[trigger] rev@[k] == orig[orig.len() - 1 - k],
            forall|k: int| 0 <= k < out@.len() ==> same_but_tier(#[trigger] out@[k], orig[k]) && out@[k].tier
                == tiers@[k],
        decreases rev@.len(),
    {
        let v = rev.pop().unwrap();
        let i = out.len();
        let t = tiers[i];
        out.push(Variable {
            name: v.name,
            source: v.source,
            text: v.text,
            tier: t,
            span_start: v.span_start,
            span_end: v.span_end,
        });
    }
    out
}


/// Whether `v` holds `x`.
fn holds(v: &Vec<usize>, x: usize) -> (b: bool)
    ensures
        b == v@.contains(x),
{
    let mut i: usize = 0;
    while i < v.len()
        invariant
            i <= v@.len(),
            forall|k: int| 0 <= k < i ==> v@[k] != x,
        decreases v@.len() - i,
    {
        if v[i] == x {
            return true;
        }
        i = i + 1;
    }
    false
}

/// Variable `v` references variable `w`: one of its names resolves to
/// `w`'s position.
pub open spec fn refd(vars: Seq<Variable>, v: int, w: int) -> bool {
    exists|k: int| 0 <= k < vars[v].refs_spec().len() && #[trigger] position_of(vars, vars[v].refs_spec()[k], 0) == Some(w)
}

/// Every name every variable references is declared.
pub open spec fn all_refs_declared(vars: Seq<Variable>) -> bool {
    forall|v: int, k: int| 0 <= v < vars.len() && 0 <= k < vars[v].refs_spec().len() ==> position_of(vars,
        #[trigger] vars[v].refs_spec()[k], 0) is Some
}

/// The edge lists are exactly the references, by position.
pub open spec fn edges_are_refs(vars: Seq<Variable>, deps: Seq<Vec<usize>>) -> bool {
    &&& deps.len() == vars.len()
    &&& forall|v: int, j: int| 0 <= v < vars.len() && 0 <= j < deps[v]@.len() ==> #[trigger] deps[v]@[j] < vars.len()
        && refd(vars, v, deps[v]@[j] as int)
    &&& forall|v: int, w: int| 0 <= v < vars.len() && #[trigger] refd(vars, v, w) ==> deps[v]@.contains(w as usize)
}

proof fn lemma_refd_in_bounds(vars: Seq<Variable>, v: int, w: int)
    requires
        refd(vars, v, w),
    ensures
        0 <= w < vars.len(),
{
    let k = choose|k: int| 0 <= k < vars[v].refs_spec().len() && #[trigger] position_of(vars, vars[v].refs_spec()[k], 0) == Some(w);
    lemma_position_in_bounds(vars, vars[v].refs_spec()[k], 0);
}

proof fn lemma_position_in_bounds(vars: Seq<Variable>, name: Seq<char>, i: int)
    requires
        0 <= i,
    ensures
        position_of(vars, name, i) is Some ==> i <= position_of(vars, name, i)->0 < vars.len(),
    decreases vars.len() - i,
{
    if i < vars.len() && vars[i].name@ != name {
        lemma_position_in_bounds(vars, name, i + 1);
    }
}

/// Every variable's edges: the positions of the names it references,
/// first occurrences only; an undeclared name is refused at the
/// variable that references it.
/// A block holding only the given variables' names, for a help line.
fn names_only(vars: &Vec<Variable>) -> (b: VariableBlock)
    ensures
        var_names(b.vars@) == var_names(vars@),
{
    let mut out: Vec<Variable> = Vec::new();
    let mut i: usize = 0;
    while i < vars.len()
        invariant
            i <= vars@.len(),
            var_names(out@) == var_names(vars@.take(i as int)),
            out@.len() == i,
        decreases vars@.len() - i,
    {
        let ghost before = out@;
        let nm = vars[i].name.clone();
        assert(nm@ == vars@[i as int].name@);
        assert(vars@.take(i + 1) =~= vars@.take(i as int).push(vars@[i as int]));
        out.push(Variable {
            name: nm,
            source: VarSource::Constant,
            text: crate::template::Template::literal(""),
            tier: Tier::Load,
            span_start: 0,
            span_end: 0,
        });
        assert(out@[i as int].name@ == vars@[i as int].name@);
        assert(var_names(out@) =~= var_names(before).push(vars@[i as int].name@));
        assert(var_names(vars@.take(i + 1)) =~= var_names(vars@.take(i as int)).push(vars@[i as int].name@));
        assert(var_names(out@) =~= var_names(vars@.take(i + 1)));
        i = i + 1;
    }
    assert(vars@.take(vars@.len() as int) =~= vars@);
    VariableBlock::new(out, Vec::new())
}

pub fn dependencies(vars: &Vec<Variable>, text: &str, colored: bool) -> (r: Result<Vec<Vec<usize>>, String>)
    requires
        text@.len() < usize::MAX,
    ensures
        r is Ok ==> edges_are_refs(vars@, r->Ok_0@) && all_refs_declared(vars@),
        r is Err <==> !all_refs_declared(vars@),
        r is Err ==> graph_refusal(vars@, text@, colored, r->Err_0@),
        r is Ok ==> r->Ok_0@.len() == vars@.len() && forall|v: int| 0 <= v < vars@.len() ==> (#[trigger] r->Ok_0@[v])@
            == edges_upto(vars@, v, vars@[v].refs_spec().len() as int),
{
    let n = vars.len();
    let mut deps: Vec<Vec<usize>> = Vec::new();
    let mut v: usize = 0;
    while v < n
        invariant
            v <= n == vars@.len(),
            text@.len() < usize::MAX,
            deps@.len() == v,
            forall|a: int, j: int| 0 <= a < v && 0 <= j < deps@[a]@.len() ==> #[trigger] deps@[a]@[j] < n && refd(
                vars@, a, deps@[a]@[j] as int),
            forall|a: int, w: int| 0 <= a < v && #[trigger] refd(vars@, a, w) ==> deps@[a]@.contains(w as usize),
            forall|a: int, k: int| 0 <= a < v && 0 <= k < vars@[a].refs_spec().len() ==> position_of(vars@,
                #[trigger] vars@[a].refs_spec()[k], 0) is Some,
            forall|a: int| 0 <= a < v ==> (#[trigger] deps@[a])@ == edges_upto(vars@, a, vars@[a].refs_spec().len() as int),
        decreases n - v,
    {
        let names = vars[v].refs();
        let mut edges: Vec<usize> = Vec::new();
        let mut k: usize = 0;
        while k < names.len()
            invariant
                k <= names@.len(),
                v < n == vars@.len(),
                text@.len() < usize::MAX,
                names_of(names@) == vars@[v as int].refs_spec(),
                forall|a: int, kk: int| 0 <= a < v && 0 <= kk < vars@[a].refs_spec().len() ==> position_of(vars@,
                    #[trigger] vars@[a].refs_spec()[kk], 0) is Some,
                edges@ == edges_upto(vars@, v as int, k as int),
                forall|j: int| 0 <= j < edges@.len() ==> #[trigger] edges@[j] < n && refd(vars@, v as int, edges@[j] as int),
                forall|j: int| 0 <= j < k ==> position_of(vars@, #[trigger] names@[j]@, 0) is Some && edges@.contains(
                    position_of(vars@, names@[j]@, 0)->0 as usize),
            decreases names@.len() - k,
        {
            proof {
                assert(vars@[v as int].refs_spec()[k as int] == names@[k as int]@);
            }
            match position_in(vars, names[k].as_str()) {
                Some(i) => {
                    proof {
                        assert(refd(vars@, v as int, i as int));
                    }
                    let ghost before = edges@;
                    assert(position_of(vars@, vars@[v as int].refs_spec()[k as int], 0) == Some(i as int));
                    if !holds(&edges, i) {
                        edges.push(i);
                        assert forall|j: int| 0 <= j < k implies position_of(vars@, #[trigger] names@[j]@, 0) is Some
                            && edges@.contains(position_of(vars@, names@[j]@, 0)->0 as usize) by {
                            let p = position_of(vars@, names@[j]@, 0)->0 as usize;
                            let m = choose|m: int| 0 <= m < before.len() && before[m] == p;
                            assert(edges@[m] == p);
                        }
                        assert(edges@[edges@.len() - 1] == i);
                    }
                },
                None => {
                    proof {
                        assert(!all_refs_declared(vars@));
                    }
                    let (start, len) = span_of(&vars[v]);
                    let declared = names_only(vars);
                    let e = unknown_variable_err(text, start, len, names[k].as_str(), &declared, colored);
                    proof {
                        let m = "unknown variable `"@ + vars@[v as int].refs_spec()[k as int] + "`"@;
                        let h = choose|h: Seq<char>| unknown_help(declared, h) && e@ == placed_error_spec(text@, start, len,
                            "unknown variable `"@ + names@[k as int]@ + "`"@, Some(h), colored);
                        assert(placed_at_var(vars@, text@, colored, e@, v as int, m, h));
                        assert forall|j: int| 0 <= j < k implies position_of(vars@, #[trigger] vars@[v as int].refs_spec()[j], 0) is Some by {
                            assert(vars@[v as int].refs_spec()[j] == names@[j]@);
                        }
                        assert(vars@[v as int].refs_spec()[k as int] == names@[k as int]@);
                        assert(position_of(vars@, vars@[v as int].refs_spec()[k as int], 0) is None);
                        assert(first_unknown_at(vars@, v as int, k as int));
                        assert(var_names(declared.vars@) == var_names(vars@) && unknown_help(declared, h));
                        assert(unknown_refusal(vars@, text@, colored, e@));
                    }
                    return Err(e);
                },
            }
            k = k + 1;
        }
        proof {
            assert forall|j: int| 0 <= j < vars@[v as int].refs_spec().len() implies position_of(vars@,
                #[trigger] vars@[v as int].refs_spec()[j], 0) is Some by {
                assert(vars@[v as int].refs_spec()[j] == names@[j]@);
            }
            assert forall|w: int| #[trigger] refd(vars@, v as int, w) implies edges@.contains(w as usize) by {
                let kk = choose|kk: int| 0 <= kk < vars@[v as int].refs_spec().len() && #[trigger] position_of(vars@,
                    vars@[v as int].refs_spec()[kk], 0) == Some(w);
                assert(vars@[v as int].refs_spec()[kk] == names@[kk]@);
            }
        }
        proof {
            assert(names@.len() == vars@[v as int].refs_spec().len());
        }
        let ghost deps_before = deps@;
        deps.push(edges);
        assert forall|a: int| 0 <= a < v + 1 implies (#[trigger] deps@[a])@ == edges_upto(vars@, a, vars@[a].refs_spec().len() as int) by {
            if a < v {
                assert(deps@[a] == deps_before[a]);
            }
        }
        v = v + 1;
    }
    Ok(deps)
}

/// The later of two tiers.
pub open spec fn join(a: Tier, b: Tier) -> Tier {
    if a is Spawn || b is Spawn { Tier::Spawn } else { Tier::Load }
}

/// The latest tier among the positions `ds`.
pub open spec fn tier_max(ds: Seq<usize>, tiers: Seq<Tier>) -> Tier
    decreases ds.len(),
{
    if ds.len() == 0 { Tier::Load } else { join(tier_max(ds.drop_last(), tiers), tiers[ds.last() as int]) }
}

proof fn lemma_tier_max_spawn(ds: Seq<usize>, tiers: Seq<Tier>)
    ensures
        (tier_max(ds, tiers) is Spawn) <==> exists|j: int| 0 <= j < ds.len() && tiers[#[trigger] ds[j] as int] is Spawn,
    decreases ds.len(),
{
    if ds.len() > 0 {
        lemma_tier_max_spawn(ds.drop_last(), tiers);
        if tier_max(ds.drop_last(), tiers) is Spawn {
            let j = choose|j: int| 0 <= j < ds.drop_last().len() && tiers[#[trigger] ds.drop_last()[j] as int] is Spawn;
            assert(ds[j] == ds.drop_last()[j]);
        }
        if exists|j: int| 0 <= j < ds.len() && tiers[#[trigger] ds[j] as int] is Spawn {
            let j = choose|j: int| 0 <= j < ds.len() && tiers[#[trigger] ds[j] as int] is Spawn;
            if j < ds.len() - 1 {
                assert(ds.drop_last()[j] == ds[j]);
            }
        }
    }
}

proof fn lemma_tier_max_frame(ds: Seq<usize>, tiers: Seq<Tier>, a: int, x: Tier)
    requires
        0 <= a < tiers.len(),
        forall|j: int| 0 <= j < ds.len() ==> ds[j] != a && ds[j] < tiers.len(),
    ensures
        tier_max(ds, tiers.update(a, x)) == tier_max(ds, tiers),
    decreases ds.len(),
{
    if ds.len() > 0 {
        assert forall|j: int| 0 <= j < ds.drop_last().len() implies ds.drop_last()[j] != a && ds.drop_last()[j] < tiers.len() by {
            assert(ds.drop_last()[j] == ds[j]);
        }
        assert(ds.last() == ds[ds.len() - 1]);
        lemma_tier_max_frame(ds.drop_last(), tiers, a, x);
    }
}

/// A finished variable's tier: its declared form, promoted by any
/// referent's.
pub open spec fn tier_rule(vars: Seq<Variable>, deps: Seq<Vec<usize>>, tiers: Seq<Tier>, v: int) -> bool {
    &&& tiers[v] == join(vars[v].source.declared_tier_spec(), tier_max(deps[v]@, tiers))
    &&& (vars[v].source.declared_tier_spec() is Load ==> tiers[v] is Load)
}

/// Every edge of a frame below its cursor reaches a finished variable —
/// except the newest one of a frame under another, which is that frame.
pub open spec fn frames_scanned(stack: Seq<(usize, usize)>, deps: Seq<Vec<usize>>, mark: Seq<u8>) -> bool {
    forall|k: int, j: int| 0 <= k < stack.len() && 0 <= j < (#[trigger] stack[k]).1 ==> mark[
        #[trigger] deps[stack[k].0 as int]@[j] as int] == 2 || (k + 1 < stack.len() && j == stack[k].1 - 1
        && deps[stack[k].0 as int]@[j] == stack[k + 1].0)
}

/// The finished variables, in finishing order, each after everything
/// it references.
pub open spec fn finished_order(
    n: int,
    deps: Seq<Vec<usize>>,
    mark: Seq<u8>,
    order: Seq<usize>,
    pos: Seq<int>,
) -> bool {
    &&& forall|k: int| 0 <= k < order.len() ==> (#[trigger] order[k]) < n && mark[order[k] as int] == 2 && pos[order[k] as int] == k
    &&& forall|v: int| 0 <= v < n && mark[v] == 2 ==> 0 <= #[trigger] pos[v] < order.len() && order[pos[v]] == v
    &&& forall|v: int, j: int| 0 <= v < n && mark[v] == 2 && 0 <= j < deps[v]@.len() ==> mark[
        #[trigger] deps[v]@[j] as int] == 2 && pos[deps[v]@[j] as int] < pos[v]
}

} // verus!

verus! {

/// A ranking under which every variable comes after everything it
/// references.
pub open spec fn ranks_refs(vars: Seq<Variable>, pos: Seq<int>) -> bool {
    &&& pos.len() == vars.len()
    &&& forall|v: int, w: int| 0 <= v < vars.len() && #[trigger] refd(vars, v, w) ==> pos[w] < pos[v]
}

/// No chain of references leads back to where it started: the
/// variables can be ranked dependencies first.
pub open spec fn acyclic(vars: Seq<Variable>) -> bool {
    exists|pos: Seq<int>| ranks_refs(vars, pos)
}

/// Tiers that follow the rule: a variable is spawn-time exactly when it
/// is declared so or references a spawn-time one, and a load-time
/// declaration stays load-time.
pub open spec fn tiering(vars: Seq<Variable>, t: Seq<Tier>) -> bool {
    &&& t.len() == vars.len()
    &&& forall|v: int| 0 <= v < vars.len() ==> #[trigger] tier_follows(vars, t, v)
    &&& forall|v: int| 0 <= v < vars.len() && (#[trigger] vars[v]).source.declared_tier_spec() is Load ==> t[v] is Load
}

/// Variable `v` is spawn-time exactly when it is declared so or
/// references a spawn-time variable.
pub open spec fn tier_follows(vars: Seq<Variable>, t: Seq<Tier>, v: int) -> bool {
    t[v] is Spawn <==> (vars[v].source.declared_tier_spec() is Spawn || exists|w: int| refd(vars, v, w) && t[w] is Spawn)
}

/// Some tiering exists: no load-time variable needs a spawn-time value.
pub open spec fn tiers_consistent(vars: Seq<Variable>) -> bool {
    exists|t: Seq<Tier>| tiering(vars, t)
}

/// Frame `k` was entered from its parent's last-read edge: the edge
/// just before frame `k`'s cursor leads to frame `k + 1`.
pub open spec fn link_at(st: Seq<(usize, usize)>, deps: Seq<Vec<usize>>, k: int) -> bool {
    st[k].1 >= 1 && deps[st[k].0 as int]@[st[k].1 - 1] == st[k + 1].0
}

/// Every frame under the top was entered from the one beneath it.
pub open spec fn frames_linked(st: Seq<(usize, usize)>, deps: Seq<Vec<usize>>) -> bool {
    forall|k: int| 0 <= k < st.len() - 1 ==> #[trigger] link_at(st, deps, k)
}

/// Along a run of stack frames each entered from the edge just before
/// its parent's cursor, a ranking only falls.
proof fn lemma_frames_descend(
    vars: Seq<Variable>,
    deps: Seq<Vec<usize>>,
    st: Seq<(usize, usize)>,
    pos: Seq<int>,
    a: int,
    b: int,
)
    requires
        0 <= a <= b < st.len(),
        edges_are_refs(vars, deps),
        ranks_refs(vars, pos),
        forall|k: int| 0 <= k < st.len() ==> (#[trigger] st[k]).0 < vars.len() && st[k].1 <= deps[st[k].0 as int]@.len(),
        frames_linked(st, deps),
    ensures
        pos[st[b].0 as int] <= pos[st[a].0 as int],
    decreases b - a,
{
    if b > a {
        lemma_frames_descend(vars, deps, st, pos, a, b - 1);
        let v = st[b - 1].0 as int;
        let j = st[b - 1].1 - 1;
        assert(link_at(st, deps, b - 1));
        assert(deps[v]@[j] == st[b].0);
        assert(refd(vars, v, deps[v]@[j] as int));
    }
}

/// Under the rule, the tier of every finished variable is forced: any
/// tiering agrees with the one computed.
proof fn lemma_tiers_forced(
    vars: Seq<Variable>,
    deps: Seq<Vec<usize>>,
    mark: Seq<u8>,
    order: Seq<usize>,
    pos: Seq<int>,
    tiers: Seq<Tier>,
    t: Seq<Tier>,
    v: int,
)
    requires
        edges_are_refs(vars, deps),
        mark.len() == vars.len(),
        tiers.len() == vars.len(),
        finished_order(vars.len() as int, deps, mark, order, pos),
        forall|u: int| 0 <= u < vars.len() && mark[u] == 2 ==> #[trigger] tier_rule(vars, deps, tiers, u),
        tiering(vars, t),
        0 <= v < vars.len() <= usize::MAX,
        mark[v] == 2,
    ensures
        t[v] == tiers[v],
    decreases pos[v],
{
    let ds = deps[v]@;
    assert(tier_follows(vars, t, v));
    assert forall|j: int| 0 <= j < ds.len() implies t[#[trigger] ds[j] as int] == tiers[ds[j] as int] by {
        assert(mark[ds[j] as int] == 2 && pos[ds[j] as int] < pos[v]);
        assert(0 <= pos[ds[j] as int]);
        lemma_tiers_forced(vars, deps, mark, order, pos, tiers, t, ds[j] as int);
    }
    assert(tier_rule(vars, deps, tiers, v));
    lemma_tier_max_spawn(ds, tiers);
    if exists|w: int| refd(vars, v, w) && t[w] is Spawn {
        let w = choose|w: int| refd(vars, v, w) && t[w] is Spawn;
        lemma_refd_in_bounds(vars, v, w);
        assert(ds.contains(w as usize));
        let j = choose|j: int| 0 <= j < ds.len() && ds[j] == w as usize;
        assert(ds[j] as int == w);
        assert(t[ds[j] as int] == tiers[ds[j] as int]);
        assert(tiers[ds[j] as int] is Spawn);
    }
    if tier_max(ds, tiers) is Spawn {
        let j = choose|j: int| 0 <= j < ds.len() && tiers[#[trigger] ds[j] as int] is Spawn;
        assert(refd(vars, v, ds[j] as int));
        assert(t[ds[j] as int] is Spawn);
    }
}

/// A reference back onto the stack closes a cycle: no ranking can
/// order the variables dependencies first.
proof fn lemma_cycle_not_acyclic(
    vars: Seq<Variable>,
    deps: Seq<Vec<usize>>,
    st: Seq<(usize, usize)>,
    start: int,
    top: int,
    cursor: int,
)
    requires
        edges_are_refs(vars, deps),
        0 <= start <= top == st.len() - 1,
        forall|k: int| 0 <= k < st.len() ==> (#[trigger] st[k]).0 < vars.len() && st[k].1 <= deps[st[k].0 as int]@.len(),
        frames_linked(st, deps),
        0 <= cursor < deps[st[top].0 as int]@.len(),
        deps[st[top].0 as int]@[cursor] == st[start].0,
    ensures
        !acyclic(vars),
{
    if acyclic(vars) {
        let pos = choose|p: Seq<int>| ranks_refs(vars, p);
        lemma_frames_descend(vars, deps, st, pos, start, top);
        let at = st[top].0 as int;
        assert(refd(vars, at, deps[at]@[cursor] as int));
    }
}

/// A load-time declaration whose finished referent is spawn-time has no
/// tiering: every tiering agrees with the computed tiers on finished
/// variables, and the rule then asks the declaration to be both.
proof fn lemma_violation_inconsistent(
    vars: Seq<Variable>,
    deps: Seq<Vec<usize>>,
    mark: Seq<u8>,
    order: Seq<usize>,
    pos: Seq<int>,
    tiers: Seq<Tier>,
    at: int,
)
    requires
        edges_are_refs(vars, deps),
        mark.len() == vars.len() <= usize::MAX,
        tiers.len() == vars.len(),
        finished_order(vars.len() as int, deps, mark, order, pos),
        forall|u: int| 0 <= u < vars.len() && mark[u] == 2 ==> #[trigger] tier_rule(vars, deps, tiers, u),
        0 <= at < vars.len(),
        forall|j: int| 0 <= j < deps[at]@.len() ==> mark[#[trigger] deps[at]@[j] as int] == 2,
        tier_max(deps[at]@, tiers) is Spawn,
        vars[at].source.declared_tier_spec() is Load,
    ensures
        !tiers_consistent(vars),
{
    lemma_tier_max_spawn(deps[at]@, tiers);
    if tiers_consistent(vars) {
        let t = choose|t: Seq<Tier>| tiering(vars, t);
        let j = choose|j: int| 0 <= j < deps[at]@.len() && tiers[#[trigger] deps[at]@[j] as int] is Spawn;
        let w = deps[at]@[j] as int;
        assert(mark[w] == 2);
        lemma_tiers_forced(vars, deps, mark, order, pos, tiers, t, w);
        assert(refd(vars, at, w));
        assert(tier_follows(vars, t, at));
        assert(t[at] is Spawn);
    }
}

/// Once every variable is finished, the finishing positions rank the
/// references and the computed tiers follow the rule.
proof fn lemma_all_finished(
    vars: Seq<Variable>,
    deps: Seq<Vec<usize>>,
    mark: Seq<u8>,
    order: Seq<usize>,
    pos: Seq<int>,
    tiers: Seq<Tier>,
)
    requires
        edges_are_refs(vars, deps),
        mark.len() == vars.len() <= usize::MAX,
        tiers.len() == vars.len(),
        pos.len() == vars.len(),
        forall|v: int| 0 <= v < vars.len() ==> mark[v] == 2,
        finished_order(vars.len() as int, deps, mark, order, pos),
        forall|u: int| 0 <= u < vars.len() && mark[u] == 2 ==> #[trigger] tier_rule(vars, deps, tiers, u),
    ensures
        ranks_refs(vars, pos),
        tiering(vars, tiers),
{
    assert forall|v: int, w: int| 0 <= v < vars.len() && #[trigger] refd(vars, v, w) implies pos[w] < pos[v] by {
        lemma_refd_in_bounds(vars, v, w);
        assert(deps[v]@.contains(w as usize));
        let j = choose|j: int| 0 <= j < deps[v]@.len() && deps[v]@[j] == w as usize;
        assert(pos[deps[v]@[j] as int] < pos[v]);
    }
    assert forall|v: int| 0 <= v < vars.len() implies #[trigger] tier_follows(vars, tiers, v) by {
        assert(tier_rule(vars, deps, tiers, v));
        lemma_tier_max_spawn(deps[v]@, tiers);
        if exists|w: int| refd(vars, v, w) && tiers[w] is Spawn {
            let w = choose|w: int| refd(vars, v, w) && tiers[w] is Spawn;
            lemma_refd_in_bounds(vars, v, w);
            assert(deps[v]@.contains(w as usize));
            let j = choose|j: int| 0 <= j < deps[v]@.len() && deps[v]@[j] == w as usize;
            assert(deps[v]@[j] as int == w);
            assert(tiers[deps[v]@[j] as int] is Spawn);
        }
        if tier_max(deps[v]@, tiers) is Spawn {
            let j = choose|j: int| 0 <= j < deps[v]@.len() && tiers[#[trigger] deps[v]@[j] as int] is Spawn;
            assert(refd(vars, v, deps[v]@[j] as int));
        }
    }
    assert forall|v: int| 0 <= v < vars.len() && (#[trigger] vars[v]).source.declared_tier_spec() is Load implies tiers[v] is Load by {
        assert(tier_rule(vars, deps, tiers, v));
    }
}

/// What `classify` promises of the block it returns.
pub open spec fn classified(vars: Seq<Variable>, block: VariableBlock) -> bool {
    let out = block.vars@;
    let order = block.order@;
    &&& out.len() == vars.len()
    &&& forall|i: int| 0 <= i < vars.len() ==> same_but_tier(#[trigger] out[i], vars[i])
    // The order is a permutation of the declared positions.
    &&& forall|k: int| 0 <= k < order.len() ==> (#[trigger] order[k]) < vars.len()
    &&& forall|k1: int, k2: int| 0 <= k1 < k2 < order.len() ==> (#[trigger] order[k1]) != (#[trigger] order[k2])
    &&& forall|v: usize| v < vars.len() ==> #[trigger] order.contains(v)
    // Every variable comes after everything it references.
    &&& forall|k: int, w: int| 0 <= k < order.len() && #[trigger] refd(vars, order[k] as int, w) ==> exists|k2: int|
        0 <= k2 < k && (#[trigger] order[k2]) == w
    // A tier is the declared one, promoted by any referent's, and never
    // past a load-time declaration.
    &&& forall|v: int| 0 <= v < vars.len() ==> ((#[trigger] out[v]).tier is Spawn <==> (
        vars[v].source.declared_tier_spec() is Spawn || exists|w: int| refd(vars, v, w) && out[w].tier is Spawn))
    &&& forall|v: int| 0 <= v < vars.len() && (#[trigger] vars[v]).source.declared_tier_spec() is Load ==> out[v].tier is Load
}

/// Build the dependency graph, refuse cycles by name path, order
/// dependencies first, and classify every effective tier — a
/// post-order walk over an explicit stack. Roots are visited in
/// declaration order, so a board with two cycles always names the same one.
#[verifier::rlimit(60)]
pub fn classify(vars: Vec<Variable>, text: &str, colored: bool) -> (r: Result<VariableBlock, String>)
    requires
        text@.len() < usize::MAX,
    ensures
        r is Ok ==> classified(vars@, r->Ok_0),
        r is Ok ==> r->Ok_0.orders_declared(),
        r is Ok <==> all_refs_declared(vars@) && acyclic(vars@) && tiers_consistent(vars@),
        r is Err ==> graph_refusal(vars@, text@, colored, r->Err_0@),
        r is Ok ==> dfs_ends(vars@, DfsEnd::Finished(r->Ok_0.order@)),
        r is Err && all_refs_declared(vars@) ==> exists|e: DfsEnd| dfs_ends(vars@, e) && walk_refusal(
            vars@,
            text@,
            colored,
            e,
            r->Err_0@,
        ),
{
    let n = vars.len();
    let deps = match dependencies(&vars, text, colored) {
        Ok(d) => d,
        Err(e) => return Err(e),
    };
    let ghost dv = edge_lists(vars@);
    assert forall|v: int| 0 <= v < n implies #[trigger] deps@[v]@ == dv[v] by {}
    let mut mark: Vec<u8> = Vec::new();
    let mut tiers: Vec<Tier> = Vec::new();
    let mut i: usize = 0;
    while i < n
        invariant
            i <= n,
            mark@.len() == i,
            tiers@.len() == i,
            forall|k: int| 0 <= k < i ==> mark@[k] == 0,
            forall|k: int| 0 <= k < i ==> tiers@[k] == Tier::Load,
        decreases n - i,
    {
        mark.push(0);
        tiers.push(Tier::Load);
        i = i + 1;
    }
    let ghost mut pot: Seq<int> = Seq::new(n as nat, |v: int| deps@[v]@.len() as int);
    let ghost mut pos: Seq<int> = Seq::new(n as nat, |v: int| 0int);
    let mut order: Vec<usize> = Vec::new();
    let mut root: usize = 0;
    let ghost mut steps: nat = 0;
    proof {
        assert(mark@ =~= dfs_start(n as int).mark);
        assert(tiers@ =~= dfs_start(n as int).tiers);
        assert(order@ =~= dfs_start(n as int).order);
        assert(DfsState { mark: mark@, stack: seq![], tiers: tiers@, order: order@, root: root as int } == dfs_start(n as int));
    }
    while root < n
        invariant
            root <= n == vars@.len(),
            text@.len() < usize::MAX,
            all_refs_declared(vars@),
            edges_are_refs(vars@, deps@),
            mark@.len() == n,
            tiers@.len() == n,
            pot.len() == n,
            pos.len() == n,
            forall|v: int| 0 <= v < n ==> mark@[v] == 0 || mark@[v] == 2,
            forall|v: int| 0 <= v < root ==> mark@[v] == 2,
            forall|v: int| 0 <= v < n && mark@[v] == 0 ==> pot[v] == deps@[v]@.len(),
            forall|v: int| 0 <= v < n && mark@[v] == 2 ==> pot[v] == 0,
            finished_order(n as int, deps@, mark@, order@, pos),
            forall|v: int| 0 <= v < n && mark@[v] == 2 ==> #[trigger] tier_rule(vars@, deps@, tiers@, v),
            dv == edge_lists(vars@),
            forall|v: int| 0 <= v < n ==> #[trigger] deps@[v]@ == dv[v],
            forall|f: nat| #[trigger] dfs_run(vars@, dv, DfsState { mark: mark@, stack: seq![], tiers: tiers@, order: order@, root: root as int }, f)
                == dfs_run(vars@, dv, dfs_start(n as int), f + steps),
        decreases n - root,
    {
        let ghost s_root = DfsState { mark: mark@, stack: seq![], tiers: tiers@, order: order@, root: root as int };
        if mark[root] == 0 {
            let mut stack: Vec<(usize, usize)> = Vec::new();
            stack.push((root, 0));
            mark.set(root, 1);
            proof {
                let s_new = DfsState { mark: mark@, stack: stack@, tiers: tiers@, order: order@, root: root as int };
                assert(stack@ =~= seq![(root, 0usize)]);
                assert(dfs_step(vars@, dv, s_root) == Ok::<DfsState, DfsEnd>(s_new));
                lemma_run_step(vars@, dv, s_root, s_new);
                assert forall|f: nat| #[trigger] dfs_run(vars@, dv, s_new, f) == dfs_run(vars@, dv, dfs_start(n as int), f + (steps + 1)) by {
                    assert(dfs_run(vars@, dv, s_root, f + 1) == dfs_run(vars@, dv, dfs_start(n as int), (f + 1) + steps));
                }
                steps = steps + 1;
            }
            assert(stack@[0].0 == root);
            while stack.len() > 0
                invariant
                    root < n == vars@.len(),
                    text@.len() < usize::MAX,
                    all_refs_declared(vars@),
                    edges_are_refs(vars@, deps@),
                    mark@.len() == n,
                    tiers@.len() == n,
                    pot.len() == n,
                    pos.len() == n,
                    forall|v: int| 0 <= v < n ==> mark@[v] == 0 || mark@[v] == 1 || mark@[v] == 2,
                    forall|v: int| 0 <= v < root ==> mark@[v] == 2,
                    mark@[root as int] != 0,
                    forall|v: int| 0 <= v < n && mark@[v] == 0 ==> pot[v] == deps@[v]@.len(),
                    forall|v: int| 0 <= v < n && mark@[v] == 2 ==> pot[v] == 0,
                    forall|v: int| 0 <= v < n ==> pot[v] >= 0,
                    forall|k: int| 0 <= k < stack@.len() ==> (#[trigger] stack@[k]).0 < n && mark@[stack@[k].0 as int] == 1
                        && stack@[k].1 <= deps@[stack@[k].0 as int]@.len() && pot[stack@[k].0 as int]
                        == deps@[stack@[k].0 as int]@.len() - stack@[k].1,
                    forall|k1: int, k2: int| 0 <= k1 < k2 < stack@.len() ==> (#[trigger] stack@[k1]).0
                        != (#[trigger] stack@[k2]).0,
                    forall|v: int| 0 <= v < n && mark@[v] == 1 ==> exists|k: int| 0 <= k < stack@.len() && (
                        #[trigger] stack@[k]).0 == v,
                    frames_scanned(stack@, deps@, mark@),
                    frames_linked(stack@, deps@),
                    finished_order(n as int, deps@, mark@, order@, pos),
                    forall|v: int| 0 <= v < n && mark@[v] == 2 ==> #[trigger] tier_rule(vars@, deps@, tiers@, v),
                    dv == edge_lists(vars@),
                    forall|v: int| 0 <= v < n ==> #[trigger] deps@[v]@ == dv[v],
                    forall|f: nat| #[trigger] dfs_run(vars@, dv, DfsState { mark: mark@, stack: stack@, tiers: tiers@, order: order@, root: root as int }, f)
                        == dfs_run(vars@, dv, dfs_start(n as int), f + steps),
                decreases sum_of(pot) + open_count(mark@),
            {
                proof {
                    lemma_sum_nonneg(pot);
                    lemma_open_nonneg(mark@);
                }
                let ghost measure = sum_of(pot) + open_count(mark@);
                let ghost s_old = DfsState { mark: mark@, stack: stack@, tiers: tiers@, order: order@, root: root as int };
                let top = stack.len() - 1;
                let (at, cursor) = stack[top];
                if cursor < deps[at].len() {
                    let next = deps[at][cursor];
                    let ghost stack_before = stack@;
                    stack.set(top, (at, cursor + 1));
                    proof {
                        lemma_sum_update(pot, at as int, pot[at as int] - 1);
                        pot = pot.update(at as int, pot[at as int] - 1);
                        assert forall|k: int| 0 <= k < stack@.len() implies (#[trigger] stack@[k]).0 == stack_before[k].0 by {}
                        assert forall|k: int| 0 <= k < stack@.len() - 1 implies #[trigger] link_at(stack@, deps@, k) by {
                            assert(link_at(stack_before, deps@, k));
                            assert(stack@[k] == stack_before[k]);
                        }
                        assert forall|v: int| 0 <= v < n && mark@[v] == 1 implies exists|k: int| 0 <= k < stack@.len() && (
                            #[trigger] stack@[k]).0 == v by {
                            let k = choose|k: int| 0 <= k < stack_before.len() && (#[trigger] stack_before[k]).0 == v;
                            assert(stack@[k].0 == v);
                        }
                    }
                    if mark[next] == 0 {
                        proof { lemma_open_update(mark@, next as int, 1); }
                        let ghost mark_before = mark@;
                        let ghost stack_mid = stack@;
                        mark.set(next, 1);
                        stack.push((next, 0));
                        proof {
                            assert forall|k: int| 0 <= k < stack@.len() - 1 implies #[trigger] link_at(stack@, deps@, k) by {
                                assert(stack@[k] == stack_mid[k]);
                                if k < top {
                                    assert(link_at(stack_mid, deps@, k));
                                    assert(stack@[k + 1] == stack_mid[k + 1]);
                                } else {
                                    assert(stack@[k] == (at, (cursor + 1) as usize));
                                    assert(stack@[k + 1] == (next, 0usize));
                                }
                            }
                            assert forall|k: int| 0 <= k < stack_mid.len() implies (#[trigger] stack_mid[k]).0 != next by {
                                assert(mark_before[stack_mid[k].0 as int] == 1);
                            }
                            assert forall|v: int| 0 <= v < n && mark@[v] == 1 implies exists|k: int| 0 <= k < stack@.len() && (
                                #[trigger] stack@[k]).0 == v by {
                                if v == next {
                                    assert(stack@[stack@.len() - 1].0 == v);
                                } else {
                                    let k = choose|k: int| 0 <= k < stack_mid.len() && (#[trigger] stack_mid[k]).0 == v;
                                    assert(stack@[k] == stack_mid[k]);
                                }
                            }
                            assert forall|k: int, j: int| 0 <= k < stack@.len() && 0 <= j < (#[trigger] stack@[k]).1 implies mark@[
                                #[trigger] deps@[stack@[k].0 as int]@[j] as int] == 2 || (k + 1 < stack@.len() && j
                                == stack@[k].1 - 1 && deps@[stack@[k].0 as int]@[j] == stack@[k + 1].0) by {
                                if k < top {
                                    assert(stack@[k] == stack_before[k]);
                                    assert(stack@[k + 1].0 == stack_before[k + 1].0);
                                    assert(mark_before[deps@[stack@[k].0 as int]@[j] as int] == 2 ==> mark@[
                                        deps@[stack@[k].0 as int]@[j] as int] == 2);
                                } else if k == top {
                                    if j < cursor {
                                        assert(stack_before[k].1 == cursor);
                                        assert(mark_before[deps@[at as int]@[j] as int] == 2);
                                    }
                                }
                            }
                            assert(frames_scanned(stack@, deps@, mark@));
                            assert(finished_order(n as int, deps@, mark@, order@, pos));
                            assert forall|v: int| 0 <= v < n && mark@[v] == 2 implies #[trigger] tier_rule(vars@, deps@,
                                tiers@, v) by {
                                assert(mark_before[v] == 2);
                            }
                            assert(sum_of(pot) + open_count(mark@) < measure);
                            lemma_sum_nonneg(pot);
                            lemma_open_nonneg(mark@);
                        }
                        proof {
                            assert(stack@ =~= s_old.stack.update(top as int, (at, (cursor + 1) as usize)).push((next, 0usize)));
                            assert(mark@ =~= s_old.mark.update(next as int, 1u8));
                            assert(dv[at as int][cursor as int] == next);
                            let s_new = DfsState { mark: mark@, stack: stack@, tiers: tiers@, order: order@, root: root as int };
                            assert(dfs_step(vars@, dv, s_old) == Ok::<DfsState, DfsEnd>(s_new));
                            lemma_run_step(vars@, dv, s_old, s_new);
                            assert forall|f: nat| #[trigger] dfs_run(vars@, dv, s_new, f) == dfs_run(vars@, dv, dfs_start(n as int), f + (steps + 1)) by {
                                assert(dfs_run(vars@, dv, s_old, f + 1) == dfs_run(vars@, dv, dfs_start(n as int), (f + 1) + steps));
                            }
                            steps = steps + 1;
                        }
                    } else if mark[next] == 2 {
                        proof {
                            assert forall|k: int, j: int| 0 <= k < stack@.len() && 0 <= j < (#[trigger] stack@[k]).1 implies mark@[
                                #[trigger] deps@[stack@[k].0 as int]@[j] as int] == 2 || (k + 1 < stack@.len() && j
                                == stack@[k].1 - 1 && deps@[stack@[k].0 as int]@[j] == stack@[k + 1].0) by {
                                if k < top {
                                    assert(stack@[k] == stack_before[k]);
                                } else {
                                    if j < cursor {
                                        assert(stack_before[k].1 == cursor);
                                    }
                                }
                            }
                            assert(sum_of(pot) + open_count(mark@) < measure);
                            lemma_sum_nonneg(pot);
                            lemma_open_nonneg(mark@);
                        }
                        proof {
                            assert(stack@ =~= s_old.stack.update(top as int, (at, (cursor + 1) as usize)));
                            assert(dv[at as int][cursor as int] == next);
                            let s_new = DfsState { mark: mark@, stack: stack@, tiers: tiers@, order: order@, root: root as int };
                            assert(dfs_step(vars@, dv, s_old) == Ok::<DfsState, DfsEnd>(s_new));
                            lemma_run_step(vars@, dv, s_old, s_new);
                            assert forall|f: nat| #[trigger] dfs_run(vars@, dv, s_new, f) == dfs_run(vars@, dv, dfs_start(n as int), f + (steps + 1)) by {
                                assert(dfs_run(vars@, dv, s_old, f + 1) == dfs_run(vars@, dv, dfs_start(n as int), (f + 1) + steps));
                            }
                            steps = steps + 1;
                        }
                    } else {
                        let mut start: usize = 0;
                        proof {
                            assert(frames_linked(stack@, deps@));
                        }
                        while start < stack.len() && stack[start].0 != next
                            invariant
                                start <= stack@.len(),
                                forall|j: int| 0 <= j < start ==> (#[trigger] stack@[j]).0 != next,
                                frame_of(stack@, next, 0) == frame_of(stack@, next, start as int),
                            decreases stack@.len() - start,
                        {
                            start = start + 1;
                        }
                        proof {
                            let kk = choose|k: int| 0 <= k < stack@.len() && (#[trigger] stack@[k]).0 == next;
                            assert(start < stack@.len());
                            lemma_cycle_not_acyclic(vars@, deps@, stack@, start as int, top as int, cursor as int);
                        }
                        let mut path: Vec<String> = Vec::new();
                        let mut k: usize = start;
                        while k < stack.len()
                            invariant
                                start <= k <= stack@.len(),
                                n == vars@.len(),
                                forall|j: int| 0 <= j < stack@.len() ==> (#[trigger] stack@[j]).0 < n,
                                names_of(path@) == Seq::new((k - start) as nat, |j: int| vars@[stack@[start + j].0 as int].name@),
                            decreases stack@.len() - k,
                        {
                            let ghost before = path@;
                            let nm = vars[stack[k].0].name.clone();
                            assert(nm@ == vars@[stack@[k as int].0 as int].name@);
                            path.push(nm);
                            assert(names_of(path@) =~= names_of(before).push(nm@));
                            assert(names_of(path@) =~= Seq::new((k + 1 - start) as nat, |j: int| vars@[stack@[start + j].0 as int].name@));
                            k = k + 1;
                        }
                        let ghost before_last = path@;
                        let last = vars[next].name.clone();
                        assert(last@ == vars@[next as int].name@);
                        path.push(last);
                        assert(names_of(path@) =~= names_of(before_last).push(last@));
                        let (s, l) = span_of(&vars[next]);
                        let e = cycle_err(text, s, l, &path, colored);
                        proof {
                            let m = stack@.len() - start;
                            let idx = Seq::new(m as nat, |j: int| stack@[start + j].0 as int).push(next as int);
                            assert(names_of(path@) =~= walk_names(vars@, idx));
                            assert(idx[0] == next as int);
                            assert forall|j: int| 0 <= j < idx.len() - 1 implies #[trigger] refd(vars@, idx[j], idx[j + 1]) by {
                                let f = start + j;
                                if j < m - 1 {
                                    assert(link_at(stack@, deps@, f));
                                    assert(stack@[f].1 <= deps@[stack@[f].0 as int]@.len());
                                    assert(idx[j + 1] == stack@[f + 1].0 as int);
                                } else {
                                    assert(f == top as int);
                                    assert(stack@[f] == (at, (cursor + 1) as usize));
                                    assert(idx[j + 1] == next as int);
                                    assert(deps@[at as int]@[cursor as int] == next);
                                }
                            }
                            assert forall|j: int| 0 <= j < idx.len() implies 0 <= #[trigger] idx[j] < vars@.len() by {
                                if j < m {
                                    assert(stack@[start + j].0 < n);
                                }
                            }
                            assert(cycle_walk(vars@, idx));
                            assert(placed_at_var(vars@, text@, colored, e@, idx[0], cycle_text(walk_names(vars@, idx)), cycle_help()));
                            assert(cycle_refusal(vars@, text@, colored, e@));
                            assert(frame_of(stack@, next, start as int) == start as int);
                            assert(idx =~= cycle_of(stack@, next));
                            assert(stack@ =~= s_old.stack.update(top as int, (at, (cursor + 1) as usize)));
                            assert(dv[at as int][cursor as int] == next);
                            assert(dfs_step(vars@, dv, s_old) == Err::<DfsState, DfsEnd>(DfsEnd::Cycle(idx)));
                            assert(dfs_run(vars@, dv, s_old, 1) == Some(DfsEnd::Cycle(idx)));
                            assert(dfs_run(vars@, dv, dfs_start(n as int), 1 + steps) == Some(DfsEnd::Cycle(idx)));
                            assert(dfs_ends(vars@, DfsEnd::Cycle(idx)));
                            assert(walk_refusal(vars@, text@, colored, DfsEnd::Cycle(idx), e@));
                        }
                        return Err(e);
                    }
                } else {
                    let declared = vars[at].source.declared_tier();
                    let mut effective = Tier::Load;
                    let mut j: usize = 0;
                    while j < deps[at].len()
                        invariant
                            at < n,
                            deps@.len() == n,
                            tiers@.len() == n,
                            edges_are_refs(vars@, deps@),
                            j <= deps@[at as int]@.len(),
                            effective == tier_max(deps@[at as int]@.take(j as int), tiers@),
                        decreases deps@[at as int]@.len() - j,
                    {
                        proof {
                            assert(deps@[at as int]@.take(j + 1).drop_last() =~= deps@[at as int]@.take(j as int));
                        }
                        effective = effective.max(tiers[deps[at][j]]);
                        j = j + 1;
                    }
                    proof {
                        assert(deps@[at as int]@.take(deps@[at as int]@.len() as int) =~= deps@[at as int]@);
                    }
                    let effective = declared.max(effective);
                    if declared == Tier::Load && effective == Tier::Spawn {
                        proof {
                            assert forall|j: int| 0 <= j < deps@[at as int]@.len() implies mark@[
                                #[trigger] deps@[at as int]@[j] as int] == 2 by {
                                assert(stack@[top as int].1 == cursor);
                            }
                            lemma_violation_inconsistent(vars@, deps@, mark@, order@, pos, tiers@, at as int);
                        }
                        proof {
                            lemma_tier_max_spawn(deps@[at as int]@, tiers@);
                            assert(tier_max(deps@[at as int]@, tiers@) is Spawn);
                        }
                        let mut referent: usize = at;
                        let mut found = false;
                        let mut j2: usize = 0;
                        while j2 < deps[at].len() && !found
                            invariant
                                at < n,
                                referent < n,
                                deps@.len() == n,
                                tiers@.len() == n,
                                n == vars@.len(),
                                edges_are_refs(vars@, deps@),
                                j2 <= deps@[at as int]@.len(),
                                found ==> refd(vars@, at as int, referent as int),
                                found ==> referent == deps@[at as int]@[first_spawn(deps@[at as int]@, tiers@, 0)],
                                !found ==> first_spawn(deps@[at as int]@, tiers@, 0) == first_spawn(deps@[at as int]@, tiers@, j2 as int),
                                !found ==> forall|jj: int| 0 <= jj < j2 ==> !(tiers@[#[trigger] deps@[at as int]@[jj] as int] is Spawn),
                            decreases deps@[at as int]@.len() - j2,
                        {
                            if tiers[deps[at][j2]] == Tier::Spawn {
                                referent = deps[at][j2];
                                found = true;
                            }
                            j2 = j2 + 1;
                        }
                        proof {
                            if !found {
                                let jj = choose|jj: int| 0 <= jj < deps@[at as int]@.len() && tiers@[#[trigger] deps@[at as int]@[jj] as int] is Spawn;
                                assert(false);
                            }
                        }
                        let (s, l) = span_of(&vars[at]);
                        let e = tier_violation_err(text, s, l, vars[at].name.as_str(), vars[referent].name.as_str(), colored);
                        proof {
                            let m = tier_violation_text(vars@[at as int].name@, vars@[referent as int].name@);
                            assert(placed_at_var(vars@, text@, colored, e@, at as int, m, tier_help(vars@[at as int].name@, vars@[referent as int].name@)));
                            assert(tier_clash(vars@, at as int, referent as int));
                            assert(tier_refusal(vars@, text@, colored, e@));
                            assert(dv[at as int] == deps@[at as int]@);
                            assert(s_old.stack[top as int] == (at, cursor));
                            assert(dfs_step(vars@, dv, s_old) == Err::<DfsState, DfsEnd>(DfsEnd::Clash(at as int, referent as int)));
                            assert(dfs_run(vars@, dv, s_old, 1) == Some(DfsEnd::Clash(at as int, referent as int)));
                            assert(dfs_run(vars@, dv, dfs_start(n as int), 1 + steps) == Some(DfsEnd::Clash(at as int, referent as int)));
                            assert(dfs_ends(vars@, DfsEnd::Clash(at as int, referent as int)));
                            assert(walk_refusal(vars@, text@, colored, DfsEnd::Clash(at as int, referent as int), e@));
                        }
                        return Err(e);
                    }
                    let ghost mark_before = mark@;
                    let ghost stack_before = stack@;
                    let ghost tiers_before = tiers@;
                    let ghost order_before = order@;
                    proof {
                        // Every edge of the finishing frame reaches a finished variable.
                        assert forall|j: int| 0 <= j < deps@[at as int]@.len() implies mark_before[
                            #[trigger] deps@[at as int]@[j] as int] == 2 by {
                            assert(stack_before[top as int].1 == cursor);
                        }
                        lemma_open_update(mark@, at as int, 2);
                    }
                    tiers.set(at, effective);
                    mark.set(at, 2);
                    order.push(at);
                    stack.pop();
                    proof {
                        pos = pos.update(at as int, order_before.len() as int);
                        assert(stack@ =~= stack_before.take(top as int));
                        assert forall|k: int| 0 <= k < stack@.len() - 1 implies #[trigger] link_at(stack@, deps@, k) by {
                            assert(link_at(stack_before, deps@, k));
                            assert(stack@[k] == stack_before[k]);
                            assert(stack@[k + 1] == stack_before[k + 1]);
                        }
                        assert forall|v: int| 0 <= v < n && mark@[v] == 1 implies exists|k: int| 0 <= k < stack@.len() && (
                            #[trigger] stack@[k]).0 == v by {
                            assert(v != at);
                            assert(mark_before[v] == 1);
                            let k = choose|k: int| 0 <= k < stack_before.len() && (#[trigger] stack_before[k]).0 == v;
                            assert(k != top);
                            assert(stack@[k] == stack_before[k]);
                        }
                        assert forall|k: int, j: int| 0 <= k < stack@.len() && 0 <= j < (#[trigger] stack@[k]).1 implies mark@[
                            #[trigger] deps@[stack@[k].0 as int]@[j] as int] == 2 || (k + 1 < stack@.len() && j
                            == stack@[k].1 - 1 && deps@[stack@[k].0 as int]@[j] == stack@[k + 1].0) by {
                            assert(stack@[k] == stack_before[k]);
                            if k + 1 < stack@.len() {
                                assert(stack@[k + 1] == stack_before[k + 1]);
                            } else {
                                assert(stack_before[k + 1].0 == at);
                            }
                        }
                        assert forall|v: int| 0 <= v < n && mark_before[v] == 2 implies forall|j: int|
                            0 <= j < deps@[v]@.len() ==> deps@[v]@[j] != at by {
                            assert forall|j: int| 0 <= j < deps@[v]@.len() implies deps@[v]@[j] != at by {
                                assert(mark_before[deps@[v]@[j] as int] == 2);
                            }
                        }
                        assert forall|v: int| 0 <= v < n && mark@[v] == 2 implies #[trigger] tier_rule(vars@, deps@,
                            tiers@, v) by {
                            if v == at {
                                assert forall|j: int| 0 <= j < deps@[v]@.len() implies deps@[v]@[j] != at by {
                                    assert(mark_before[deps@[v]@[j] as int] == 2);
                                }
                                lemma_tier_max_frame(deps@[v]@, tiers_before, at as int, effective);
                            } else {
                                assert(mark_before[v] == 2);
                                assert(tier_rule(vars@, deps@, tiers_before, v));
                                lemma_tier_max_frame(deps@[v]@, tiers_before, at as int, effective);
                            }
                        }
                        assert(finished_order(n as int, deps@, mark@, order@, pos)) by {
                            assert forall|k: int| 0 <= k < order@.len() implies (#[trigger] order@[k]) < n && mark@[
                                order@[k] as int] == 2 && pos[order@[k] as int] == k by {
                                if k < order_before.len() {
                                    assert(order@[k] == order_before[k]);
                                    assert(order_before[k] != at);
                                }
                            }
                            assert forall|v: int| 0 <= v < n && mark@[v] == 2 implies 0 <= #[trigger] pos[v] < order@.len()
                                && order@[pos[v]] == v by {
                                if v != at {
                                    assert(mark_before[v] == 2);
                                }
                            }
                        }
                        assert(sum_of(pot) + open_count(mark@) < measure);
                        lemma_sum_nonneg(pot);
                        lemma_open_nonneg(mark@);
                    }
                    proof {
                        assert(stack@ =~= s_old.stack.drop_last());
                        assert(mark@ =~= s_old.mark.update(at as int, 2u8));
                        assert(tiers@ =~= s_old.tiers.update(at as int, effective));
                        assert(order@ =~= s_old.order.push(at));
                        assert(dv[at as int] == deps@[at as int]@);
                        let s_new = DfsState { mark: mark@, stack: stack@, tiers: tiers@, order: order@, root: root as int };
                        assert(dfs_step(vars@, dv, s_old) == Ok::<DfsState, DfsEnd>(s_new));
                        lemma_run_step(vars@, dv, s_old, s_new);
                        assert forall|f: nat| #[trigger] dfs_run(vars@, dv, s_new, f) == dfs_run(vars@, dv, dfs_start(n as int), f + (steps + 1)) by {
                            assert(dfs_run(vars@, dv, s_old, f + 1) == dfs_run(vars@, dv, dfs_start(n as int), (f + 1) + steps));
                        }
                        steps = steps + 1;
                    }
                }
            }
            proof {
                assert(mark@[root as int] == 2) by {
                    if mark@[root as int] == 1 {
                        let k = choose|k: int| 0 <= k < stack@.len() && (#[trigger] stack@[k]).0 == root;
                    }
                }
                assert(stack@ =~= Seq::<(usize, usize)>::empty());
            }
        }
        proof {
            let s_cur = DfsState { mark: mark@, stack: seq![], tiers: tiers@, order: order@, root: root as int };
            let s_new = DfsState { root: root + 1, ..s_cur };
            assert(mark@[root as int] != 0);
            assert(dfs_step(vars@, dv, s_cur) == Ok::<DfsState, DfsEnd>(s_new));
            lemma_run_step(vars@, dv, s_cur, s_new);
            assert forall|f: nat| #[trigger] dfs_run(vars@, dv, s_new, f) == dfs_run(vars@, dv, dfs_start(n as int), f + (steps + 1)) by {
                assert(dfs_run(vars@, dv, s_cur, f + 1) == dfs_run(vars@, dv, dfs_start(n as int), (f + 1) + steps));
            }
            steps = steps + 1;
        }
        root = root + 1;
    }
    proof {
        assert forall|k: int, w: int| 0 <= k < order@.len() && #[trigger] refd(vars@, order@[k] as int, w) implies exists|k2: int|
            0 <= k2 < k && (#[trigger] order@[k2]) == w by {
            let v = order@[k] as int;
            lemma_refd_in_bounds(vars@, v, w);
            assert(deps@[v]@.contains(w as usize));
            let j = choose|j: int| 0 <= j < deps@[v]@.len() && deps@[v]@[j] == w as usize;
            assert(pos[deps@[v]@[j] as int] < pos[v]);
            assert(order@[pos[w]] == w);
        }
        assert forall|v: usize| v < n implies #[trigger] order@.contains(v) by {
            assert(order@[pos[v as int]] == v);
        }
        assert forall|k1: int, k2: int| 0 <= k1 < k2 < order@.len() implies (#[trigger] order@[k1]) != (
            #[trigger] order@[k2]) by {
            assert(pos[order@[k1] as int] == k1);
            assert(pos[order@[k2] as int] == k2);
        }
    }
    proof {
        lemma_all_finished(vars@, deps@, mark@, order@, pos, tiers@);
        let s_cur = DfsState { mark: mark@, stack: seq![], tiers: tiers@, order: order@, root: root as int };
        assert(dfs_step(vars@, dv, s_cur) == Err::<DfsState, DfsEnd>(DfsEnd::Finished(order@)));
        assert(dfs_run(vars@, dv, s_cur, 1) == Some(DfsEnd::Finished(order@)));
        assert(dfs_run(vars@, dv, dfs_start(n as int), 1 + steps) == Some(DfsEnd::Finished(order@)));
        assert(dfs_ends(vars@, DfsEnd::Finished(order@)));
    }
    let out = with_tiers(vars, &tiers);
    proof {
        assert forall|v: int| 0 <= v < n implies ((#[trigger] out@[v]).tier is Spawn <==> (
            vars@[v].source.declared_tier_spec() is Spawn || exists|w: int| refd(vars@, v, w) && out@[w].tier is Spawn)) by {
            assert(tier_rule(vars@, deps@, tiers@, v));
            lemma_tier_max_spawn(deps@[v]@, tiers@);
            if exists|w: int| refd(vars@, v, w) && out@[w].tier is Spawn {
                let w = choose|w: int| refd(vars@, v, w) && out@[w].tier is Spawn;
                assert(deps@[v]@.contains(w as usize));
                let j = choose|j: int| 0 <= j < deps@[v]@.len() && deps@[v]@[j] == w as usize;
                assert(tiers@[deps@[v]@[j] as int] is Spawn);
            }
            if tier_max(deps@[v]@, tiers@) is Spawn {
                let j = choose|j: int| 0 <= j < deps@[v]@.len() && tiers@[#[trigger] deps@[v]@[j] as int] is Spawn;
                let w = deps@[v]@[j] as int;
                assert(refd(vars@, v, w));
                assert(out@[w].tier is Spawn);
            }
        }
        assert forall|v: int| 0 <= v < n && (#[trigger] vars@[v]).source.declared_tier_spec() is Load implies out@[v].tier is Load by {
            assert(tier_rule(vars@, deps@, tiers@, v));
        }
    }
    Ok(VariableBlock::new(out, order))
}

/// Two declarations that the graph checks cannot tell apart: the same
/// names, references and declared tiers, position by position.
pub open spec fn same_graph(a: Seq<Variable>, b: Seq<Variable>) -> bool {
    &&& a.len() == b.len()
    &&& forall|i: int| 0 <= i < a.len() ==> (#[trigger] a[i]).name@ == b[i].name@ && a[i].refs_spec() == b[i].refs_spec()
        && a[i].source.declared_tier_spec() == b[i].source.declared_tier_spec()
}

proof fn lemma_same_positions(a: Seq<Variable>, b: Seq<Variable>, n: Seq<char>, i: int)
    requires
        same_graph(a, b),
        0 <= i <= a.len(),
    ensures
        position_of(a, n, i) == position_of(b, n, i),
    decreases a.len() - i,
{
    if i < a.len() {
        assert(a[i].name@ == b[i].name@);
        lemma_same_positions(a, b, n, i + 1);
    }
}

/// The graph checks depend on the names, the references and the
/// declared tiers alone.
pub proof fn lemma_same_graph(a: Seq<Variable>, b: Seq<Variable>)
    requires
        same_graph(a, b),
    ensures
        all_refs_declared(a) == all_refs_declared(b),
        acyclic(a) == acyclic(b),
        tiers_consistent(a) == tiers_consistent(b),
{
    assert forall|n: Seq<char>| #[trigger] position_of(a, n, 0) == position_of(b, n, 0) by {
        lemma_same_positions(a, b, n, 0);
    }
    assert forall|v: int, w: int| 0 <= v < a.len() implies #[trigger] refd(a, v, w) == refd(b, v, w) by {
        assert(a[v].refs_spec() == b[v].refs_spec());
        if refd(a, v, w) {
            let k = choose|k: int| 0 <= k < a[v].refs_spec().len() && #[trigger] position_of(a, a[v].refs_spec()[k], 0) == Some(w);
            assert(position_of(b, b[v].refs_spec()[k], 0) == Some(w));
        }
        if refd(b, v, w) {
            let k = choose|k: int| 0 <= k < b[v].refs_spec().len() && #[trigger] position_of(b, b[v].refs_spec()[k], 0) == Some(w);
            assert(position_of(a, a[v].refs_spec()[k], 0) == Some(w));
        }
    }
    if all_refs_declared(a) {
        assert forall|v: int, k: int| 0 <= v < b.len() && 0 <= k < b[v].refs_spec().len() implies position_of(b,
            #[trigger] b[v].refs_spec()[k], 0) is Some by {
            assert(a[v].refs_spec() == b[v].refs_spec());
            assert(position_of(a, a[v].refs_spec()[k], 0) is Some);
        }
    }
    if all_refs_declared(b) {
        assert forall|v: int, k: int| 0 <= v < a.len() && 0 <= k < a[v].refs_spec().len() implies position_of(a,
            #[trigger] a[v].refs_spec()[k], 0) is Some by {
            assert(a[v].refs_spec() == b[v].refs_spec());
            assert(position_of(b, b[v].refs_spec()[k], 0) is Some);
        }
    }
    if acyclic(a) {
        let pos = choose|pos: Seq<int>| ranks_refs(a, pos);
        assert forall|v: int, w: int| 0 <= v < b.len() && #[trigger] refd(b, v, w) implies pos[w] < pos[v] by {
            assert(refd(a, v, w));
        }
        assert(ranks_refs(b, pos));
    }
    if acyclic(b) {
        let pos = choose|pos: Seq<int>| ranks_refs(b, pos);
        assert forall|v: int, w: int| 0 <= v < a.len() && #[trigger] refd(a, v, w) implies pos[w] < pos[v] by {
            assert(refd(b, v, w));
        }
        assert(ranks_refs(a, pos));
    }
    if tiers_consistent(a) {
        let t = choose|t: Seq<Tier>| tiering(a, t);
        assert forall|v: int| 0 <= v < b.len() implies #[trigger] tier_follows(b, t, v) by {
            assert(tier_follows(a, t, v));
            assert(a[v].source.declared_tier_spec() == b[v].source.declared_tier_spec());
            if exists|w: int| refd(a, v, w) && t[w] is Spawn {
                let w = choose|w: int| refd(a, v, w) && t[w] is Spawn;
                assert(refd(b, v, w));
            }
            if exists|w: int| refd(b, v, w) && t[w] is Spawn {
                let w = choose|w: int| refd(b, v, w) && t[w] is Spawn;
                assert(refd(a, v, w));
            }
        }
        assert forall|v: int| 0 <= v < b.len() && (#[trigger] b[v]).source.declared_tier_spec() is Load implies t[v] is Load by {
            assert(a[v].source.declared_tier_spec() == b[v].source.declared_tier_spec());
        }
        assert(tiering(b, t));
    }
    if tiers_consistent(b) {
        let t = choose|t: Seq<Tier>| tiering(b, t);
        assert forall|v: int| 0 <= v < a.len() implies #[trigger] tier_follows(a, t, v) by {
            assert(tier_follows(b, t, v));
            assert(a[v].source.declared_tier_spec() == b[v].source.declared_tier_spec());
            if exists|w: int| refd(a, v, w) && t[w] is Spawn {
                let w = choose|w: int| refd(a, v, w) && t[w] is Spawn;
                assert(refd(b, v, w));
            }
            if exists|w: int| refd(b, v, w) && t[w] is Spawn {
                let w = choose|w: int| refd(b, v, w) && t[w] is Spawn;
                assert(refd(a, v, w));
            }
        }
        assert forall|v: int| 0 <= v < a.len() && (#[trigger] a[v]).source.declared_tier_spec() is Load implies t[v] is Load by {
            assert(a[v].source.declared_tier_spec() == b[v].source.declared_tier_spec());
        }
        assert(tiering(a, t));
    }
}

/// Variable `v`'s edges after its first `k` references: each
/// referenced variable's position, in reference order, once.
pub open spec fn edges_upto(vars: Seq<Variable>, v: int, k: int) -> Seq<usize>
    decreases k,
{
    if k <= 0 {
        seq![]
    } else {
        let e = edges_upto(vars, v, k - 1);
        let p = position_of(vars, vars[v].refs_spec()[k - 1], 0)->0 as usize;
        if e.contains(p) { e } else { e.push(p) }
    }
}

/// Every variable's edges, in reference order.
pub open spec fn edge_lists(vars: Seq<Variable>) -> Seq<Seq<usize>> {
    Seq::new(vars.len(), |v: int| edges_upto(vars, v, vars[v].refs_spec().len() as int))
}

/// Where the walk stands: the marks (0 unvisited, 1 on the stack, 2
/// finished), the stack of frames and their cursors, the tiers decided,
/// the finishing order, and the next root.
pub struct DfsState {
    pub mark: Seq<u8>,
    pub stack: Seq<(usize, usize)>,
    pub tiers: Seq<Tier>,
    pub order: Seq<usize>,
    pub root: int,
}

/// How the walk ends: every variable finished in `order`; a cycle along
/// the positions given; or load-time variable `a` reaching deferred `w`.
pub enum DfsEnd {
    Finished(Seq<usize>),
    Cycle(Seq<int>),
    Clash(int, int),
}

/// The first frame from `k` on whose variable is `x`.
pub open spec fn frame_of(st: Seq<(usize, usize)>, x: usize, k: int) -> int
    decreases st.len() - k,
{
    if k < 0 || k >= st.len() {
        st.len() as int
    } else if st[k].0 == x {
        k
    } else {
        frame_of(st, x, k + 1)
    }
}

/// The cycle a back edge to `next` closes: the frames from `next`'s
/// own up, then `next` again.
pub open spec fn cycle_of(st: Seq<(usize, usize)>, next: usize) -> Seq<int> {
    let start = frame_of(st, next, 0);
    Seq::new((st.len() - start) as nat, |j: int| st[start + j].0 as int).push(next as int)
}

/// The first of `ds` whose tier is spawn time.
pub open spec fn first_spawn(ds: Seq<usize>, tiers: Seq<Tier>, j: int) -> int
    decreases ds.len() - j,
{
    if j < 0 || j >= ds.len() {
        ds.len() as int
    } else if tiers[ds[j] as int] is Spawn {
        j
    } else {
        first_spawn(ds, tiers, j + 1)
    }
}

/// One step of the post-order walk: roots in declaration order, each
/// variable's references in reference order.
pub open spec fn dfs_step(vars: Seq<Variable>, deps: Seq<Seq<usize>>, s: DfsState) -> Result<DfsState, DfsEnd> {
    if s.stack.len() == 0 {
        if s.root >= vars.len() {
            Err(DfsEnd::Finished(s.order))
        } else if s.mark[s.root] == 0 {
            Ok(DfsState { mark: s.mark.update(s.root, 1), stack: seq![(s.root as usize, 0usize)], ..s })
        } else {
            Ok(DfsState { root: s.root + 1, ..s })
        }
    } else {
        let top = s.stack.len() - 1;
        let at = s.stack[top].0;
        let cursor = s.stack[top].1;
        if cursor < deps[at as int].len() {
            let next = deps[at as int][cursor as int];
            let st2 = s.stack.update(top, (at, (cursor + 1) as usize));
            if s.mark[next as int] == 0 {
                Ok(DfsState { mark: s.mark.update(next as int, 1), stack: st2.push((next, 0usize)), ..s })
            } else if s.mark[next as int] == 2 {
                Ok(DfsState { stack: st2, ..s })
            } else {
                Err(DfsEnd::Cycle(cycle_of(st2, next)))
            }
        } else {
            let declared = vars[at as int].source.declared_tier_spec();
            let effective = join(declared, tier_max(deps[at as int], s.tiers));
            if declared is Load && effective is Spawn {
                Err(DfsEnd::Clash(at as int, deps[at as int][first_spawn(deps[at as int], s.tiers, 0)] as int))
            } else {
                Ok(DfsState {
                    mark: s.mark.update(at as int, 2),
                    stack: s.stack.drop_last(),
                    tiers: s.tiers.update(at as int, effective),
                    order: s.order.push(at),
                    root: s.root,
                })
            }
        }
    }
}

/// The walk run for at most `fuel` steps.
pub open spec fn dfs_run(vars: Seq<Variable>, deps: Seq<Seq<usize>>, s: DfsState, fuel: nat) -> Option<DfsEnd>
    decreases fuel,
{
    if fuel == 0 {
        None
    } else {
        match dfs_step(vars, deps, s) {
            Err(e) => Some(e),
            Ok(s2) => dfs_run(vars, deps, s2, (fuel - 1) as nat),
        }
    }
}

pub open spec fn dfs_start(n: int) -> DfsState {
    DfsState {
        mark: Seq::new(n as nat, |i: int| 0u8),
        stack: seq![],
        tiers: Seq::new(n as nat, |i: int| Tier::Load),
        order: seq![],
        root: 0,
    }
}

/// Where the walk over a block's declarations ends.
pub open spec fn dfs_ends(vars: Seq<Variable>, e: DfsEnd) -> bool {
    exists|f: nat| #[trigger] dfs_run(vars, edge_lists(vars), dfs_start(vars.len() as int), f) == Some(e)
}

/// The refusal the walk's end is worded as.
pub open spec fn walk_refusal(vars: Seq<Variable>, text: Seq<char>, colored: bool, e: DfsEnd, msg: Seq<char>) -> bool {
    match e {
        DfsEnd::Cycle(idx) => idx.len() > 0 && placed_at_var(vars, text, colored, msg, idx[0], cycle_text(walk_names(vars, idx)),
            cycle_help()),
        DfsEnd::Clash(a, w) => 0 <= a < vars.len() && 0 <= w < vars.len() && placed_at_var(vars, text, colored, msg, a,
            tier_violation_text(vars[a].name@, vars[w].name@), tier_help(vars[a].name@, vars[w].name@)),
        DfsEnd::Finished(_) => false,
    }
}

proof fn lemma_run_step(vars: Seq<Variable>, deps: Seq<Seq<usize>>, s: DfsState, s2: DfsState)
    requires
        dfs_step(vars, deps, s) == Ok::<DfsState, DfsEnd>(s2),
    ensures
        forall|f: nat| #[trigger] dfs_run(vars, deps, s2, f) == dfs_run(vars, deps, s, f + 1),
{
    assert forall|f: nat| #[trigger] dfs_run(vars, deps, s2, f) == dfs_run(vars, deps, s, f + 1) by {
        assert((f + 1) as nat - 1 == f);
    }
}

} // verus!
