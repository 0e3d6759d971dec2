//! The decisions of variable derivation, one step at a time: which
//! variable is derived next, under which shell and with which command,
//! and what an override or a constant binds without running anything.
//! The caller runs each command and binds its value before asking for
//! the next step.

use vstd::prelude::*;
use vstd::string::*;

use crate::registry::{resolve_spec, ModeView, ShellDecl, ShellMode};
use crate::shell::DerivationFailure;
use crate::template::{expand_spec, Bindings};
use crate::variables::{Tier, VarSource, Variable, VariableBlock};

verus! {

/// What a walk over the variables asks for next.
pub enum DerivationStep {
    /// Every variable the walk covers has its value.
    Done,
    /// Run `command` under `shell` and bind its output to variable `index`.
    Derive { index: usize, command: String, shell: ShellMode },
    /// Variable `index` cannot be derived: its command, or its shell's
    /// name, names a value nobody gave.
    Refused { index: usize, command: String, failure: DerivationFailure },
}

/// The variable at position `k` of the walk's order is settled: left
/// out of this walk, or already given a value.
pub open spec fn settled(block: VariableBlock, wanted: Seq<bool>, b: Bindings, k: int) -> bool {
    let i = block.order@[k] as int;
    !wanted[i] || b.get_spec(block.vars@[i].name@) is Some
}

/// The shell declaration of a command variable.
pub open spec fn decl_of(v: Variable) -> ShellDecl {
    match v.source {
        VarSource::LoadCommand(d) => d,
        VarSource::SpawnCommand(d) => d,
        VarSource::Constant => ShellDecl::Direct,
    }
}

/// Nothing bound before is lost or changed.
pub open spec fn keeps(before: Bindings, after: Bindings) -> bool {
    forall|n: Seq<char>| #[trigger] before.get_spec(n) is Some ==> after.get_spec(n) == before.get_spec(n)
}

/// Every name bound now and not before was bound by an override, or is
/// a constant of the walk bound to its expanded text.
pub open spec fn binds_only_settled(block: VariableBlock, wanted: Seq<bool>, overrides: Bindings, before: Bindings, after: Bindings) -> bool {
    forall|n: Seq<char>| #[trigger] after.get_spec(n) is Some && before.get_spec(n) is None ==> exists|i: int|
        0 <= i < block.vars@.len() && wanted[i] && block.vars@[i].name@ == n && (match overrides.get_spec(n) {
            Some(o) => after.get_spec(n) == Some(o),
            None => block.vars@[i].source is Constant,
        })
}

/// The next step of a walk over the variables marked in `wanted`, in
/// the block's dependency order. An overridden variable is bound to
/// its override and never run; a constant is bound to its expanded
/// text; the first command variable left unbound is handed out with
/// its command and its shell expanded against what is bound so far.
/// The walk ends when every marked variable has a value.
pub fn next_derivation(block: &VariableBlock, wanted: &Vec<bool>, overrides: &Bindings, so_far: &mut Bindings) -> (s: DerivationStep)
    requires
        block.orders_declared(),
        wanted@.len() == block.vars@.len(),
    ensures
        keeps(*old(so_far), *final(so_far)),
        binds_only_settled(*block, wanted@, *overrides, *old(so_far), *final(so_far)),
        match s {
            DerivationStep::Done => forall|k: int| 0 <= k < block.order@.len() ==> settled(*block, wanted@, *final(so_far), k),
            DerivationStep::Derive { index, command, shell } => exists|k: int| {
                &&& 0 <= k < block.order@.len()
                &&& block.order@[k] == index
                &&& forall|k2: int| 0 <= k2 < k ==> settled(*block, wanted@, *final(so_far), k2)
                &&& wanted@[index as int]
                &&& final(so_far).get_spec(block.vars@[index as int].name@) is None
                &&& overrides.get_spec(block.vars@[index as int].name@) is None
                &&& !(block.vars@[index as int].source is Constant)
                &&& expand_spec(block.vars@[index as int].text, *final(so_far)) == Ok::<Seq<char>, Seq<char>>(command@)
                &&& resolve_spec(decl_of(block.vars@[index as int]), *final(so_far)) == Ok::<ModeView, Seq<char>>(shell@)
            },
            DerivationStep::Refused { index, command, failure } => exists|k: int| {
                &&& 0 <= k < block.order@.len()
                &&& block.order@[k] == index
                &&& forall|k2: int| 0 <= k2 < k ==> settled(*block, wanted@, *final(so_far), k2)
                &&& wanted@[index as int]
                &&& final(so_far).get_spec(block.vars@[index as int].name@) is None
                &&& overrides.get_spec(block.vars@[index as int].name@) is None
                &&& match expand_spec(block.vars@[index as int].text, *final(so_far)) {
                    Err(name) => failure matches DerivationFailure::Expansion(m) && m.name@ == name
                        && command@ == block.vars@[index as int].text.text@,
                    Ok(c) => !(block.vars@[index as int].source is Constant) && command@ == c && (resolve_spec(
                        decl_of(block.vars@[index as int]),
                        *final(so_far),
                    ) matches Err(d) && failure matches DerivationFailure::EmptyShell(e) && e.declared@ == d),
                }
            },
        },
{
    let ghost start = *so_far;
    let mut k: usize = 0;
    while k < block.order.len()
        invariant
            block.orders_declared(),
            wanted@.len() == block.vars@.len(),
            k <= block.order@.len(),
            start == *old(so_far),
            keeps(start, *so_far),
            binds_only_settled(*block, wanted@, *overrides, start, *so_far),
            forall|k2: int| 0 <= k2 < k ==> settled(*block, wanted@, *so_far, k2),
        decreases block.order@.len() - k,
    {
        let i = block.order[k];
        let var = &block.vars[i];
        if !wanted[i] {
            k = k + 1;
            continue;
        }
        if so_far.get(var.name.as_str()).is_some() {
            k = k + 1;
            continue;
        }
        let ghost before = *so_far;
        match overrides.get(var.name.as_str()) {
            Some(value) => {
                so_far.insert(var.name.clone(), value.clone());
                proof {
                    lemma_bind(*block, wanted@, *overrides, start, before, *so_far, i as int, k as int);
                }
                k = k + 1;
                continue;
            },
            None => {},
        }
        let command = match var.text.expand(so_far) {
            Ok(c) => c,
            Err(missing) => {
                return DerivationStep::Refused {
                    index: i,
                    command: var.text.text.clone(),
                    failure: DerivationFailure::Expansion(missing),
                };
            },
        };
        let decl = match var.source.shell() {
            Some(d) => d,
            None => {
                so_far.insert(var.name.clone(), command);
                proof {
                    lemma_bind(*block, wanted@, *overrides, start, before, *so_far, i as int, k as int);
                }
                k = k + 1;
                continue;
            },
        };
        return match decl.resolve(so_far) {
            Ok(shell) => DerivationStep::Derive { index: i, command, shell },
            Err(empty) => DerivationStep::Refused { index: i, command, failure: DerivationFailure::EmptyShell(empty) },
        };
    }
    DerivationStep::Done
}

/// Binding the walk's variable at order position `k` keeps every
/// earlier fact: what was bound stays, what is new is accounted for,
/// and the positions up to `k` are settled.
proof fn lemma_bind(
    block: VariableBlock,
    wanted: Seq<bool>,
    overrides: Bindings,
    start: Bindings,
    before: Bindings,
    after: Bindings,
    i: int,
    k: int,
)
    requires
        0 <= k < block.order@.len(),
        block.order@[k] == i,
        0 <= i < block.vars@.len(),
        wanted.len() == block.vars@.len(),
        wanted[i],
        before.get_spec(block.vars@[i].name@) is None,
        after.get_spec(block.vars@[i].name@) is Some,
        forall|n: Seq<char>| n != block.vars@[i].name@ ==> after.get_spec(n) == before.get_spec(n),
        match overrides.get_spec(block.vars@[i].name@) {
            Some(o) => after.get_spec(block.vars@[i].name@) == Some(o),
            None => block.vars@[i].source is Constant,
        },
        keeps(start, before),
        binds_only_settled(block, wanted, overrides, start, before),
        forall|k2: int| 0 <= k2 < k ==> settled(block, wanted, before, k2),
    ensures
        keeps(start, after),
        binds_only_settled(block, wanted, overrides, start, after),
        forall|k2: int| 0 <= k2 <= k ==> settled(block, wanted, after, k2),
{
    let name = block.vars@[i].name@;
    assert forall|n: Seq<char>| #[trigger] start.get_spec(n) is Some implies after.get_spec(n) == start.get_spec(n) by {
        assert(before.get_spec(n) == start.get_spec(n));
        if n == name {
            assert(false);
        }
    }
    assert forall|n: Seq<char>| #[trigger] after.get_spec(n) is Some && start.get_spec(n) is None implies exists|j: int|
        0 <= j < block.vars@.len() && wanted[j] && block.vars@[j].name@ == n && (match overrides.get_spec(n) {
            Some(o) => after.get_spec(n) == Some(o),
            None => block.vars@[j].source is Constant,
        }) by {
        if n == name {
            assert(block.vars@[i].name@ == n);
        } else {
            assert(before.get_spec(n) is Some);
            let j = choose|j: int| 0 <= j < block.vars@.len() && wanted[j] && block.vars@[j].name@ == n && (match overrides.get_spec(n) {
                Some(o) => before.get_spec(n) == Some(o),
                None => block.vars@[j].source is Constant,
            });
        }
    }
    assert forall|k2: int| 0 <= k2 <= k implies settled(block, wanted, after, k2) by {
        if k2 < k {
            assert(settled(block, wanted, before, k2));
            let i2 = block.order@[k2] as int;
            if wanted[i2] {
                let n2 = block.vars@[i2].name@;
                assert(before.get_spec(n2) is Some);
                if n2 != name {
                    assert(after.get_spec(n2) == before.get_spec(n2));
                }
            }
        }
    }
}

/// The walk at load: every variable whose tier is load time.
pub fn load_set(block: &VariableBlock) -> (r: Vec<bool>)
    ensures
        r@.len() == block.vars@.len(),
        forall|i: int| 0 <= i < r@.len() ==> #[trigger] r@[i] == (block.vars@[i].tier is Load),
{
    let mut r: Vec<bool> = Vec::new();
    let mut i: usize = 0;
    while i < block.vars.len()
        invariant
            i <= block.vars@.len(),
            r@.len() == i,
            forall|j: int| 0 <= j < i ==> #[trigger] r@[j] == (block.vars@[j].tier is Load),
        decreases block.vars@.len() - i,
    {
        let load = match block.vars[i].tier {
            Tier::Load => true,
            Tier::Spawn => false,
        };
        r.push(load);
        i = i + 1;
    }
    r
}

/// The spawn-time variable a name refers to, if it refers to one.
pub open spec fn spawn_target(block: VariableBlock, n: Seq<char>) -> Option<int> {
    match crate::variables::position_of(block.vars@, n, 0) {
        Some(p) => if block.vars@[p].tier is Spawn { Some(p) } else { None },
        None => None,
    }
}

/// `m` marks spawn-time variables only, every one a needed name refers
/// to, and every one a marked variable refers to.
pub open spec fn spawn_closed(block: VariableBlock, needed: Seq<Seq<char>>, m: Seq<bool>) -> bool {
    &&& m.len() == block.vars@.len()
    &&& forall|i: int| 0 <= i < m.len() && #[trigger] m[i] ==> block.vars@[i].tier is Spawn
    &&& forall|k: int| 0 <= k < needed.len() && #[trigger] spawn_target(block, needed[k]) is Some ==> m[spawn_target(block, needed[k])->0]
    &&& forall|i: int, k: int| #![trigger m[i], block.vars@[i].refs_spec()[k]] 0 <= i < m.len() && m[i] && 0 <= k < block.vars@[i].refs_spec().len()
        && spawn_target(block, block.vars@[i].refs_spec()[k]) is Some ==> m[spawn_target(block, block.vars@[i].refs_spec()[k])->0]
}

/// Why variable `x` is marked: a needed name refers to it, or a
/// variable marked before it does.
pub open spec fn marked_for(block: VariableBlock, needed: Seq<Seq<char>>, m: Seq<bool>, rank: Seq<int>, x: int) -> bool {
    (exists|k: int| 0 <= k < needed.len() && #[trigger] spawn_target(block, needed[k]) == Some(x)) || (exists|j: int, k: int|
        0 <= j < m.len() && m[j] && rank[j] < rank[x] && 0 <= k < block.vars@[j].refs_spec().len() && #[trigger] spawn_target(
            block,
            block.vars@[j].refs_spec()[k],
        ) == Some(x) && rank.len() == m.len())
}

/// Every marked variable is marked for a reason.
pub open spec fn spawn_justified(block: VariableBlock, needed: Seq<Seq<char>>, m: Seq<bool>) -> bool {
    exists|rank: Seq<int>| rank.len() == m.len() && forall|x: int| 0 <= x < m.len() && #[trigger] m[x] ==> marked_for(block, needed, m, rank, x)
}

/// How many positions are unmarked.
pub open spec fn unmarked(m: Seq<bool>) -> nat
    decreases m.len(),
{
    if m.len() == 0 {
        0
    } else {
        unmarked(m.drop_last()) + if m.last() { 0nat } else { 1nat }
    }
}

proof fn lemma_unmarked_set(m: Seq<bool>, p: int)
    requires
        0 <= p < m.len(),
        !m[p],
    ensures
        unmarked(m.update(p, true)) + 1 == unmarked(m),
    decreases m.len(),
{
    if p < m.len() - 1 {
        assert(m.update(p, true).drop_last() =~= m.drop_last().update(p, true));
        lemma_unmarked_set(m.drop_last(), p);
    } else {
        assert(m.update(p, true).drop_last() =~= m.drop_last());
    }
}

/// The spawn-time variables one spawn consumes: those its strings name,
/// and, through their references, every spawn-time variable they need,
/// however deep. Load-time variables are never reached through: their
/// values were fixed at load.
pub fn spawn_closure(block: &VariableBlock, needed: &[String]) -> (r: Vec<bool>)
    ensures
        spawn_closed(*block, crate::template::names_of(needed@), r@),
        spawn_justified(*block, crate::template::names_of(needed@), r@),
{
    let ghost nd = crate::template::names_of(needed@);
    let n = block.vars.len();
    let mut mark: Vec<bool> = Vec::new();
    let mut z: usize = 0;
    while z < n
        invariant
            z <= n,
            n == block.vars@.len(),
            mark@.len() == z,
            forall|i: int| 0 <= i < z ==> !(#[trigger] mark@[i]),
        decreases n - z,
    {
        mark.push(false);
        z = z + 1;
    }
    proof {
        assert forall|nm: Seq<char>| #[trigger] spawn_target(*block, nm) is Some implies 0 <= spawn_target(*block, nm)->0 < n by {
            crate::variables::lemma_position_in_range(block.vars@, nm, 0);
        }
    }
    let ghost mut rank: Seq<int> = Seq::new(n as nat, |i: int| 0int);
    let ghost mut clock: int = 0;
    let mut k: usize = 0;
    while k < needed.len()
        invariant
            k <= needed@.len(),
            nd == crate::template::names_of(needed@),
            n == block.vars@.len(),
            mark@.len() == n,
            rank.len() == n,
            forall|nm: Seq<char>| #[trigger] spawn_target(*block, nm) is Some ==> 0 <= spawn_target(*block, nm)->0 < n,
            forall|i: int| 0 <= i < n && #[trigger] mark@[i] ==> block.vars@[i].tier is Spawn && rank[i] < clock,
            forall|k2: int| 0 <= k2 < k && #[trigger] spawn_target(*block, nd[k2]) is Some ==> mark@[spawn_target(*block, nd[k2])->0],
            forall|x: int| 0 <= x < n && #[trigger] mark@[x] ==> marked_for(*block, nd, mark@, rank, x),
        decreases needed@.len() - k,
    {
        assert(nd[k as int] == needed@[k as int]@);
        match block.position(needed[k].as_str()) {
            Some(p) => {
                proof { crate::variables::lemma_position_in_range(block.vars@, needed@[k as int]@, 0); }
                let spawn = match block.vars[p].tier {
                    Tier::Spawn => true,
                    Tier::Load => false,
                };
                if spawn && !mark[p] {
                    let ghost old_mark = mark@;
                    let ghost old_rank = rank;
                    mark.set(p, true);
                    proof {
                        rank = rank.update(p as int, clock);
                        clock = clock + 1;
                        assert(spawn_target(*block, nd[k as int]) == Some(p as int));
                        assert forall|x: int| 0 <= x < n && #[trigger] mark@[x] implies marked_for(*block, nd, mark@, rank, x) by {
                            if x != p {
                                assert(old_mark[x]);
                                assert(marked_for(*block, nd, old_mark, old_rank, x));
                                if !(exists|k2: int| 0 <= k2 < nd.len() && #[trigger] spawn_target(*block, nd[k2]) == Some(x)) {
                                    let (j, kk) = choose|j: int, kk: int| 0 <= j < old_mark.len() && old_mark[j] && old_rank[j] < old_rank[x]
                                        && 0 <= kk < block.vars@[j].refs_spec().len() && #[trigger] spawn_target(
                                        *block,
                                        block.vars@[j].refs_spec()[kk],
                                    ) == Some(x) && old_rank.len() == old_mark.len();
                                    assert(j != p);
                                    assert(mark@[j] && rank[j] < rank[x]);
                                }
                            }
                        }
                    }
                }
            },
            None => {},
        }
        k = k + 1;
    }
    loop
        invariant
            nd == crate::template::names_of(needed@),
            n == block.vars@.len(),
            mark@.len() == n,
            rank.len() == n,
            forall|nm: Seq<char>| #[trigger] spawn_target(*block, nm) is Some ==> 0 <= spawn_target(*block, nm)->0 < n,
            forall|i: int| 0 <= i < n && #[trigger] mark@[i] ==> block.vars@[i].tier is Spawn && rank[i] < clock,
            forall|k2: int| 0 <= k2 < nd.len() && #[trigger] spawn_target(*block, nd[k2]) is Some ==> mark@[spawn_target(*block, nd[k2])->0],
            forall|x: int| 0 <= x < n && #[trigger] mark@[x] ==> marked_for(*block, nd, mark@, rank, x),
        ensures
            spawn_closed(*block, nd, mark@),
            forall|x: int| 0 <= x < n && #[trigger] mark@[x] ==> marked_for(*block, nd, mark@, rank, x),
        decreases unmarked(mark@),
    {
        let ghost pass_start = unmarked(mark@);
        let mut changed = false;
        let mut i: usize = 0;
        while i < n
            invariant
                i <= n,
                nd == crate::template::names_of(needed@),
                n == block.vars@.len(),
                mark@.len() == n,
                rank.len() == n,
                forall|nm: Seq<char>| #[trigger] spawn_target(*block, nm) is Some ==> 0 <= spawn_target(*block, nm)->0 < n,
                forall|x: int| 0 <= x < n && #[trigger] mark@[x] ==> block.vars@[x].tier is Spawn && rank[x] < clock,
                forall|k2: int| 0 <= k2 < nd.len() && #[trigger] spawn_target(*block, nd[k2]) is Some ==> mark@[spawn_target(*block, nd[k2])->0],
                forall|x: int| 0 <= x < n && #[trigger] mark@[x] ==> marked_for(*block, nd, mark@, rank, x),
                unmarked(mark@) <= pass_start,
                changed ==> unmarked(mark@) < pass_start,
                !changed ==> forall|i2: int, k2: int| #![trigger mark@[i2], block.vars@[i2].refs_spec()[k2]] 0 <= i2 < i && mark@[i2] && 0 <= k2 < block.vars@[i2].refs_spec().len()
                    && spawn_target(*block, block.vars@[i2].refs_spec()[k2]) is Some ==> mark@[spawn_target(*block, block.vars@[i2].refs_spec()[k2])->0],
            decreases n - i,
        {
            if mark[i] {
                let refs = block.vars[i].refs();
                let mut q: usize = 0;
                while q < refs.len()
                    invariant
                        i < n,
                        q <= refs@.len(),
                        crate::template::names_of(refs@) == block.vars@[i as int].refs_spec(),
                        nd == crate::template::names_of(needed@),
                        n == block.vars@.len(),
                        mark@.len() == n,
                        mark@[i as int],
                        rank.len() == n,
                        forall|nm: Seq<char>| #[trigger] spawn_target(*block, nm) is Some ==> 0 <= spawn_target(*block, nm)->0 < n,
                        forall|x: int| 0 <= x < n && #[trigger] mark@[x] ==> block.vars@[x].tier is Spawn && rank[x] < clock,
                        forall|k2: int| 0 <= k2 < nd.len() && #[trigger] spawn_target(*block, nd[k2]) is Some ==> mark@[spawn_target(*block, nd[k2])->0],
                        forall|x: int| 0 <= x < n && #[trigger] mark@[x] ==> marked_for(*block, nd, mark@, rank, x),
                        unmarked(mark@) <= pass_start,
                        changed ==> unmarked(mark@) < pass_start,
                        !changed ==> forall|i2: int, k2: int| #![trigger mark@[i2], block.vars@[i2].refs_spec()[k2]] 0 <= i2 < i && mark@[i2] && 0 <= k2 < block.vars@[i2].refs_spec().len()
                            && spawn_target(*block, block.vars@[i2].refs_spec()[k2]) is Some ==> mark@[spawn_target(*block, block.vars@[i2].refs_spec()[k2])->0],
                        !changed ==> forall|k2: int| 0 <= k2 < q && #[trigger] spawn_target(*block, block.vars@[i as int].refs_spec()[k2]) is Some
                            ==> mark@[spawn_target(*block, block.vars@[i as int].refs_spec()[k2])->0],
                    decreases refs@.len() - q,
                {
                    assert(block.vars@[i as int].refs_spec()[q as int] == refs@[q as int]@);
                    match block.position(refs[q].as_str()) {
                        Some(p) => {
                            proof { crate::variables::lemma_position_in_range(block.vars@, refs@[q as int]@, 0); }
                            let spawn = match block.vars[p].tier {
                                Tier::Spawn => true,
                                Tier::Load => false,
                            };
                            if spawn && !mark[p] {
                                let ghost old_mark = mark@;
                                let ghost old_rank = rank;
                                proof { lemma_unmarked_set(mark@, p as int); }
                                mark.set(p, true);
                                changed = true;
                                proof {
                                    assert(old_mark[i as int]);
                                    rank = rank.update(p as int, clock);
                                    clock = clock + 1;
                                    assert forall|x: int| 0 <= x < n && #[trigger] mark@[x] implies marked_for(*block, nd, mark@, rank, x) by {
                                        if x == p {
                                            assert(spawn_target(*block, block.vars@[i as int].refs_spec()[q as int]) == Some(x));
                                            assert(mark@[i as int] && rank[i as int] < rank[x]);
                                        } else {
                                            assert(old_mark[x]);
                                            assert(marked_for(*block, nd, old_mark, old_rank, x));
                                            if !(exists|k2: int| 0 <= k2 < nd.len() && #[trigger] spawn_target(*block, nd[k2]) == Some(x)) {
                                                let (j, kk) = choose|j: int, kk: int| 0 <= j < old_mark.len() && old_mark[j] && old_rank[j] < old_rank[x]
                                                    && 0 <= kk < block.vars@[j].refs_spec().len() && #[trigger] spawn_target(
                                                    *block,
                                                    block.vars@[j].refs_spec()[kk],
                                                ) == Some(x) && old_rank.len() == old_mark.len();
                                                assert(j != p);
                                                assert(mark@[j] && rank[j] < rank[x]);
                                            }
                                        }
                                    }
                                }
                            }
                        },
                        None => {},
                    }
                    q = q + 1;
                }
            }
            i = i + 1;
        }
        if !changed {
            break;
        }
    }
    proof {
        assert(rank.len() == mark@.len());
    }
    mark
}

/// A failed derivation, placed at its variable's declaration the way
/// a syntax error is: `line N, column M: ` and the refusal.
pub fn placed_refusal(text: &str, declared_at: usize, refusal: &str) -> (s: String)
    requires
        text@.len() < usize::MAX,
    ensures
        s@ == crate::dashboard_kdl::syntax_error_text_spec(
            crate::dashboard_kdl::line_column_spec(text@, declared_at as int).0 as nat,
            crate::dashboard_kdl::line_column_spec(text@, declared_at as int).1 as nat,
            Some(refusal@),
        ),
{
    let (line, column) = crate::dashboard_kdl::line_column(text, declared_at);
    crate::dashboard_kdl::syntax_error_text(line, column, Some(refusal))
}

} // verus!
