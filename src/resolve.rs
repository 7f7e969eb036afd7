//! Dependency resolution: a topological order of the registry, and the plan
//! of migrations that a store still needs.
use vstd::prelude::*;

use crate::applied::AppliedSet;
use crate::ident::MigrationId;
use crate::registry::{has_id, unique_ids, MigrateError, Migration, Registry};

verus! {

broadcast use vstd::seq_lib::group_seq_properties;

/// Every dependency of every registered migration is registered.
pub open spec fn deps_known(ms: Seq<Migration>) -> bool {
    forall|i: int, d: MigrationId|
        0 <= i < ms.len() && #[trigger] ms[i].depends_on(d) ==> has_id(ms, d)
}

/// Entry `i` depends on entry `j`.
pub open spec fn edge(ms: Seq<Migration>, i: int, j: int) -> bool {
    ms[i].depends_on(ms[j].id)
}

/// `s` is a nonempty group of entries each of which depends on another
/// member of the group: what a cycle of the dependency graph amounts to on a
/// finite registry.
#[verifier::opaque]
pub open spec fn self_dependent(ms: Seq<Migration>, s: Set<int>) -> bool {
    &&& exists|i: int| s.contains(i)
    &&& forall|i: int| #[trigger] s.contains(i) ==> 0 <= i < ms.len()
    &&& forall|i: int| #[trigger] s.contains(i) ==> exists|j: int| s.contains(j) && edge(ms, i, j)
}

/// The dependency graph has no cycle.
pub open spec fn acyclic(ms: Seq<Migration>) -> bool {
    forall|s: Set<int>| !#[trigger] self_dependent(ms, s)
}

/// Resolution succeeds exactly on registries that are closed under their
/// dependencies and acyclic.
pub open spec fn resolvable(ms: Seq<Migration>) -> bool {
    deps_known(ms) && acyclic(ms)
}

/// `plan` runs every registered migration that is not applied, each once, and
/// each after those of its dependencies that are not applied yet.
pub open spec fn plan_for(ms: Seq<Migration>, applied: Seq<MigrationId>, plan: Seq<MigrationId>) -> bool {
    &&& plan.no_duplicates()
    &&& forall|x: MigrationId| #[trigger] plan.contains(x) <==> (has_id(ms, x) && !applied.contains(x))
    &&& deps_before(ms, applied, plan)
}

/// Each dependency of an entry of `plan` is applied or comes earlier in it.
pub open spec fn deps_before(ms: Seq<Migration>, applied: Seq<MigrationId>, plan: Seq<MigrationId>) -> bool {
    forall|a: int, i: int, d: MigrationId|
        0 <= a < plan.len() && 0 <= i < ms.len() && ms[i].id == plan[a] && #[trigger] ms[i].depends_on(d)
            ==> applied.contains(d) || #[trigger] plan.take(a).contains(d)
}

/// `migration` is registered and depends on `missing`, which is not.
pub open spec fn unresolved(ms: Seq<Migration>, migration: MigrationId, missing: MigrationId) -> bool {
    &&& !has_id(ms, missing)
    &&& exists|i: int| 0 <= i < ms.len() && ms[i].id == migration && #[trigger] ms[i].depends_on(missing)
}

/// `c` is a cycle of the dependency graph: each entry depends on the next,
/// and the last on the first.
pub open spec fn is_cycle(ms: Seq<Migration>, c: Seq<usize>) -> bool {
    &&& c.len() > 0
    &&& forall|k: int| 0 <= k < c.len() ==> #[trigger] c[k] < ms.len()
    &&& forall|k: int| 0 <= k < c.len() - 1 ==> #[trigger] edge(ms, c[k] as int, c[k + 1] as int)
    &&& edge(ms, c.last() as int, c[0] as int)
}

/// Entry `i` lies on a cycle of the dependency graph.
pub open spec fn on_cycle(ms: Seq<Migration>, i: int) -> bool {
    exists|c: Seq<usize>| #[trigger] is_cycle(ms, c) && c[0] == i
}

/// `migration` is registered and lies on a cycle of the dependency graph.
pub open spec fn cyclic(ms: Seq<Migration>, migration: MigrationId) -> bool {
    exists|i: int| 0 <= i < ms.len() && #[trigger] on_cycle(ms, i) && ms[i].id == migration
}

/// Some entry among the positions `order` has identifier `d`.
pub open spec fn placed_id(ms: Seq<Migration>, order: Seq<usize>, d: MigrationId) -> bool {
    exists|b: int| 0 <= b < order.len() && #[trigger] ms[order[b] as int].id == d
}

/// Entry `i` is not done yet and every dependency of it is.
pub open spec fn ready(ms: Seq<Migration>, done: Seq<bool>, i: int) -> bool {
    &&& !done[i]
    &&& forall|d: MigrationId| #[trigger] ms[i].depends_on(d) ==> exists|p: int|
        0 <= p < ms.len() && ms[p].id == d && #[trigger] done[p]
}

/// The first entry, from position `i` on, that `ready` admits.
pub open spec fn first_ready_from(ms: Seq<Migration>, done: Seq<bool>, i: int) -> Option<int>
    decreases ms.len() - i,
{
    if i < 0 || i >= ms.len() {
        None
    } else if ready(ms, done, i) {
        Some(i)
    } else {
        first_ready_from(ms, done, i + 1)
    }
}

/// The positions that the resolver places from state `done` on, at most
/// `fuel` of them: each time the earliest registered entry that is ready.
pub open spec fn kahn(ms: Seq<Migration>, done: Seq<bool>, fuel: nat) -> Seq<usize>
    decreases fuel,
{
    if fuel == 0 {
        Seq::empty()
    } else {
        match first_ready_from(ms, done, 0) {
            None => Seq::empty(),
            Some(i) => seq![i as usize] + kahn(ms, done.update(i, true), (fuel - 1) as nat),
        }
    }
}

/// The resolver's order of the whole registry, by position.
pub open spec fn kahn_order(ms: Seq<Migration>) -> Seq<usize> {
    kahn(ms, Seq::new(ms.len(), |j: int| false), ms.len())
}

/// The identifiers of the entries at `order` that are not applied, in that
/// order.
pub open spec fn pending_ids(ms: Seq<Migration>, order: Seq<usize>, applied: Seq<MigrationId>) -> Seq<MigrationId>
    decreases order.len(),
{
    if order.len() == 0 {
        Seq::empty()
    } else {
        let id = ms[order.last() as int].id;
        pending_ids(ms, order.drop_last(), applied) + if applied.contains(id) {
            Seq::empty()
        } else {
            seq![id]
        }
    }
}

/// The identifiers of the entries at `order` that `to_revert` admits, in
/// reverse order.
pub open spec fn reverted_ids(
    ms: Seq<Migration>,
    order: Seq<usize>,
    applied: Seq<MigrationId>,
    keep: Seq<MigrationId>,
) -> Seq<MigrationId>
    decreases order.len(),
{
    if order.len() == 0 {
        Seq::empty()
    } else {
        let id = ms[order[0] as int].id;
        reverted_ids(ms, order.drop_first(), applied, keep) + if applied.contains(id) && !keep.contains(id) {
            seq![id]
        } else {
            Seq::empty()
        }
    }
}

/// How many entries of `s` are false.
pub open spec fn count_false(s: Seq<bool>) -> nat
    decreases s.len(),
{
    if s.len() == 0 {
        0
    } else {
        count_false(s.drop_last()) + if s.last() {
            0nat
        } else {
            1nat
        }
    }
}

proof fn lemma_count_false_set(s: Seq<bool>, i: int)
    requires
        0 <= i < s.len(),
        !s[i],
    ensures
        count_false(s.update(i, true)) + 1 == count_false(s),
    decreases s.len(),
{
    let t = s.update(i, true);
    if i == s.len() - 1 {
        assert(t.drop_last() =~= s.drop_last());
    } else {
        assert(t.drop_last() =~= s.drop_last().update(i, true));
        lemma_count_false_set(s.drop_last(), i);
    }
}

/// The first migration, in registration order, with a dependency that is not
/// registered, and that dependency.
fn find_unresolved(reg: &Registry) -> (r: Option<(MigrationId, MigrationId)>)
    requires
        reg.wf(),
    ensures
        r is None <==> deps_known(reg@),
        r matches Some(p) ==> has_id(reg@, p.0) && !has_id(reg@, p.1) && exists|i: int|
            0 <= i < reg@.len() && reg@[i].id == p.0 && reg@[i].depends_on(p.1),
{
    let n = reg.len();
    let mut i: usize = 0;
    while i < n
        invariant
            n == reg@.len(),
            reg.wf(),
            0 <= i <= n,
            forall|j: int, d: MigrationId|
                0 <= j < i && #[trigger] reg@[j].depends_on(d) ==> has_id(reg@, d),
        decreases n - i,
    {
        let m = reg.get(i);
        let mut k: usize = 0;
        while k < m.dependencies.len()
            invariant
                n == reg@.len(),
                reg.wf(),
                0 <= i < n,
                *m == reg@[i as int],
                0 <= k <= m.dependencies@.len(),
                forall|q: int| 0 <= q < k ==> has_id(reg@, #[trigger] m.dependencies@[q]),
            decreases m.dependencies@.len() - k,
        {
            let d = m.dependencies[k];
            if reg.position(d).is_none() {
                assert(reg@[i as int].depends_on(d));
                return Some((m.id, d));
            }
            k = k + 1;
        }
        i = i + 1;
    }
    None
}

/// Whether entry `i` can be placed: not placed yet, and all its dependencies
/// placed.
fn is_ready(reg: &Registry, done: &Vec<bool>, i: usize) -> (r: bool)
    requires
        reg.wf(),
        deps_known(reg@),
        done@.len() == reg@.len(),
        i < reg@.len(),
    ensures
        r == ready(reg@, done@, i as int),
{
    if done[i] {
        return false;
    }
    let m = reg.get(i);
    let mut k: usize = 0;
    while k < m.dependencies.len()
        invariant
            reg.wf(),
            done@.len() == reg@.len(),
            i < reg@.len(),
            *m == reg@[i as int],
            0 <= k <= m.dependencies@.len(),
            forall|q: int|
                0 <= q < k ==> exists|p: int|
                    0 <= p < reg@.len() && reg@[p].id == #[trigger] m.dependencies@[q] && done@[p],
        decreases m.dependencies@.len() - k,
    {
        let d = m.dependencies[k];
        match reg.position(d) {
            Some(p) => {
                if !done[p] {
                    proof {
                        assert(reg@[i as int].depends_on(d));
                        assert forall|p2: int|
                            0 <= p2 < reg@.len() && reg@[p2].id == d implies !done@[p2] by {
                            assert(reg@[p2].id == reg@[p as int].id);
                        }
                    }
                    return false;
                }
            },
            None => {
                assert(reg@[i as int].depends_on(d));
                return false;
            },
        }
        k = k + 1;
    }
    proof {
        assert forall|d: MigrationId| #[trigger] reg@[i as int].depends_on(d) implies exists|p: int|
            0 <= p < reg@.len() && reg@[p].id == d && #[trigger] done@[p] by {
            let q = choose|q: int| 0 <= q < m.dependencies@.len() && m.dependencies@[q] == d;
        }
    }
    true
}

/// The earliest registered entry that `ready` admits.
fn first_ready(reg: &Registry, done: &Vec<bool>) -> (r: Option<usize>)
    requires
        reg.wf(),
        deps_known(reg@),
        done@.len() == reg@.len(),
    ensures
        r matches Some(i) ==> i < reg@.len() && ready(reg@, done@, i as int),
        r is None ==> forall|i: int| 0 <= i < reg@.len() ==> !#[trigger] ready(reg@, done@, i),
        r matches Some(i) ==> first_ready_from(reg@, done@, 0) == Some(i as int),
        r is None ==> first_ready_from(reg@, done@, 0) is None,
{
    let n = reg.len();
    let mut i: usize = 0;
    while i < n
        invariant
            n == reg@.len(),
            reg.wf(),
            deps_known(reg@),
            done@.len() == reg@.len(),
            0 <= i <= n,
            forall|j: int| 0 <= j < i ==> !#[trigger] ready(reg@, done@, j),
            first_ready_from(reg@, done@, 0) == first_ready_from(reg@, done@, i as int),
        decreases n - i,
    {
        if is_ready(reg, done, i) {
            return Some(i);
        }
        i = i + 1;
    }
    None
}

/// Each entry of `order` comes after the entries it depends on.
pub open spec fn deps_first(ms: Seq<Migration>, order: Seq<usize>) -> bool {
    forall|a: int, d: MigrationId|
        0 <= a < order.len() && #[trigger] ms[order[a] as int].depends_on(d)
            ==> placed_id(ms, order.take(a), d)
}

/// `done` marks exactly the entries that `order` holds.
pub open spec fn marks(ms: Seq<Migration>, done: Seq<bool>, order: Seq<usize>) -> bool {
    &&& done.len() == ms.len()
    &&& ms.len() <= usize::MAX
    &&& forall|a: int| 0 <= a < order.len() ==> #[trigger] order[a] < ms.len()
    &&& forall|j: int| 0 <= j < ms.len() ==> (#[trigger] done[j] <==> order.contains(j as usize))
}

/// No member of a self-dependent group is marked.
pub open spec fn groups_unmarked(ms: Seq<Migration>, done: Seq<bool>) -> bool {
    forall|s: Set<int>, j: int| #[trigger] self_dependent(ms, s) && #[trigger] s.contains(j) ==> !done[j]
}

/// What holds of a partial order built so far: `done` marks exactly the
/// placed entries, each placed once and after its dependencies, and no member
/// of a self-dependent group is placed.
#[verifier::opaque]
pub open spec fn placing(ms: Seq<Migration>, done: Seq<bool>, order: Seq<usize>) -> bool {
    &&& order.no_duplicates()
    &&& marks(ms, done, order)
    &&& deps_first(ms, order)
    &&& groups_unmarked(ms, done)
}

proof fn lemma_ready_outside_groups(ms: Seq<Migration>, done: Seq<bool>, i: int, s: Set<int>)
    requires
        unique_ids(ms),
        done.len() == ms.len(),
        groups_unmarked(ms, done),
        0 <= i < ms.len(),
        ready(ms, done, i),
        self_dependent(ms, s),
    ensures
        !s.contains(i),
{
    reveal(self_dependent);
    if s.contains(i) {
        let j = choose|j: int| s.contains(j) && edge(ms, i, j);
        assert(ms[i].depends_on(ms[j].id));
        let p = choose|p: int| 0 <= p < ms.len() && ms[p].id == ms[j].id && #[trigger] done[p];
        assert(p == j);
        assert(!done[j]);
    }
}

proof fn lemma_place_groups(ms: Seq<Migration>, done: Seq<bool>, i: int)
    requires
        unique_ids(ms),
        done.len() == ms.len(),
        groups_unmarked(ms, done),
        0 <= i < ms.len(),
        ready(ms, done, i),
    ensures
        groups_unmarked(ms, done.update(i, true)),
{
    reveal(self_dependent);
    assert forall|s: Set<int>, j: int|
        #[trigger] self_dependent(ms, s) && #[trigger] s.contains(j) implies !done.update(i, true)[j] by {
        lemma_ready_outside_groups(ms, done, i, s);
    }
}

proof fn lemma_place_deps(ms: Seq<Migration>, done: Seq<bool>, order: Seq<usize>, i: usize)
    requires
        marks(ms, done, order),
        deps_first(ms, order),
        i < ms.len(),
        ready(ms, done, i as int),
    ensures
        deps_first(ms, order.push(i)),
{
    let order2 = order.push(i);
    assert(order2.take(order2.len() - 1) =~= order);
    assert forall|a: int, d: MigrationId|
        0 <= a < order2.len() && #[trigger] ms[order2[a] as int].depends_on(d) implies placed_id(
        ms,
        order2.take(a),
        d,
    ) by {
        if a < order.len() {
            assert(order2.take(a) =~= order.take(a));
            assert(ms[order[a] as int].depends_on(d));
        } else {
            assert(ms[i as int].depends_on(d));
            let p = choose|p: int| 0 <= p < ms.len() && ms[p].id == d && #[trigger] done[p];
            assert(order.contains(p as usize));
            let b = choose|b: int| 0 <= b < order.len() && order[b] == p as usize;
            assert(order2.take(a)[b] == order[b]);
            assert(ms[order2.take(a)[b] as int].id == d);
        }
    }
}

proof fn lemma_place(ms: Seq<Migration>, done: Seq<bool>, order: Seq<usize>, i: usize)
    requires
        unique_ids(ms),
        placing(ms, done, order),
        i < ms.len(),
        ready(ms, done, i as int),
    ensures
        placing(ms, done.update(i as int, true), order.push(i)),
        count_false(done.update(i as int, true)) + 1 == count_false(done),
{
    reveal(placing);
    lemma_count_false_set(done, i as int);
    lemma_place_groups(ms, done, i as int);
    lemma_place_deps(ms, done, order, i);
    let done2 = done.update(i as int, true);
    let order2 = order.push(i);
    assert(!order.contains(i));
    assert forall|j: int| 0 <= j < ms.len() implies (#[trigger] done2[j] <==> order2.contains(
        j as usize,
    )) by {
        if j != i {
            assert(done2[j] == done[j]);
        } else {
            assert(order2[order2.len() - 1] == i);
        }
    }
    assert forall|a: int| 0 <= a < order2.len() implies #[trigger] order2[a] < ms.len() by {
        if a < order.len() {
            assert(order2[a] == order[a]);
        }
    }
}

/// The first unmarked position.
fn first_unmarked(done: &Vec<bool>) -> (r: Option<usize>)
    ensures
        r matches Some(p) ==> p < done@.len() && !done@[p as int],
        r is None ==> forall|j: int| 0 <= j < done@.len() ==> #[trigger] done@[j],
{
    let mut p: usize = 0;
    while p < done.len()
        invariant
            0 <= p <= done@.len(),
            forall|j: int| 0 <= j < p ==> #[trigger] done@[j],
        decreases done@.len() - p,
    {
        if !done[p] {
            return Some(p);
        }
        p = p + 1;
    }
    None
}

/// Where nothing is ready, the entries not yet placed form a self-dependent
/// group, unless there are none.
proof fn lemma_stuck(ms: Seq<Migration>, done: Seq<bool>, p: int)
    requires
        deps_known(ms),
        done.len() == ms.len(),
        0 <= p < ms.len(),
        !done[p],
        forall|i: int| 0 <= i < ms.len() ==> !#[trigger] ready(ms, done, i),
    ensures
        exists|s: Set<int>| self_dependent(ms, s) && #[trigger] s.contains(p),
{
    reveal(self_dependent);
    let s = Set::new(|j: int| 0 <= j < ms.len() && !done[j]);
    assert(s.contains(p));
    assert forall|j: int| #[trigger] s.contains(j) implies exists|q: int| s.contains(q) && edge(ms, j, q) by {
        assert(!ready(ms, done, j));
        let d = choose|d: MigrationId|
            #[trigger] ms[j].depends_on(d) && !exists|q: int| 0 <= q < ms.len() && ms[q].id == d && #[trigger] done[q];
        assert(has_id(ms, d));
        let q = choose|q: int| 0 <= q < ms.len() && #[trigger] ms[q].id == d;
        assert(s.contains(q));
        assert(edge(ms, j, q));
    }
    assert(self_dependent(ms, s));
}

proof fn lemma_start(ms: Seq<Migration>, done: Seq<bool>)
    requires
        ms.len() <= usize::MAX,
        done.len() == ms.len(),
        forall|j: int| 0 <= j < done.len() ==> !#[trigger] done[j],
    ensures
        placing(ms, done, Seq::<usize>::empty()),
{
    reveal(self_dependent);
    reveal(placing);
}

/// `order` holds every position once, each after its dependencies.
pub open spec fn complete_order(ms: Seq<Migration>, order: Seq<usize>) -> bool {
    &&& order.len() == ms.len()
    &&& order.no_duplicates()
    &&& forall|a: int| 0 <= a < order.len() ==> #[trigger] order[a] < ms.len()
    &&& forall|j: usize| j < ms.len() ==> #[trigger] order.contains(j)
    &&& deps_first(ms, order)
}

proof fn lemma_complete(ms: Seq<Migration>, done: Seq<bool>, order: Seq<usize>)
    requires
        placing(ms, done, order),
        done.len() == ms.len(),
        order.len() + count_false(done) == ms.len(),
        forall|j: int| 0 <= j < done.len() ==> #[trigger] done[j],
    ensures
        acyclic(ms),
        complete_order(ms, order),
{
    reveal(self_dependent);
    reveal(placing);
    assert forall|s: Set<int>| !#[trigger] self_dependent(ms, s) by {
        if self_dependent(ms, s) {
            let j = choose|j: int| s.contains(j);
            assert(done[j]);
        }
    }
    if count_false(done) > 0 {
        lemma_count_false_witness(done);
    }
    assert forall|j: usize| j < ms.len() implies #[trigger] order.contains(j) by {
        assert(done[j as int]);
    }
}

/// A dependency of entry `c` that is not placed, where `c` is neither placed
/// nor ready.
fn unplaced_dependency(reg: &Registry, done: &Vec<bool>, c: usize) -> (q: usize)
    requires
        reg.wf(),
        deps_known(reg@),
        done@.len() == reg@.len(),
        c < reg@.len(),
        !done@[c as int],
        !ready(reg@, done@, c as int),
    ensures
        q < reg@.len(),
        !done@[q as int],
        edge(reg@, c as int, q as int),
{
    let m = reg.get(c);
    let mut k: usize = 0;
    while k < m.dependencies.len()
        invariant
            reg.wf(),
            deps_known(reg@),
            done@.len() == reg@.len(),
            c < reg@.len(),
            *m == reg@[c as int],
            0 <= k <= m.dependencies@.len(),
            forall|j: int|
                0 <= j < k ==> exists|p: int|
                    0 <= p < reg@.len() && reg@[p].id == #[trigger] m.dependencies@[j] && done@[p],
        decreases m.dependencies@.len() - k,
    {
        let d = m.dependencies[k];
        assert(reg@[c as int].depends_on(d));
        if let Some(q) = reg.position(d) {
            if !done[q] {
                return q;
            }
        }
        k = k + 1;
    }
    proof {
        assert forall|d: MigrationId| #[trigger] reg@[c as int].depends_on(d) implies exists|p: int|
            0 <= p < reg@.len() && reg@[p].id == d && #[trigger] done@[p] by {
            let j = choose|j: int| 0 <= j < m.dependencies@.len() && m.dependencies@[j] == d;
        }
        assert(ready(reg@, done@, c as int));
    }
    0
}

/// An entry on a cycle, found by following unplaced dependencies from `p`
/// until one repeats.
fn cycle_from(reg: &Registry, done: &Vec<bool>, p: usize) -> (r: usize)
    requires
        reg.wf(),
        deps_known(reg@),
        done@.len() == reg@.len(),
        p < reg@.len(),
        !done@[p as int],
        forall|i: int| 0 <= i < reg@.len() ==> !#[trigger] ready(reg@, done@, i),
    ensures
        r < reg@.len(),
        on_cycle(reg@, r as int),
{
    let n = reg.len();
    let mut on_path: Vec<bool> = Vec::new();
    while on_path.len() < n
        invariant
            n == reg@.len(),
            on_path@.len() <= n,
            forall|j: int| 0 <= j < on_path@.len() ==> !#[trigger] on_path@[j],
        decreases n - on_path@.len(),
    {
        on_path.push(false);
    }
    on_path.set(p, true);
    let mut path: Vec<usize> = Vec::new();
    path.push(p);
    let mut c = p;
    proof {
        assert forall|j: int| 0 <= j < n implies (#[trigger] on_path@[j] <==> path@.contains(j as usize)) by {
            if j == p {
                assert(path@[0] == p);
            }
        }
    }
    loop
        invariant
            n == reg@.len(),
            reg.wf(),
            deps_known(reg@),
            done@.len() == n,
            forall|i: int| 0 <= i < n ==> !#[trigger] ready(reg@, done@, i),
            on_path@.len() == n,
            path@.len() > 0,
            c == path@.last(),
            forall|k: int| 0 <= k < path@.len() ==> #[trigger] path@[k] < n && !done@[path@[k] as int],
            forall|k: int| 0 <= k < path@.len() - 1 ==> #[trigger] edge(reg@, path@[k] as int, path@[k + 1] as int),
            forall|j: int| 0 <= j < n ==> (#[trigger] on_path@[j] <==> path@.contains(j as usize)),
        decreases count_false(on_path@),
    {
        assert(path@[path@.len() - 1] == c);
        let q = unplaced_dependency(reg, done, c);
        if on_path[q] {
            let len = path.len();
            let mut t: usize = 0;
            while path[t] != q
                invariant
                    len == path@.len(),
                    0 <= t < path@.len(),
                    path@.contains(q),
                    forall|k: int| 0 <= k < t ==> path@[k] != q,
                decreases path@.len() - t,
            {
                proof {
                    let j = choose|j: int| 0 <= j < path@.len() && path@[j] == q;
                    assert(j > t);
                }
                t = t + 1;
            }
            proof {
                let cyc = path@.skip(t as int);
                assert(cyc[0] == q);
                assert(cyc.last() == c);
                assert forall|k: int| 0 <= k < cyc.len() - 1 implies #[trigger] edge(reg@, cyc[k] as int, cyc[k + 1] as int) by {
                    assert(edge(reg@, path@[k + t] as int, path@[k + t + 1] as int));
                }
                assert forall|k: int| 0 <= k < cyc.len() implies #[trigger] cyc[k] < reg@.len() by {
                    assert(path@[k + t] < n);
                }
                assert(is_cycle(reg@, cyc));
            }
            return q;
        }
        let ghost before = path@;
        proof {
            lemma_count_false_set(on_path@, q as int);
        }
        on_path.set(q, true);
        path.push(q);
        c = q;
        proof {
            assert forall|k: int| 0 <= k < path@.len() - 1 implies #[trigger] edge(reg@, path@[k] as int, path@[k + 1] as int) by {
                if k < before.len() - 1 {
                    assert(path@[k] == before[k] && path@[k + 1] == before[k + 1]);
                } else {
                    assert(path@[k] == before.last());
                }
            }
            assert forall|k: int| 0 <= k < path@.len() implies #[trigger] path@[k] < n && !done@[path@[k] as int] by {
                if k < before.len() {
                    assert(path@[k] == before[k]);
                }
            }
        }
    }
}

/// Every registered migration, by position, each after its dependencies; among
/// those whose dependencies are all placed, the earliest registered comes
/// first. Where no such order exists, the position of the first entry that
/// could not be placed leads to a cycle, and an entry on that cycle is given.
fn topological_order(reg: &Registry) -> (r: Result<Vec<usize>, usize>)
    requires
        reg.wf(),
        deps_known(reg@),
    ensures
        r is Ok <==> acyclic(reg@),
        r matches Ok(order) ==> complete_order(reg@, order@),
        r matches Ok(order) ==> order@ == kahn_order(reg@),
        r matches Err(p) ==> p < reg@.len() && on_cycle(reg@, p as int),
{
    let n = reg.len();
    let mut done: Vec<bool> = Vec::new();
    while done.len() < n
        invariant
            n == reg@.len(),
            done@.len() <= n,
            forall|j: int| 0 <= j < done@.len() ==> !#[trigger] done@[j],
            count_false(done@) == done@.len(),
        decreases n - done@.len(),
    {
        proof {
            assert(done@.push(false).drop_last() =~= done@);
        }
        done.push(false);
    }
    let mut order: Vec<usize> = Vec::new();
    proof {
        lemma_start(reg@, done@);
        assert(done@ =~= Seq::new(reg@.len(), |j: int| false));
        assert(order@ + kahn(reg@, done@, count_false(done@)) =~= kahn_order(reg@));
    }
    loop
        invariant
            n == reg@.len(),
            reg.wf(),
            deps_known(reg@),
            placing(reg@, done@, order@),
            done@.len() == n,
            order@.len() + count_false(done@) == n,
            order@ + kahn(reg@, done@, count_false(done@)) == kahn_order(reg@),
        ensures
            order@ == kahn_order(reg@),
            placing(reg@, done@, order@),
            done@.len() == n,
            order@.len() + count_false(done@) == n,
            forall|i: int| 0 <= i < reg@.len() ==> !#[trigger] ready(reg@, done@, i),
        decreases count_false(done@),
    {
        match first_ready(reg, &done) {
            Some(i) => {
                let ghost before = order@;
                let ghost done_before = done@;
                proof {
                    lemma_place(reg@, done@, order@, i);
                    let f = count_false(done@);
                    assert(kahn(reg@, done@, f) == seq![i] + kahn(
                        reg@,
                        done@.update(i as int, true),
                        (f - 1) as nat,
                    ));
                }
                done.set(i, true);
                order.push(i);
                proof {
                    assert(before + kahn(reg@, done_before, count_false(done_before)) =~= order@ + kahn(
                        reg@,
                        done@,
                        count_false(done@),
                    ));
                }
            },
            None => {
                proof {
                    assert(kahn(reg@, done@, count_false(done@)) =~= Seq::<usize>::empty());
                    assert(order@ + Seq::<usize>::empty() =~= order@);
                }
                break ;
            },
        }
    }
    if let Some(p) = first_unmarked(&done) {
        proof {
            lemma_stuck(reg@, done@, p as int);
            assert(p < reg@.len());
            let s = choose|s: Set<int>| self_dependent(reg@, s) && #[trigger] s.contains(p as int);
            assert(self_dependent(reg@, s) && s.contains(p as int));
            assert(!acyclic(reg@));
        }
        return Err(cycle_from(reg, &done, p));
    }
    proof {
        lemma_complete(reg@, done@, order@);
    }
    Ok(order)
}

proof fn lemma_count_false_witness(s: Seq<bool>)
    requires
        count_false(s) > 0,
    ensures
        exists|j: int| 0 <= j < s.len() && !s[j],
    decreases s.len(),
{
    if s.len() > 0 && s.last() {
        lemma_count_false_witness(s.drop_last());
        let j = choose|j: int| 0 <= j < s.len() - 1 && !s.drop_last()[j];
        assert(!s[j]);
    } else if s.len() > 0 {
        assert(!s[s.len() - 1]);
    }
}

/// The plan built from the first `k` entries of `order`: theirs, minus the
/// applied ones.
pub open spec fn partial_plan(
    ms: Seq<Migration>,
    applied: Seq<MigrationId>,
    order: Seq<usize>,
    k: int,
    plan: Seq<MigrationId>,
) -> bool {
    &&& plan.no_duplicates()
    &&& forall|x: MigrationId| #[trigger] plan.contains(x) <==> (placed_id(ms, order.take(k), x) && !applied.contains(x))
    &&& deps_before(ms, applied, plan)
}

proof fn lemma_extend_plan(
    ms: Seq<Migration>,
    applied: Seq<MigrationId>,
    order: Seq<usize>,
    k: int,
    plan: Seq<MigrationId>,
)
    requires
        unique_ids(ms),
        complete_order(ms, order),
        0 <= k < order.len(),
        partial_plan(ms, applied, order, k, plan),
    ensures
        applied.contains(ms[order[k] as int].id) ==> partial_plan(ms, applied, order, k + 1, plan),
        !applied.contains(ms[order[k] as int].id) ==> partial_plan(
            ms,
            applied,
            order,
            k + 1,
            plan.push(ms[order[k] as int].id),
        ),
{
    let id = ms[order[k] as int].id;
    assert forall|x: MigrationId| placed_id(ms, order.take(k + 1), x) <==> (placed_id(ms, order.take(k), x) || x == id) by {
        if placed_id(ms, order.take(k + 1), x) {
            let b = choose|b: int| 0 <= b < k + 1 && #[trigger] ms[order.take(k + 1)[b] as int].id == x;
            if b < k {
                assert(ms[order.take(k)[b] as int].id == x);
            }
        }
        if placed_id(ms, order.take(k), x) {
            let b = choose|b: int| 0 <= b < k && #[trigger] ms[order.take(k)[b] as int].id == x;
            assert(ms[order.take(k + 1)[b] as int].id == x);
        }
        if x == id {
            assert(ms[order.take(k + 1)[k] as int].id == x);
        }
    }
    if !applied.contains(id) {
        let plan2 = plan.push(id);
        assert(!plan.contains(id)) by {
            if plan.contains(id) {
                let b = choose|b: int| 0 <= b < k && #[trigger] ms[order.take(k)[b] as int].id == id;
                assert(order[b] == order[k]);
            }
        }
        assert(plan2.take(plan.len() as int) =~= plan);
        assert forall|a: int, i: int, d: MigrationId|
            0 <= a < plan2.len() && 0 <= i < ms.len() && ms[i].id == plan2[a] && #[trigger] ms[i].depends_on(d)
                implies applied.contains(d) || #[trigger] plan2.take(a).contains(d) by {
            if a < plan.len() {
                assert(plan2.take(a) =~= plan.take(a));
            } else {
                assert(i == order[k] as int);
                assert(placed_id(ms, order.take(k), d));
            }
        }
    }
}

/// The migrations that a store with applied-set `applied` still needs, in
/// an order in which each comes after its dependencies; among those ready at
/// the same time, the earliest registered runs first.
///
/// Fails with `UnresolvedDependency` where a dependency is not registered,
/// else with `CyclicDependency` where the dependency graph has a cycle. It
/// reads its arguments only.
pub fn resolve(registry: &Registry, applied: &AppliedSet) -> (r: Result<Vec<MigrationId>, MigrateError>)
    requires
        registry.wf(),
    ensures
        r is Ok <==> resolvable(registry@),
        r matches Ok(plan) ==> plan_for(registry@, applied@, plan@),
        r matches Ok(plan) ==> plan@ == pending_ids(registry@, kahn_order(registry@), applied@),
        (r matches Err(MigrateError::UnresolvedDependency { .. })) <==> !deps_known(registry@),
        r matches Err(MigrateError::UnresolvedDependency { migration, missing }) ==> unresolved(
            registry@,
            migration,
            missing,
        ),
        r matches Err(MigrateError::CyclicDependency { migration }) ==> deps_known(registry@) && cyclic(
            registry@,
            migration,
        ),
        r matches Err(e) ==> e is UnresolvedDependency || e is CyclicDependency,
{
    if let Some((migration, missing)) = find_unresolved(registry) {
        return Err(MigrateError::UnresolvedDependency { migration, missing });
    }
    let order = match topological_order(registry) {
        Ok(order) => order,
        Err(p) => {
            let migration = registry.get(p).id;
            return Err(MigrateError::CyclicDependency { migration });
        },
    };
    let ghost ms = registry@;
    let mut plan: Vec<MigrationId> = Vec::new();
    let mut k: usize = 0;
    proof {
        assert(partial_plan(ms, applied@, order@, 0, plan@));
    }
    while k < order.len()
        invariant
            ms == registry@,
            unique_ids(ms),
            complete_order(ms, order@),
            0 <= k <= order@.len(),
            partial_plan(ms, applied@, order@, k as int, plan@),
            plan@ == pending_ids(ms, order@.take(k as int), applied@),
        decreases order@.len() - k,
    {
        let id = registry.get(order[k]).id;
        proof {
            lemma_extend_plan(ms, applied@, order@, k as int, plan@);
            assert(order@.take(k + 1).drop_last() =~= order@.take(k as int));
        }
        if !applied.contains(id) {
            plan.push(id);
        }
        k = k + 1;
        proof {
            assert(plan@ =~= pending_ids(ms, order@.take(k as int), applied@));
        }
    }
    proof {
        assert(order@.take(k as int) =~= order@);
        assert forall|x: MigrationId| #[trigger] has_id(ms, x) implies placed_id(ms, order@, x) by {
            let j = choose|j: int| 0 <= j < ms.len() && #[trigger] ms[j].id == x;
            assert(order@.contains(j as usize));
            let b = choose|b: int| 0 <= b < order@.len() && order@[b] == j as usize;
            assert(ms[order@[b] as int].id == x);
        }
    }
    Ok(plan)
}

/// `x` is a registered migration that is applied and that `keep` leaves out.
pub open spec fn to_revert(ms: Seq<Migration>, applied: Seq<MigrationId>, keep: Seq<MigrationId>, x: MigrationId) -> bool {
    has_id(ms, x) && applied.contains(x) && !keep.contains(x)
}

/// Every registered migration that `to_revert` admits can be reverted.
pub open spec fn all_reversible(ms: Seq<Migration>, applied: Seq<MigrationId>, keep: Seq<MigrationId>) -> bool {
    forall|i: int| 0 <= i < ms.len() && #[trigger] to_revert(ms, applied, keep, ms[i].id) ==> ms[i].reversible()
}

/// `plan` reverts each migration that `to_revert` admits, once, and each
/// before every migration of the plan that it depends on.
pub open spec fn revert_plan_for(
    ms: Seq<Migration>,
    applied: Seq<MigrationId>,
    keep: Seq<MigrationId>,
    plan: Seq<MigrationId>,
) -> bool {
    &&& plan.no_duplicates()
    &&& forall|x: MigrationId| #[trigger] plan.contains(x) <==> to_revert(ms, applied, keep, x)
    &&& dependents_first(ms, plan)
}

/// No entry of `plan` depends on itself or on an earlier entry.
pub open spec fn dependents_first(ms: Seq<Migration>, plan: Seq<MigrationId>) -> bool {
    forall|a: int, i: int, d: MigrationId|
        0 <= a < plan.len() && 0 <= i < ms.len() && ms[i].id == plan[a] && #[trigger] ms[i].depends_on(d)
            ==> !#[trigger] plan.take(a + 1).contains(d)
}

/// The revert plan built from the entries of `order` from `k` on.
pub open spec fn partial_revert(
    ms: Seq<Migration>,
    applied: Seq<MigrationId>,
    keep: Seq<MigrationId>,
    order: Seq<usize>,
    k: int,
    plan: Seq<MigrationId>,
) -> bool {
    &&& plan.no_duplicates()
    &&& forall|x: MigrationId| #[trigger] plan.contains(x) <==> (placed_id(ms, order.skip(k), x) && applied.contains(x) && !keep.contains(x))
    &&& dependents_first(ms, plan)
    &&& forall|i: int| 0 <= i < ms.len() && #[trigger] plan.contains(ms[i].id) ==> ms[i].reversible()
}

proof fn lemma_extend_revert(
    ms: Seq<Migration>,
    applied: Seq<MigrationId>,
    keep: Seq<MigrationId>,
    order: Seq<usize>,
    k: int,
    plan: Seq<MigrationId>,
)
    requires
        unique_ids(ms),
        complete_order(ms, order),
        0 < k <= order.len(),
        partial_revert(ms, applied, keep, order, k, plan),
    ensures
        ({
            let e = ms[order[k - 1] as int];
            &&& (!applied.contains(e.id) || keep.contains(e.id)) ==> partial_revert(ms, applied, keep, order, k - 1, plan)
            &&& (applied.contains(e.id) && !keep.contains(e.id) && e.reversible()) ==> partial_revert(
                ms,
                applied,
                keep,
                order,
                k - 1,
                plan.push(e.id),
            )
        }),
{
    let e = ms[order[k - 1] as int];
    let id = e.id;
    assert forall|x: MigrationId| placed_id(ms, order.skip(k - 1), x) <==> (placed_id(ms, order.skip(k), x) || x == id) by {
        if placed_id(ms, order.skip(k - 1), x) {
            let b = choose|b: int| 0 <= b < order.len() - (k - 1) && #[trigger] ms[order.skip(k - 1)[b] as int].id == x;
            if b > 0 {
                assert(ms[order.skip(k)[b - 1] as int].id == x);
            }
        }
        if placed_id(ms, order.skip(k), x) {
            let b = choose|b: int| 0 <= b < order.len() - k && #[trigger] ms[order.skip(k)[b] as int].id == x;
            assert(ms[order.skip(k - 1)[b + 1] as int].id == x);
        }
        if x == id {
            assert(ms[order.skip(k - 1)[0] as int].id == x);
        }
    }
    // nothing in the plan so far is the new entry or one of its dependencies
    assert forall|d: MigrationId| #[trigger] e.depends_on(d) implies !plan.contains(d) && d != id by {
        assert(ms[order[k - 1] as int].depends_on(d));
        assert(placed_id(ms, order.take(k - 1), d));
        let b = choose|b: int| 0 <= b < k - 1 && #[trigger] ms[order.take(k - 1)[b] as int].id == d;
        assert(ms[order[b] as int].id == d);
        if plan.contains(d) {
            let c = choose|c: int| 0 <= c < order.len() - k && #[trigger] ms[order.skip(k)[c] as int].id == d;
            assert(order[b] == order[c + k]);
        }
        if d == id {
            assert(order[b] == order[k - 1]);
        }
    }
    if applied.contains(id) && !keep.contains(id) && e.reversible() {
        let plan2 = plan.push(id);
        assert(!plan.contains(id)) by {
            if plan.contains(id) {
                let c = choose|c: int| 0 <= c < order.len() - k && #[trigger] ms[order.skip(k)[c] as int].id == id;
                assert(order[k - 1] == order[c + k]);
            }
        }
        assert forall|a: int, i: int, d: MigrationId|
            0 <= a < plan2.len() && 0 <= i < ms.len() && ms[i].id == plan2[a] && #[trigger] ms[i].depends_on(d)
                implies !#[trigger] plan2.take(a + 1).contains(d) by {
            if a < plan.len() {
                assert(plan2.take(a + 1) =~= plan.take(a + 1));
            } else {
                assert(i == order[k - 1] as int);
                assert(plan2.take(a + 1) =~= plan2);
                assert(e.depends_on(d));
            }
        }
        assert forall|i: int| 0 <= i < ms.len() && #[trigger] plan2.contains(ms[i].id) implies ms[i].reversible() by {
            if ms[i].id == id {
                assert(i == order[k - 1] as int);
            }
        }
    }
}

/// `keep` is a set that a revert can leave applied: registered, applied, and
/// closed under dependencies.
pub open spec fn keep_ok(ms: Seq<Migration>, applied: Seq<MigrationId>, keep: Seq<MigrationId>) -> bool {
    &&& target_known(ms, keep)
    &&& target_closed(ms, Seq::empty(), keep)
    &&& forall|x: MigrationId| #[trigger] keep.contains(x) ==> applied.contains(x)
}

/// Why `keep` cannot be left applied, if it cannot.
fn check_keep(registry: &Registry, applied: &AppliedSet, keep: &AppliedSet) -> (r: Option<MigrateError>)
    requires
        registry.wf(),
    ensures
        r is None <==> keep_ok(registry@, applied@, keep@),
        r matches Some(MigrateError::UnknownMigration { migration }) ==> keep@.contains(migration) && !has_id(registry@, migration),
        r matches Some(MigrateError::TargetNotClosed { migration, dependency }) ==> outside_target(
            registry@,
            Seq::empty(),
            keep@,
            migration,
            dependency,
        ),
        r matches Some(MigrateError::NotApplied { migration }) ==> keep@.contains(migration) && !applied@.contains(migration),
        r matches Some(e) ==> e is UnknownMigration || e is TargetNotClosed || e is NotApplied,
{
    let none = AppliedSet::new();
    if let Some(e) = check_target(registry, &none, keep) {
        return Some(e);
    }
    let mut k: usize = 0;
    while k < keep.len()
        invariant
            0 <= k <= keep@.len(),
            forall|q: int| 0 <= q < k ==> applied@.contains(#[trigger] keep@[q]),
        decreases keep@.len() - k,
    {
        let x = keep.get(k);
        if !applied.contains(x) {
            assert(keep@.contains(x));
            return Some(MigrateError::NotApplied { migration: x });
        }
        k = k + 1;
    }
    proof {
        assert(none@ =~= Seq::<MigrationId>::empty());
    }
    None
}

/// The reverse plan that takes a store with applied-set `applied` to one
/// where only `keep` of the registered migrations remains applied: each
/// migration to revert comes before the migrations it depends on.
///
/// Fails with `UnknownMigration`, `TargetNotClosed` or `NotApplied` where
/// `keep` is not a registered, applied set closed under dependencies; as
/// `resolve` does on a registry that does not resolve; and with
/// `IrreversibleMigration` where a migration to revert cannot be reverted. It
/// reads its arguments only, so a refused plan leaves the store untouched.
pub fn revert_plan(registry: &Registry, applied: &AppliedSet, keep: &AppliedSet) -> (r: Result<
    Vec<MigrationId>,
    MigrateError,
>)
    requires
        registry.wf(),
    ensures
        r is Ok <==> keep_ok(registry@, applied@, keep@) && resolvable(registry@) && all_reversible(
            registry@,
            applied@,
            keep@,
        ),
        r matches Ok(plan) ==> revert_plan_for(registry@, applied@, keep@, plan@),
        r matches Ok(plan) ==> plan@ == reverted_ids(registry@, kahn_order(registry@), applied@, keep@),
        r matches Err(MigrateError::UnknownMigration { migration }) ==> keep@.contains(migration) && !has_id(registry@, migration),
        r matches Err(MigrateError::TargetNotClosed { migration, dependency }) ==> outside_target(
            registry@,
            Seq::empty(),
            keep@,
            migration,
            dependency,
        ),
        r matches Err(MigrateError::NotApplied { migration }) ==> keep@.contains(migration) && !applied@.contains(migration),
        keep_ok(registry@, applied@, keep@) && resolvable(registry@) && !all_reversible(registry@, applied@, keep@)
            ==> r matches Err(MigrateError::IrreversibleMigration { .. }),
        r matches Err(MigrateError::UnresolvedDependency { migration, missing }) ==> unresolved(
            registry@,
            migration,
            missing,
        ),
        r matches Err(MigrateError::CyclicDependency { migration }) ==> deps_known(registry@) && cyclic(
            registry@,
            migration,
        ),
        r matches Err(MigrateError::IrreversibleMigration { migration }) ==> resolvable(registry@)
            && exists|i: int|
            0 <= i < registry@.len() && registry@[i].id == migration && #[trigger] to_revert(
                registry@,
                applied@,
                keep@,
                registry@[i].id,
            ) && !registry@[i].reversible(),
        r matches Err(e) ==> e is UnknownMigration || e is TargetNotClosed || e is NotApplied
            || e is UnresolvedDependency || e is CyclicDependency || e is IrreversibleMigration,
{
    if let Some(e) = check_keep(registry, applied, keep) {
        return Err(e);
    }
    if let Some((migration, missing)) = find_unresolved(registry) {
        return Err(MigrateError::UnresolvedDependency { migration, missing });
    }
    let order = match topological_order(registry) {
        Ok(order) => order,
        Err(p) => {
            let migration = registry.get(p).id;
            return Err(MigrateError::CyclicDependency { migration });
        },
    };
    let ghost ms = registry@;
    let mut plan: Vec<MigrationId> = Vec::new();
    let mut k: usize = order.len();
    proof {
        assert(partial_revert(ms, applied@, keep@, order@, k as int, plan@));
    }
    while k > 0
        invariant
            ms == registry@,
            unique_ids(ms),
            deps_known(ms),
            acyclic(ms),
            complete_order(ms, order@),
            0 <= k <= order@.len(),
            partial_revert(ms, applied@, keep@, order@, k as int, plan@),
            plan@ == reverted_ids(ms, order@.skip(k as int), applied@, keep@),
        decreases k,
    {
        let m = registry.get(order[k - 1]);
        proof {
            lemma_extend_revert(ms, applied@, keep@, order@, k as int, plan@);
            assert(order@.skip(k - 1).drop_first() =~= order@.skip(k as int));
            assert(order@.skip(k - 1)[0] == order@[k - 1]);
        }
        if applied.contains(m.id) && !keep.contains(m.id) {
            if !m.is_reversible() {
                proof {
                    let i = order@[k - 1] as int;
                    assert(order@.contains(order@[k - 1]));
                    assert(to_revert(ms, applied@, keep@, ms[i].id));
                }
                return Err(MigrateError::IrreversibleMigration { migration: m.id });
            }
            plan.push(m.id);
        }
        k = k - 1;
        proof {
            assert(plan@ =~= reverted_ids(ms, order@.skip(k as int), applied@, keep@));
        }
    }
    proof {
        assert(order@.skip(0) =~= order@);
        assert forall|x: MigrationId| #[trigger] has_id(ms, x) implies placed_id(ms, order@, x) by {
            let j = choose|j: int| 0 <= j < ms.len() && #[trigger] ms[j].id == x;
            assert(order@.contains(j as usize));
            let b = choose|b: int| 0 <= b < order@.len() && order@[b] == j as usize;
            assert(ms[order@[b] as int].id == x);
        }
        assert forall|i: int| 0 <= i < ms.len() && #[trigger] to_revert(ms, applied@, keep@, ms[i].id) implies ms[i].reversible() by {
            assert(plan@.contains(ms[i].id));
        }
    }
    Ok(plan)
}

/// Every identifier in `target` is registered.
pub open spec fn target_known(ms: Seq<Migration>, target: Seq<MigrationId>) -> bool {
    forall|x: MigrationId| #[trigger] target.contains(x) ==> has_id(ms, x)
}

/// Each dependency of a registered migration in `target` is in `target` or
/// applied.
pub open spec fn target_closed(ms: Seq<Migration>, applied: Seq<MigrationId>, target: Seq<MigrationId>) -> bool {
    forall|i: int, d: MigrationId|
        0 <= i < ms.len() && target.contains(ms[i].id) && #[trigger] ms[i].depends_on(d)
            ==> target.contains(d) || applied.contains(d)
}

/// `plan` runs every migration of `target` that is not applied, each once,
/// and each after those of its dependencies that are not applied yet.
pub open spec fn forward_plan_for(
    ms: Seq<Migration>,
    applied: Seq<MigrationId>,
    target: Seq<MigrationId>,
    plan: Seq<MigrationId>,
) -> bool {
    &&& plan.no_duplicates()
    &&& forall|x: MigrationId| #[trigger] plan.contains(x) <==> (target.contains(x) && has_id(ms, x) && !applied.contains(x))
    &&& deps_before(ms, applied, plan)
}

/// `migration` is registered and in `target`, and depends on `dependency`,
/// which `target` neither holds nor keeps applied.
pub open spec fn outside_target(
    ms: Seq<Migration>,
    applied: Seq<MigrationId>,
    target: Seq<MigrationId>,
    migration: MigrationId,
    dependency: MigrationId,
) -> bool {
    &&& target.contains(migration)
    &&& !target.contains(dependency)
    &&& !applied.contains(dependency)
    &&& exists|i: int| 0 <= i < ms.len() && ms[i].id == migration && #[trigger] ms[i].depends_on(dependency)
}

/// A target identifier that is not registered, or a registered target
/// migration with a dependency that the target neither holds nor keeps
/// applied.
fn check_target(registry: &Registry, applied: &AppliedSet, target: &AppliedSet) -> (r: Option<MigrateError>)
    requires
        registry.wf(),
    ensures
        r is None <==> target_known(registry@, target@) && target_closed(registry@, applied@, target@),
        r matches Some(MigrateError::UnknownMigration { migration }) ==> target@.contains(migration) && !has_id(registry@, migration),
        r matches Some(MigrateError::TargetNotClosed { migration, dependency }) ==> outside_target(registry@, applied@, target@, migration, dependency),
        r matches Some(e) ==> e is UnknownMigration || e is TargetNotClosed,
{
    let mut k: usize = 0;
    while k < target.len()
        invariant
            registry.wf(),
            0 <= k <= target@.len(),
            forall|q: int| 0 <= q < k ==> has_id(registry@, #[trigger] target@[q]),
        decreases target@.len() - k,
    {
        let t = target.get(k);
        if registry.position(t).is_none() {
            assert(target@.contains(t));
            return Some(MigrateError::UnknownMigration { migration: t });
        }
        k = k + 1;
    }
    let n = registry.len();
    let mut i: usize = 0;
    while i < n
        invariant
            registry.wf(),
            n == registry@.len(),
            0 <= i <= n,
            target_known(registry@, target@),
            forall|j: int, d: MigrationId|
                0 <= j < i && target@.contains(registry@[j].id) && #[trigger] registry@[j].depends_on(d)
                    ==> target@.contains(d) || applied@.contains(d),
        decreases n - i,
    {
        let m = registry.get(i);
        if target.contains(m.id) {
            let mut k: usize = 0;
            while k < m.dependencies.len()
                invariant
                    registry.wf(),
                    0 <= i < n,
                    n == registry@.len(),
                    *m == registry@[i as int],
                    target@.contains(m.id),
                    0 <= k <= m.dependencies@.len(),
                    forall|q: int|
                        0 <= q < k ==> target@.contains(#[trigger] m.dependencies@[q]) || applied@.contains(
                            m.dependencies@[q],
                        ),
                decreases m.dependencies@.len() - k,
            {
                let d = m.dependencies[k];
                if !target.contains(d) && !applied.contains(d) {
                    assert(registry@[i as int].depends_on(d));
                    assert(!target_closed(registry@, applied@, target@));
                    assert(outside_target(registry@, applied@, target@, m.id, d));
                    return Some(MigrateError::TargetNotClosed { migration: m.id, dependency: d });
                }
                k = k + 1;
            }
            proof {
                assert forall|d: MigrationId| #[trigger] registry@[i as int].depends_on(d) implies target@.contains(d)
                    || applied@.contains(d) by {
                    let q = choose|q: int| 0 <= q < m.dependencies@.len() && m.dependencies@[q] == d;
                }
            }
        }
        i = i + 1;
    }
    None
}

/// The applied migrations together with every registered migration outside
/// `target`: the ones a forward plan to `target` leaves alone.
fn skip_set(registry: &Registry, applied: &AppliedSet, target: &AppliedSet) -> (r: AppliedSet)
    ensures
        r.wf(),
        forall|x: MigrationId| #[trigger] r.has(x) <==> (applied@.contains(x) || (has_id(registry@, x) && !target@.contains(x))),
{
    let mut skip = AppliedSet::new();
    let mut k: usize = 0;
    while k < applied.len()
        invariant
            0 <= k <= applied@.len(),
            skip.wf(),
            forall|x: MigrationId| #[trigger] skip.has(x) <==> applied@.take(k as int).contains(x),
        decreases applied@.len() - k,
    {
        let ghost prev = skip;
        let x = applied.get(k);
        skip.insert(x);
        proof {
            assert(applied@.take(k + 1) =~= applied@.take(k as int).push(x));
            assert forall|y: MigrationId| #[trigger] skip.has(y) <==> applied@.take(k + 1).contains(y) by {
                assert(prev.has(y) <==> applied@.take(k as int).contains(y));
                if !prev.has(x) {
                    assert(skip@ == prev@.push(x));
                }
            }
        }
        k = k + 1;
    }
    assert(applied@.take(k as int) =~= applied@);
    let n = registry.len();
    let mut i: usize = 0;
    while i < n
        invariant
            n == registry@.len(),
            0 <= i <= n,
            skip.wf(),
            forall|x: MigrationId| #[trigger] skip.has(x) <==> (applied@.contains(x) || exists|j: int|
                0 <= j < i && registry@[j].id == x && !target@.contains(x)),
        decreases n - i,
    {
        let ghost prev = skip;
        let id = registry.get(i).id;
        if !target.contains(id) {
            skip.insert(id);
        }
        proof {
            assert forall|y: MigrationId| #[trigger] skip.has(y) <==> (applied@.contains(y) || exists|j: int|
                0 <= j < i + 1 && registry@[j].id == y && !target@.contains(y)) by {
                assert(prev.has(y) <==> (applied@.contains(y) || exists|j: int|
                    0 <= j < i && registry@[j].id == y && !target@.contains(y)));
                if !target@.contains(id) && !prev.has(id) {
                    assert(skip@ == prev@.push(id));
                }
                if y == id && !target@.contains(id) {
                    assert(registry@[i as int].id == y);
                }
            }
        }
        i = i + 1;
    }
    skip
}

/// The migrations of `target` that a store with applied-set `applied` does
/// not have yet, in the order that `resolve` gives them.
///
/// Fails with `UnknownMigration` where `target` names an unregistered
/// migration, with `TargetNotClosed` where a migration of `target` depends on
/// one that is neither in `target` nor applied, and otherwise as `resolve`
/// does.
pub fn forward_plan(registry: &Registry, applied: &AppliedSet, target: &AppliedSet) -> (r: Result<
    Vec<MigrationId>,
    MigrateError,
>)
    requires
        registry.wf(),
    ensures
        r is Ok <==> resolvable(registry@) && target_known(registry@, target@) && target_closed(
            registry@,
            applied@,
            target@,
        ),
        r matches Ok(plan) ==> forward_plan_for(registry@, applied@, target@, plan@),
        r matches Err(MigrateError::UnknownMigration { migration }) ==> target@.contains(migration)
            && !has_id(registry@, migration),
        r matches Err(MigrateError::TargetNotClosed { migration, dependency }) ==> outside_target(registry@, applied@, target@, migration, dependency),
        r matches Err(MigrateError::UnresolvedDependency { migration, missing }) ==> unresolved(
            registry@,
            migration,
            missing,
        ),
        r matches Err(MigrateError::CyclicDependency { migration }) ==> deps_known(registry@) && cyclic(
            registry@,
            migration,
        ),
        r matches Err(e) ==> e is UnknownMigration || e is TargetNotClosed || e is UnresolvedDependency
            || e is CyclicDependency,
{
    if let Some(e) = check_target(registry, applied, target) {
        return Err(e);
    }
    let skip = skip_set(registry, applied, target);
    let r = resolve(registry, &skip);
    proof {
        if r is Ok {
            let plan = r->Ok_0;
            let ms = registry@;
            assert forall|x: MigrationId| #[trigger] plan@.contains(x) <==> (target@.contains(x) && has_id(ms, x)
                && !applied@.contains(x)) by {
                assert(skip.has(x) <==> (applied@.contains(x) || (has_id(ms, x) && !target@.contains(x))));
            }
            assert forall|a: int, i: int, d: MigrationId|
                0 <= a < plan@.len() && 0 <= i < ms.len() && ms[i].id == plan@[a] && #[trigger] ms[i].depends_on(d)
                    implies applied@.contains(d) || #[trigger] plan@.take(a).contains(d) by {
                assert(plan@.contains(plan@[a]));
                assert(skip.has(d) <==> (applied@.contains(d) || (has_id(ms, d) && !target@.contains(d))));
            }
        }
    }
    r
}

} // verus!
