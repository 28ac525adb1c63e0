//! Def-before-use ordering of a module's global section: every instruction
//! after the instructions defining the ids it references, as a depth-first
//! post-order walk that visits the instructions in their original order.

use vstd::prelude::*;

verus! {

/// What the ordering reads of one instruction: its result type, its result
/// id, and the ids its operands reference, in order.
pub struct DepNode {
    pub result_type: Option<u32>,
    pub result_id: Option<u32>,
    pub refs: Vec<u32>,
}

/// The content of a [`DepNode`].
pub type NodeView = (Option<u32>, Option<u32>, Seq<u32>);

impl View for DepNode {
    type V = NodeView;

    open spec fn view(&self) -> NodeView {
        (self.result_type, self.result_id, self.refs@)
    }
}

/// The nodes of a list, by their content.
pub open spec fn nodes_view(v: Seq<DepNode>) -> Seq<NodeView> {
    v.map_values(|d: DepNode| d@)
}

/// The ids an instruction references: its result type, then each id operand.
pub open spec fn dep_ids(node: NodeView) -> Seq<u32> {
    (match node.0 {
        Some(t) => seq![t],
        None => Seq::empty(),
    }) + node.2
}

/// The index of the instruction that defines `id` (the last, if several do).
pub open spec fn def_index(insts: Seq<NodeView>, id: u32) -> Option<int>
    decreases insts.len(),
{
    if insts.len() == 0 {
        None
    } else if insts.last().1 == Some(id) {
        Some(insts.len() - 1)
    } else {
        def_index(insts.drop_last(), id)
    }
}

/// The definitions of `ids` within `insts`, other than instruction `x` itself.
pub open spec fn deps_from(insts: Seq<NodeView>, x: int, ids: Seq<u32>) -> Seq<int>
    decreases ids.len(),
{
    if ids.len() == 0 {
        Seq::empty()
    } else {
        let rest = deps_from(insts, x, ids.drop_last());
        match def_index(insts, ids.last()) {
            Some(k) => if k != x { rest.push(k) } else { rest },
            None => rest,
        }
    }
}

/// The instructions that instruction `x` depends on, in reference order.
pub open spec fn deps_of(insts: Seq<NodeView>, x: int) -> Seq<int> {
    deps_from(insts, x, dep_ids(insts[x]))
}

/// `o` lists each of the `n` instructions exactly once.
pub open spec fn is_permutation(o: Seq<usize>, n: nat) -> bool {
    &&& o.len() == n
    &&& forall|p: int| 0 <= p < o.len() ==> (#[trigger] o[p]) < n
    &&& forall|p: int, q: int| 0 <= p < q < o.len() ==> o[p] != o[q]
}

/// In the order `o`, every instruction comes after those it depends on.
pub open spec fn defs_first(insts: Seq<NodeView>, o: Seq<usize>) -> bool {
    forall|p: int, q: int| 0 <= p < o.len() && 0 <= q < o.len()
        && #[trigger] deps_of(insts, o[q] as int).contains(#[trigger] o[p] as int) ==> p < q
}

/// `rank` strictly decreases along every dependency.
pub open spec fn ranked(insts: Seq<NodeView>, rank: Seq<nat>) -> bool {
    &&& rank.len() == insts.len()
    &&& forall|x: int, d: int| 0 <= x < insts.len() && #[trigger] deps_of(insts, x).contains(d) ==> rank[d] < #[trigger] rank[x]
}

/// No instruction depends on itself through a chain of dependencies.
pub open spec fn acyclic(insts: Seq<NodeView>) -> bool {
    exists|rank: Seq<nat>| ranked(insts, rank)
}

/// Every instruction already comes after those it depends on.
pub open spec fn in_order(insts: Seq<NodeView>) -> bool {
    forall|x: int, d: int| 0 <= x < insts.len() && #[trigger] deps_of(insts, x).contains(d) ==> d < x
}

/// Every dependency is a valid index other than the instruction itself.
proof fn lemma_deps_from_bounds(insts: Seq<NodeView>, x: int, ids: Seq<u32>)
    ensures
        forall|i: int| 0 <= i < deps_from(insts, x, ids).len() ==>
            0 <= #[trigger] deps_from(insts, x, ids)[i] < insts.len() && deps_from(insts, x, ids)[i] != x,
    decreases ids.len(),
{
    if ids.len() > 0 {
        let rest = deps_from(insts, x, ids.drop_last());
        lemma_deps_from_bounds(insts, x, ids.drop_last());
        lemma_def_index_bounds(insts, ids.last());
        let all = deps_from(insts, x, ids);
        assert forall|i: int| 0 <= i < all.len() implies 0 <= #[trigger] all[i] < insts.len() && all[i] != x by {
            if i < rest.len() {
                assert(all[i] == rest[i]);
            }
        }
    }
}

proof fn lemma_def_index_bounds(insts: Seq<NodeView>, id: u32)
    ensures
        match def_index(insts, id) {
            Some(k) => 0 <= k < insts.len() && insts[k].1 == Some(id),
            None => true,
        },
    decreases insts.len(),
{
    if insts.len() > 0 && insts.last().1 != Some(id) {
        lemma_def_index_bounds(insts.drop_last(), id);
    }
}

fn def_index_exec(nodes: &Vec<DepNode>, id: u32) -> (r: Option<usize>)
    ensures
        match r {
            Some(k) => def_index(nodes_view(nodes@), id) == Some(k as int),
            None => def_index(nodes_view(nodes@), id) is None,
        },
{
    let ghost insts = nodes_view(nodes@);
    let mut i: usize = nodes.len();
    assert(insts.take(i as int) =~= insts);
    while i > 0
        invariant
            i <= insts.len(),
            insts == nodes_view(nodes@),
            def_index(insts, id) == def_index(insts.take(i as int), id),
        decreases i,
    {
        assert(insts.take(i as int).drop_last() =~= insts.take(i - 1));
        assert(insts.take(i as int).last() == nodes@[i - 1]@);
        if nodes[i - 1].result_id == Some(id) {
            return Some(i - 1);
        }
        i = i - 1;
    }
    None
}

/// The dependency lists of every instruction, as indices.
fn all_deps(nodes: &Vec<DepNode>) -> (r: Vec<Vec<usize>>)
    ensures
        r@.len() == nodes@.len(),
        forall|x: int| 0 <= x < nodes@.len() ==> (#[trigger] r@[x])@.map_values(|k: usize| k as int) == deps_of(nodes_view(nodes@), x),
{
    let ghost insts = nodes_view(nodes@);
    let mut r: Vec<Vec<usize>> = Vec::new();
    let mut x: usize = 0;
    while x < nodes.len()
        invariant
            x <= nodes@.len(),
            insts == nodes_view(nodes@),
            r@.len() == x,
            forall|y: int| 0 <= y < x ==> (#[trigger] r@[y])@.map_values(|k: usize| k as int) == deps_of(insts, y),
        decreases nodes@.len() - x,
    {
        let node = &nodes[x];
        let mut ids: Vec<u32> = Vec::new();
        match node.result_type {
            Some(t) => { ids.push(t); },
            None => {},
        }
        let mut j: usize = 0;
        let ghost pre = ids@;
        while j < node.refs.len()
            invariant
                j <= node.refs@.len(),
                ids@ == pre + node.refs@.take(j as int),
            decreases node.refs@.len() - j,
        {
            ids.push(node.refs[j]);
            assert(node.refs@.take(j + 1) =~= node.refs@.take(j as int).push(node.refs@[j as int]));
            j = j + 1;
        }
        assert(node.refs@.take(node.refs@.len() as int) =~= node.refs@);
        assert(ids@ =~= dep_ids(insts[x as int]));
        let mut d: Vec<usize> = Vec::new();
        let mut k: usize = 0;
        assert(ids@.take(0) =~= Seq::<u32>::empty());
        assert(d@.map_values(|q: usize| q as int) =~= Seq::<int>::empty());
        while k < ids.len()
            invariant
                k <= ids@.len(),
                x < nodes@.len(),
                insts == nodes_view(nodes@),
                d@.map_values(|q: usize| q as int) == deps_from(insts, x as int, ids@.take(k as int)),
            decreases ids@.len() - k,
        {
            assert(ids@.take(k + 1).drop_last() =~= ids@.take(k as int));
            let ghost before = d@;
            match def_index_exec(nodes, ids[k]) {
                Some(q) => {
                    if q != x {
                        d.push(q);
                        assert(d@.map_values(|q: usize| q as int) =~= before.map_values(|q: usize| q as int).push(q as int));
                    }
                },
                None => {},
            }
            k = k + 1;
        }
        assert(ids@.take(ids@.len() as int) =~= ids@);
        r.push(d);
        x = x + 1;
    }
    r
}

/// The number of instructions neither emitted nor on the walk's path.
pub open spec fn free_count(emitted: Seq<bool>, on_path: Seq<bool>, k: nat) -> nat
    decreases k,
{
    if k == 0 {
        0
    } else {
        free_count(emitted, on_path, (k - 1) as nat) + if !emitted[k - 1] && !on_path[k - 1] { 1nat } else { 0nat }
    }
}

/// Marking more instructions never adds free ones; marking a free one
/// removes it.
proof fn lemma_free_count(e1: Seq<bool>, p1: Seq<bool>, e2: Seq<bool>, p2: Seq<bool>, k: nat, x: int)
    requires
        k <= e1.len() == p1.len() == e2.len() == p2.len(),
        forall|i: int| 0 <= i < k ==> (e1[i] || p1[i]) ==> (#[trigger] e2[i] || p2[i]),
    ensures
        free_count(e2, p2, k) <= free_count(e1, p1, k),
        0 <= x < k && !e1[x] && !p1[x] && (e2[x] || p2[x]) ==> free_count(e2, p2, k) < free_count(e1, p1, k),
    decreases k,
{
    if k > 0 {
        lemma_free_count(e1, p1, e2, p2, (k - 1) as nat, x);
        assert(e1[k - 1] || p1[k - 1] ==> e2[k - 1] || p2[k - 1]);
    }
}

/// Index `k` appears in `o`.
pub open spec fn listed(o: Seq<usize>, k: int) -> bool {
    exists|p: int| 0 <= p < o.len() && o[p] == k
}

/// The walk's bookkeeping: `order` lists exactly the emitted instructions,
/// each once.
pub open spec fn walk_ok(n: nat, emitted: Seq<bool>, order: Seq<usize>) -> bool {
    &&& emitted.len() == n
    &&& forall|p: int| 0 <= p < order.len() ==> (#[trigger] order[p]) < n && emitted[order[p] as int]
    &&& forall|p: int, q: int| 0 <= p < q < order.len() ==> order[p] != order[q]
    &&& forall|i: int| 0 <= i < n && #[trigger] emitted[i] ==> listed(order, i)
}

/// No instruction is both emitted and on the walk's path.
pub open spec fn disjoint(emitted: Seq<bool>, on_path: Seq<bool>) -> bool {
    forall|i: int| 0 <= i < emitted.len() ==> !(#[trigger] emitted[i] && on_path[i])
}

/// Every emitted instruction comes after those it depends on.
pub open spec fn closed(insts: Seq<NodeView>, order: Seq<usize>) -> bool {
    forall|q: int, d: int| 0 <= q < order.len() && #[trigger] deps_of(insts, order[q] as int).contains(d)
        ==> exists|p: int| 0 <= p < q && order[p] == d
}

/// The walk's state: which instructions are emitted, which are on the current
/// path, and the order emitted so far.
pub type WalkState = (Seq<bool>, Seq<bool>, Seq<usize>);

/// Visiting instruction `x` from state `st` (with `fuel` bounding the depth):
/// mark it on the path, visit its dependencies last first (those neither
/// emitted nor on the path), then take it off the path and emit it.
pub open spec fn visit_spec(insts: Seq<NodeView>, x: int, st: WalkState, fuel: nat) -> WalkState
    decreases fuel, 0nat, 0nat,
{
    if fuel == 0 {
        st
    } else {
        let st2 = visit_deps_spec(insts, x, deps_of(insts, x).len(), (st.0, st.1.update(x, true), st.2), (fuel - 1) as nat);
        (st2.0.update(x, true), st2.1.update(x, false), st2.2.push(x as usize))
    }
}

/// Visiting the first `j` dependencies of `x`, the `j`-th first.
pub open spec fn visit_deps_spec(insts: Seq<NodeView>, x: int, j: nat, st: WalkState, fuel: nat) -> WalkState
    decreases fuel, 1nat, j,
{
    if j == 0 {
        st
    } else {
        let d = deps_of(insts, x)[j - 1];
        let st1 = if !st.0[d] && !st.1[d] { visit_spec(insts, d, st, fuel) } else { st };
        visit_deps_spec(insts, x, (j - 1) as nat, st1, fuel)
    }
}

/// The walk from instruction `s` on: each instruction not yet emitted is
/// visited, in index order.
pub open spec fn walk_from(insts: Seq<NodeView>, s: nat, st: WalkState) -> WalkState
    decreases insts.len() - s,
{
    if s >= insts.len() {
        st
    } else {
        let st1 = if !st.0[s as int] { visit_spec(insts, s as int, st, insts.len()) } else { st };
        walk_from(insts, s + 1, st1)
    }
}

/// The depth-first post-order of `insts`: starting from nothing emitted,
/// every instruction visited in index order.
pub open spec fn dfs_order(insts: Seq<NodeView>) -> Seq<usize> {
    walk_from(insts, 0, (Seq::new(insts.len(), |i: int| false), Seq::new(insts.len(), |i: int| false), Seq::empty())).2
}

proof fn lemma_free_count_bound(e: Seq<bool>, p: Seq<bool>, k: nat)
    ensures
        free_count(e, p, k) <= k,
    decreases k,
{
    if k > 0 {
        lemma_free_count_bound(e, p, (k - 1) as nat);
    }
}

/// Visit instruction `x`: walk its dependencies, last first, then emit it.
fn visit(deps: &Vec<Vec<usize>>, x: usize, emitted: &mut Vec<bool>, on_path: &mut Vec<bool>, order: &mut Vec<usize>,
    Ghost(insts): Ghost<Seq<NodeView>>, Ghost(rank): Ghost<Option<Seq<nat>>>, Ghost(fuel): Ghost<nat>)
    requires
        fuel >= free_count(old(emitted)@, old(on_path)@, insts.len()),
        deps@.len() == insts.len(),
        forall|y: int| 0 <= y < insts.len() ==> (#[trigger] deps@[y])@.map_values(|k: usize| k as int) == deps_of(insts, y),
        old(on_path)@.len() == insts.len(),
        walk_ok(insts.len(), old(emitted)@, old(order)@),
        disjoint(old(emitted)@, old(on_path)@),
        x < insts.len(),
        !old(emitted)@[x as int],
        !old(on_path)@[x as int],
        rank matches Some(r) ==> ranked(insts, r) && closed(insts, old(order)@)
            && forall|y: int| 0 <= y < insts.len() && #[trigger] old(on_path)@[y] ==> r[y] > r[x as int],
    ensures
        (final(emitted)@, final(on_path)@, final(order)@) == visit_spec(insts, x as int, (old(emitted)@, old(on_path)@, old(order)@), fuel),
        final(on_path)@ == old(on_path)@,
        walk_ok(insts.len(), final(emitted)@, final(order)@),
        disjoint(final(emitted)@, final(on_path)@),
        final(emitted)@[x as int],
        forall|i: int| 0 <= i < insts.len() && #[trigger] old(emitted)@[i] ==> final(emitted)@[i],
        old(order)@.len() <= final(order)@.len(),
        final(order)@.take(old(order)@.len() as int) == old(order)@,
        rank is Some ==> closed(insts, final(order)@),
        (forall|i: int| 0 <= i < deps_of(insts, x as int).len() ==> old(emitted)@[#[trigger] deps_of(insts, x as int)[i]])
            ==> final(order)@ == old(order)@.push(x) && final(emitted)@ == old(emitted)@.update(x as int, true),
    decreases free_count(old(emitted)@, old(on_path)@, insts.len()),
{
    proof {
        lemma_deps_from_bounds(insts, x as int, dep_ids(insts[x as int]));
    }
    let ghost e0 = emitted@;
    let ghost p0 = on_path@;
    let ghost o0 = order@;
    let ghost all_pre = forall|i: int| 0 <= i < deps_of(insts, x as int).len() ==> e0[#[trigger] deps_of(insts, x as int)[i]];
    on_path.set(x, true);
    proof {
        assert forall|i: int| 0 <= i < insts.len() implies (e0[i] || p0[i]) ==> (#[trigger] emitted@[i] || on_path@[i]) by {
            if i != x { assert(on_path@[i] == p0[i]); }
        }
        lemma_free_count(e0, p0, emitted@, on_path@, insts.len(), x as int);
    }
    let dx = &deps[x];
    assert(dx@.map_values(|k: usize| k as int) == deps_of(insts, x as int));
    let ghost target = visit_deps_spec(insts, x as int, deps_of(insts, x as int).len(), (e0, p0.update(x as int, true), o0), (fuel - 1) as nat);
    let mut j: usize = dx.len();
    while j > 0
        invariant
            fuel >= 1,
            free_count(e0, p0, insts.len()) <= fuel,
            j <= deps_of(insts, x as int).len(),
            visit_deps_spec(insts, x as int, j as nat, (emitted@, on_path@, order@), (fuel - 1) as nat) == target,
            j <= dx@.len(),
            dx == deps@[x as int],
            dx@.map_values(|k: usize| k as int) == deps_of(insts, x as int),
            deps@.len() == insts.len(),
            forall|y: int| 0 <= y < insts.len() ==> (#[trigger] deps@[y])@.map_values(|k: usize| k as int) == deps_of(insts, y),
            forall|i: int| 0 <= i < deps_of(insts, x as int).len() ==>
                0 <= #[trigger] deps_of(insts, x as int)[i] < insts.len() && deps_of(insts, x as int)[i] != x,
            x < insts.len(),
            on_path@ == p0.update(x as int, true),
            p0.len() == insts.len(),
            e0.len() == insts.len(),
            e0 == old(emitted)@,
            p0 == old(on_path)@,
            !e0[x as int],
            !p0[x as int],
            walk_ok(insts.len(), emitted@, order@),
            disjoint(emitted@, on_path@),
            forall|i: int| 0 <= i < insts.len() && #[trigger] e0[i] ==> emitted@[i],
            o0.len() <= order@.len(),
            order@.take(o0.len() as int) == o0,
            free_count(emitted@, on_path@, insts.len()) < free_count(e0, p0, insts.len()),
            forall|i: int| j <= i < dx@.len() ==> emitted@[#[trigger] dx@[i] as int] || on_path@[dx@[i] as int],
            all_pre == (forall|i: int| 0 <= i < deps_of(insts, x as int).len() ==> e0[#[trigger] deps_of(insts, x as int)[i]]),
            all_pre ==> order@ == o0 && emitted@ == e0,
            rank matches Some(r) ==> ranked(insts, r) && closed(insts, order@)
                && forall|y: int| 0 <= y < insts.len() && #[trigger] p0[y] ==> r[y] > r[x as int],
        decreases j,
    {
        let d = dx[j - 1];
        assert(deps_of(insts, x as int)[j - 1] == d as int);
        if !emitted[d] && !on_path[d] {
            let ghost e1 = emitted@;
            let ghost o1 = order@;
            proof {
                if all_pre {
                    assert(e0[deps_of(insts, x as int)[j - 1]]);
                }
                if rank is Some {
                    let r = rank->0;
                    assert(deps_of(insts, x as int).contains(d as int));
                    assert forall|y: int| 0 <= y < insts.len() && #[trigger] on_path@[y] implies r[y] > r[d as int] by {
                        if y != x {
                            assert(p0[y]);
                        }
                    }
                }
            }
            assert(free_count(emitted@, on_path@, insts.len()) < free_count(e0, p0, insts.len()));
            visit(deps, d, emitted, on_path, order, Ghost(insts), Ghost(rank), Ghost((fuel - 1) as nat));
            proof {
                assert forall|i: int| 0 <= i < insts.len() implies (e1[i] || on_path@[i]) ==> (#[trigger] emitted@[i] || on_path@[i]) by {}
                lemma_free_count(e1, on_path@, emitted@, on_path@, insts.len(), d as int);
                assert(order@.take(o0.len() as int) =~= o0) by {
                    assert(order@.take(o1.len() as int) == o1);
                    assert(o1.take(o0.len() as int) == o0);
                }
                assert forall|i: int| j - 1 <= i < dx@.len() implies emitted@[#[trigger] dx@[i] as int] || on_path@[dx@[i] as int] by {
                    if i >= j {
                        assert(deps_of(insts, x as int)[i] == dx@[i] as int);
                        if e1[dx@[i] as int] {
                            assert(emitted@[dx@[i] as int]);
                        }
                    }
                }
            }
        }
        j = j - 1;
    }
    let ghost before = order@;
    let ghost eb = emitted@;
    proof {
        if rank is Some {
            let r = rank->0;
            assert forall|i: int| 0 <= i < dx@.len() implies eb[#[trigger] dx@[i] as int] by {
                assert(deps_of(insts, x as int)[i] == dx@[i] as int);
                if !eb[dx@[i] as int] {
                    assert(on_path@[dx@[i] as int]);
                    assert(deps_of(insts, x as int).contains(dx@[i] as int));
                    assert(r[dx@[i] as int] < r[x as int]);
                    assert(p0[dx@[i] as int]);
                }
            }
        }
    }
    on_path.set(x, false);
    emitted.set(x, true);
    order.push(x);
    proof {
        assert(on_path@ =~= p0);
        assert(order@.take(o0.len() as int) =~= o0) by {
            assert(before.take(o0.len() as int) == o0);
        }
        assert forall|i: int| 0 <= i < insts.len() && #[trigger] emitted@[i] implies listed(order@, i) by {
            if i == x {
                assert(order@[order@.len() - 1] == x);
            } else {
                assert(eb[i]);
                assert(listed(before, i));
                let p = choose|p: int| 0 <= p < before.len() && before[p] == i;
                assert(order@[p] == i);
            }
        }
        assert forall|p: int, q: int| 0 <= p < q < order@.len() implies order@[p] != order@[q] by {
            if q == order@.len() - 1 {
                assert(eb[before[p] as int]);
            }
        }
        assert forall|p: int| 0 <= p < order@.len() implies (#[trigger] order@[p]) < insts.len() && emitted@[order@[p] as int] by {
            if p < before.len() {
                assert(order@[p] == before[p]);
            }
        }
        assert forall|i: int| 0 <= i < emitted@.len() implies !(#[trigger] emitted@[i] && on_path@[i]) by {
            if i != x {
                assert(emitted@[i] == eb[i]);
            }
        }
        if rank is Some {
            assert forall|q: int, d: int| 0 <= q < order@.len() && #[trigger] deps_of(insts, order@[q] as int).contains(d)
                implies exists|p: int| 0 <= p < q && order@[p] == d by {
                if q == order@.len() - 1 {
                    let i = choose|i: int| 0 <= i < deps_of(insts, x as int).len() && deps_of(insts, x as int)[i] == d;
                    assert(dx@[i] as int == d);
                    assert(eb[d]);
                    assert(listed(before, d));
                    let p = choose|p: int| 0 <= p < before.len() && before[p] == d;
                    assert(order@[p] == d);
                } else {
                    assert(order@[q] == before[q]);
                    let p = choose|p: int| 0 <= p < q && before[p] == d;
                    assert(order@[p] == d);
                }
            }
        }
        if all_pre {
            assert(emitted@ =~= e0.update(x as int, true));
        }
    }
}

/// The def-before-use order of `insts`: exactly [`dfs_order`], a depth-first
/// walk that takes the instructions in their original order and emits each
/// after its dependencies (the last-referenced first). It lists every
/// instruction once; it puts each after those it depends on whenever no
/// dependency chain loops (on a loop, the walk does not follow a dependency
/// back onto its current path); and it keeps instructions that are already in
/// that order as they are.
pub fn def_use_order(nodes: &Vec<DepNode>) -> (o: Vec<usize>)
    ensures
        is_permutation(o@, nodes@.len()),
        acyclic(nodes_view(nodes@)) ==> defs_first(nodes_view(nodes@), o@),
        in_order(nodes_view(nodes@)) ==> o@ == Seq::new(nodes@.len(), |i: int| i as usize),
        o@ == dfs_order(nodes_view(nodes@)),
{
    let ghost insts = nodes_view(nodes@);
    let n = nodes.len();
    let deps = all_deps(nodes);
    let ghost rank: Option<Seq<nat>> = if acyclic(insts) {
        Some(choose|r: Seq<nat>| ranked(insts, r))
    } else {
        None
    };
    let ghost ordered = in_order(insts);
    let mut emitted: Vec<bool> = Vec::new();
    let mut on_path: Vec<bool> = Vec::new();
    let mut i: usize = 0;
    while i < n
        invariant
            i <= n,
            n == insts.len(),
            emitted@.len() == i,
            on_path@.len() == i,
            forall|k: int| 0 <= k < i ==> !emitted@[k] && !on_path@[k],
        decreases n - i,
    {
        emitted.push(false);
        on_path.push(false);
        i = i + 1;
    }
    let mut order: Vec<usize> = Vec::new();
    let mut s: usize = 0;
    assert(emitted@ =~= Seq::new(n as nat, |i: int| false));
    assert(on_path@ =~= Seq::new(n as nat, |i: int| false));
    let ghost target = walk_from(insts, 0, (emitted@, on_path@, order@));
    assert(target.2 == dfs_order(insts));
    while s < n
        invariant
            s <= n,
            n == insts.len(),
            walk_from(insts, s as nat, (emitted@, on_path@, order@)) == target,
            target.2 == dfs_order(insts),
            deps@.len() == n,
            forall|y: int| 0 <= y < n ==> (#[trigger] deps@[y])@.map_values(|k: usize| k as int) == deps_of(insts, y),
            on_path@.len() == n,
            forall|k: int| 0 <= k < n ==> !(#[trigger] on_path@[k]),
            walk_ok(n as nat, emitted@, order@),
            disjoint(emitted@, on_path@),
            forall|k: int| 0 <= k < s ==> #[trigger] emitted@[k],
            rank matches Some(r) ==> ranked(insts, r) && closed(insts, order@),
            ordered == in_order(insts),
            ordered ==> order@ == Seq::new(s as nat, |k: int| k as usize)
                && forall|k: int| 0 <= k < n ==> (#[trigger] emitted@[k] <==> k < s),
        decreases n - s,
    {
        if !emitted[s] {
            proof {
                if ordered {
                    assert forall|k: int| 0 <= k < deps_of(insts, s as int).len()
                        implies emitted@[#[trigger] deps_of(insts, s as int)[k]] by {
                        assert(deps_of(insts, s as int).contains(deps_of(insts, s as int)[k]));
                        lemma_deps_from_bounds(insts, s as int, dep_ids(insts[s as int]));
                    }
                }
            }
            let ghost eo = emitted@;
            proof { lemma_free_count_bound(emitted@, on_path@, n as nat); }
            visit(&deps, s, &mut emitted, &mut on_path, &mut order, Ghost(insts), Ghost(rank), Ghost(n as nat));
            proof {
                assert forall|k: int| 0 <= k < s + 1 implies #[trigger] emitted@[k] by {
                    if k < s {
                        assert(eo[k]);
                    }
                }
                if ordered {
                    assert(order@ =~= Seq::new((s + 1) as nat, |k: int| k as usize));
                }
            }
        } else {
            proof {
                if ordered {
                    assert(emitted@[s as int]);
                    assert(false);
                }
            }
        }
        s = s + 1;
    }
    proof {
        // Every instruction is emitted, so the order lists all of them.
        assert forall|k: int| 0 <= k < n implies #[trigger] listed(order@, k) by {
            assert(emitted@[k]);
        }
        lemma_permutation_len(order@, n as nat);
        if acyclic(insts) {
            let r = rank->0;
            assert forall|p: int, q: int| 0 <= p < order@.len() && 0 <= q < order@.len()
                && #[trigger] deps_of(insts, order@[q] as int).contains(#[trigger] order@[p] as int) implies p < q by {
                let p2 = choose|p2: int| 0 <= p2 < q && order@[p2] == order@[p] as int;
                assert(p2 == p);
            }
        }
    }
    order
}

/// A list of distinct indices below `n` that covers all of them has length `n`.
proof fn lemma_permutation_len(o: Seq<usize>, n: nat)
    requires
        forall|p: int| 0 <= p < o.len() ==> (#[trigger] o[p]) < n,
        forall|p: int, q: int| 0 <= p < q < o.len() ==> o[p] != o[q],
        forall|k: int| 0 <= k < n ==> #[trigger] listed(o, k),
    ensures
        o.len() == n,
{
    let oi = o.map_values(|v: usize| v as int);
    assert(oi.no_duplicates()) by {
        assert forall|p: int, q: int| 0 <= p < oi.len() && 0 <= q < oi.len() && p != q implies oi[p] != oi[q] by {
            if p < q {
                assert(o[p] != o[q]);
            } else {
                assert(o[q] != o[p]);
            }
        }
    }
    oi.unique_seq_to_set();
    assert(oi.to_set() =~= vstd::set_lib::set_int_range(0, n as int)) by {
        assert forall|k: int| oi.to_set().contains(k) <==> vstd::set_lib::set_int_range(0, n as int).contains(k) by {
            if 0 <= k < n {
                assert(listed(o, k));
                let p = choose|p: int| 0 <= p < o.len() && o[p] == k;
                assert(oi[p] == k);
            }
            if oi.to_set().contains(k) {
                let p = choose|p: int| 0 <= p < oi.len() && oi[p] == k;
                assert(o[p] < n);
            }
        }
    }
    vstd::set_lib::lemma_int_range(0, n as int);
}

} // verus!
