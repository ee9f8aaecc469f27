//! Render graph: declared, dependency-ordered, per-frame GPU work.
//!
//! Passes are declared as nodes naming how they use data slots and render
//! target slots (produce, consume, or reference). Resolution finds the
//! single producer of every used slot, derives the producer-to-consumer
//! edges (together with explicitly declared extra ordering edges), and
//! computes an execution order consistent with every edge; a slot with no
//! producer or more than one, and a cyclic dependency, are build-time
//! errors. Execution then walks that order, handing each node exactly the
//! read and write access its declarations grant.

use vstd::prelude::*;

verus! {

/// How a node uses a declared slot.
#[derive(Clone, Copy, Debug, PartialEq, Eq, Structural)]
pub enum NodeResourceUsage {
    /// The node reads the slot's current contents; ordering applies.
    Input,
    /// The node writes the slot; it runs before every reader.
    Output,
    /// The node needs the slot resolved but tolerates any contents;
    /// ordering applies as for an input.
    Reference,
}

/// A typed per-frame data slot, written once and read any number of times.
#[derive(Clone, Copy, Debug, PartialEq, Eq, Structural)]
pub struct DataHandle {
    pub idx: usize,
}

/// A per-frame render target slot.
#[derive(Clone, Copy, Debug, PartialEq, Eq, Structural)]
pub struct RenderTargetHandle {
    pub idx: usize,
}

/// Build-time and execution-time contract violations.
#[derive(Clone, Copy, Debug, PartialEq, Eq, Structural)]
pub enum GraphError {
    /// More than one node declares Output on the same slot.
    MultipleProducers,
    /// A used slot has no Output declaration.
    NoProducer,
    /// The dependency edges admit no execution order.
    Cycle,
    /// A node touched a slot it never declared with the needed usage.
    NotDeclared,
    /// A node wrote an Output slot twice.
    AlreadySet,
    /// A declared input slot has not been produced.
    NotProduced,
    /// A node finished without writing one of its Output slots.
    OutputNotWritten,
}

/// One declared pass: its debug name, its slot usage declarations, and
/// explicit extra ordering edges (each pair `(d, t)` orders the producer of
/// target `t` before the producer of data `d`, for dependencies the usage
/// declarations alone cannot express).
pub struct Node {
    name: String,
    data_decls: Vec<(DataHandle, NodeResourceUsage)>,
    target_decls: Vec<(RenderTargetHandle, NodeResourceUsage)>,
    extra_deps: Vec<(DataHandle, RenderTargetHandle)>,
}

impl Node {
    /// The declared (data slot, usage) pairs.
    pub closed spec fn data_decls(self) -> Seq<(DataHandle, NodeResourceUsage)> {
        self.data_decls@
    }

    /// The declared (render target slot, usage) pairs.
    pub closed spec fn target_decls(self) -> Seq<(RenderTargetHandle, NodeResourceUsage)> {
        self.target_decls@
    }

    /// The declared extra ordering pairs.
    pub closed spec fn extra_deps(self) -> Seq<(DataHandle, RenderTargetHandle)> {
        self.extra_deps@
    }

    /// The node declares Output on data slot `s`.
    pub open spec fn outputs_data(self, s: int) -> bool {
        exists|k: int|
            0 <= k < self.data_decls().len() && (#[trigger] self.data_decls()[k]).0.idx == s
                && self.data_decls()[k].1 is Output
    }

    /// The node declares Input or Reference on data slot `s`.
    pub open spec fn consumes_data(self, s: int) -> bool {
        exists|k: int|
            0 <= k < self.data_decls().len() && (#[trigger] self.data_decls()[k]).0.idx == s
                && !(self.data_decls()[k].1 is Output)
    }

    /// The node declares data slot `s` with any usage.
    pub open spec fn declares_data(self, s: int) -> bool {
        exists|k: int|
            0 <= k < self.data_decls().len() && (#[trigger] self.data_decls()[k]).0.idx == s
    }

    /// The node declares Output on target slot `t`.
    pub open spec fn outputs_target(self, t: int) -> bool {
        exists|k: int|
            0 <= k < self.target_decls().len() && (#[trigger] self.target_decls()[k]).0.idx == t
                && self.target_decls()[k].1 is Output
    }

    /// The node declares Input or Reference on target slot `t`.
    pub open spec fn consumes_target(self, t: int) -> bool {
        exists|k: int|
            0 <= k < self.target_decls().len() && (#[trigger] self.target_decls()[k]).0.idx == t
                && !(self.target_decls()[k].1 is Output)
    }

    /// The node declares target slot `t` with any usage.
    pub open spec fn declares_target(self, t: int) -> bool {
        exists|k: int|
            0 <= k < self.target_decls().len() && (#[trigger] self.target_decls()[k]).0.idx == t
    }

    /// Every declared slot index is within the graph's issued slot counts.
    pub open spec fn wf(self, data_count: nat, target_count: nat) -> bool {
        &&& forall|k: int|
            0 <= k < self.data_decls().len() ==> ((#[trigger] self.data_decls()[k]).0.idx as nat)
                < data_count
        &&& forall|k: int|
            0 <= k < self.target_decls().len() ==> ((#[trigger] self.target_decls()[k]).0.idx as nat)
                < target_count
        &&& forall|k: int|
            0 <= k < self.extra_deps().len() ==> ((#[trigger] self.extra_deps()[k]).0.idx as nat)
                < data_count && ((self.extra_deps()[k]).1.idx as nat) < target_count
    }

    /// A fresh node declaration with the given debug name.
    pub fn new(name: String) -> (r: Self)
        ensures
            r.data_decls() =~= Seq::<(DataHandle, NodeResourceUsage)>::empty(),
            r.target_decls() =~= Seq::<(RenderTargetHandle, NodeResourceUsage)>::empty(),
            r.extra_deps() =~= Seq::<(DataHandle, RenderTargetHandle)>::empty(),
    {
        Node { name, data_decls: Vec::new(), target_decls: Vec::new(), extra_deps: Vec::new() }
    }

    /// Declares how this node uses a data slot.
    pub fn add_data(&mut self, h: DataHandle, usage: NodeResourceUsage)
        ensures
            final(self).data_decls() == old(self).data_decls().push((h, usage)),
            final(self).target_decls() == old(self).target_decls(),
            final(self).extra_deps() == old(self).extra_deps(),
    {
        self.data_decls.push((h, usage));
    }

    /// Declares how this node uses a render target slot.
    pub fn add_render_target(&mut self, h: RenderTargetHandle, usage: NodeResourceUsage)
        ensures
            final(self).data_decls() == old(self).data_decls(),
            final(self).target_decls() == old(self).target_decls().push((h, usage)),
            final(self).extra_deps() == old(self).extra_deps(),
    {
        self.target_decls.push((h, usage));
    }

    /// Declares that the producer of data slot `data` must run after the
    /// producers of all the given render targets.
    pub fn add_dependencies_to_render_targets(
        &mut self,
        data: DataHandle,
        targets: &Vec<RenderTargetHandle>,
    )
        ensures
            final(self).data_decls() == old(self).data_decls(),
            final(self).target_decls() == old(self).target_decls(),
            final(self).extra_deps() == old(self).extra_deps() + Seq::new(
                targets@.len(),
                |i: int| (data, targets@[i]),
            ),
    {
        let ghost added = Seq::new(targets@.len(), |i: int| (data, targets@[i]));
        let n = targets.len();
        let mut i: usize = 0;
        while i < n
            invariant
                n == targets@.len(),
                i <= n,
                added == Seq::new(targets@.len(), |k: int| (data, targets@[k])),
                self.data_decls@ == old(self).data_decls@,
                self.target_decls@ == old(self).target_decls@,
                self.name == old(self).name,
                self.extra_deps@ =~= old(self).extra_deps@ + added.take(i as int),
            decreases n - i,
        {
            self.extra_deps.push((data, targets[i]));
            proof {
                assert(added.take(i + 1).drop_last() =~= added.take(i as int));
                assert(self.extra_deps@ =~= old(self).extra_deps@ + added.take(i + 1));
            }
            i = i + 1;
        }
        proof {
            assert(added.take(n as int) =~= added);
            assert(self.extra_deps@ =~= old(self).extra_deps@ + added);
        }
    }
}

/// Some pair `(d, t)` is listed as an extra dependency by some node.
pub open spec fn extra_listed(nodes: Seq<Node>, d: int, t: int) -> bool {
    exists|u: int, k: int|
        0 <= u < nodes.len() && 0 <= k < (#[trigger] nodes[u]).extra_deps().len()
            && (#[trigger] nodes[u].extra_deps()[k]).0.idx == d && nodes[u].extra_deps()[k].1.idx == t
}

/// Number of Output declarations on data slot `s` in one declaration list.
pub open spec fn data_outputs_in(decls: Seq<(DataHandle, NodeResourceUsage)>, s: int) -> nat
    decreases decls.len(),
{
    if decls.len() == 0 {
        0
    } else {
        data_outputs_in(decls.drop_last(), s) + if decls.last().0.idx == s
            && decls.last().1 is Output {
            1nat
        } else {
            0nat
        }
    }
}

/// Number of Output declarations on data slot `s` over all nodes.
pub open spec fn data_output_count(nodes: Seq<Node>, s: int) -> nat
    decreases nodes.len(),
{
    if nodes.len() == 0 {
        0
    } else {
        data_output_count(nodes.drop_last(), s) + data_outputs_in(nodes.last().data_decls(), s)
    }
}

/// Number of Output declarations on target slot `t` in one declaration list.
pub open spec fn target_outputs_in(decls: Seq<(RenderTargetHandle, NodeResourceUsage)>, t: int) -> nat
    decreases decls.len(),
{
    if decls.len() == 0 {
        0
    } else {
        target_outputs_in(decls.drop_last(), t) + if decls.last().0.idx == t
            && decls.last().1 is Output {
            1nat
        } else {
            0nat
        }
    }
}

/// Number of Output declarations on target slot `t` over all nodes.
pub open spec fn target_output_count(nodes: Seq<Node>, t: int) -> nat
    decreases nodes.len(),
{
    if nodes.len() == 0 {
        0
    } else {
        target_output_count(nodes.drop_last(), t) + target_outputs_in(nodes.last().target_decls(), t)
    }
}

/// Data slot `s` is declared by some node.
pub open spec fn data_declared(nodes: Seq<Node>, s: int) -> bool {
    exists|u: int| 0 <= u < nodes.len() && (#[trigger] nodes[u]).declares_data(s)
}

/// Target slot `t` is declared by some node.
pub open spec fn target_declared(nodes: Seq<Node>, t: int) -> bool {
    exists|u: int| 0 <= u < nodes.len() && (#[trigger] nodes[u]).declares_target(t)
}

/// Data slot `s` is used: declared by a node or named in an extra edge.
pub open spec fn data_used(nodes: Seq<Node>, s: int) -> bool {
    data_declared(nodes, s) || exists|t: int| extra_listed(nodes, s, t)
}

/// Target slot `t` is used: declared by a node or named in an extra edge.
pub open spec fn target_used(nodes: Seq<Node>, t: int) -> bool {
    target_declared(nodes, t) || exists|d: int| extra_listed(nodes, d, t)
}

/// Some slot has more than one Output declaration.
pub open spec fn has_multiple_producers(nodes: Seq<Node>, dc: nat, tc: nat) -> bool {
    (exists|s: int| 0 <= s < dc && data_output_count(nodes, s) > 1) || (exists|t: int|
        0 <= t < tc && target_output_count(nodes, t) > 1)
}

/// Some used slot has no Output declaration.
pub open spec fn has_missing_producer(nodes: Seq<Node>, dc: nat, tc: nat) -> bool {
    (exists|s: int| 0 <= s < dc && data_used(nodes, s) && data_output_count(nodes, s) == 0)
        || (exists|t: int| 0 <= t < tc && target_used(nodes, t) && target_output_count(nodes, t) == 0)
}

/// Node `u` must run before node `v`: `u` produces a data or target slot
/// that `v` consumes, or an extra edge orders a target produced by `u`
/// before the data produced by `v`.
pub open spec fn dep_edge(nodes: Seq<Node>, u: int, v: int) -> bool {
    &&& 0 <= u < nodes.len()
    &&& 0 <= v < nodes.len()
    &&& u != v
    &&& ((exists|s: int| nodes[u].outputs_data(s) && nodes[v].consumes_data(s)) || (exists|t: int|
        nodes[u].outputs_target(t) && nodes[v].consumes_target(t)) || (exists|d: int, t: int|
        extra_listed(nodes, d, t) && nodes[u].outputs_target(t) && nodes[v].outputs_data(d)))
}

/// `order` lists each of the `n` node indices exactly once.
pub open spec fn is_permutation(order: Seq<usize>, n: nat) -> bool {
    &&& order.len() == n
    &&& forall|i: int| 0 <= i < order.len() ==> ((#[trigger] order[i]) as nat) < n
    &&& forall|i: int, j: int| 0 <= i < j < order.len() ==> order[i] != order[j]
}

/// Every listed edge goes from an earlier to a later position of `order`.
pub open spec fn respects_edges(order: Seq<usize>, edges: Seq<(usize, usize)>) -> bool {
    forall|i: int, j: int, k: int|
        0 <= i < order.len() && 0 <= j < order.len() && 0 <= k < edges.len() && (#[trigger] order[i])
            == (#[trigger] edges[k]).0 && (#[trigger] order[j]) == edges[k].1 ==> i < j
}

/// Every dependency edge goes from an earlier to a later position.
pub open spec fn respects_deps(nodes: Seq<Node>, order: Seq<usize>) -> bool {
    forall|i: int, j: int|
        0 <= i < order.len() && 0 <= j < order.len() && dep_edge(
            nodes,
            #[trigger] order[i] as int,
            #[trigger] order[j] as int,
        ) ==> i < j
}

/// Some execution order satisfies every dependency.
pub open spec fn schedulable(nodes: Seq<Node>) -> bool {
    exists|order: Seq<usize>| is_permutation(order, nodes.len()) && respects_deps(nodes, order)
}

/// An Output declaration at `k` witnesses a nonzero output count.
proof fn lemma_data_outputs_in_witness(decls: Seq<(DataHandle, NodeResourceUsage)>, s: int, k: int)
    requires
        0 <= k < decls.len(),
        decls[k].0.idx == s,
        decls[k].1 is Output,
    ensures
        data_outputs_in(decls, s) >= 1,
    decreases decls.len(),
{
    if k == decls.len() - 1 {
    } else {
        assert(decls.drop_last()[k] == decls[k]);
        lemma_data_outputs_in_witness(decls.drop_last(), s, k);
    }
}

/// A node producing `s` witnesses a nonzero producer count.
proof fn lemma_data_count_witness(nodes: Seq<Node>, s: int, u: int)
    requires
        0 <= u < nodes.len(),
        nodes[u].outputs_data(s),
    ensures
        data_output_count(nodes, s) >= 1,
    decreases nodes.len(),
{
    if u == nodes.len() - 1 {
        let k = choose|k: int|
            0 <= k < nodes[u].data_decls().len() && nodes[u].data_decls()[k].0.idx == s
                && nodes[u].data_decls()[k].1 is Output;
        lemma_data_outputs_in_witness(nodes[u].data_decls(), s, k);
    } else {
        assert(nodes.drop_last()[u] == nodes[u]);
        lemma_data_count_witness(nodes.drop_last(), s, u);
    }
}

/// Two distinct nodes producing `s` witness a producer count of at least two.
proof fn lemma_data_count_two(nodes: Seq<Node>, s: int, u1: int, u2: int)
    requires
        0 <= u1 < u2 < nodes.len(),
        nodes[u1].outputs_data(s),
        nodes[u2].outputs_data(s),
    ensures
        data_output_count(nodes, s) >= 2,
    decreases nodes.len(),
{
    if u2 == nodes.len() - 1 {
        let k = choose|k: int|
            0 <= k < nodes[u2].data_decls().len() && nodes[u2].data_decls()[k].0.idx == s
                && nodes[u2].data_decls()[k].1 is Output;
        lemma_data_outputs_in_witness(nodes[u2].data_decls(), s, k);
        assert(nodes.drop_last()[u1] == nodes[u1]);
        lemma_data_count_witness(nodes.drop_last(), s, u1);
    } else {
        assert(nodes.drop_last()[u1] == nodes[u1]);
        assert(nodes.drop_last()[u2] == nodes[u2]);
        lemma_data_count_two(nodes.drop_last(), s, u1, u2);
    }
}

/// An Output declaration at `k` witnesses a nonzero output count.
proof fn lemma_target_outputs_in_witness(
    decls: Seq<(RenderTargetHandle, NodeResourceUsage)>,
    t: int,
    k: int,
)
    requires
        0 <= k < decls.len(),
        decls[k].0.idx == t,
        decls[k].1 is Output,
    ensures
        target_outputs_in(decls, t) >= 1,
    decreases decls.len(),
{
    if k == decls.len() - 1 {
    } else {
        assert(decls.drop_last()[k] == decls[k]);
        lemma_target_outputs_in_witness(decls.drop_last(), t, k);
    }
}

/// A node producing `t` witnesses a nonzero producer count.
proof fn lemma_target_count_witness(nodes: Seq<Node>, t: int, u: int)
    requires
        0 <= u < nodes.len(),
        nodes[u].outputs_target(t),
    ensures
        target_output_count(nodes, t) >= 1,
    decreases nodes.len(),
{
    if u == nodes.len() - 1 {
        let k = choose|k: int|
            0 <= k < nodes[u].target_decls().len() && nodes[u].target_decls()[k].0.idx == t
                && nodes[u].target_decls()[k].1 is Output;
        lemma_target_outputs_in_witness(nodes[u].target_decls(), t, k);
    } else {
        assert(nodes.drop_last()[u] == nodes[u]);
        lemma_target_count_witness(nodes.drop_last(), t, u);
    }
}

/// Two distinct nodes producing `t` witness a producer count of at least two.
proof fn lemma_target_count_two(nodes: Seq<Node>, t: int, u1: int, u2: int)
    requires
        0 <= u1 < u2 < nodes.len(),
        nodes[u1].outputs_target(t),
        nodes[u2].outputs_target(t),
    ensures
        target_output_count(nodes, t) >= 2,
    decreases nodes.len(),
{
    if u2 == nodes.len() - 1 {
        let k = choose|k: int|
            0 <= k < nodes[u2].target_decls().len() && nodes[u2].target_decls()[k].0.idx == t
                && nodes[u2].target_decls()[k].1 is Output;
        lemma_target_outputs_in_witness(nodes[u2].target_decls(), t, k);
        assert(nodes.drop_last()[u1] == nodes[u1]);
        lemma_target_count_witness(nodes.drop_last(), t, u1);
    } else {
        assert(nodes.drop_last()[u1] == nodes[u1]);
        assert(nodes.drop_last()[u2] == nodes[u2]);
        lemma_target_count_two(nodes.drop_last(), t, u1, u2);
    }
}

/// `n`, saturated at two: resolution only needs "none, one, or many".
pub open spec fn sat2(n: nat) -> nat {
    if n >= 2 {
        2
    } else {
        n
    }
}

/// Counts (saturated at two) the Output declarations on data slot `s`,
/// returning one producing node and whether any node declares `s`.
fn scan_data_slot(nodes: &Vec<Node>, s: usize) -> (r: (usize, Option<usize>, bool))
    ensures
        r.0 as nat == sat2(data_output_count(nodes@, s as int)),
        r.1 is Some <==> data_output_count(nodes@, s as int) >= 1,
        r.1 is Some ==> (r.1->0 as int) < nodes@.len() && nodes@[r.1->0 as int].outputs_data(s as int),
        r.2 == data_declared(nodes@, s as int),
{
    let n = nodes.len();
    let mut cnt: usize = 0;
    let mut prod: Option<usize> = None;
    let mut used = false;
    let mut u: usize = 0;
    while u < n
        invariant
            n == nodes@.len(),
            u <= n,
            cnt as nat == sat2(data_output_count(nodes@.take(u as int), s as int)),
            prod is Some <==> data_output_count(nodes@.take(u as int), s as int) >= 1,
            prod is Some ==> (prod->0 as int) < nodes@.len() && nodes@[prod->0 as int].outputs_data(
                s as int,
            ),
            used == data_declared(nodes@.take(u as int), s as int),
        decreases n - u,
    {
        let node = &nodes[u];
        let ghost decls = node.data_decls();
        let ghost base = data_output_count(nodes@.take(u as int), s as int);
        let m = node.data_decls.len();
        let mut k: usize = 0;
        while k < m
            invariant
                n == nodes@.len(),
                u < n,
                node == &nodes@[u as int],
                decls == node.data_decls(),
                base == data_output_count(nodes@.take(u as int), s as int),
                m == decls.len(),
                k <= m,
                cnt as nat == sat2(base + data_outputs_in(decls.take(k as int), s as int)),
                prod is Some <==> base + data_outputs_in(decls.take(k as int), s as int) >= 1,
                prod is Some ==> (prod->0 as int) < nodes@.len() && nodes@[prod->0 as int].outputs_data(
                    s as int,
                ),
                used == (data_declared(nodes@.take(u as int), s as int) || exists|kk: int|
                    0 <= kk < k && (#[trigger] decls[kk]).0.idx == s),
            decreases m - k,
        {
            proof {
                assert(decls.take(k + 1).drop_last() =~= decls.take(k as int));
                assert(decls.take(k + 1).last() == decls[k as int]);
            }
            let (h, usage) = node.data_decls[k];
            if h.idx == s {
                used = true;
                if matches!(usage, NodeResourceUsage::Output) {
                    proof {
                        assert(decls[k as int].1 is Output);
                    }
                    if cnt < 2 {
                        cnt = cnt + 1;
                    }
                    prod = Some(u);
                }
            }
            k = k + 1;
        }
        proof {
            assert(decls.take(m as int) =~= decls);
            assert(nodes@.take(u + 1).drop_last() =~= nodes@.take(u as int));
            assert(nodes@.take(u + 1).last() == nodes@[u as int]);
            if used && !data_declared(nodes@.take(u + 1), s as int) {
                if data_declared(nodes@.take(u as int), s as int) {
                    let w = choose|w: int|
                        0 <= w < nodes@.take(u as int).len() && nodes@.take(u as int)[w].declares_data(
                            s as int,
                        );
                    assert(nodes@.take(u + 1)[w].declares_data(s as int));
                } else {
                    let kk = choose|kk: int| 0 <= kk < m && (#[trigger] decls[kk]).0.idx == s;
                    assert(nodes@.take(u + 1)[u as int].declares_data(s as int));
                }
                assert(false);
            }
            if !used && data_declared(nodes@.take(u + 1), s as int) {
                let w = choose|w: int|
                    0 <= w < nodes@.take(u + 1).len() && (#[trigger] nodes@.take(u + 1)[w]).declares_data(
                        s as int,
                    );
                if w < u {
                    assert(nodes@.take(u as int)[w].declares_data(s as int));
                } else {
                    let kk = choose|kk: int|
                        0 <= kk < decls.len() && (#[trigger] decls[kk]).0.idx == s;
                }
                assert(false);
            }
        }
        u = u + 1;
    }
    proof {
        assert(nodes@.take(n as int) =~= nodes@);
    }
    (cnt, prod, used)
}

/// Counts (saturated at two) the Output declarations on target slot `t`,
/// returning one producing node and whether any node declares `t`.
fn scan_target_slot(nodes: &Vec<Node>, t: usize) -> (r: (usize, Option<usize>, bool))
    ensures
        r.0 as nat == sat2(target_output_count(nodes@, t as int)),
        r.1 is Some <==> target_output_count(nodes@, t as int) >= 1,
        r.1 is Some ==> (r.1->0 as int) < nodes@.len() && nodes@[r.1->0 as int].outputs_target(
            t as int,
        ),
        r.2 == target_declared(nodes@, t as int),
{
    let n = nodes.len();
    let mut cnt: usize = 0;
    let mut prod: Option<usize> = None;
    let mut used = false;
    let mut u: usize = 0;
    while u < n
        invariant
            n == nodes@.len(),
            u <= n,
            cnt as nat == sat2(target_output_count(nodes@.take(u as int), t as int)),
            prod is Some <==> target_output_count(nodes@.take(u as int), t as int) >= 1,
            prod is Some ==> (prod->0 as int) < nodes@.len() && nodes@[prod->0 as int].outputs_target(
                t as int,
            ),
            used == target_declared(nodes@.take(u as int), t as int),
        decreases n - u,
    {
        let node = &nodes[u];
        let ghost decls = node.target_decls();
        let ghost base = target_output_count(nodes@.take(u as int), t as int);
        let m = node.target_decls.len();
        let mut k: usize = 0;
        while k < m
            invariant
                n == nodes@.len(),
                u < n,
                node == &nodes@[u as int],
                decls == node.target_decls(),
                base == target_output_count(nodes@.take(u as int), t as int),
                m == decls.len(),
                k <= m,
                cnt as nat == sat2(base + target_outputs_in(decls.take(k as int), t as int)),
                prod is Some <==> base + target_outputs_in(decls.take(k as int), t as int) >= 1,
                prod is Some ==> (prod->0 as int) < nodes@.len()
                    && nodes@[prod->0 as int].outputs_target(t as int),
                used == (target_declared(nodes@.take(u as int), t as int) || exists|kk: int|
                    0 <= kk < k && (#[trigger] decls[kk]).0.idx == t),
            decreases m - k,
        {
            proof {
                assert(decls.take(k + 1).drop_last() =~= decls.take(k as int));
                assert(decls.take(k + 1).last() == decls[k as int]);
            }
            let (h, usage) = node.target_decls[k];
            if h.idx == t {
                used = true;
                if matches!(usage, NodeResourceUsage::Output) {
                    proof {
                        assert(decls[k as int].1 is Output);
                    }
                    if cnt < 2 {
                        cnt = cnt + 1;
                    }
                    prod = Some(u);
                }
            }
            k = k + 1;
        }
        proof {
            assert(decls.take(m as int) =~= decls);
            assert(nodes@.take(u + 1).drop_last() =~= nodes@.take(u as int));
            assert(nodes@.take(u + 1).last() == nodes@[u as int]);
            if used && !target_declared(nodes@.take(u + 1), t as int) {
                if target_declared(nodes@.take(u as int), t as int) {
                    let w = choose|w: int|
                        0 <= w < nodes@.take(u as int).len() && nodes@.take(
                            u as int,
                        )[w].declares_target(t as int);
                    assert(nodes@.take(u + 1)[w].declares_target(t as int));
                } else {
                    let kk = choose|kk: int| 0 <= kk < m && (#[trigger] decls[kk]).0.idx == t;
                    assert(nodes@.take(u + 1)[u as int].declares_target(t as int));
                }
                assert(false);
            }
            if !used && target_declared(nodes@.take(u + 1), t as int) {
                let w = choose|w: int|
                    0 <= w < nodes@.take(u + 1).len() && (#[trigger] nodes@.take(
                        u + 1,
                    )[w]).declares_target(t as int);
                if w < u {
                    assert(nodes@.take(u as int)[w].declares_target(t as int));
                } else {
                    let kk = choose|kk: int|
                        0 <= kk < decls.len() && (#[trigger] decls[kk]).0.idx == t;
                }
                assert(false);
            }
        }
        u = u + 1;
    }
    proof {
        assert(nodes@.take(n as int) =~= nodes@);
    }
    (cnt, prod, used)
}

/// No sequence of distinct integers in `[0, m)` is longer than `m`.
proof fn lemma_distinct_bounded_len(s: Seq<int>, m: nat)
    requires
        forall|i: int| 0 <= i < s.len() ==> 0 <= #[trigger] s[i] < m,
        forall|i: int, j: int| 0 <= i < j < s.len() ==> s[i] != s[j],
    ensures
        s.len() <= m,
    decreases s.len(),
{
    if s.len() > 0 {
        let lastv = s.last();
        let t = Seq::new((s.len() - 1) as nat, |i: int| if s[i] > lastv {
            s[i] - 1
        } else {
            s[i]
        });
        assert forall|i: int| 0 <= i < t.len() implies 0 <= #[trigger] t[i] < m - 1 by {
            assert(s[i] != lastv);
        }
        assert forall|i: int, j: int| 0 <= i < j < t.len() implies t[i] != t[j] by {
            assert(s[i] != lastv);
            assert(s[j] != lastv);
        }
        lemma_distinct_bounded_len(t, (m - 1) as nat);
    }
}

/// A permutation of the `n` node indices contains every index below `n`.
proof fn lemma_permutation_contains(order: Seq<usize>, n: nat, v: int)
    requires
        is_permutation(order, n),
        0 <= v < n,
    ensures
        exists|i: int| 0 <= i < order.len() && (#[trigger] order[i]) as int == v,
{
    if !(exists|i: int| 0 <= i < order.len() && (#[trigger] order[i]) as int == v) {
        let s = Seq::new(order.len(), |i: int| order[i] as int).push(v);
        assert forall|i: int| 0 <= i < s.len() implies 0 <= #[trigger] s[i] < n by {
            if i < order.len() {
                assert(s[i] == order[i] as int);
            }
        }
        assert forall|i: int, j: int| 0 <= i < j < s.len() implies s[i] != s[j] by {
            if j < order.len() {
                assert(s[i] == order[i] as int && s[j] == order[j] as int);
            } else {
                assert(s[i] == order[i] as int && s[j] == v);
            }
        }
        lemma_distinct_bounded_len(s, n);
        assert(false);
    }
}

/// Among the positions below `len` satisfying `p` there is a least one.
proof fn lemma_exists_min(p: spec_fn(int) -> bool, len: int)
    requires
        exists|i: int| 0 <= i < len && #[trigger] p(i),
    ensures
        exists|i: int|
            (0 <= i < len && #[trigger] p(i)) && (forall|j: int| 0 <= j < i ==> !(#[trigger] p(j))),
    decreases len,
{
    let i0 = choose|i: int| 0 <= i < len && #[trigger] p(i);
    if exists|j: int| 0 <= j < i0 && #[trigger] p(j) {
        lemma_exists_min(p, i0);
        let m = choose|i: int|
            (0 <= i < i0 && #[trigger] p(i)) && (forall|j: int| 0 <= j < i ==> !(#[trigger] p(j)));
        assert((0 <= m < len && p(m)) && (forall|j: int| 0 <= j < m ==> !(#[trigger] p(j))));
    } else {
        assert((0 <= i0 < len && p(i0)) && (forall|j: int| 0 <= j < i0 ==> !(#[trigger] p(j))));
    }
}

/// When every not-yet-placed node still waits on a not-yet-placed
/// predecessor, no placement order can satisfy every edge.
proof fn lemma_stuck_no_order(edges: Seq<(usize, usize)>, n: nat, placed: Seq<bool>)
    requires
        placed.len() == n,
        forall|k: int|
            0 <= k < edges.len() ==> ((#[trigger] edges[k]).0 as nat) < n && ((edges[k]).1 as nat)
                < n,
        exists|v: int| 0 <= v < n && !placed[v],
        forall|v: int|
            0 <= v < n && !placed[v] ==> exists|k: int|
                0 <= k < edges.len() && ((#[trigger] edges[k]).1 as int) == v
                    && !placed[edges[k].0 as int],
    ensures
        forall|order: Seq<usize>| is_permutation(order, n) ==> !respects_edges(order, edges),
{
    assert forall|order: Seq<usize>| is_permutation(order, n) implies !respects_edges(
        order,
        edges,
    ) by {
        if respects_edges(order, edges) {
            let p = |i: int| 0 <= i < order.len() && !placed[order[i] as int];
            let v0 = choose|v: int| 0 <= v < n && !placed[v];
            lemma_permutation_contains(order, n, v0);
            let i0 = choose|i: int| 0 <= i < order.len() && (#[trigger] order[i]) as int == v0;
            assert(p(i0));
            lemma_exists_min(p, order.len() as int);
            let j = choose|i: int|
                (0 <= i < order.len() && #[trigger] p(i)) && (forall|jj: int|
                    0 <= jj < i ==> !(#[trigger] p(jj)));
            let v = order[j] as int;
            let k = choose|k: int|
                0 <= k < edges.len() && ((#[trigger] edges[k]).1 as int) == v
                    && !placed[edges[k].0 as int];
            let u = edges[k].0;
            lemma_permutation_contains(order, n, u as int);
            let i = choose|i: int| 0 <= i < order.len() && (#[trigger] order[i]) as int == u as int;
            assert(order[i] == edges[k].0);
            assert(order[j] == edges[k].1);
            assert(i < j);
            assert(p(i));
            assert(false);
        }
    }
}

/// A node not yet placed whose predecessors are all placed, if one exists.
fn find_placeable(n: usize, edges: &Vec<(usize, usize)>, placed: &Vec<bool>) -> (r: Option<usize>)
    requires
        placed@.len() == n,
        forall|k: int|
            0 <= k < edges@.len() ==> ((#[trigger] edges@[k]).0 as nat) < n
                && ((edges@[k]).1 as nat) < n,
    ensures
        match r {
            Some(v) => (v as nat) < n && !placed@[v as int] && forall|k: int|
                0 <= k < edges@.len() && ((#[trigger] edges@[k]).1) == v ==> placed@[edges@[k].0 as int],
            None => forall|v: int|
                0 <= v < n && !placed@[v] ==> exists|k: int|
                    0 <= k < edges@.len() && ((#[trigger] edges@[k]).1 as int) == v
                        && !placed@[edges@[k].0 as int],
        },
{
    let m = edges.len();
    let mut v: usize = 0;
    while v < n
        invariant
            placed@.len() == n,
            m == edges@.len(),
            v <= n,
            forall|k: int|
                0 <= k < edges@.len() ==> ((#[trigger] edges@[k]).0 as nat) < n
                    && ((edges@[k]).1 as nat) < n,
            forall|w: int|
                0 <= w < v && !placed@[w] ==> exists|k: int|
                    0 <= k < edges@.len() && ((#[trigger] edges@[k]).1 as int) == w
                        && !placed@[edges@[k].0 as int],
        decreases n - v,
    {
        if !placed[v] {
            let mut blocked = false;
            let mut k: usize = 0;
            while k < m
                invariant
                    placed@.len() == n,
                    m == edges@.len(),
                    v < n,
                    k <= m,
                    forall|kk: int|
                        0 <= kk < edges@.len() ==> ((#[trigger] edges@[kk]).0 as nat) < n
                            && ((edges@[kk]).1 as nat) < n,
                    blocked ==> exists|kk: int|
                        0 <= kk < edges@.len() && ((#[trigger] edges@[kk]).1 as int) == v as int
                            && !placed@[edges@[kk].0 as int],
                    !blocked ==> forall|kk: int|
                        0 <= kk < k && ((#[trigger] edges@[kk]).1) == v ==> placed@[edges@[kk].0 as int],
                decreases m - k,
            {
                let (a, b) = edges[k];
                if b == v && !placed[a] {
                    blocked = true;
                }
                k = k + 1;
            }
            if !blocked {
                return Some(v);
            }
        }
        v = v + 1;
    }
    None
}

/// Computes an order of the `n` nodes in which every edge points forward,
/// or reports that none exists.
fn topo_sort(n: usize, edges: &Vec<(usize, usize)>) -> (r: Option<Vec<usize>>)
    requires
        forall|k: int|
            0 <= k < edges@.len() ==> ((#[trigger] edges@[k]).0 as nat) < n
                && ((edges@[k]).1 as nat) < n,
    ensures
        match r {
            Some(order) => is_permutation(order@, n as nat) && respects_edges(order@, edges@),
            None => forall|order: Seq<usize>|
                is_permutation(order, n as nat) ==> !respects_edges(order, edges@),
        },
{
    let mut placed: Vec<bool> = Vec::new();
    let mut i: usize = 0;
    while i < n
        invariant
            i <= n,
            placed@.len() == i,
            forall|w: int| 0 <= w < i ==> !(#[trigger] placed@[w]),
        decreases n - i,
    {
        placed.push(false);
        i = i + 1;
    }
    let mut order: Vec<usize> = Vec::new();
    while order.len() < n
        invariant
            placed@.len() == n,
            order@.len() <= n,
            forall|k: int|
                0 <= k < edges@.len() ==> ((#[trigger] edges@[k]).0 as nat) < n
                    && ((edges@[k]).1 as nat) < n,
            forall|w: int|
                0 <= w < n ==> ((#[trigger] placed@[w]) <==> exists|p: int|
                    0 <= p < order@.len() && (#[trigger] order@[p]) as int == w),
            forall|p: int| 0 <= p < order@.len() ==> ((#[trigger] order@[p]) as nat) < n,
            forall|p: int, q: int| 0 <= p < q < order@.len() ==> order@[p] != order@[q],
            forall|p: int, k: int|
                0 <= p < order@.len() && 0 <= k < edges@.len() && (#[trigger] order@[p])
                    == (#[trigger] edges@[k]).1 ==> exists|p2: int|
                    0 <= p2 < p && (#[trigger] order@[p2]) == edges@[k].0,
        decreases n - order.len(),
    {
        match find_placeable(n, edges, &placed) {
            Some(v) => {
                let ghost order0 = order@;
                let ghost placed0 = placed@;
                placed[v] = true;
                order.push(v);
                proof {
                    let np = order0.len() as int;
                    assert forall|w: int|
                        0 <= w < n implies ((#[trigger] placed@[w]) <==> exists|p: int|
                            0 <= p < order@.len() && (#[trigger] order@[p]) as int == w) by {
                        if w == v as int {
                            assert(order@[np] as int == w);
                        } else {
                            if placed@[w] {
                                let p = choose|p: int|
                                    0 <= p < order0.len() && (#[trigger] order0[p]) as int == w;
                                assert(order@[p] as int == w);
                            }
                            if exists|p: int|
                                0 <= p < order@.len() && (#[trigger] order@[p]) as int == w {
                                let p = choose|p: int|
                                    0 <= p < order@.len() && (#[trigger] order@[p]) as int == w;
                                assert(p < np);
                                assert(order0[p] as int == w);
                            }
                        }
                    }
                    assert forall|p: int, q: int|
                        0 <= p < q < order@.len() implies order@[p] != order@[q] by {
                        if q == np {
                            if order@[p] == v {
                                assert(placed0[v as int]);
                            }
                        }
                    }
                    assert forall|p: int, k: int|
                        0 <= p < order@.len() && 0 <= k < edges@.len() && (#[trigger] order@[p])
                            == (#[trigger] edges@[k]).1 implies exists|p2: int|
                            0 <= p2 < p && (#[trigger] order@[p2]) == edges@[k].0 by {
                        if p < np {
                            let p2 = choose|p2: int|
                                0 <= p2 < p && (#[trigger] order0[p2]) == edges@[k].0;
                            assert(order@[p2] == edges@[k].0);
                        } else {
                            assert(order@[p] == v);
                            assert(placed0[edges@[k].0 as int]);
                            let p2 = choose|p2: int|
                                0 <= p2 < order0.len() && (#[trigger] order0[p2]) as int
                                    == edges@[k].0 as int;
                            assert(order@[p2] == edges@[k].0);
                        }
                    }
                }
            },
            None => {
                proof {
                    // Some node is still unplaced: otherwise every index
                    // below `n` occurs in the too-short order.
                    if forall|w: int| 0 <= w < n ==> #[trigger] placed@[w] {
                        let s = Seq::new(n as nat, |w: int| choose|p: int|
                            0 <= p < order@.len() && (#[trigger] order@[p]) as int == w);
                        assert forall|w: int| 0 <= w < s.len() implies 0 <= #[trigger] s[w]
                            < order@.len() by {
                            assert(placed@[w]);
                        }
                        assert forall|w1: int, w2: int|
                            0 <= w1 < w2 < s.len() implies s[w1] != s[w2] by {
                            assert(placed@[w1] && placed@[w2]);
                            assert(order@[s[w1]] as int == w1);
                            assert(order@[s[w2]] as int == w2);
                        }
                        lemma_distinct_bounded_len(s, order@.len() as nat);
                        assert(false);
                    }
                    lemma_stuck_no_order(edges@, n as nat, placed@);
                }
                return None;
            },
        }
    }
    proof {
        assert forall|p: int, q: int, k: int|
            0 <= p < order@.len() && 0 <= q < order@.len() && 0 <= k < edges@.len()
                && (#[trigger] order@[p]) == (#[trigger] edges@[k]).0 && (#[trigger] order@[q])
                == edges@[k].1 implies p < q by {
            let p2 = choose|p2: int| 0 <= p2 < q && (#[trigger] order@[p2]) == edges@[k].0;
            if p2 != p {
                assert(order@[p2] != order@[p]);
                assert(false);
            }
        }
    }
    Some(order)
}


/// Facts resolution establishes about the per-slot producer tables:
/// producer counts are at most one, and each table entry is the unique
/// producing node when one exists.
spec fn prod_core(
    nds: Seq<Node>,
    dc: nat,
    tc: nat,
    dprod: Seq<Option<usize>>,
    tprod: Seq<Option<usize>>,
) -> bool {
    &&& dprod.len() == dc
    &&& tprod.len() == tc
    &&& forall|x: int| 0 <= x < dc ==> data_output_count(nds, x) <= 1
    &&& forall|x: int|
        0 <= x < dc ==> ((#[trigger] dprod[x]) is Some <==> data_output_count(nds, x) >= 1)
    &&& forall|x: int|
        0 <= x < dc ==> ((#[trigger] dprod[x]) is Some ==> (dprod[x]->0 as int) < nds.len()
            && nds[dprod[x]->0 as int].outputs_data(x))
    &&& forall|x: int| 0 <= x < tc ==> target_output_count(nds, x) <= 1
    &&& forall|x: int|
        0 <= x < tc ==> ((#[trigger] tprod[x]) is Some <==> target_output_count(nds, x) >= 1)
    &&& forall|x: int|
        0 <= x < tc ==> ((#[trigger] tprod[x]) is Some ==> (tprod[x]->0 as int) < nds.len()
            && nds[tprod[x]->0 as int].outputs_target(x))
}

/// `prod_core` plus: every slot a node declares or an extra edge names has
/// a producer.
spec fn prod_full(
    nds: Seq<Node>,
    dc: nat,
    tc: nat,
    dprod: Seq<Option<usize>>,
    tprod: Seq<Option<usize>>,
) -> bool {
    &&& prod_core(nds, dc, tc, dprod, tprod)
    &&& forall|x: int| 0 <= x < dc && data_declared(nds, x) ==> (#[trigger] dprod[x]) is Some
    &&& forall|x: int| 0 <= x < tc && target_declared(nds, x) ==> (#[trigger] tprod[x]) is Some
    &&& forall|u0: int, k0: int|
        0 <= u0 < nds.len() && 0 <= k0 < (#[trigger] nds[u0]).extra_deps().len() ==> dprod[(
        #[trigger] nds[u0].extra_deps()[k0]).0.idx as int] is Some && tprod[(
        nds[u0].extra_deps()[k0]).1.idx as int] is Some
}

/// Some listed edge goes from node `u` to node `v`.
pub open spec fn edge_in(edges: Seq<(usize, usize)>, u: int, v: int) -> bool {
    exists|k: int|
        0 <= k < edges.len() && ((#[trigger] edges[k]).0 as int) == u && ((edges[k]).1 as int) == v
}

/// A resolved graph: the declared nodes and an execution order that
/// satisfies every dependency.
pub struct GraphSchedule {
    nodes: Vec<Node>,
    order: Vec<usize>,
    data_count: usize,
    target_count: usize,
}

impl GraphSchedule {
    /// The declared nodes.
    pub closed spec fn nodes(self) -> Seq<Node> {
        self.nodes@
    }

    /// The computed execution order (node indices).
    pub closed spec fn order(self) -> Seq<usize> {
        self.order@
    }

    /// Number of data slots the graph issued.
    pub closed spec fn data_slots(self) -> nat {
        self.data_count as nat
    }

    /// Number of render target slots the graph issued.
    pub closed spec fn target_slots(self) -> nat {
        self.target_count as nat
    }

    /// The order is a dependency-respecting permutation of well-formed
    /// nodes whose used slots each have exactly one producer.
    pub open spec fn wf(self) -> bool {
        &&& is_permutation(self.order(), self.nodes().len())
        &&& respects_deps(self.nodes(), self.order())
        &&& forall|u: int|
            0 <= u < self.nodes().len() ==> (#[trigger] self.nodes()[u]).wf(
                self.data_slots(),
                self.target_slots(),
            )
        &&& !has_multiple_producers(self.nodes(), self.data_slots(), self.target_slots())
        &&& !has_missing_producer(self.nodes(), self.data_slots(), self.target_slots())
    }

    /// The execution order as node indices.
    pub fn order_vec(&self) -> (r: &Vec<usize>)
        ensures
            r@ == self.order(),
    {
        &self.order
    }
}

/// Per-frame render graph under construction: issued slots and declared
/// nodes.
pub struct RenderGraph {
    nodes: Vec<Node>,
    data_count: usize,
    target_count: usize,
}

impl RenderGraph {
    /// The nodes declared so far.
    pub closed spec fn nodes(self) -> Seq<Node> {
        self.nodes@
    }

    /// Number of data slots issued so far.
    pub closed spec fn data_slots(self) -> nat {
        self.data_count as nat
    }

    /// Number of render target slots issued so far.
    pub closed spec fn target_slots(self) -> nat {
        self.target_count as nat
    }

    /// Every declared node only names issued slots.
    pub open spec fn wf(self) -> bool {
        forall|u: int|
            0 <= u < self.nodes().len() ==> (#[trigger] self.nodes()[u]).wf(
                self.data_slots(),
                self.target_slots(),
            )
    }

    /// An empty graph with no slots issued.
    pub fn new() -> (r: Self)
        ensures
            r.wf(),
            r.nodes() =~= Seq::<Node>::empty(),
            r.data_slots() == 0,
            r.target_slots() == 0,
    {
        RenderGraph { nodes: Vec::new(), data_count: 0, target_count: 0 }
    }

    /// Issues a fresh data slot for this frame.
    pub fn add_data(&mut self) -> (h: DataHandle)
        requires
            old(self).wf(),
            old(self).data_slots() < usize::MAX,
        ensures
            final(self).wf(),
            final(self).nodes() == old(self).nodes(),
            final(self).data_slots() == old(self).data_slots() + 1,
            final(self).target_slots() == old(self).target_slots(),
            h.idx as nat == old(self).data_slots(),
    {
        let h = DataHandle { idx: self.data_count };
        self.data_count = self.data_count + 1;
        proof {
            assert forall|u: int| 0 <= u < self.nodes().len() implies (#[trigger] self.nodes()[u]).wf(
                self.data_slots(),
                self.target_slots(),
            ) by {
                assert(old(self).nodes()[u].wf(old(self).data_slots(), old(self).target_slots()));
            }
        }
        h
    }

    /// Issues a fresh render target slot for this frame.
    pub fn add_render_target(&mut self) -> (h: RenderTargetHandle)
        requires
            old(self).wf(),
            old(self).target_slots() < usize::MAX,
        ensures
            final(self).wf(),
            final(self).nodes() == old(self).nodes(),
            final(self).data_slots() == old(self).data_slots(),
            final(self).target_slots() == old(self).target_slots() + 1,
            h.idx as nat == old(self).target_slots(),
    {
        let h = RenderTargetHandle { idx: self.target_count };
        self.target_count = self.target_count + 1;
        proof {
            assert forall|u: int| 0 <= u < self.nodes().len() implies (#[trigger] self.nodes()[u]).wf(
                self.data_slots(),
                self.target_slots(),
            ) by {
                assert(old(self).nodes()[u].wf(old(self).data_slots(), old(self).target_slots()));
            }
        }
        h
    }

    /// Adds a finished node declaration to the graph. The node may only
    /// name slots this graph issued; that is a caller invariant.
    pub fn add_node(&mut self, node: Node) -> (id: usize)
        requires
            old(self).wf(),
            node.wf(old(self).data_slots(), old(self).target_slots()),
        ensures
            final(self).wf(),
            final(self).nodes() == old(self).nodes().push(node),
            final(self).data_slots() == old(self).data_slots(),
            final(self).target_slots() == old(self).target_slots(),
            id as nat == old(self).nodes().len(),
    {
        let id = self.nodes.len();
        self.nodes.push(node);
        proof {
            assert forall|u: int| 0 <= u < self.nodes().len() implies (#[trigger] self.nodes()[u]).wf(
                self.data_slots(),
                self.target_slots(),
            ) by {
                if u < id as int {
                    assert(self.nodes()[u] == old(self).nodes()[u]);
                    assert(old(self).nodes()[u].wf(old(self).data_slots(), old(self).target_slots()));
                } else {
                    assert(self.nodes()[u] == node);
                }
            }
        }
        id
    }

    /// Resolves the graph: checks that every used slot has exactly one
    /// producer and computes a dependency-respecting execution order.
    /// Fails with `MultipleProducers` iff some slot has two Output
    /// declarations; else with `NoProducer` iff some used slot has none;
    /// else with `Cycle` iff no execution order satisfies the
    /// dependencies.
    #[verifier::rlimit(100)]
    pub fn resolve(self) -> (r: Result<GraphSchedule, GraphError>)
        requires
            self.wf(),
        ensures
            match r {
                Ok(sched) => sched.nodes() == self.nodes() && sched.data_slots()
                    == self.data_slots() && sched.target_slots() == self.target_slots()
                    && sched.wf(),
                Err(e) => match e {
                    GraphError::MultipleProducers => has_multiple_producers(
                        self.nodes(),
                        self.data_slots(),
                        self.target_slots(),
                    ),
                    GraphError::NoProducer => !has_multiple_producers(
                        self.nodes(),
                        self.data_slots(),
                        self.target_slots(),
                    ) && has_missing_producer(
                        self.nodes(),
                        self.data_slots(),
                        self.target_slots(),
                    ),
                    GraphError::Cycle => !has_multiple_producers(
                        self.nodes(),
                        self.data_slots(),
                        self.target_slots(),
                    ) && !has_missing_producer(
                        self.nodes(),
                        self.data_slots(),
                        self.target_slots(),
                    ) && !schedulable(self.nodes()),
                    _ => false,
                },
            },
    {
        let ghost nds = self.nodes@;
        let n = self.nodes.len();
        let dc = self.data_count;
        let tc = self.target_count;

        // Find each slot's unique producer; two producers are an error.
        let mut dprod: Vec<Option<usize>> = Vec::new();
        let mut s: usize = 0;
        while s < dc
            invariant
                nds == self.nodes@,
                dc == self.data_count,
                tc == self.target_count,
                dprod@.len() == s,
                s <= dc,
                forall|x: int| 0 <= x < s ==> data_output_count(nds, x) <= 1,
                forall|x: int|
                    0 <= x < s ==> ((#[trigger] dprod@[x]) is Some <==> data_output_count(nds, x)
                        >= 1),
                forall|x: int|
                    0 <= x < s ==> ((#[trigger] dprod@[x]) is Some ==> (dprod@[x]->0 as int)
                        < nds.len() && nds[dprod@[x]->0 as int].outputs_data(x)),
            decreases dc - s,
        {
            let (cnt, prod, _used) = scan_data_slot(&self.nodes, s);
            if cnt >= 2 {
                proof {
                    assert(data_output_count(self.nodes(), s as int) > 1);
                    assert(has_multiple_producers(
                        self.nodes(),
                        self.data_slots(),
                        self.target_slots(),
                    ));
                }
                return Err(GraphError::MultipleProducers);
            }
            dprod.push(prod);
            s = s + 1;
        }
        let mut tprod: Vec<Option<usize>> = Vec::new();
        let mut t: usize = 0;
        while t < tc
            invariant
                nds == self.nodes@,
                dc == self.data_count,
                tc == self.target_count,
                tprod@.len() == t,
                t <= tc,
                forall|x: int| 0 <= x < dc ==> data_output_count(nds, x) <= 1,
                forall|x: int|
                    0 <= x < dc ==> ((#[trigger] dprod@[x]) is Some <==> data_output_count(nds, x)
                        >= 1),
                forall|x: int|
                    0 <= x < dc ==> ((#[trigger] dprod@[x]) is Some ==> (dprod@[x]->0 as int)
                        < nds.len() && nds[dprod@[x]->0 as int].outputs_data(x)),
                dprod@.len() == dc,
                forall|x: int| 0 <= x < t ==> target_output_count(nds, x) <= 1,
                forall|x: int|
                    0 <= x < t ==> ((#[trigger] tprod@[x]) is Some <==> target_output_count(nds, x)
                        >= 1),
                forall|x: int|
                    0 <= x < t ==> ((#[trigger] tprod@[x]) is Some ==> (tprod@[x]->0 as int)
                        < nds.len() && nds[tprod@[x]->0 as int].outputs_target(x)),
            decreases tc - t,
        {
            let (cnt, prod, _used) = scan_target_slot(&self.nodes, t);
            if cnt >= 2 {
                proof {
                    assert(target_output_count(self.nodes(), t as int) > 1);
                    assert(has_multiple_producers(
                        self.nodes(),
                        self.data_slots(),
                        self.target_slots(),
                    ));
                }
                return Err(GraphError::MultipleProducers);
            }
            tprod.push(prod);
            t = t + 1;
        }
        proof {
            assert(!has_multiple_producers(nds, dc as nat, tc as nat));
            assert(prod_core(nds, dc as nat, tc as nat, dprod@, tprod@));
        }

        // Every used slot must have a producer.
        let mut s2: usize = 0;
        while s2 < dc
            invariant
                nds == self.nodes@,
                dc == self.data_count,
                tc == self.target_count,
                prod_core(nds, dc as nat, tc as nat, dprod@, tprod@),
                s2 <= dc,
                forall|x: int|
                    0 <= x < s2 && data_declared(nds, x) ==> (#[trigger] dprod@[x]) is Some,
            decreases dc - s2,
        {
            let used = scan_data_slot(&self.nodes, s2).2;
            if used && dprod[s2].is_none() {
                proof {
                    assert(data_used(self.nodes(), s2 as int));
                    assert(data_output_count(self.nodes(), s2 as int) == 0);
                    assert(has_missing_producer(
                        self.nodes(),
                        self.data_slots(),
                        self.target_slots(),
                    ));
                    assert(!has_multiple_producers(
                        self.nodes(),
                        self.data_slots(),
                        self.target_slots(),
                    )) by {
                        if has_multiple_producers(
                            self.nodes(),
                            self.data_slots(),
                            self.target_slots(),
                        ) {
                            assert(false);
                        }
                    }
                }
                return Err(GraphError::NoProducer);
            }
            s2 = s2 + 1;
        }
        let mut t2: usize = 0;
        while t2 < tc
            invariant
                nds == self.nodes@,
                dc == self.data_count,
                tc == self.target_count,
                prod_core(nds, dc as nat, tc as nat, dprod@, tprod@),
                forall|x: int|
                    0 <= x < dc && data_declared(nds, x) ==> (#[trigger] dprod@[x]) is Some,
                t2 <= tc,
                forall|x: int|
                    0 <= x < t2 && target_declared(nds, x) ==> (#[trigger] tprod@[x]) is Some,
            decreases tc - t2,
        {
            let used = scan_target_slot(&self.nodes, t2).2;
            if used && tprod[t2].is_none() {
                proof {
                    assert(target_used(self.nodes(), t2 as int));
                    assert(target_output_count(self.nodes(), t2 as int) == 0);
                    assert(has_missing_producer(
                        self.nodes(),
                        self.data_slots(),
                        self.target_slots(),
                    ));
                    assert(!has_multiple_producers(
                        self.nodes(),
                        self.data_slots(),
                        self.target_slots(),
                    )) by {
                        if has_multiple_producers(
                            self.nodes(),
                            self.data_slots(),
                            self.target_slots(),
                        ) {
                            assert(false);
                        }
                    }
                }
                return Err(GraphError::NoProducer);
            }
            t2 = t2 + 1;
        }
        // Extra edges also use their named slots.
        let mut u: usize = 0;
        while u < n
            invariant
                nds == self.nodes@,
                n == nds.len(),
                dc == self.data_count,
                tc == self.target_count,
                self.wf(),
                prod_core(nds, dc as nat, tc as nat, dprod@, tprod@),
                forall|x: int|
                    0 <= x < dc && data_declared(nds, x) ==> (#[trigger] dprod@[x]) is Some,
                forall|x: int|
                    0 <= x < tc && target_declared(nds, x) ==> (#[trigger] tprod@[x]) is Some,
                u <= n,
                forall|u0: int, k0: int|
                    0 <= u0 < u && 0 <= k0 < (#[trigger] nds[u0]).extra_deps().len() ==> dprod@[(
                    #[trigger] nds[u0].extra_deps()[k0]).0.idx as int] is Some && tprod@[(
                    nds[u0].extra_deps()[k0]).1.idx as int] is Some,
            decreases n - u,
        {
            let node = &self.nodes[u];
            let m = node.extra_deps.len();
            let mut k: usize = 0;
            while k < m
                invariant
                    nds == self.nodes@,
                    n == nds.len(),
                    dc == self.data_count,
                    tc == self.target_count,
                    self.wf(),
                    prod_core(nds, dc as nat, tc as nat, dprod@, tprod@),
                    u < n,
                    node == &nds[u as int],
                    m == node.extra_deps().len(),
                    k <= m,
                    forall|u0: int, k0: int|
                        0 <= u0 < u && 0 <= k0 < (#[trigger] nds[u0]).extra_deps().len() ==> dprod@[(
                        #[trigger] nds[u0].extra_deps()[k0]).0.idx as int] is Some && tprod@[(
                        nds[u0].extra_deps()[k0]).1.idx as int] is Some,
                    forall|k0: int|
                        0 <= k0 < k ==> dprod@[(#[trigger] nds[u as int].extra_deps()[k0]).0.idx as int]
                            is Some && tprod@[(nds[u as int].extra_deps()[k0]).1.idx as int] is Some,
                decreases m - k,
            {
                let (d, tg) = node.extra_deps[k];
                proof {
                    assert(self.nodes()[u as int].wf(self.data_slots(), self.target_slots()));
                    assert(nds[u as int].wf(dc as nat, tc as nat));
                    assert((nds[u as int].extra_deps()[k as int]).0 == d);
                    assert((nds[u as int].extra_deps()[k as int]).1 == tg);
                }
                if dprod[d.idx].is_none() {
                    proof {
                        assert(extra_listed(self.nodes(), d.idx as int, tg.idx as int));
                        assert(data_used(self.nodes(), d.idx as int));
                        assert(data_output_count(self.nodes(), d.idx as int) == 0);
                        assert(has_missing_producer(
                            self.nodes(),
                            self.data_slots(),
                            self.target_slots(),
                        ));
                        assert(!has_multiple_producers(
                            self.nodes(),
                            self.data_slots(),
                            self.target_slots(),
                        )) by {
                            if has_multiple_producers(
                                self.nodes(),
                                self.data_slots(),
                                self.target_slots(),
                            ) {
                                assert(false);
                            }
                        }
                    }
                    return Err(GraphError::NoProducer);
                }
                if tprod[tg.idx].is_none() {
                    proof {
                        assert(extra_listed(self.nodes(), d.idx as int, tg.idx as int));
                        assert(target_used(self.nodes(), tg.idx as int));
                        assert(target_output_count(self.nodes(), tg.idx as int) == 0);
                        assert(has_missing_producer(
                            self.nodes(),
                            self.data_slots(),
                            self.target_slots(),
                        ));
                        assert(!has_multiple_producers(
                            self.nodes(),
                            self.data_slots(),
                            self.target_slots(),
                        )) by {
                            if has_multiple_producers(
                                self.nodes(),
                                self.data_slots(),
                                self.target_slots(),
                            ) {
                                assert(false);
                            }
                        }
                    }
                    return Err(GraphError::NoProducer);
                }
                k = k + 1;
            }
            u = u + 1;
        }
        proof {
            assert(prod_full(nds, dc as nat, tc as nat, dprod@, tprod@)) by {
                assert forall|u0: int, k0: int|
                    0 <= u0 < nds.len() && 0 <= k0 < (#[trigger] nds[u0]).extra_deps().len() implies dprod@[(
                    #[trigger] nds[u0].extra_deps()[k0]).0.idx as int] is Some && tprod@[(
                    nds[u0].extra_deps()[k0]).1.idx as int] is Some by {
                }
            }
            assert(!has_missing_producer(nds, dc as nat, tc as nat)) by {
                if has_missing_producer(nds, dc as nat, tc as nat) {
                    if exists|x: int|
                        0 <= x < dc && data_used(nds, x) && data_output_count(nds, x) == 0 {
                        let x = choose|x: int|
                            0 <= x < dc && data_used(nds, x) && data_output_count(nds, x) == 0;
                        if data_declared(nds, x) {
                            assert(dprod@[x] is Some);
                        } else {
                            let tg = choose|tg: int| extra_listed(nds, x, tg);
                            let (u0, k0) = choose|u0: int, k0: int|
                                0 <= u0 < nds.len() && 0 <= k0 < (#[trigger] nds[u0]).extra_deps().len()
                                    && (#[trigger] nds[u0].extra_deps()[k0]).0.idx == x
                                    && nds[u0].extra_deps()[k0].1.idx == tg;
                            assert(dprod@[x] is Some);
                        }
                        assert(false);
                    } else {
                        let x = choose|x: int|
                            0 <= x < tc && target_used(nds, x) && target_output_count(nds, x) == 0;
                        if target_declared(nds, x) {
                            assert(tprod@[x] is Some);
                        } else {
                            let d = choose|d: int| extra_listed(nds, d, x);
                            let (u0, k0) = choose|u0: int, k0: int|
                                0 <= u0 < nds.len() && 0 <= k0 < (#[trigger] nds[u0]).extra_deps().len()
                                    && (#[trigger] nds[u0].extra_deps()[k0]).0.idx == d
                                    && nds[u0].extra_deps()[k0].1.idx == x;
                            assert(tprod@[x] is Some);
                        }
                        assert(false);
                    }
                }
            }
        }

        // Derive the dependency edges from the unique producers.
        let mut edges: Vec<(usize, usize)> = Vec::new();
        let mut v: usize = 0;
        while v < n
            invariant
                nds == self.nodes@,
                n == nds.len(),
                dc == self.data_count,
                tc == self.target_count,
                self.wf(),
                prod_full(nds, dc as nat, tc as nat, dprod@, tprod@),
                v <= n,
                forall|k: int|
                    0 <= k < edges@.len() ==> dep_edge(
                        nds,
                        (#[trigger] edges@[k]).0 as int,
                        (edges@[k]).1 as int,
                    ),
                forall|v0: int, x: int|
                    0 <= v0 < v && #[trigger] nds[v0].consumes_data(x) ==> ((dprod@[x]->0 as int)
                        == v0 || edge_in(edges@, dprod@[x]->0 as int, v0)),
                forall|v0: int, x: int|
                    0 <= v0 < v && #[trigger] nds[v0].consumes_target(x) ==> ((tprod@[x]->0 as int)
                        == v0 || edge_in(edges@, tprod@[x]->0 as int, v0)),
            decreases n - v,
        {
            let node = &self.nodes[v];
            let ghost ddecls = node.data_decls();
            let md = node.data_decls.len();
            let mut k: usize = 0;
            while k < md
                invariant
                    nds == self.nodes@,
                    n == nds.len(),
                    dc == self.data_count,
                    tc == self.target_count,
                    self.wf(),
                    prod_full(nds, dc as nat, tc as nat, dprod@, tprod@),
                    v < n,
                    node == &nds[v as int],
                    ddecls == node.data_decls(),
                    md == ddecls.len(),
                    k <= md,
                    forall|kk: int|
                        0 <= kk < edges@.len() ==> dep_edge(
                            nds,
                            (#[trigger] edges@[kk]).0 as int,
                            (edges@[kk]).1 as int,
                        ),
                    forall|v0: int, x: int|
                        0 <= v0 < v && #[trigger] nds[v0].consumes_data(x) ==> ((dprod@[x]->0 as int)
                            == v0 || edge_in(edges@, dprod@[x]->0 as int, v0)),
                    forall|v0: int, x: int|
                        0 <= v0 < v && #[trigger] nds[v0].consumes_target(x) ==> ((
                        tprod@[x]->0 as int) == v0 || edge_in(edges@, tprod@[x]->0 as int, v0)),
                    forall|k0: int|
                        0 <= k0 < k && !((#[trigger] ddecls[k0]).1 is Output) ==> ((dprod@[ddecls[k0].0.idx as int]->0 as int)
                            == v as int || edge_in(
                            edges@,
                            dprod@[ddecls[k0].0.idx as int]->0 as int,
                            v as int,
                        )),
                decreases md - k,
            {
                let (h, usage) = node.data_decls[k];
                proof {
                    assert(self.nodes()[v as int].wf(self.data_slots(), self.target_slots()));
                    assert(nds[v as int].wf(dc as nat, tc as nat));
                    assert((ddecls[k as int]).0 == h);
                    assert((ddecls[k as int]).1 == usage);
                }
                if !matches!(usage, NodeResourceUsage::Output) {
                    proof {
                        assert(nds[v as int].declares_data(h.idx as int));
                        assert(nds[v as int].consumes_data(h.idx as int));
                    }
                    let po = dprod[h.idx];
                    match po {
                        Some(p) => {
                            if p != v {
                                proof {
                                    assert(nds[p as int].outputs_data(h.idx as int));
                                    assert(dep_edge(nds, p as int, v as int));
                                }
                                let ghost edges0 = edges@;
                                edges.push((p, v));
                                proof {
                                    assert(edges@[edges0.len() as int] == (p, v));
                                    assert(edge_in(edges@, p as int, v as int));
                                    assert forall|uu: int, vv: int|
                                        edge_in(edges0, uu, vv) implies edge_in(edges@, uu, vv) by {
                                        let kk = choose|kk: int|
                                            0 <= kk < edges0.len() && ((#[trigger] edges0[kk]).0 as int)
                                                == uu && ((edges0[kk]).1 as int) == vv;
                                        assert(edges@[kk] == edges0[kk]);
                                    }
                                }
                            }
                        },
                        None => {
                            proof {
                                assert(false);
                            }
                        },
                    }
                }
                k = k + 1;
            }
            let ghost tdecls = node.target_decls();
            let mt = node.target_decls.len();
            let mut k2: usize = 0;
            while k2 < mt
                invariant
                    nds == self.nodes@,
                    n == nds.len(),
                    dc == self.data_count,
                    tc == self.target_count,
                    self.wf(),
                    prod_full(nds, dc as nat, tc as nat, dprod@, tprod@),
                    v < n,
                    node == &nds[v as int],
                    tdecls == node.target_decls(),
                    mt == tdecls.len(),
                    k2 <= mt,
                    forall|kk: int|
                        0 <= kk < edges@.len() ==> dep_edge(
                            nds,
                            (#[trigger] edges@[kk]).0 as int,
                            (edges@[kk]).1 as int,
                        ),
                    forall|v0: int, x: int|
                        0 <= v0 < v && #[trigger] nds[v0].consumes_data(x) ==> ((dprod@[x]->0 as int)
                            == v0 || edge_in(edges@, dprod@[x]->0 as int, v0)),
                    forall|v0: int, x: int|
                        0 <= v0 < v && #[trigger] nds[v0].consumes_target(x) ==> ((
                        tprod@[x]->0 as int) == v0 || edge_in(edges@, tprod@[x]->0 as int, v0)),
                    forall|x: int|
                        #[trigger] nds[v as int].consumes_data(x) ==> ((dprod@[x]->0 as int)
                            == v as int || edge_in(edges@, dprod@[x]->0 as int, v as int)),
                    forall|k0: int|
                        0 <= k0 < k2 && !((#[trigger] tdecls[k0]).1 is Output) ==> ((tprod@[tdecls[k0].0.idx as int]->0 as int)
                            == v as int || edge_in(
                            edges@,
                            tprod@[tdecls[k0].0.idx as int]->0 as int,
                            v as int,
                        )),
                decreases mt - k2,
            {
                let (h, usage) = node.target_decls[k2];
                proof {
                    assert(self.nodes()[v as int].wf(self.data_slots(), self.target_slots()));
                    assert(nds[v as int].wf(dc as nat, tc as nat));
                    assert((tdecls[k2 as int]).0 == h);
                    assert((tdecls[k2 as int]).1 == usage);
                }
                if !matches!(usage, NodeResourceUsage::Output) {
                    proof {
                        assert(nds[v as int].declares_target(h.idx as int));
                        assert(nds[v as int].consumes_target(h.idx as int));
                    }
                    let po = tprod[h.idx];
                    match po {
                        Some(p) => {
                            if p != v {
                                proof {
                                    assert(nds[p as int].outputs_target(h.idx as int));
                                    assert(dep_edge(nds, p as int, v as int));
                                }
                                let ghost edges0 = edges@;
                                edges.push((p, v));
                                proof {
                                    assert(edges@[edges0.len() as int] == (p, v));
                                    assert(edge_in(edges@, p as int, v as int));
                                    assert forall|uu: int, vv: int|
                                        edge_in(edges0, uu, vv) implies edge_in(edges@, uu, vv) by {
                                        let kk = choose|kk: int|
                                            0 <= kk < edges0.len() && ((#[trigger] edges0[kk]).0 as int)
                                                == uu && ((edges0[kk]).1 as int) == vv;
                                        assert(edges@[kk] == edges0[kk]);
                                    }
                                }
                            }
                        },
                        None => {
                            proof {
                                assert(false);
                            }
                        },
                    }
                }
                k2 = k2 + 1;
            }
            proof {
                assert forall|x: int| #[trigger] nds[v as int].consumes_target(x) implies ((
                tprod@[x]->0 as int) == v as int || edge_in(edges@, tprod@[x]->0 as int, v as int)) by {
                    let k0 = choose|k0: int|
                        0 <= k0 < tdecls.len() && (#[trigger] tdecls[k0]).0.idx == x && !(tdecls[k0].1
                            is Output);
                }
            }
            v = v + 1;
        }
        // Explicit extra edges.
        let mut u2: usize = 0;
        while u2 < n
            invariant
                nds == self.nodes@,
                n == nds.len(),
                dc == self.data_count,
                tc == self.target_count,
                self.wf(),
                prod_full(nds, dc as nat, tc as nat, dprod@, tprod@),
                u2 <= n,
                forall|k: int|
                    0 <= k < edges@.len() ==> dep_edge(
                        nds,
                        (#[trigger] edges@[k]).0 as int,
                        (edges@[k]).1 as int,
                    ),
                forall|v0: int, x: int|
                    0 <= v0 < n && #[trigger] nds[v0].consumes_data(x) ==> ((dprod@[x]->0 as int)
                        == v0 || edge_in(edges@, dprod@[x]->0 as int, v0)),
                forall|v0: int, x: int|
                    0 <= v0 < n && #[trigger] nds[v0].consumes_target(x) ==> ((tprod@[x]->0 as int)
                        == v0 || edge_in(edges@, tprod@[x]->0 as int, v0)),
                forall|u0: int, k0: int|
                    0 <= u0 < u2 && 0 <= k0 < (#[trigger] nds[u0]).extra_deps().len() ==> ((tprod@[(
                    #[trigger] nds[u0].extra_deps()[k0]).1.idx as int]->0) == (dprod@[(
                    nds[u0].extra_deps()[k0]).0.idx as int]->0) || edge_in(
                        edges@,
                        tprod@[(nds[u0].extra_deps()[k0]).1.idx as int]->0 as int,
                        dprod@[(nds[u0].extra_deps()[k0]).0.idx as int]->0 as int,
                    )),
            decreases n - u2,
        {
            let node = &self.nodes[u2];
            let ghost xdeps = node.extra_deps();
            let m = node.extra_deps.len();
            let mut k: usize = 0;
            while k < m
                invariant
                    nds == self.nodes@,
                    n == nds.len(),
                    dc == self.data_count,
                    tc == self.target_count,
                    self.wf(),
                    prod_full(nds, dc as nat, tc as nat, dprod@, tprod@),
                    u2 < n,
                    node == &nds[u2 as int],
                    xdeps == node.extra_deps(),
                    m == xdeps.len(),
                    k <= m,
                    forall|kk: int|
                        0 <= kk < edges@.len() ==> dep_edge(
                            nds,
                            (#[trigger] edges@[kk]).0 as int,
                            (edges@[kk]).1 as int,
                        ),
                    forall|v0: int, x: int|
                        0 <= v0 < n && #[trigger] nds[v0].consumes_data(x) ==> ((dprod@[x]->0 as int)
                            == v0 || edge_in(edges@, dprod@[x]->0 as int, v0)),
                    forall|v0: int, x: int|
                        0 <= v0 < n && #[trigger] nds[v0].consumes_target(x) ==> ((
                        tprod@[x]->0 as int) == v0 || edge_in(edges@, tprod@[x]->0 as int, v0)),
                    forall|u0: int, k0: int|
                        0 <= u0 < u2 && 0 <= k0 < (#[trigger] nds[u0]).extra_deps().len() ==> ((
                        tprod@[(#[trigger] nds[u0].extra_deps()[k0]).1.idx as int]->0) == (dprod@[(
                        nds[u0].extra_deps()[k0]).0.idx as int]->0) || edge_in(
                            edges@,
                            tprod@[(nds[u0].extra_deps()[k0]).1.idx as int]->0 as int,
                            dprod@[(nds[u0].extra_deps()[k0]).0.idx as int]->0 as int,
                        )),
                    forall|k0: int|
                        0 <= k0 < k ==> ((tprod@[(#[trigger] xdeps[k0]).1.idx as int]->0) == (dprod@[(
                        xdeps[k0]).0.idx as int]->0) || edge_in(
                            edges@,
                            tprod@[(xdeps[k0]).1.idx as int]->0 as int,
                            dprod@[(xdeps[k0]).0.idx as int]->0 as int,
                        )),
                decreases m - k,
            {
                let (d, tg) = node.extra_deps[k];
                proof {
                    assert(self.nodes()[u2 as int].wf(self.data_slots(), self.target_slots()));
                    assert(nds[u2 as int].wf(dc as nat, tc as nat));
                    assert((xdeps[k as int]).0 == d);
                    assert((xdeps[k as int]).1 == tg);
                    assert(extra_listed(nds, d.idx as int, tg.idx as int));
                }
                let pd = dprod[d.idx];
                let pt = tprod[tg.idx];
                match (pt, pd) {
                    (Some(pu), Some(pv)) => {
                        if pu != pv {
                            proof {
                                assert(nds[pu as int].outputs_target(tg.idx as int));
                                assert(nds[pv as int].outputs_data(d.idx as int));
                                assert(dep_edge(nds, pu as int, pv as int));
                            }
                            let ghost edges0 = edges@;
                            edges.push((pu, pv));
                            proof {
                                assert(edges@[edges0.len() as int] == (pu, pv));
                                assert(edge_in(edges@, pu as int, pv as int));
                                assert forall|uu: int, vv: int|
                                    edge_in(edges0, uu, vv) implies edge_in(edges@, uu, vv) by {
                                    let kk = choose|kk: int|
                                        0 <= kk < edges0.len() && ((#[trigger] edges0[kk]).0 as int)
                                            == uu && ((edges0[kk]).1 as int) == vv;
                                    assert(edges@[kk] == edges0[kk]);
                                }
                            }
                        }
                    },
                    _ => {
                        proof {
                            assert(false);
                        }
                    },
                }
                k = k + 1;
            }
            u2 = u2 + 1;
        }
        proof {
            // Every dependency is covered by a listed edge.
            assert forall|uu: int, vv: int| dep_edge(nds, uu, vv) implies edge_in(edges@, uu, vv) by {
                if exists|x: int| nds[uu].outputs_data(x) && nds[vv].consumes_data(x) {
                    let x = choose|x: int| nds[uu].outputs_data(x) && nds[vv].consumes_data(x);
                    let k0 = choose|k0: int|
                        0 <= k0 < nds[vv].data_decls().len() && (#[trigger] nds[vv].data_decls()[k0]).0.idx
                            == x && !(nds[vv].data_decls()[k0].1 is Output);
                    assert(self.nodes()[vv].wf(self.data_slots(), self.target_slots()));
                    assert(nds[vv].wf(dc as nat, tc as nat));
                    assert(0 <= x < dc);
                    assert(dprod@[x] is Some);
                    let p = dprod@[x]->0;
                    if p as int != uu {
                        lemma_data_count_witness(nds, x, uu);
                        if (p as int) < uu {
                            lemma_data_count_two(nds, x, p as int, uu);
                        } else {
                            lemma_data_count_two(nds, x, uu, p as int);
                        }
                        assert(false);
                    }
                    assert((dprod@[x]->0 as int) == vv || edge_in(edges@, dprod@[x]->0 as int, vv));
                } else if exists|x: int| nds[uu].outputs_target(x) && nds[vv].consumes_target(x) {
                    let x = choose|x: int| nds[uu].outputs_target(x) && nds[vv].consumes_target(x);
                    let k0 = choose|k0: int|
                        0 <= k0 < nds[vv].target_decls().len() && (#[trigger] nds[vv].target_decls()[k0]).0.idx
                            == x && !(nds[vv].target_decls()[k0].1 is Output);
                    assert(self.nodes()[vv].wf(self.data_slots(), self.target_slots()));
                    assert(nds[vv].wf(dc as nat, tc as nat));
                    assert(0 <= x < tc);
                    assert(tprod@[x] is Some);
                    let p = tprod@[x]->0;
                    if p as int != uu {
                        lemma_target_count_witness(nds, x, uu);
                        if (p as int) < uu {
                            lemma_target_count_two(nds, x, p as int, uu);
                        } else {
                            lemma_target_count_two(nds, x, uu, p as int);
                        }
                        assert(false);
                    }
                    assert((tprod@[x]->0 as int) == vv || edge_in(edges@, tprod@[x]->0 as int, vv));
                } else {
                    let (d, tg) = choose|d: int, tg: int|
                        extra_listed(nds, d, tg) && nds[uu].outputs_target(tg) && nds[vv].outputs_data(
                            d,
                        );
                    let (u0, k0) = choose|u0: int, k0: int|
                        0 <= u0 < nds.len() && 0 <= k0 < (#[trigger] nds[u0]).extra_deps().len()
                            && (#[trigger] nds[u0].extra_deps()[k0]).0.idx == d
                            && nds[u0].extra_deps()[k0].1.idx == tg;
                    assert(self.nodes()[u0].wf(self.data_slots(), self.target_slots()));
                    assert(nds[u0].wf(dc as nat, tc as nat));
                    assert(0 <= d < dc && 0 <= tg < tc);
                    assert(dprod@[d] is Some && tprod@[tg] is Some);
                    let pv = dprod@[d]->0;
                    let pu = tprod@[tg]->0;
                    if pv as int != vv {
                        lemma_data_count_witness(nds, d, vv);
                        if (pv as int) < vv {
                            lemma_data_count_two(nds, d, pv as int, vv);
                        } else {
                            lemma_data_count_two(nds, d, vv, pv as int);
                        }
                        assert(false);
                    }
                    if pu as int != uu {
                        lemma_target_count_witness(nds, tg, uu);
                        if (pu as int) < uu {
                            lemma_target_count_two(nds, tg, pu as int, uu);
                        } else {
                            lemma_target_count_two(nds, tg, uu, pu as int);
                        }
                        assert(false);
                    }
                    assert((tprod@[tg]->0) == (dprod@[d]->0) || edge_in(
                        edges@,
                        tprod@[tg]->0 as int,
                        dprod@[d]->0 as int,
                    ));
                }
            }
            assert forall|k: int|
                0 <= k < edges@.len() implies ((#[trigger] edges@[k]).0 as nat) < n as nat
                    && ((edges@[k]).1 as nat) < n as nat by {
                assert(dep_edge(nds, edges@[k].0 as int, edges@[k].1 as int));
            }
        }

        match topo_sort(n, &edges) {
            Some(order) => {
                proof {
                    assert(respects_deps(nds, order@)) by {
                        assert forall|i: int, j: int|
                            0 <= i < order@.len() && 0 <= j < order@.len() && dep_edge(
                                nds,
                                #[trigger] order@[i] as int,
                                #[trigger] order@[j] as int,
                            ) implies i < j by {
                            assert(edge_in(edges@, order@[i] as int, order@[j] as int));
                            let k = choose|k: int|
                                0 <= k < edges@.len() && ((#[trigger] edges@[k]).0 as int)
                                    == order@[i] as int && ((edges@[k]).1 as int) == order@[j] as int;
                            assert(order@[i] == edges@[k].0 && order@[j] == edges@[k].1);
                        }
                    }
                }
                Ok(GraphSchedule { nodes: self.nodes, order, data_count: dc, target_count: tc })
            },
            None => {
                proof {
                    assert(!schedulable(nds)) by {
                        if schedulable(nds) {
                            let order = choose|order: Seq<usize>|
                                is_permutation(order, nds.len()) && #[trigger] respects_deps(
                                    nds,
                                    order,
                                );
                            assert(respects_edges(order, edges@)) by {
                                assert forall|i: int, j: int, k: int|
                                    0 <= i < order.len() && 0 <= j < order.len() && 0 <= k
                                        < edges@.len() && (#[trigger] order[i]) == (
                                    #[trigger] edges@[k]).0 && (#[trigger] order[j]) == edges@[k].1
                                        implies i < j by {
                                    assert(dep_edge(nds, order[i] as int, order[j] as int));
                                }
                            }
                            assert(false);
                        }
                    }
                }
                Err(GraphError::Cycle)
            },
        }
    }
}


/// Each Output data declaration of `node` has been written in `vals`.
pub open spec fn outputs_written<T>(node: Node, vals: Seq<Option<T>>) -> bool {
    forall|k: int|
        0 <= k < node.data_decls().len() && (#[trigger] node.data_decls()[k]).1 is Output
            ==> vals[node.data_decls()[k].0.idx as int] is Some
}

/// Whether `node` declares Output on data slot `s`.
fn node_outputs_data(node: &Node, s: usize) -> (r: bool)
    ensures
        r == node.outputs_data(s as int),
{
    let m = node.data_decls.len();
    let mut k: usize = 0;
    while k < m
        invariant
            m == node.data_decls().len(),
            k <= m,
            forall|k0: int|
                0 <= k0 < k ==> !((#[trigger] node.data_decls()[k0]).0.idx == s
                    && node.data_decls()[k0].1 is Output),
        decreases m - k,
    {
        let (h, usage) = node.data_decls[k];
        if h.idx == s && matches!(usage, NodeResourceUsage::Output) {
            proof {
                assert((node.data_decls()[k as int]).0.idx == s
                    && node.data_decls()[k as int].1 is Output);
            }
            return true;
        }
        k = k + 1;
    }
    proof {
        if node.outputs_data(s as int) {
            let k0 = choose|k0: int|
                0 <= k0 < node.data_decls().len() && (#[trigger] node.data_decls()[k0]).0.idx == s
                    && node.data_decls()[k0].1 is Output;
            assert(false);
        }
    }
    false
}

/// Whether `node` declares Input or Reference on data slot `s`.
fn node_consumes_data(node: &Node, s: usize) -> (r: bool)
    ensures
        r == node.consumes_data(s as int),
{
    let m = node.data_decls.len();
    let mut k: usize = 0;
    while k < m
        invariant
            m == node.data_decls().len(),
            k <= m,
            forall|k0: int|
                0 <= k0 < k ==> !((#[trigger] node.data_decls()[k0]).0.idx == s && !(
                node.data_decls()[k0].1 is Output)),
        decreases m - k,
    {
        let (h, usage) = node.data_decls[k];
        if h.idx == s && !matches!(usage, NodeResourceUsage::Output) {
            proof {
                assert((node.data_decls()[k as int]).0.idx == s && !(node.data_decls()[k as int].1
                    is Output));
            }
            return true;
        }
        k = k + 1;
    }
    proof {
        if node.consumes_data(s as int) {
            let k0 = choose|k0: int|
                0 <= k0 < node.data_decls().len() && (#[trigger] node.data_decls()[k0]).0.idx == s
                    && !(node.data_decls()[k0].1 is Output);
            assert(false);
        }
    }
    false
}

/// Whether `node` declares target slot `t` with any usage.
fn node_declares_target(node: &Node, t: usize) -> (r: bool)
    ensures
        r == node.declares_target(t as int),
{
    let m = node.target_decls.len();
    let mut k: usize = 0;
    while k < m
        invariant
            m == node.target_decls().len(),
            k <= m,
            forall|k0: int| 0 <= k0 < k ==> (#[trigger] node.target_decls()[k0]).0.idx != t,
        decreases m - k,
    {
        let (h, _usage) = node.target_decls[k];
        if h.idx == t {
            proof {
                assert((node.target_decls()[k as int]).0.idx == t);
            }
            return true;
        }
        k = k + 1;
    }
    proof {
        if node.declares_target(t as int) {
            let k0 = choose|k0: int|
                0 <= k0 < node.target_decls().len() && (#[trigger] node.target_decls()[k0]).0.idx
                    == t;
            assert(false);
        }
    }
    false
}

/// Walks a resolved schedule node by node, granting each node exactly the
/// slot access its declarations allow: writes only to its declared Output
/// slots (once each), reads only from its declared Input and Reference
/// slots.
pub struct GraphExecutor<T> {
    nodes: Vec<Node>,
    order: Vec<usize>,
    pos: usize,
    data_vals: Vec<Option<T>>,
    target_done: Vec<bool>,
}

impl<T> GraphExecutor<T> {
    /// The scheduled nodes.
    pub closed spec fn nodes(self) -> Seq<Node> {
        self.nodes@
    }

    /// The execution order being walked.
    pub closed spec fn order(self) -> Seq<usize> {
        self.order@
    }

    /// How many nodes have finished.
    pub closed spec fn pos(self) -> nat {
        self.pos as nat
    }

    /// The per-slot data payloads written so far.
    pub closed spec fn data_vals(self) -> Seq<Option<T>> {
        self.data_vals@
    }

    /// Which render targets have been produced so far.
    pub closed spec fn target_done(self) -> Seq<bool> {
        self.target_done@
    }

    /// All nodes have finished.
    pub open spec fn is_done(self) -> bool {
        self.pos() == self.order().len()
    }

    /// Index of the node currently executing.
    pub open spec fn current(self) -> int {
        self.order()[self.pos() as int] as int
    }

    /// The order is a dependency-respecting permutation, the walk position
    /// is within it, every declared slot is backed by the tables, and every
    /// used slot has exactly one producer.
    pub open spec fn wf(self) -> bool {
        &&& is_permutation(self.order(), self.nodes().len())
        &&& respects_deps(self.nodes(), self.order())
        &&& self.pos() <= self.order().len()
        &&& forall|u: int|
            0 <= u < self.nodes().len() ==> (#[trigger] self.nodes()[u]).wf(
                self.data_vals().len(),
                self.target_done().len(),
            )
        &&& !has_multiple_producers(self.nodes(), self.data_vals().len(), self.target_done().len())
        &&& !has_missing_producer(self.nodes(), self.data_vals().len(), self.target_done().len())
    }

    /// Starts executing a resolved schedule: no data produced yet, first
    /// node of the order up next.
    pub fn new(sched: GraphSchedule) -> (r: Self)
        requires
            sched.wf(),
        ensures
            r.wf(),
            r.nodes() == sched.nodes(),
            r.order() == sched.order(),
            r.pos() == 0,
            r.data_vals().len() == sched.data_slots(),
            r.target_done().len() == sched.target_slots(),
            forall|i: int| 0 <= i < r.data_vals().len() ==> (#[trigger] r.data_vals()[i]) is None,
            forall|i: int| 0 <= i < r.target_done().len() ==> !(#[trigger] r.target_done()[i]),
    {
        let dc = sched.data_count;
        let tc = sched.target_count;
        let mut data_vals: Vec<Option<T>> = Vec::new();
        let mut i: usize = 0;
        while i < dc
            invariant
                i <= dc,
                data_vals@.len() == i,
                forall|j: int| 0 <= j < i ==> (#[trigger] data_vals@[j]) is None,
            decreases dc - i,
        {
            data_vals.push(None);
            i = i + 1;
        }
        let mut target_done: Vec<bool> = Vec::new();
        let mut j: usize = 0;
        while j < tc
            invariant
                j <= tc,
                target_done@.len() == j,
                forall|jj: int| 0 <= jj < j ==> !(#[trigger] target_done@[jj]),
            decreases tc - j,
        {
            target_done.push(false);
            j = j + 1;
        }
        GraphExecutor { nodes: sched.nodes, order: sched.order, pos: 0, data_vals, target_done }
    }

    /// The node up next, or `None` when the frame is done.
    pub fn current_node(&self) -> (r: Option<usize>)
        requires
            self.wf(),
        ensures
            r is Some <==> !self.is_done(),
            r is Some ==> (r->0 as int) == self.current(),
    {
        if self.pos < self.order.len() {
            Some(self.order[self.pos])
        } else {
            None
        }
    }

    /// Writes the current node's declared Output data slot, once.
    pub fn set_data(&mut self, h: DataHandle, value: T) -> (r: Result<(), GraphError>)
        requires
            old(self).wf(),
            !old(self).is_done(),
            (h.idx as nat) < old(self).data_vals().len(),
        ensures
            final(self).wf(),
            final(self).nodes() == old(self).nodes(),
            final(self).order() == old(self).order(),
            final(self).pos() == old(self).pos(),
            final(self).target_done() == old(self).target_done(),
            match r {
                Ok(()) => old(self).nodes()[old(self).current()].outputs_data(h.idx as int) && old(self).data_vals()[h.idx as int] is None && final(self).data_vals() == old(self).data_vals().update(h.idx as int, Some(value)),
                Err(GraphError::NotDeclared) => !old(self).nodes()[old(self).current()].outputs_data(
                    h.idx as int,
                ) && final(self).data_vals() == old(self).data_vals(),
                Err(GraphError::AlreadySet) => old(self).nodes()[old(self).current()].outputs_data(
                    h.idx as int,
                ) && old(self).data_vals()[h.idx as int] is Some && final(self).data_vals() == old(self).data_vals(),
                Err(_) => false,
            },
    {
        let cur = self.order[self.pos];
        if !node_outputs_data(&self.nodes[cur], h.idx) {
            return Err(GraphError::NotDeclared);
        }
        if self.data_vals[h.idx].is_some() {
            return Err(GraphError::AlreadySet);
        }
        self.data_vals[h.idx] = Some(value);
        Ok(())
    }

    /// Reads a data slot the current node declared as Input or Reference.
    pub fn get_data(&self, h: DataHandle) -> (r: Result<&T, GraphError>)
        requires
            self.wf(),
            !self.is_done(),
            (h.idx as nat) < self.data_vals().len(),
        ensures
            match r {
                Ok(v) => self.nodes()[self.current()].consumes_data(h.idx as int)
                    && self.data_vals()[h.idx as int] == Some(*v),
                Err(GraphError::NotDeclared) => !self.nodes()[self.current()].consumes_data(
                    h.idx as int,
                ),
                Err(GraphError::NotProduced) => self.nodes()[self.current()].consumes_data(
                    h.idx as int,
                ) && self.data_vals()[h.idx as int] is None,
                Err(_) => false,
            },
    {
        let cur = self.order[self.pos];
        if !node_consumes_data(&self.nodes[cur], h.idx) {
            return Err(GraphError::NotDeclared);
        }
        match &self.data_vals[h.idx] {
            Some(v) => Ok(v),
            None => Err(GraphError::NotProduced),
        }
    }

    /// Resolves a render target slot the current node declared; the caller
    /// maps the returned slot index to its backing texture.
    pub fn get_render_target(&self, h: RenderTargetHandle) -> (r: Result<usize, GraphError>)
        requires
            self.wf(),
            !self.is_done(),
            (h.idx as nat) < self.target_done().len(),
        ensures
            match r {
                Ok(i) => i == h.idx && self.nodes()[self.current()].declares_target(h.idx as int),
                Err(GraphError::NotDeclared) => !self.nodes()[self.current()].declares_target(
                    h.idx as int,
                ),
                Err(_) => false,
            },
    {
        let cur = self.order[self.pos];
        if !node_declares_target(&self.nodes[cur], h.idx) {
            return Err(GraphError::NotDeclared);
        }
        Ok(h.idx)
    }

    /// Finishes the current node: all its Output data slots must have been
    /// written; its Output render targets become produced.
    pub fn advance_node(&mut self) -> (r: Result<(), GraphError>)
        requires
            old(self).wf(),
            !old(self).is_done(),
        ensures
            final(self).wf(),
            final(self).nodes() == old(self).nodes(),
            final(self).order() == old(self).order(),
            final(self).data_vals() == old(self).data_vals(),
            final(self).target_done().len() == old(self).target_done().len(),
            match r {
                Ok(()) => outputs_written(
                    old(self).nodes()[old(self).current()],
                    old(self).data_vals(),
                ) && final(self).pos() == old(self).pos() + 1 && forall|t: int|
                    0 <= t < final(self).target_done().len() ==> (#[trigger] final(self).target_done()[t]) == (old(self).target_done()[t] || old(self).nodes()[old(self).current()].outputs_target(t)),
                Err(GraphError::OutputNotWritten) => !outputs_written(
                    old(self).nodes()[old(self).current()],
                    old(self).data_vals(),
                ) && final(self).pos() == old(self).pos() && final(self).target_done() == old(self).target_done(),
                Err(_) => false,
            },
    {
        let olen = self.order.len();
        let cur = self.order[self.pos];
        let ghost node0 = self.nodes@[cur as int];
        let md = self.nodes[cur].data_decls.len();
        let mut k: usize = 0;
        while k < md
            invariant
                self == old(self),
                old(self).wf(),
                !old(self).is_done(),
                cur == self.order@[self.pos as int],
                node0 == self.nodes@[cur as int],
                md == node0.data_decls().len(),
                k <= md,
                forall|k0: int|
                    0 <= k0 < k && (#[trigger] node0.data_decls()[k0]).1 is Output
                        ==> self.data_vals@[node0.data_decls()[k0].0.idx as int] is Some,
            decreases md - k,
        {
            let (h, usage) = self.nodes[cur].data_decls[k];
            if matches!(usage, NodeResourceUsage::Output) {
                proof {
                    assert(self.nodes()[cur as int].wf(
                        self.data_vals().len(),
                        self.target_done().len(),
                    ));
                    assert((node0.data_decls()[k as int]).0 == h);
                }
                if self.data_vals[h.idx].is_none() {
                    proof {
                        assert((node0.data_decls()[k as int]).1 is Output);
                        assert(self.data_vals@[node0.data_decls()[k as int].0.idx as int] is None);
                    }
                    return Err(GraphError::OutputNotWritten);
                }
            }
            k = k + 1;
        }
        let ghost tdone0 = self.target_done@;
        let mt = self.nodes[cur].target_decls.len();
        let mut k2: usize = 0;
        while k2 < mt
            invariant
                old(self).wf(),
                !old(self).is_done(),
                self.nodes@ == old(self).nodes@,
                self.order@ == old(self).order@,
                self.pos == old(self).pos,
                self.data_vals@ == old(self).data_vals@,
                self.target_done@.len() == old(self).target_done@.len(),
                tdone0 == old(self).target_done@,
                cur == self.order@[self.pos as int],
                node0 == self.nodes@[cur as int],
                mt == node0.target_decls().len(),
                k2 <= mt,
                forall|t: int|
                    0 <= t < self.target_done@.len() ==> (#[trigger] self.target_done@[t]) == (
                    tdone0[t] || exists|k0: int|
                        0 <= k0 < k2 && (#[trigger] node0.target_decls()[k0]).0.idx == t
                            && node0.target_decls()[k0].1 is Output),
            decreases mt - k2,
        {
            let (h, usage) = self.nodes[cur].target_decls[k2];
            proof {
                assert(self.nodes()[cur as int].wf(
                    self.data_vals().len(),
                    self.target_done().len(),
                ));
                assert((node0.target_decls()[k2 as int]).0 == h);
                assert((node0.target_decls()[k2 as int]).1 == usage);
            }
            if matches!(usage, NodeResourceUsage::Output) {
                self.target_done[h.idx] = true;
            }
            proof {
                assert forall|t: int|
                    0 <= t < self.target_done@.len() implies (#[trigger] self.target_done@[t]) == (
                    tdone0[t] || exists|k0: int|
                        0 <= k0 < k2 + 1 && (#[trigger] node0.target_decls()[k0]).0.idx == t
                            && node0.target_decls()[k0].1 is Output) by {
                    if self.target_done@[t] {
                        if !tdone0[t] {
                            if !(exists|k0: int|
                                0 <= k0 < k2 && (#[trigger] node0.target_decls()[k0]).0.idx == t
                                    && node0.target_decls()[k0].1 is Output) {
                                assert(node0.target_decls()[k2 as int].0.idx == t
                                    && node0.target_decls()[k2 as int].1 is Output);
                            }
                        }
                    } else {
                        if exists|k0: int|
                            0 <= k0 < k2 + 1 && (#[trigger] node0.target_decls()[k0]).0.idx == t
                                && node0.target_decls()[k0].1 is Output {
                            let k0 = choose|k0: int|
                                0 <= k0 < k2 + 1 && (#[trigger] node0.target_decls()[k0]).0.idx == t
                                    && node0.target_decls()[k0].1 is Output;
                            assert(false);
                        }
                    }
                }
            }
            k2 = k2 + 1;
        }
        proof {
            assert(self.pos() < self.order().len());
            assert(self.order().len() <= olen);
        }
        self.pos = self.pos + 1;
        proof {
            assert forall|t: int|
                0 <= t < self.target_done@.len() implies (#[trigger] self.target_done@[t]) == (
                tdone0[t] || node0.outputs_target(t)) by {
                if self.target_done@[t] && !tdone0[t] {
                    let k0 = choose|k0: int|
                        0 <= k0 < mt && (#[trigger] node0.target_decls()[k0]).0.idx == t
                            && node0.target_decls()[k0].1 is Output;
                    assert(node0.outputs_target(t));
                }
                if node0.outputs_target(t) && !self.target_done@[t] {
                    let k0 = choose|k0: int|
                        0 <= k0 < node0.target_decls().len() && (#[trigger] node0.target_decls()[k0]).0.idx
                            == t && node0.target_decls()[k0].1 is Output;
                    assert(false);
                }
            }
        }
        Ok(())
    }
}


/// A nonzero output count yields an Output declaration.
proof fn lemma_data_outputs_in_nonzero(decls: Seq<(DataHandle, NodeResourceUsage)>, s: int)
    requires
        data_outputs_in(decls, s) >= 1,
    ensures
        exists|k: int|
            0 <= k < decls.len() && (#[trigger] decls[k]).0.idx == s && decls[k].1 is Output,
    decreases decls.len(),
{
    if decls.last().0.idx == s && decls.last().1 is Output {
        assert((decls[decls.len() - 1]).0.idx == s && decls[decls.len() - 1].1 is Output);
    } else {
        lemma_data_outputs_in_nonzero(decls.drop_last(), s);
        let k = choose|k: int|
            0 <= k < decls.drop_last().len() && (#[trigger] decls.drop_last()[k]).0.idx == s
                && decls.drop_last()[k].1 is Output;
        assert((decls[k]).0.idx == s && decls[k].1 is Output);
    }
}

/// A nonzero producer count yields a producing node.
proof fn lemma_data_count_nonzero(nodes: Seq<Node>, s: int)
    requires
        data_output_count(nodes, s) >= 1,
    ensures
        exists|u: int| 0 <= u < nodes.len() && (#[trigger] nodes[u]).outputs_data(s),
    decreases nodes.len(),
{
    if data_outputs_in(nodes.last().data_decls(), s) >= 1 {
        lemma_data_outputs_in_nonzero(nodes.last().data_decls(), s);
        assert((nodes[nodes.len() - 1]).outputs_data(s));
    } else {
        lemma_data_count_nonzero(nodes.drop_last(), s);
        let u = choose|u: int|
            0 <= u < nodes.drop_last().len() && (#[trigger] nodes.drop_last()[u]).outputs_data(s);
        assert((nodes[u]).outputs_data(s));
    }
}

/// The schedule makes inputs available: when every node finished so far
/// wrote all its declared outputs, a data slot the current node consumes
/// (and does not produce itself) has already been written — its producer
/// was ordered strictly earlier.
pub proof fn lemma_input_available<T>(ex: GraphExecutor<T>, h: DataHandle)
    requires
        ex.wf(),
        !ex.is_done(),
        (h.idx as nat) < ex.data_vals().len(),
        ex.nodes()[ex.current()].consumes_data(h.idx as int),
        !ex.nodes()[ex.current()].outputs_data(h.idx as int),
        forall|i: int|
            0 <= i < ex.pos() ==> outputs_written(
                ex.nodes()[#[trigger] ex.order()[i] as int],
                ex.data_vals(),
            ),
    ensures
        ex.data_vals()[h.idx as int] is Some,
{
    let nds = ex.nodes();
    let s = h.idx as int;
    let cur = ex.current();
    // The slot is used, so it has a producer.
    assert(nds[cur].declares_data(s)) by {
        let k = choose|k: int|
            0 <= k < nds[cur].data_decls().len() && (#[trigger] nds[cur].data_decls()[k]).0.idx == s
                && !(nds[cur].data_decls()[k].1 is Output);
    }
    assert(data_declared(nds, s));
    assert(data_used(nds, s));
    assert(data_output_count(nds, s) >= 1) by {
        if data_output_count(nds, s) == 0 {
            assert(has_missing_producer(nds, ex.data_vals().len(), ex.target_done().len()));
        }
    }
    lemma_data_count_nonzero(nds, s);
    let u = choose|u: int| 0 <= u < nds.len() && (#[trigger] nds[u]).outputs_data(s);
    assert(u != cur);
    assert(dep_edge(nds, u, cur));
    // The producer stands strictly before the current position.
    lemma_permutation_contains(ex.order(), nds.len(), u);
    let i = choose|i: int| 0 <= i < ex.order().len() && (#[trigger] ex.order()[i]) as int == u;
    assert(dep_edge(nds, ex.order()[i] as int, ex.order()[ex.pos() as int] as int));
    assert(i < ex.pos());
    // It finished, so it wrote all its outputs, this slot among them.
    assert(outputs_written(nds[ex.order()[i] as int], ex.data_vals()));
    let k = choose|k: int|
        0 <= k < nds[u].data_decls().len() && (#[trigger] nds[u].data_decls()[k]).0.idx == s
            && nds[u].data_decls()[k].1 is Output;
    assert(ex.data_vals()[nds[u].data_decls()[k].0.idx as int] is Some);
}

} // verus!
