//! From a graph under construction to one that can be run.
use crate::basicblock::BasicBlockType;
use crate::dag::builder::{node_views, value_view, DagBuilder};
use crate::dag::graph::{Graph, NodeView};
use crate::dag::{AliasId, Dag, EdgeId, Node, NodeId};
use crate::witness::{Role, Witness};
use vstd::prelude::*;

verus! {

/// One use of an edge: the edge, the node that reads it, and which of its inputs it is.
pub type Use = (usize, usize, usize);

/// The uses of edges by the first `k` nodes, in order.
pub open spec fn uses(nodes: Seq<NodeView>, k: nat) -> Seq<Use>
    decreases k,
{
    if k == 0 {
        seq![]
    } else {
        uses(nodes, (k - 1) as nat) + Seq::new(
            nodes[k - 1].inputs.len(),
            |s: int| (nodes[k - 1].inputs[s], (k - 1) as usize, s as usize),
        )
    }
}

/// The nodes of the first `k` uses that are uses of an edge.
pub open spec fn readers(list: Seq<Use>, e: usize, k: nat) -> Seq<usize>
    decreases k,
{
    if k == 0 {
        seq![]
    } else {
        let before = readers(list, e, (k - 1) as nat);
        if list[k - 1].0 == e {
            before.push(list[k - 1].1)
        } else {
            before
        }
    }
}

/// The numbers of the first `k` uses that are uses of an edge.
pub open spec fn use_numbers(list: Seq<Use>, e: usize, k: nat) -> Seq<AliasId>
    decreases k,
{
    if k == 0 {
        seq![]
    } else {
        let before = use_numbers(list, e, (k - 1) as nat);
        if list[k - 1].0 == e {
            before.push(AliasId((k - 1) as usize))
        } else {
            before
        }
    }
}

/// The nodes that read an edge.
pub open spec fn consumers_of(nodes: Seq<NodeView>, e: usize) -> Seq<usize> {
    let list = uses(nodes, nodes.len());
    readers(list, e, list.len())
}

/// Node `u` writes the edge.
pub open spec fn writes(nodes: Seq<NodeView>, u: int, e: usize) -> bool {
    0 <= u < nodes.len() && nodes[u].outputs.contains(e)
}

/// Some node writes the edge.
pub open spec fn is_written(nodes: Seq<NodeView>, e: usize) -> bool {
    exists|u: int| #[trigger] writes(nodes, u, e)
}

/// Every edge is written at most once.
pub open spec fn written_once(nodes: Seq<NodeView>) -> bool {
    &&& forall|u: int| 0 <= u < nodes.len() ==> (#[trigger] nodes[u]).outputs.no_duplicates()
    &&& forall|u: int, v: int, e: usize|
        #[trigger] writes(nodes, u, e) && #[trigger] writes(nodes, v, e) ==> u == v
}

/// Node `v` reads an edge that node `u` writes.
pub open spec fn reads_from(nodes: Seq<NodeView>, v: int, u: int) -> bool {
    exists|s: int|
        0 <= s < nodes[v].inputs.len() && writes(nodes, u, #[trigger] nodes[v].inputs[s])
}

/// A number for every node that is smaller for a node than for those that read from it.
pub open spec fn ranks(nodes: Seq<NodeView>, rank: Seq<nat>) -> bool {
    &&& rank.len() == nodes.len()
    &&& forall|v: int, u: int|
        0 <= v < nodes.len() && 0 <= u < nodes.len() && #[trigger] reads_from(nodes, v, u)
            ==> rank[u] < rank[v]
}

/// No node reads, over any number of steps, from itself.
pub open spec fn acyclic(nodes: Seq<NodeView>) -> bool {
    exists|rank: Seq<nat>| ranks(nodes, rank)
}

/// The edges of the nodes are edges of the graph, and the nodes are numbered in order.
pub open spec fn numbered(nodes: Seq<NodeView>, num_edges: int) -> bool {
    forall|i: int|
        0 <= i < nodes.len() ==> {
            &&& (#[trigger] nodes[i]).id == i
            &&& forall|s: int|
                0 <= s < nodes[i].inputs.len() ==> #[trigger] nodes[i].inputs[s] < num_edges
            &&& forall|s: int|
                0 <= s < nodes[i].outputs.len() ==> #[trigger] nodes[i].outputs[s] < num_edges
        }
}

/// The graph can be compiled.
pub open spec fn compilable(g: Graph) -> bool {
    &&& numbered(g.nodes, g.num_edges as int)
    &&& written_once(g.nodes)
    &&& acyclic(g.nodes)
    &&& forall|e: int| 0 <= e < g.values.len() ==> (#[trigger] g.values[e]) is Some
    &&& forall|e: usize|
        e < g.num_edges && !(#[trigger] is_written(g.nodes, e)) ==> e < g.values.len()
    &&& forall|i: int|
        0 <= i < g.range.len() ==> #[trigger] g.range[i] < g.nodes.len() && (
        g.nodes[g.range[i] as int].op is NonNegative ==> g.nodes[g.range[i] as int].inputs.len()
            >= 1)
    &&& forall|i: int|
        0 <= i < g.zero_check.len() ==> #[trigger] g.zero_check[i] < g.nodes.len()
            && g.nodes[g.zero_check[i] as int].inputs.len() >= 1
}

/// The edges below `k` that are graph inputs.
pub open spec fn inputs_below(g: Graph, k: nat) -> Seq<usize>
    decreases k,
{
    if k == 0 {
        seq![]
    } else {
        let e = (k - 1) as usize;
        let before = inputs_below(g, (k - 1) as nat);
        if !is_written(g.nodes, e) && g.value(e).role == Role::Input {
            before.push(e)
        } else {
            before
        }
    }
}

/// The edges below `k` that no node reads.
pub open spec fn unread_below(g: Graph, k: nat) -> Seq<usize>
    decreases k,
{
    if k == 0 {
        seq![]
    } else {
        let e = (k - 1) as usize;
        let before = unread_below(g, (k - 1) as nat);
        if consumers_of(g.nodes, e).len() == 0 {
            before.push(e)
        } else {
            before
        }
    }
}

/// The inputs of the first `k` of the marked nodes that check a range.
pub open spec fn range_inputs(g: Graph, k: nat) -> Seq<usize>
    decreases k,
{
    if k == 0 {
        seq![]
    } else {
        let before = range_inputs(g, (k - 1) as nat);
        let node = g.nodes[g.range[k - 1] as int];
        if node.op is NonNegative {
            before.push(node.inputs[0])
        } else {
            before
        }
    }
}

/// The inputs of the nodes that assert a zero.
pub open spec fn zero_inputs(g: Graph) -> Seq<usize> {
    g.zero_check.map_values(|n: usize| g.nodes[n as int].inputs[0])
}

/// The nodes that read what a node writes, one entry for each use.
pub open spec fn followers(nodes: Seq<NodeView>, u: int, k: nat) -> Seq<usize>
    decreases k,
{
    if k == 0 {
        seq![]
    } else {
        followers(nodes, u, (k - 1) as nat) + consumers_of(nodes, nodes[u].outputs[k - 1])
    }
}

/// The nodes that read what a node writes, for all nodes.
pub open spec fn all_followers(nodes: Seq<NodeView>) -> Seq<Seq<usize>> {
    Seq::new(nodes.len(), |u: int| followers(nodes, u, nodes[u].outputs.len()))
}

/// How many of the first `k` inputs of a node are written by some node.
pub open spec fn written_inputs(nodes: Seq<NodeView>, v: int, k: nat) -> nat
    decreases k,
{
    if k == 0 {
        0
    } else {
        written_inputs(nodes, v, (k - 1) as nat) + (if is_written(nodes, nodes[v].inputs[k - 1]) {
            1nat
        } else {
            0nat
        })
    }
}

/// For each node the number of its inputs that some node writes.
pub open spec fn all_degrees(nodes: Seq<NodeView>) -> Seq<usize> {
    Seq::new(
        nodes.len(),
        |v: int| written_inputs(nodes, v, nodes[v].inputs.len()) as usize,
    )
}

/// The nodes below `k` that read nothing that a node writes.
pub open spec fn roots(degrees: Seq<usize>, k: nat) -> Seq<usize>
    decreases k,
{
    if k == 0 {
        seq![]
    } else {
        let before = roots(degrees, (k - 1) as nat);
        if degrees[k - 1] == 0 {
            before.push((k - 1) as usize)
        } else {
            before
        }
    }
}

/// Counts down the degrees of the first `k` nodes of a list and puts those that reach zero on the
/// stack.
pub open spec fn relaxed(
    list: Seq<usize>,
    degrees: Seq<usize>,
    stack: Seq<usize>,
    k: nat,
) -> (Seq<usize>, Seq<usize>)
    decreases k,
{
    if k == 0 {
        (degrees, stack)
    } else {
        let (d, s) = relaxed(list, degrees, stack, (k - 1) as nat);
        let v = list[k - 1];
        let left = (d[v as int] - 1) as usize;
        (
            d.update(v as int, left),
            if left == 0 {
                s.push(v)
            } else {
                s
            },
        )
    }
}

/// The order in which the nodes come off a stack that holds those that wait for nothing, beginning
/// with the given state and for at most `fuel` nodes.
pub open spec fn stack_order(
    next: Seq<Seq<usize>>,
    degrees: Seq<usize>,
    stack: Seq<usize>,
    order: Seq<usize>,
    fuel: nat,
) -> Seq<usize>
    decreases fuel,
{
    if fuel == 0 || stack.len() == 0 {
        order
    } else {
        let u = stack.last();
        let (d, s) = relaxed(
            next[u as int],
            degrees,
            stack.drop_last(),
            next[u as int].len(),
        );
        stack_order(next, d, s, order.push(u), (fuel - 1) as nat)
    }
}

/// The order of the nodes of a graph.
pub open spec fn order_of(nodes: Seq<NodeView>) -> Seq<usize> {
    let degrees = all_degrees(nodes);
    stack_order(
        all_followers(nodes),
        degrees,
        roots(degrees, nodes.len()),
        seq![],
        nodes.len(),
    )
}

/// Every node once, after all those that it reads from.
pub open spec fn is_topological(nodes: Seq<NodeView>, order: Seq<usize>) -> bool {
    &&& order.len() == nodes.len()
    &&& order.no_duplicates()
    &&& forall|i: int| 0 <= i < order.len() ==> #[trigger] order[i] < nodes.len()
    &&& forall|i: int, u: int|
        0 <= i < order.len() && 0 <= u < nodes.len() && #[trigger] reads_from(
            nodes,
            order[i] as int,
            u,
        ) ==> order.take(i).contains(u as usize)
}

/// What is compiled from a graph.
pub open spec fn compiled(g: Graph, dag: Dag, values: Seq<Vec<Witness>>) -> bool {
    let list = uses(g.nodes, g.nodes.len());
    &&& node_views(dag.nodes@) == g.nodes
    &&& dag.num_edges == g.num_edges
    &&& dag.range@ == g.range
    &&& dag.two_pow@ == g.two_pow
    &&& dag.zero_check@ == g.zero_check
    &&& dag.topo@ == order_of(g.nodes)
    &&& is_topological(g.nodes, dag.topo@)
    &&& dag.consumers@.len() == g.num_edges
    &&& forall|e: int|
        0 <= e < g.num_edges ==> (#[trigger] dag.consumers@[e])@ == consumers_of(
            g.nodes,
            e as usize,
        )
    &&& dag.producers@.len() == g.num_edges
    &&& forall|e: int|
        0 <= e < g.num_edges ==> match #[trigger] dag.producers@[e] {
            Some(u) => writes(g.nodes, u as int, e as usize),
            None => !is_written(g.nodes, e as usize),
        }
    &&& dag.input_ports@ == inputs_below(g, g.num_edges as nat)
    &&& dag.output_ports@ == unread_below(g, g.num_edges as nat) + range_inputs(g, g.range.len())
        + zero_inputs(g)
    &&& dag.alias_to_edge@ == list.map_values(|x: Use| x.0)
    &&& dag.alias_to_consumer@ == list.map_values(|x: Use| x.1)
    &&& dag.alias_input_slot@ == list.map_values(|x: Use| x.2)
    &&& dag.edge_aliases@.len() == g.num_edges
    &&& forall|e: int|
        0 <= e < g.num_edges ==> (#[trigger] dag.edge_aliases@[e])@ == use_numbers(
            list,
            e as usize,
            list.len(),
        )
    &&& values.len() == g.values.len()
    &&& forall|e: int|
        0 <= e < values.len() ==> (#[trigger] values[e])@.len() == 1 && values[e]@[0]@
            == g.values[e]->0
}

/// `n` empty lists.
fn empty_lists<T>(n: usize) -> (r: Vec<Vec<T>>)
    ensures
        r@.len() == n,
        forall|i: int| 0 <= i < n ==> (#[trigger] r@[i])@ == Seq::<T>::empty(),
{
    let mut r: Vec<Vec<T>> = Vec::new();
    let mut i: usize = 0;
    while i < n
        invariant
            i <= n,
            r@.len() == i,
            forall|j: int| 0 <= j < i ==> (#[trigger] r@[j])@ == Seq::<T>::empty(),
        decreases n - i,
    {
        r.push(Vec::new());
        i += 1;
    }
    r
}

/// Appends to the list at a place.
fn push_at<T>(lists: &mut Vec<Vec<T>>, e: usize, x: T)
    requires
        e < old(lists)@.len(),
    ensures
        final(lists)@.len() == old(lists)@.len(),
        final(lists)@[e as int]@ == old(lists)@[e as int]@.push(x),
        forall|i: int|
            0 <= i < old(lists)@.len() && i != e ==> (#[trigger] final(lists)@[i])@ == old(
                lists,
            )@[i]@,
{
    let mut list: Vec<T> = Vec::new();
    std::mem::swap(&mut list, &mut lists[e]);
    list.push(x);
    lists[e] = list;
}

/// The uses of edges, by use and by edge.
struct UseLists {
    edges: Vec<EdgeId>,
    nodes: Vec<NodeId>,
    slots: Vec<usize>,
    by_edge: Vec<Vec<AliasId>>,
    readers: Vec<Vec<NodeId>>,
}

impl UseLists {
    /// The lists hold the first uses of a list.
    spec fn hold(&self, list: Seq<Use>, k: nat, num_edges: nat) -> bool {
        &&& k <= list.len()
        &&& self.edges@ == list.take(k as int).map_values(|x: Use| x.0)
        &&& self.nodes@ == list.take(k as int).map_values(|x: Use| x.1)
        &&& self.slots@ == list.take(k as int).map_values(|x: Use| x.2)
        &&& self.by_edge@.len() == num_edges
        &&& self.readers@.len() == num_edges
        &&& forall|e: int|
            0 <= e < num_edges ==> (#[trigger] self.by_edge@[e])@ == use_numbers(
                list,
                e as usize,
                k,
            )
        &&& forall|e: int|
            0 <= e < num_edges ==> (#[trigger] self.readers@[e])@ == readers(list, e as usize, k)
    }
}

proof fn lemma_readers_prefix(a: Seq<Use>, b: Seq<Use>, e: usize, k: nat)
    requires
        k <= a.len(),
        k <= b.len(),
        forall|i: int| 0 <= i < k ==> a[i] == b[i],
    ensures
        readers(a, e, k) == readers(b, e, k),
        use_numbers(a, e, k) == use_numbers(b, e, k),
    decreases k,
{
    if k > 0 {
        lemma_readers_prefix(a, b, e, (k - 1) as nat);
    }
}

/// Collects the uses of edges.
fn collect_uses(nodes: &Vec<Node>, num_edges: usize) -> (r: UseLists)
    requires
        numbered(node_views(nodes@), num_edges as int),
    ensures
        r.hold(
            uses(node_views(nodes@), nodes@.len()),
            uses(node_views(nodes@), nodes@.len()).len(),
            num_edges as nat,
        ),
{
    let mut r = UseLists {
        edges: Vec::new(),
        nodes: Vec::new(),
        slots: Vec::new(),
        by_edge: empty_lists(num_edges),
        readers: empty_lists(num_edges),
    };
    let ghost views = node_views(nodes@);
    let mut i: usize = 0;
    proof {
        let none = uses(views, 0);
        assert(none =~= Seq::<Use>::empty());
        assert(r.edges@ =~= none.take(0).map_values(|x: Use| x.0));
        assert(r.nodes@ =~= none.take(0).map_values(|x: Use| x.1));
        assert(r.slots@ =~= none.take(0).map_values(|x: Use| x.2));
    }
    while i < nodes.len()
        invariant
            i <= nodes@.len(),
            views == node_views(nodes@),
            numbered(views, num_edges as int),
            r.hold(uses(views, i as nat), uses(views, i as nat).len(), num_edges as nat),
        decreases nodes.len() - i,
    {
        let ghost old_list = uses(views, i as nat);
        let ghost list = uses(views, (i + 1) as nat);
        let ghost base = old_list.len();
        let node = &nodes[i];
        assert(views[i as int] == node@);
        proof {
            assert(list.take(base as int) =~= old_list);
            assert(old_list.take(base as int) =~= old_list);
            assert forall|e: int| 0 <= e < num_edges implies (#[trigger] r.by_edge@[e])@
                == use_numbers(list, e as usize, base) by {
                lemma_readers_prefix(old_list, list, e as usize, base);
            }
            assert forall|e: int| 0 <= e < num_edges implies (#[trigger] r.readers@[e])@ == readers(
                list,
                e as usize,
                base,
            ) by {
                lemma_readers_prefix(old_list, list, e as usize, base);
            }
        }
        let mut s: usize = 0;
        while s < node.inputs.len()
            invariant
                s <= node.inputs@.len(),
                i < nodes@.len(),
                views == node_views(nodes@),
                views[i as int] == node@,
                numbered(views, num_edges as int),
                list == uses(views, (i + 1) as nat),
                base == uses(views, i as nat).len(),
                list.len() == base + node.inputs@.len(),
                r.hold(list, base + s as nat, num_edges as nat),
            decreases node.inputs.len() - s,
        {
            let e = node.inputs[s];
            assert(views[i as int].inputs[s as int] == e);
            assert(list[(base + s) as int] == (e, i, s));
            let number = r.edges.len();
            let ghost before = r;
            r.edges.push(e);
            r.nodes.push(i);
            r.slots.push(s);
            push_at(&mut r.by_edge, e, AliasId(number));
            push_at(&mut r.readers, e, i);
            proof {
                let k = base + s as nat;
                let longer = list.take((k + 1) as int);
                assert(longer =~= list.take(k as int).push((e, i, s)));
                assert(number == k);
                assert(r.edges@ =~= longer.map_values(|x: Use| x.0));
                assert(r.nodes@ =~= longer.map_values(|x: Use| x.1));
                assert(r.slots@ =~= longer.map_values(|x: Use| x.2));
                assert forall|f: int| 0 <= f < num_edges implies (#[trigger] r.by_edge@[f])@
                    == use_numbers(list, f as usize, k + 1) by {
                    assert(before.by_edge@[f]@ == use_numbers(list, f as usize, k));
                }
                assert forall|f: int| 0 <= f < num_edges implies (#[trigger] r.readers@[f])@
                    == readers(list, f as usize, k + 1) by {
                    assert(before.readers@[f]@ == readers(list, f as usize, k));
                }
            }
            s += 1;
        }
        i += 1;
    }
    r
}

/// None of the first `i` nodes writes the edge.
spec fn unwritten(nodes: Seq<NodeView>, e: usize, i: int) -> bool {
    forall|u: int| 0 <= u < i ==> !#[trigger] writes(nodes, u, e)
}

/// The edge is not among the first `k` of a list.
spec fn absent(list: Seq<usize>, e: usize, k: int) -> bool {
    forall|j: int| 0 <= j < k ==> #[trigger] list[j] != e
}

/// The node that writes each edge.
fn collect_writers(nodes: &Vec<Node>, num_edges: usize) -> (r: Vec<Option<NodeId>>)
    requires
        numbered(node_views(nodes@), num_edges as int),
    ensures
        r@.len() == num_edges,
        forall|e: int|
            0 <= e < num_edges ==> match #[trigger] r@[e] {
                Some(u) => writes(node_views(nodes@), u as int, e as usize),
                None => !is_written(node_views(nodes@), e as usize),
            },
{
    let mut r: Vec<Option<NodeId>> = Vec::new();
    let ghost views = node_views(nodes@);
    let mut e: usize = 0;
    while e < num_edges
        invariant
            e <= num_edges,
            r@.len() == e,
            forall|f: int| 0 <= f < e ==> r@[f] is None,
        decreases num_edges - e,
    {
        r.push(None);
        e += 1;
    }
    let mut i: usize = 0;
    while i < nodes.len()
        invariant
            i <= nodes@.len(),
            views == node_views(nodes@),
            numbered(views, num_edges as int),
            r@.len() == num_edges,
            forall|e: int|
                0 <= e < num_edges ==> match #[trigger] r@[e] {
                    Some(u) => writes(views, u as int, e as usize),
                    None => unwritten(views, e as usize, i as int),
                },
        decreases nodes.len() - i,
    {
        let node = &nodes[i];
        assert(views[i as int] == node@);
        let mut k: usize = 0;
        while k < node.outputs.len()
            invariant
                k <= node.outputs@.len(),
                i < nodes@.len(),
                views == node_views(nodes@),
                views[i as int] == node@,
                numbered(views, num_edges as int),
                r@.len() == num_edges,
                forall|e: int|
                    0 <= e < num_edges ==> match #[trigger] r@[e] {
                        Some(u) => writes(views, u as int, e as usize),
                        None => unwritten(views, e as usize, i as int) && absent(
                            node.outputs@,
                            e as usize,
                            k as int,
                        ),
                    },
            decreases node.outputs.len() - k,
        {
            let e = node.outputs[k];
            assert(views[i as int].outputs[k as int] == e);
            assert(writes(views, i as int, e));
            r.set(e, Some(i));
            k += 1;
        }
        proof {
            assert forall|e: int| 0 <= e < num_edges implies match #[trigger] r@[e] {
                Some(u) => writes(views, u as int, e as usize),
                None => unwritten(views, e as usize, i + 1),
            } by {
                if r@[e] is None {
                    assert forall|u: int| 0 <= u < i + 1 implies !#[trigger] writes(
                        views,
                        u,
                        e as usize,
                    ) by {
                        if u == i && writes(views, u, e as usize) {
                            let j = choose|j: int|
                                0 <= j < node.outputs@.len() && node.outputs@[j] == e as usize;
                            assert(node.outputs@[j] != e);
                        }
                    }
                }
            }
        }
        i += 1;
    }
    proof {
        assert forall|e: int| 0 <= e < num_edges implies match #[trigger] r@[e] {
            Some(u) => writes(views, u as int, e as usize),
            None => !is_written(views, e as usize),
        } by {}
    }
    r
}

/// How many of the first `k` inputs of a node are written by a node that satisfies `p`.
pub open spec fn waiting(
    nodes: Seq<NodeView>,
    v: int,
    done: Seq<usize>,
    k: nat,
) -> nat
    decreases k,
{
    if k == 0 {
        0
    } else {
        waiting(nodes, v, done, (k - 1) as nat) + (if waits_at(nodes, v, done, k - 1) {
            1nat
        } else {
            0nat
        })
    }
}

/// Input `s` of a node is written by a node that is not done.
pub open spec fn waits_at(nodes: Seq<NodeView>, v: int, done: Seq<usize>, s: int) -> bool {
    exists|u: int| #[trigger] writes(nodes, u, nodes[v].inputs[s]) && !done.contains(u as usize)
}

/// Before any node is done, a node waits for all its inputs that are written.
proof fn lemma_waiting_start(nodes: Seq<NodeView>, v: int, k: nat)
    requires
        nodes.len() <= usize::MAX,
    ensures
        waiting(nodes, v, seq![], k) == written_inputs(nodes, v, k),
        waiting(nodes, v, seq![], k) <= k,
    decreases k,
{
    if k > 0 {
        lemma_waiting_start(nodes, v, (k - 1) as nat);
        let e = nodes[v].inputs[k - 1];
        if is_written(nodes, e) {
            let u = choose|u: int| #[trigger] writes(nodes, u, e);
            assert(!Seq::<usize>::empty().contains(u as usize));
            assert(waits_at(nodes, v, seq![], k - 1));
        }
    }
}

/// A node that waits for nothing reads only from nodes that are done.
proof fn lemma_waiting_none(nodes: Seq<NodeView>, v: int, done: Seq<usize>, k: nat)
    requires
        waiting(nodes, v, done, k) == 0,
    ensures
        forall|s: int, u: int|
            0 <= s < k && #[trigger] writes(nodes, u, #[trigger] nodes[v].inputs[s])
                ==> done.contains(u as usize),
    decreases k,
{
    if k > 0 {
        lemma_waiting_none(nodes, v, done, (k - 1) as nat);
        assert(!waits_at(nodes, v, done, k - 1));
    }
}

/// A node that reads only from nodes that are done waits for nothing.
proof fn lemma_waiting_zero(nodes: Seq<NodeView>, v: int, done: Seq<usize>, k: nat)
    requires
        0 <= v < nodes.len(),
        k <= nodes[v].inputs.len(),
        forall|u: int|
            0 <= u < nodes.len() && #[trigger] reads_from(nodes, v, u) ==> done.contains(
                u as usize,
            ),
    ensures
        waiting(nodes, v, done, k) == 0,
    decreases k,
{
    if k > 0 {
        lemma_waiting_zero(nodes, v, done, (k - 1) as nat);
        if waits_at(nodes, v, done, k - 1) {
            let u = choose|u: int| #[trigger]
                writes(nodes, u, nodes[v].inputs[k - 1]) && !done.contains(u as usize);
            assert(reads_from(nodes, v, u));
        }
    }
}

/// How often a node occurs in the first `k` entries of a list.
pub open spec fn occurrences(list: Seq<usize>, v: usize, k: nat) -> nat
    decreases k,
{
    if k == 0 {
        0
    } else {
        occurrences(list, v, (k - 1) as nat) + (if list[k - 1] == v {
            1nat
        } else {
            0nat
        })
    }
}

proof fn lemma_occurrences_concat(a: Seq<usize>, b: Seq<usize>, v: usize, k: nat)
    requires
        k <= b.len(),
    ensures
        occurrences(a + b, v, a.len() + k) == occurrences(a, v, a.len()) + occurrences(b, v, k),
    decreases k,
{
    if k == 0 {
        lemma_occurrences_prefix(a + b, a, v, a.len());
    } else {
        lemma_occurrences_concat(a, b, v, (k - 1) as nat);
        assert((a + b)[a.len() + k - 1] == b[k - 1]);
    }
}

proof fn lemma_occurrences_prefix(a: Seq<usize>, b: Seq<usize>, v: usize, k: nat)
    requires
        k <= a.len(),
        k <= b.len(),
        forall|i: int| 0 <= i < k ==> a[i] == b[i],
    ensures
        occurrences(a, v, k) == occurrences(b, v, k),
    decreases k,
{
    if k > 0 {
        lemma_occurrences_prefix(a, b, v, (k - 1) as nat);
    }
}

proof fn lemma_occurrences_push(a: Seq<usize>, x: usize, v: usize)
    ensures
        occurrences(a.push(x), v, a.len() + 1) == occurrences(a, v, a.len()) + (if x == v {
            1nat
        } else {
            0nat
        }),
{
    lemma_occurrences_prefix(a.push(x), a, v, a.len());
}

proof fn lemma_occurrences_more(a: Seq<usize>, v: usize, j: nat, k: nat)
    requires
        j <= k,
    ensures
        occurrences(a, v, j) <= occurrences(a, v, k),
    decreases k,
{
    if j < k {
        lemma_occurrences_more(a, v, j, (k - 1) as nat);
    }
}

/// A node occurs among the readers of an edge as often as the edge occurs among its inputs.
proof fn lemma_reader_count(nodes: Seq<NodeView>, e: usize, v: int, k: nat)
    requires
        k <= nodes.len(),
        nodes.len() <= usize::MAX,
        0 <= v < nodes.len(),
    ensures
        occurrences(
            readers(uses(nodes, k), e, uses(nodes, k).len()),
            v as usize,
            readers(uses(nodes, k), e, uses(nodes, k).len()).len(),
        ) == (if v < k {
            occurrences(nodes[v].inputs, e, nodes[v].inputs.len())
        } else {
            0
        }),
    decreases k,
{
    if k > 0 {
        let i = k - 1;
        let before = uses(nodes, i as nat);
        let list = uses(nodes, k);
        lemma_reader_count(nodes, e, v, i as nat);
        lemma_readers_prefix(before, list, e, before.len());
        lemma_reader_slots(nodes, e, v, i, nodes[i].inputs.len());
    }
}

/// The same for the uses by one more node, slot by slot.
proof fn lemma_reader_slots(nodes: Seq<NodeView>, e: usize, v: int, i: int, s: nat)
    requires
        0 <= i < nodes.len(),
        nodes.len() <= usize::MAX,
        0 <= v < nodes.len(),
        s <= nodes[i].inputs.len(),
    ensures
        ({
            let base = uses(nodes, i as nat).len();
            let list = uses(nodes, (i + 1) as nat);
            occurrences(
                readers(list, e, base + s),
                v as usize,
                readers(list, e, base + s).len(),
            ) == occurrences(
                readers(list, e, base),
                v as usize,
                readers(list, e, base).len(),
            ) + (if v == i {
                occurrences(nodes[i].inputs, e, s)
            } else {
                0
            })
        }),
    decreases s,
{
    if s > 0 {
        let base = uses(nodes, i as nat).len();
        let list = uses(nodes, (i + 1) as nat);
        lemma_reader_slots(nodes, e, v, i, (s - 1) as nat);
        let x = list[base + s - 1];
        assert(x == (nodes[i].inputs[s - 1], i as usize, (s - 1) as usize));
        let before = readers(list, e, (base + s - 1) as nat);
        if x.0 == e {
            lemma_occurrences_push(before, i as usize, v as usize);
        }
    }
}

/// How many of the first `k` inputs of a node are among the first `m` outputs of another.
pub open spec fn shared(inputs: Seq<usize>, outputs: Seq<usize>, k: nat, m: nat) -> nat
    decreases k,
{
    if k == 0 {
        0
    } else {
        shared(inputs, outputs, (k - 1) as nat, m) + (if outputs.take(m as int).contains(
            inputs[k - 1],
        ) {
            1nat
        } else {
            0nat
        })
    }
}

/// One more output adds its occurrences among the inputs.
proof fn lemma_shared_step(inputs: Seq<usize>, outputs: Seq<usize>, k: nat, m: nat)
    requires
        m < outputs.len(),
        k <= inputs.len(),
        outputs.no_duplicates(),
    ensures
        shared(inputs, outputs, k, m + 1) == shared(inputs, outputs, k, m) + occurrences(
            inputs,
            outputs[m as int],
            k,
        ),
    decreases k,
{
    if k > 0 {
        lemma_shared_step(inputs, outputs, (k - 1) as nat, m);
        let x = inputs[k - 1];
        let a = outputs.take(m as int);
        let b = outputs.take((m + 1) as int);
        assert(b =~= a.push(outputs[m as int]));
        if x == outputs[m as int] {
            assert(b[m as int] == x);
            if a.contains(x) {
                let j = choose|j: int| 0 <= j < a.len() && a[j] == x;
                assert(outputs[j] == outputs[m as int]);
            }
        } else {
            if a.contains(x) {
                let j = choose|j: int| 0 <= j < a.len() && a[j] == x;
                assert(b[j] == x);
            }
            if b.contains(x) {
                let j = choose|j: int| 0 <= j < b.len() && b[j] == x;
                assert(a[j] == x);
            }
        }
    }
}

proof fn lemma_shared_none(inputs: Seq<usize>, outputs: Seq<usize>, k: nat)
    ensures
        shared(inputs, outputs, k, 0) == 0,
    decreases k,
{
    if k > 0 {
        lemma_shared_none(inputs, outputs, (k - 1) as nat);
        assert(outputs.take(0) =~= Seq::<usize>::empty());
    }
}

/// A node occurs among the followers of another as often as it reads from it.
proof fn lemma_follower_count(nodes: Seq<NodeView>, u: int, v: int, m: nat)
    requires
        0 <= u < nodes.len(),
        0 <= v < nodes.len(),
        nodes.len() <= usize::MAX,
        m <= nodes[u].outputs.len(),
        nodes[u].outputs.no_duplicates(),
    ensures
        occurrences(followers(nodes, u, m), v as usize, followers(nodes, u, m).len()) == shared(
            nodes[v].inputs,
            nodes[u].outputs,
            nodes[v].inputs.len(),
            m,
        ),
    decreases m,
{
    let ins = nodes[v].inputs;
    let outs = nodes[u].outputs;
    if m == 0 {
        lemma_shared_none(ins, outs, ins.len());
    } else {
        let j = (m - 1) as nat;
        lemma_follower_count(nodes, u, v, j);
        lemma_shared_step(ins, outs, ins.len(), j);
        let e = outs[j as int];
        let a = followers(nodes, u, j);
        let b = consumers_of(nodes, e);
        lemma_reader_count(nodes, e, v, nodes.len());
        lemma_occurrences_concat(a, b, v as usize, b.len());
    }
}

/// When one more node is done, another waits for as many inputs less as it reads from it.
proof fn lemma_waiting_step(
    nodes: Seq<NodeView>,
    v: int,
    done: Seq<usize>,
    u: int,
    k: nat,
)
    requires
        written_once(nodes),
        0 <= u < nodes.len(),
        0 <= v < nodes.len(),
        nodes.len() <= usize::MAX,
        k <= nodes[v].inputs.len(),
        !done.contains(u as usize),
    ensures
        waiting(nodes, v, done, k) == waiting(nodes, v, done.push(u as usize), k) + shared(
            nodes[v].inputs,
            nodes[u].outputs,
            k,
            nodes[u].outputs.len(),
        ),
    decreases k,
{
    if k > 0 {
        lemma_waiting_step(nodes, v, done, u, (k - 1) as nat);
        let e = nodes[v].inputs[k - 1];
        let outs = nodes[u].outputs;
        assert(outs.take(outs.len() as int) =~= outs);
        let more = done.push(u as usize);
        assert forall|w: usize| more.contains(w) <==> (done.contains(w) || w == u) by {
            if done.contains(w) {
                let i = choose|i: int| 0 <= i < done.len() && done[i] == w;
                assert(more[i] == w);
            }
            if w == u {
                assert(more[done.len() as int] == w);
            }
        }
        if outs.contains(e) {
            assert(writes(nodes, u, e));
            assert(waits_at(nodes, v, done, k - 1));
            if waits_at(nodes, v, more, k - 1) {
                let w = choose|w: int| #[trigger] writes(nodes, w, e) && !more.contains(w as usize);
                assert(w == u);
            }
        } else {
            if waits_at(nodes, v, done, k - 1) {
                let w = choose|w: int| #[trigger] writes(nodes, w, e) && !done.contains(w as usize);
                assert(w != u);
                assert(!more.contains(w as usize));
                assert(waits_at(nodes, v, more, k - 1));
            }
            if waits_at(nodes, v, more, k - 1) {
                let w = choose|w: int| #[trigger] writes(nodes, w, e) && !more.contains(w as usize);
                assert(waits_at(nodes, v, done, k - 1));
            }
        }
    }
}

/// The state of the ordering: who is done, who waits for nothing, and how many inputs each node
/// waits for.
spec fn in_order(
    nodes: Seq<NodeView>,
    degrees: Seq<usize>,
    stack: Seq<usize>,
    order: Seq<usize>,
) -> bool {
    &&& degrees.len() == nodes.len()
    &&& (order + stack).no_duplicates()
    &&& forall|i: int| 0 <= i < order.len() ==> #[trigger] order[i] < nodes.len()
    &&& forall|i: int| 0 <= i < stack.len() ==> #[trigger] stack[i] < nodes.len()
    &&& forall|v: int|
        0 <= v < nodes.len() ==> ((#[trigger] degrees[v]) == 0 <==> (order.contains(v as usize)
            || stack.contains(v as usize)))
    &&& forall|i: int, u: int|
        0 <= i < order.len() && 0 <= u < nodes.len() && #[trigger] reads_from(
            nodes,
            order[i] as int,
            u,
        ) ==> order.take(i).contains(u as usize)
}

/// With no node left that waits for nothing, all nodes are done.
proof fn lemma_all_done(
    nodes: Seq<NodeView>,
    degrees: Seq<usize>,
    order: Seq<usize>,
    rank: Seq<nat>,
    r: nat,
)
    requires
        nodes.len() <= usize::MAX,
        in_order(nodes, degrees, seq![], order),
        ranks(nodes, rank),
        forall|v: int|
            0 <= v < nodes.len() ==> (#[trigger] degrees[v]) == waiting(
                nodes,
                v,
                order,
                nodes[v].inputs.len(),
            ),
    ensures
        forall|v: int| 0 <= v < nodes.len() && #[trigger] rank[v] < r ==> order.contains(
            v as usize,
        ),
    decreases r,
{
    if r > 0 {
        lemma_all_done(nodes, degrees, order, rank, (r - 1) as nat);
        assert forall|v: int| 0 <= v < nodes.len() && #[trigger] rank[v] < r implies order.contains(
            v as usize,
        ) by {
            assert forall|u: int|
                0 <= u < nodes.len() && #[trigger] reads_from(
                    nodes,
                    v,
                    u,
                ) implies order.contains(u as usize) by {
                assert(rank[u] < rank[v]);
            }
            lemma_waiting_zero(nodes, v, order, nodes[v].inputs.len());
            assert(degrees[v] == 0);
            assert(!Seq::<usize>::empty().contains(v as usize));
        }
    }
}

/// A list of distinct numbers below `n` that holds all of them has `n` entries.
proof fn lemma_full_list(order: Seq<usize>, n: nat)
    requires
        order.no_duplicates(),
        n <= usize::MAX,
        forall|i: int| 0 <= i < order.len() ==> #[trigger] order[i] < n,
        forall|v: usize| v < n ==> #[trigger] order.contains(v),
    ensures
        order.len() == n,
{
    let all = vstd::set_lib::set_int_range(0, n as int);
    vstd::set_lib::lemma_int_range(0, n as int);
    let ints = order.map_values(|x: usize| x as int);
    assert(ints.no_duplicates()) by {
        assert forall|i: int, j: int| 0 <= i < ints.len() && 0 <= j < ints.len() && i != j implies
            ints[i] != ints[j] by {
            assert(order[i] != order[j]);
        }
    }
    ints.unique_seq_to_set();
    assert(ints.to_set() =~= all) by {
        assert forall|x: int| ints.to_set().contains(x) <==> all.contains(x) by {
            if ints.contains(x) {
                let i = choose|i: int| 0 <= i < ints.len() && ints[i] == x;
                assert(order[i] < n);
            }
            if all.contains(x) {
                assert(order.contains(x as usize));
                let i = choose|i: int| 0 <= i < order.len() && order[i] == x as usize;
                assert(ints[i] == x);
            }
        }
    }
}

/// A list of distinct numbers below `n` has at most `n` entries.
proof fn lemma_short_list(order: Seq<usize>, n: nat)
    requires
        order.no_duplicates(),
        forall|i: int| 0 <= i < order.len() ==> #[trigger] order[i] < n,
    ensures
        order.len() <= n,
{
    let all = vstd::set_lib::set_int_range(0, n as int);
    vstd::set_lib::lemma_int_range(0, n as int);
    let ints = order.map_values(|x: usize| x as int);
    assert(ints.no_duplicates()) by {
        assert forall|i: int, j: int| 0 <= i < ints.len() && 0 <= j < ints.len() && i != j implies
            ints[i] != ints[j] by {
            assert(order[i] != order[j]);
        }
    }
    ints.unique_seq_to_set();
    assert(ints.to_set().subset_of(all)) by {
        assert forall|x: int| ints.to_set().contains(x) implies all.contains(x) by {
            let i = choose|i: int| 0 <= i < ints.len() && ints[i] == x;
            assert(order[i] < n);
        }
    }
    vstd::set_lib::lemma_len_subset(ints.to_set(), all);
}

/// How many of a node's inputs are written, for each node.
fn count_degrees(nodes: &Vec<Node>, writers: &Vec<Option<NodeId>>, num_edges: usize) -> (r: Vec<
    usize,
>)
    requires
        numbered(node_views(nodes@), num_edges as int),
        writers@.len() == num_edges,
        forall|e: int|
            0 <= e < num_edges ==> match #[trigger] writers@[e] {
                Some(u) => writes(node_views(nodes@), u as int, e as usize),
                None => !is_written(node_views(nodes@), e as usize),
            },
    ensures
        r@ == all_degrees(node_views(nodes@)),
        forall|v: int|
            0 <= v < nodes@.len() ==> #[trigger] r@[v] == written_inputs(
                node_views(nodes@),
                v,
                node_views(nodes@)[v].inputs.len(),
            ),
{
    let ghost views = node_views(nodes@);
    let mut r: Vec<usize> = Vec::with_capacity(nodes.len());
    let mut i: usize = 0;
    while i < nodes.len()
        invariant
            i <= nodes@.len(),
            views == node_views(nodes@),
            numbered(views, num_edges as int),
            writers@.len() == num_edges,
            forall|e: int|
                0 <= e < num_edges ==> match #[trigger] writers@[e] {
                    Some(u) => writes(views, u as int, e as usize),
                    None => !is_written(views, e as usize),
                },
            r@.len() == i,
            forall|v: int|
                0 <= v < i ==> #[trigger] r@[v] == written_inputs(views, v, views[v].inputs.len()),
        decreases nodes.len() - i,
    {
        let node = &nodes[i];
        assert(views[i as int] == node@);
        let mut count: usize = 0;
        let mut s: usize = 0;
        while s < node.inputs.len()
            invariant
                s <= node.inputs@.len(),
                i < nodes@.len(),
                views == node_views(nodes@),
                views[i as int] == node@,
                numbered(views, num_edges as int),
                writers@.len() == num_edges,
                forall|e: int|
                    0 <= e < num_edges ==> match #[trigger] writers@[e] {
                        Some(u) => writes(views, u as int, e as usize),
                        None => !is_written(views, e as usize),
                    },
                count <= s,
                count == written_inputs(views, i as int, s as nat),
            decreases node.inputs.len() - s,
        {
            let e = node.inputs[s];
            assert(views[i as int].inputs[s as int] == e);
            assert(writers@[e as int] == writers@[e as int]);
            if writers[e].is_some() {
                count += 1;
            }
            s += 1;
        }
        r.push(count);
        i += 1;
    }
    assert(r@ =~= all_degrees(views));
    r
}

/// The lists as sequences.
pub open spec fn list_views(lists: Seq<Vec<usize>>) -> Seq<Seq<usize>> {
    lists.map_values(|l: Vec<usize>| l@)
}

/// The nodes that read what each node writes.
fn collect_followers(nodes: &Vec<Node>, readers_of: &Vec<Vec<NodeId>>, num_edges: usize) -> (r: Vec<
    Vec<NodeId>,
>)
    requires
        numbered(node_views(nodes@), num_edges as int),
        readers_of@.len() == num_edges,
        forall|e: int|
            0 <= e < num_edges ==> (#[trigger] readers_of@[e])@ == consumers_of(
                node_views(nodes@),
                e as usize,
            ),
    ensures
        list_views(r@) == all_followers(node_views(nodes@)),
        r@.len() == nodes@.len(),
{
    let ghost views = node_views(nodes@);
    let mut r: Vec<Vec<NodeId>> = Vec::with_capacity(nodes.len());
    let mut i: usize = 0;
    while i < nodes.len()
        invariant
            i <= nodes@.len(),
            views == node_views(nodes@),
            numbered(views, num_edges as int),
            readers_of@.len() == num_edges,
            forall|e: int|
                0 <= e < num_edges ==> (#[trigger] readers_of@[e])@ == consumers_of(
                    views,
                    e as usize,
                ),
            r@.len() == i,
            forall|u: int| 0 <= u < i ==> (#[trigger] r@[u])@ == all_followers(views)[u],
        decreases nodes.len() - i,
    {
        let node = &nodes[i];
        assert(views[i as int] == node@);
        let mut list: Vec<NodeId> = Vec::new();
        let mut k: usize = 0;
        while k < node.outputs.len()
            invariant
                k <= node.outputs@.len(),
                i < nodes@.len(),
                views == node_views(nodes@),
                views[i as int] == node@,
                numbered(views, num_edges as int),
                readers_of@.len() == num_edges,
                forall|e: int|
                    0 <= e < num_edges ==> (#[trigger] readers_of@[e])@ == consumers_of(
                        views,
                        e as usize,
                    ),
                list@ == followers(views, i as int, k as nat),
            decreases node.outputs.len() - k,
        {
            let e = node.outputs[k];
            assert(views[i as int].outputs[k as int] == e);
            let more = &readers_of[e];
            assert(more@ == consumers_of(views, e));
            let ghost before = list@;
            let mut j: usize = 0;
            while j < more.len()
                invariant
                    j <= more@.len(),
                    list@ == before + more@.take(j as int),
                decreases more.len() - j,
            {
                list.push(more[j]);
                j += 1;
            }
            assert(more@.take(more@.len() as int) =~= more@);
            k += 1;
        }
        r.push(list);
        i += 1;
    }
    assert(list_views(r@) =~= all_followers(views));
    r
}

/// Taking the top of the stack keeps the nodes distinct.
proof fn lemma_popped(order: Seq<usize>, rest: Seq<usize>, u: usize)
    requires
        (order + rest.push(u)).no_duplicates(),
    ensures
        (order.push(u) + rest).no_duplicates(),
        !order.contains(u),
        !rest.contains(u),
        forall|v: usize|
            #![trigger order.push(u).contains(v)]
            (order.push(u).contains(v) || rest.contains(v)) <==> (order.contains(v) || rest.push(
                u,
            ).contains(v)),
{
    let a = order + rest.push(u);
    let b = order.push(u) + rest;
    let n = order.len() as int;
    let m = rest.len() as int;
    assert(a[n + m] == u);
    assert forall|i: int| 0 <= i < n implies order[i] == a[i] && order[i] != u by {
        assert(a[i] != a[n + m]);
    }
    assert forall|j: int| 0 <= j < m implies rest[j] == a[n + j] && rest[j] != u by {
        assert(a[n + j] != a[n + m]);
    }
    assert forall|i: int, j: int| 0 <= i < b.len() && 0 <= j < b.len() && i != j implies b[i]
        != b[j] by {
        let p = if i < n {
            i
        } else if i == n {
            n + m
        } else {
            i - 1
        };
        let q = if j < n {
            j
        } else if j == n {
            n + m
        } else {
            j - 1
        };
        assert(b[i] == a[p] && b[j] == a[q] && p != q);
    }
    assert forall|v: usize|
        #![trigger order.push(u).contains(v)]
        (order.push(u).contains(v) || rest.contains(v)) <==> (order.contains(v) || rest.push(
            u,
        ).contains(v)) by {
        if order.contains(v) {
            let i = choose|i: int| 0 <= i < order.len() && order[i] == v;
            assert(order.push(u)[i] == v);
        }
        if rest.contains(v) {
            let i = choose|i: int| 0 <= i < rest.len() && rest[i] == v;
            assert(rest.push(u)[i] == v);
        }
        if v == u {
            assert(order.push(u)[n] == v);
            assert(rest.push(u)[m] == v);
        }
        if order.push(u).contains(v) {
            let i = choose|i: int| 0 <= i <= n && order.push(u)[i] == v;
            if i < n {
                assert(order[i] == v);
            }
        }
        if rest.push(u).contains(v) {
            let i = choose|i: int| 0 <= i <= m && rest.push(u)[i] == v;
            if i < m {
                assert(rest[i] == v);
            }
        }
    }
}

/// A new node on the stack keeps the nodes distinct.
proof fn lemma_stacked(order: Seq<usize>, stack: Seq<usize>, v: usize)
    requires
        (order + stack).no_duplicates(),
        !order.contains(v),
        !stack.contains(v),
    ensures
        (order + stack.push(v)).no_duplicates(),
        forall|w: usize| #[trigger]
            stack.push(v).contains(w) <==> (stack.contains(w) || w == v),
{
    let a = order + stack;
    let b = order + stack.push(v);
    let n = a.len() as int;
    assert(b =~= a.push(v));
    assert forall|i: int| 0 <= i < n implies a[i] != v by {
        if i < order.len() {
            assert(a[i] == order[i]);
        } else {
            assert(a[i] == stack[i - order.len()]);
        }
    }
    assert forall|i: int, j: int| 0 <= i < b.len() && 0 <= j < b.len() && i != j implies b[i]
        != b[j] by {
        if i < n && j < n {
            assert(a[i] != a[j]);
        }
    }
    assert forall|w: usize| #[trigger]
        stack.push(v).contains(w) <==> (stack.contains(w) || w == v) by {
        if stack.contains(w) {
            let i = choose|i: int| 0 <= i < stack.len() && stack[i] == w;
            assert(stack.push(v)[i] == w);
        }
        if w == v {
            assert(stack.push(v)[stack.len() as int] == w);
        }
        if stack.push(v).contains(w) {
            let i = choose|i: int| 0 <= i <= stack.len() && stack.push(v)[i] == w;
            if i < stack.len() {
                assert(stack[i] == w);
            }
        }
    }
}

/// Every entry of the followers is a node.
proof fn lemma_followers_nodes(nodes: Seq<NodeView>, u: int, m: nat)
    requires
        nodes.len() <= usize::MAX,
    ensures
        forall|i: int|
            0 <= i < followers(nodes, u, m).len() ==> #[trigger] followers(nodes, u, m)[i]
                < nodes.len(),
    decreases m,
{
    if m > 0 {
        lemma_followers_nodes(nodes, u, (m - 1) as nat);
        let e = nodes[u].outputs[m - 1];
        let list = uses(nodes, nodes.len());
        lemma_uses_nodes(nodes, nodes.len());
        lemma_readers_nodes(list, e, list.len(), nodes.len());
        let a = followers(nodes, u, (m - 1) as nat);
        let b = consumers_of(nodes, e);
        assert forall|i: int| 0 <= i < (a + b).len() implies #[trigger] (a + b)[i] < nodes.len() by {
            if i < a.len() {
                assert((a + b)[i] == a[i]);
            } else {
                assert((a + b)[i] == b[i - a.len()]);
            }
        }
    }
}

proof fn lemma_uses_nodes(nodes: Seq<NodeView>, k: nat)
    requires
        k <= nodes.len(),
        nodes.len() <= usize::MAX,
    ensures
        forall|i: int| 0 <= i < uses(nodes, k).len() ==> (#[trigger] uses(nodes, k)[i]).1 < k,
    decreases k,
{
    if k > 0 {
        lemma_uses_nodes(nodes, (k - 1) as nat);
        let a = uses(nodes, (k - 1) as nat);
        let b = uses(nodes, k);
        assert forall|i: int| 0 <= i < b.len() implies (#[trigger] b[i]).1 < k by {
            if i < a.len() {
                assert(b[i] == a[i]);
            }
        }
    }
}

proof fn lemma_readers_nodes(list: Seq<Use>, e: usize, k: nat, n: nat)
    requires
        k <= list.len(),
        forall|i: int| 0 <= i < list.len() ==> (#[trigger] list[i]).1 < n,
    ensures
        forall|i: int|
            0 <= i < readers(list, e, k).len() ==> #[trigger] readers(list, e, k)[i] < n,
    decreases k,
{
    if k > 0 {
        lemma_readers_nodes(list, e, (k - 1) as nat, n);
        let before = readers(list, e, (k - 1) as nat);
        let now = readers(list, e, k);
        assert(list[k - 1].1 < n);
        assert forall|i: int| 0 <= i < now.len() implies #[trigger] now[i] < n by {
            if i < before.len() {
                assert(now[i] == before[i]);
            }
        }
    }
}

/// The roots are distinct, and they are the nodes that wait for nothing.
proof fn lemma_roots(degrees: Seq<usize>, k: nat)
    requires
        k <= degrees.len(),
        degrees.len() <= usize::MAX,
    ensures
        roots(degrees, k).no_duplicates(),
        forall|i: int| 0 <= i < roots(degrees, k).len() ==> #[trigger] roots(degrees, k)[i] < k,
        forall|v: usize|
            v < k ==> (#[trigger] roots(degrees, k).contains(v) <==> degrees[v as int] == 0),
    decreases k,
{
    if k > 0 {
        lemma_roots(degrees, (k - 1) as nat);
        let a = roots(degrees, (k - 1) as nat);
        let b = roots(degrees, k);
        let x = (k - 1) as usize;
        assert forall|i: int| 0 <= i < b.len() implies #[trigger] b[i] < k by {
            if i < a.len() {
                assert(b[i] == a[i]);
                assert(a[i] < k - 1);
            }
        }
        assert forall|i: int, j: int| 0 <= i < b.len() && 0 <= j < b.len() && i != j implies b[i]
            != b[j] by {
            if i < a.len() {
                assert(a[i] < k - 1);
            }
            if j < a.len() {
                assert(a[j] < k - 1);
            }
        }
        assert forall|v: usize| v < k implies (#[trigger] b.contains(v) <==> degrees[v as int]
            == 0) by {
            if v < k - 1 {
                assert(a.contains(v) <==> degrees[v as int] == 0);
                if a.contains(v) {
                    let i = choose|i: int| 0 <= i < a.len() && a[i] == v;
                    assert(b[i] == v);
                }
                if b.contains(v) {
                    let i = choose|i: int| 0 <= i < b.len() && b[i] == v;
                    assert(a[i] == v);
                }
            } else {
                if degrees[k - 1] == 0 {
                    assert(b[a.len() as int] == v);
                } else if b.contains(v) {
                    let i = choose|i: int| 0 <= i < b.len() && b[i] == v;
                    assert(a[i] < k - 1);
                }
            }
        }
    }
}

/// Counts down the degrees of the nodes that follow one that is done.
fn relax(
    list: &Vec<NodeId>,
    degrees: &mut Vec<usize>,
    stack: &mut Vec<NodeId>,
    nodes: Ghost<Seq<NodeView>>,
    order: Ghost<Seq<usize>>,
)
    requires
        nodes@.len() <= usize::MAX,
        in_order(nodes@, old(degrees)@, old(stack)@, order@),
        forall|i: int| 0 <= i < list@.len() ==> #[trigger] list@[i] < nodes@.len(),
        forall|v: int|
            0 <= v < nodes@.len() ==> occurrences(list@, v as usize, list@.len())
                <= #[trigger] old(degrees)@[v],
    ensures
        (final(degrees)@, final(stack)@) == relaxed(
            list@,
            old(degrees)@,
            old(stack)@,
            list@.len(),
        ),
        in_order(nodes@, final(degrees)@, final(stack)@, order@),
        forall|v: int|
            0 <= v < nodes@.len() ==> #[trigger] final(degrees)@[v] == old(degrees)@[v]
                - occurrences(list@, v as usize, list@.len()),
{
    let ghost d0 = degrees@;
    let ghost s0 = stack@;
    let ghost n = nodes@.len();
    let mut k: usize = 0;
    while k < list.len()
        invariant
            k <= list@.len(),
            n == nodes@.len(),
            n <= usize::MAX,
            d0.len() == n,
            in_order(nodes@, degrees@, stack@, order@),
            forall|i: int| 0 <= i < list@.len() ==> #[trigger] list@[i] < n,
            forall|v: int|
                0 <= v < n ==> occurrences(list@, v as usize, list@.len()) <= #[trigger] d0[v],
            (degrees@, stack@) == relaxed(list@, d0, s0, k as nat),
            forall|v: int|
                0 <= v < n ==> #[trigger] degrees@[v] == d0[v] - occurrences(
                    list@,
                    v as usize,
                    k as nat,
                ),
        decreases list.len() - k,
    {
        let v = list[k];
        assert(list@[k as int] < n);
        proof {
            lemma_occurrences_more(list@, v, (k + 1) as nat, list@.len());
            assert(occurrences(list@, v, list@.len()) <= d0[v as int]);
            assert(degrees@[v as int] == d0[v as int] - occurrences(list@, v, k as nat));
        }
        let ghost before = degrees@;
        let ghost stack_before = stack@;
        let left = degrees[v] - 1;
        degrees.set(v, left);
        proof {
            assert(before[v as int] != 0);
            assert(!order@.contains(v) && !stack_before.contains(v));
            assert forall|w: int| 0 <= w < n implies #[trigger] degrees@[w] == d0[w] - occurrences(
                list@,
                w as usize,
                (k + 1) as nat,
            ) by {
                assert(before[w] == d0[w] - occurrences(list@, w as usize, k as nat));
            }
        }
        if left == 0 {
            stack.push(v);
            proof {
                lemma_stacked(order@, stack_before, v);
                assert forall|w: int| 0 <= w < n implies ((#[trigger] degrees@[w]) == 0 <==> (
                order@.contains(w as usize) || stack@.contains(w as usize))) by {
                    assert(before[w] == 0 <==> (order@.contains(w as usize)
                        || stack_before.contains(w as usize)));
                }
            }
        } else {
            proof {
                assert forall|w: int| 0 <= w < n implies ((#[trigger] degrees@[w]) == 0 <==> (
                order@.contains(w as usize) || stack@.contains(w as usize))) by {
                    assert(before[w] == 0 <==> (order@.contains(w as usize)
                        || stack_before.contains(w as usize)));
                }
            }
        }
        k += 1;
    }
}

/// The order of the nodes.
fn order_nodes(
    nodes: &Vec<Node>,
    writers: &Vec<Option<NodeId>>,
    readers_of: &Vec<Vec<NodeId>>,
    num_edges: usize,
) -> (order: Vec<NodeId>)
    requires
        numbered(node_views(nodes@), num_edges as int),
        written_once(node_views(nodes@)),
        acyclic(node_views(nodes@)),
        writers@.len() == num_edges,
        forall|e: int|
            0 <= e < num_edges ==> match #[trigger] writers@[e] {
                Some(u) => writes(node_views(nodes@), u as int, e as usize),
                None => !is_written(node_views(nodes@), e as usize),
            },
        readers_of@.len() == num_edges,
        forall|e: int|
            0 <= e < num_edges ==> (#[trigger] readers_of@[e])@ == consumers_of(
                node_views(nodes@),
                e as usize,
            ),
    ensures
        order@ == order_of(node_views(nodes@)),
        is_topological(node_views(nodes@), order@),
{
    let ghost views = node_views(nodes@);
    let ghost n = nodes@.len();
    let mut degrees = count_degrees(nodes, writers, num_edges);
    let next = collect_followers(nodes, readers_of, num_edges);
    assert(nodes.len() == n);
    let mut stack: Vec<NodeId> = Vec::new();
    let mut i: usize = 0;
    while i < degrees.len()
        invariant
            i <= degrees@.len(),
            stack@ == roots(degrees@, i as nat),
        decreases degrees.len() - i,
    {
        if degrees[i] == 0 {
            stack.push(i);
        }
        i += 1;
    }
    let mut order: Vec<NodeId> = Vec::with_capacity(nodes.len());
    let ghost goal = order_of(views);
    let ghost follow = all_followers(views);
    proof {
        assert(order@ =~= Seq::<usize>::empty());
        lemma_roots(degrees@, n);
        assert(order@ + stack@ =~= stack@);
        assert forall|v: int| 0 <= v < n implies ((#[trigger] degrees@[v]) == 0 <==> (
        order@.contains(v as usize) || stack@.contains(v as usize))) by {
            assert(roots(degrees@, n).contains(v as usize) <==> degrees@[v] == 0);
        }
        assert forall|v: int| 0 <= v < n implies (#[trigger] degrees@[v]) == waiting(
            views,
            v,
            order@,
            views[v].inputs.len(),
        ) by {
            lemma_waiting_start(views, v, views[v].inputs.len());
        }
    }
    while stack.len() > 0
        invariant
            views == node_views(nodes@),
            n == nodes@.len(),
            n == views.len(),
            n <= usize::MAX,
            written_once(views),
            next@.len() == n,
            follow == all_followers(views),
            list_views(next@) == follow,
            in_order(views, degrees@, stack@, order@),
            forall|v: int|
                0 <= v < n ==> (#[trigger] degrees@[v]) == waiting(
                    views,
                    v,
                    order@,
                    views[v].inputs.len(),
                ),
            order@.len() <= n,
            stack_order(follow, degrees@, stack@, order@, (n - order@.len()) as nat) == goal,
        decreases n - order@.len(),
    {
        proof {
            let both = order@ + stack@;
            assert forall|i: int| 0 <= i < both.len() implies #[trigger] both[i] < n by {
                if i < order@.len() {
                    assert(both[i] == order@[i]);
                } else {
                    assert(both[i] == stack@[i - order@.len()]);
                }
            }
            lemma_short_list(both, n);
        }
        let ghost full = stack@;
        let ghost done = order@;
        let ghost d0 = degrees@;
        let u = stack.pop().unwrap();
        order.push(u);
        proof {
            let rest = stack@;
            assert(full =~= rest.push(u));
            assert(full[full.len() - 1] == u);
            assert(u < n);
            lemma_popped(done, rest, u);
            assert(full.contains(u));
            assert(d0[u as int] == 0);
            lemma_waiting_none(views, u as int, done, views[u as int].inputs.len());
            assert forall|i: int, w: int|
                0 <= i < order@.len() && 0 <= w < n && #[trigger] reads_from(
                    views,
                    order@[i] as int,
                    w,
                ) implies order@.take(i).contains(w as usize) by {
                if i < done.len() {
                    assert(order@.take(i) =~= done.take(i));
                    assert(order@[i] == done[i]);
                    assert(reads_from(views, done[i] as int, w));
                } else {
                    assert(order@.take(i) =~= done);
                    let s = choose|s: int|
                        0 <= s < views[u as int].inputs.len() && writes(
                            views,
                            w,
                            #[trigger] views[u as int].inputs[s],
                        );
                    assert(writes(views, w, views[u as int].inputs[s]));
                }
            }
            assert forall|v: int| 0 <= v < n implies ((#[trigger] degrees@[v]) == 0 <==> (
            order@.contains(v as usize) || stack@.contains(v as usize))) by {
                assert(d0[v] == 0 <==> (done.contains(v as usize) || full.contains(v as usize)));
                assert(done.push(u).contains(v as usize) || rest.contains(v as usize) <==> (
                done.contains(v as usize) || rest.push(u).contains(v as usize)));
            }
            assert forall|i: int| 0 <= i < stack@.len() implies #[trigger] stack@[i] < n by {
                assert(full[i] == stack@[i]);
            }
            assert forall|i: int| 0 <= i < order@.len() implies #[trigger] order@[i] < n by {
                if i < done.len() {
                    assert(done[i] == order@[i]);
                }
            }
            assert(in_order(views, degrees@, stack@, order@));
            let outs = views[u as int].outputs;
            assert(follow[u as int] == followers(views, u as int, outs.len()));
            assert(next@[u as int]@ == list_views(next@)[u as int]);
            lemma_followers_nodes(views, u as int, outs.len());
            assert(views[u as int].outputs.no_duplicates());
            assert forall|v: int| 0 <= v < n implies occurrences(
                next@[u as int]@,
                v as usize,
                next@[u as int]@.len(),
            ) <= #[trigger] degrees@[v] && degrees@[v] - occurrences(
                next@[u as int]@,
                v as usize,
                next@[u as int]@.len(),
            ) == waiting(views, v, order@, views[v].inputs.len()) by {
                lemma_follower_count(views, u as int, v, outs.len());
                lemma_waiting_step(views, v, done, u as int, views[v].inputs.len());
            }
        }
        relax(&next[u], &mut degrees, &mut stack, Ghost(views), Ghost(order@));
        proof {
            assert(full.drop_last() =~= full.take(full.len() - 1));
        }
    }
    proof {
        assert(stack@ =~= Seq::<usize>::empty());
        let rank = choose|rank: Seq<nat>| ranks(views, rank);
        assert forall|v: usize| v < n implies #[trigger] order@.contains(v) by {
            lemma_all_done(views, degrees@, order@, rank, rank[v as int] + 1);
            assert(rank[v as int] < rank[v as int] + 1);
        }
        assert(order@ + stack@ =~= order@);
        lemma_full_list(order@, n);
    }
    order
}

impl DagBuilder {
    /// Compiles the graph: who reads and who writes each edge, where the graph takes its inputs and
    /// where claims have to be made, an order of the nodes, and the list of all uses of edges.
    /// The second part of the result is what is known of the value on each edge.
    pub fn compile(self) -> (r: (Dag, Vec<Vec<Witness>>))
        requires
            compilable(self@),
        ensures
            compiled(self@, r.0, r.1@),
    {
        let ghost g = self@;
        let num_edges = self.num_edges;
        let lists = collect_uses(&self.nodes, num_edges);
        let producers = collect_writers(&self.nodes, num_edges);
        let ghost list = uses(g.nodes, g.nodes.len());
        assert(g.nodes == node_views(self.nodes@));
        assert(list.take(list.len() as int) =~= list);
        let topo = order_nodes(&self.nodes, &producers, &lists.readers, num_edges);
        let mut input_ports: Vec<EdgeId> = Vec::new();
        let mut output_ports: Vec<EdgeId> = Vec::new();
        let mut e: usize = 0;
        while e < num_edges
            invariant
                e <= num_edges,
                g == self@,
                compilable(g),
                num_edges == g.num_edges,
                producers@.len() == num_edges,
                forall|e: int|
                    0 <= e < num_edges ==> match #[trigger] producers@[e] {
                        Some(u) => writes(g.nodes, u as int, e as usize),
                        None => !is_written(g.nodes, e as usize),
                    },
                list == uses(g.nodes, g.nodes.len()),
                lists.hold(list, list.len(), num_edges as nat),
                input_ports@ == inputs_below(g, e as nat),
                output_ports@ == unread_below(g, e as nat),
            decreases num_edges - e,
        {
            assert(producers@[e as int] == producers@[e as int]);
            if producers[e].is_none() {
                assert(!is_written(g.nodes, e));
                assert(g.values[e as int] is Some);
                if self.known_value(e).role == Role::Input {
                    input_ports.push(e);
                }
            } else {
                assert(is_written(g.nodes, e));
            }
            assert(lists.readers@[e as int]@ == consumers_of(g.nodes, e));
            if lists.readers[e].len() == 0 {
                output_ports.push(e);
            }
            e += 1;
        }
        let ghost unread = output_ports@;
        let mut k: usize = 0;
        while k < self.range.len()
            invariant
                k <= self.range@.len(),
                g == self@,
                compilable(g),
                output_ports@ == unread + range_inputs(g, k as nat),
            decreases self.range.len() - k,
        {
            let n = self.range[k];
            assert(g.range[k as int] < g.nodes.len());
            let node = &self.nodes[n];
            assert(g.nodes[n as int] == node@);
            if let BasicBlockType::NonNegative(_) = &node.kind {
                output_ports.push(node.inputs[0]);
            }
            assert(output_ports@ =~= unread + range_inputs(g, (k + 1) as nat));
            k += 1;
        }
        let ghost with_range = output_ports@;
        let mut k: usize = 0;
        while k < self.zero_check.len()
            invariant
                k <= self.zero_check@.len(),
                g == self@,
                compilable(g),
                output_ports@ == with_range + zero_inputs(g).take(k as int),
            decreases self.zero_check.len() - k,
        {
            let n = self.zero_check[k];
            assert(g.zero_check[k as int] < g.nodes.len());
            let node = &self.nodes[n];
            assert(g.nodes[n as int] == node@);
            output_ports.push(node.inputs[0]);
            assert(output_ports@ =~= with_range + zero_inputs(g).take(k + 1));
            k += 1;
        }
        assert(zero_inputs(g).take(k as int) =~= zero_inputs(g));
        let mut values: Vec<Vec<Witness>> = Vec::with_capacity(self.init_values.len());
        let mut e: usize = 0;
        while e < self.init_values.len()
            invariant
                e <= self.init_values@.len(),
                g == self@,
                compilable(g),
                values@.len() == e,
                forall|f: int|
                    0 <= f < e ==> (#[trigger] values@[f])@.len() == 1 && values@[f]@[0]@
                        == g.values[f]->0,
            decreases self.init_values.len() - e,
        {
            assert(g.values[e as int] == value_view(self.init_values@[e as int]));
            let w = self.known_value(e).clone();
            let mut one: Vec<Witness> = Vec::new();
            one.push(w);
            values.push(one);
            e += 1;
        }
        let dag = Dag {
            nodes: self.nodes,
            num_edges,
            topo,
            range: self.range,
            two_pow: self.two_pow,
            zero_check: self.zero_check,
            consumers: lists.readers,
            producers,
            input_ports,
            output_ports,
            edge_aliases: lists.by_edge,
            alias_to_edge: lists.edges,
            alias_to_consumer: lists.nodes,
            alias_input_slot: lists.slots,
        };
        (dag, values)
    }
}

} // verus!
