//! A wrapper for scanning, indexing, and mutating items in a graph: the
//! data set and its dependency-ordered insertion engine.

use vstd::prelude::*;

use crate::errors::GraphtResult;
use crate::model::graph::Graph;
use crate::model::guid::Guid;
use crate::model::node::Node;
use crate::stats::{CrudResultStats, StatCount, StatMap, Stats};
use crate::store::edgeset::{EdgeSet, EdgeStats, EdgeStatsV};
use crate::store::nodeset::{NodeSet, NodeStats, NodeStatsV};
use crate::store::value::Value;
use crate::utils::diff::{vclean, Diff, Difference};
use crate::utils::table::{pairs_get, pairs_has};

verus! {

/// The mathematical value of data-set statistics.
pub ghost struct DataSetStatsV {
    pub nodes: NodeStatsV,
    pub edges: EdgeStatsV,
}

/// Counts describing a whole data set: its nodes and its edges.
pub struct DataSetStats {
    /// Counts describing the nodes.
    pub nodes: NodeStats,
    /// Counts describing the edges.
    pub edges: EdgeStats,
}

impl DataSetStats {
    /// The mathematical value of the statistics.
    pub open spec fn sv(&self) -> DataSetStatsV {
        DataSetStatsV { nodes: self.nodes.sv(), edges: self.edges.sv() }
    }

    pub fn new() -> (r: DataSetStats)
        ensures
            r.sv() == (DataSetStatsV {
                nodes: <NodeStats as Stats>::vzero(),
                edges: <EdgeStats as Stats>::vzero(),
            }),
    {
        DataSetStats { nodes: NodeStats::new(), edges: EdgeStats::new() }
    }

    /// Wrap node counts as whole-set counts, with no edge activity.
    pub fn from_nodes(nodes: NodeStats) -> (r: DataSetStats)
        ensures
            r.sv() == (DataSetStatsV { nodes: nodes.sv(), edges: <EdgeStats as Stats>::vzero() }),
    {
        DataSetStats { nodes, edges: EdgeStats::new() }
    }

    /// Wrap edge counts as whole-set counts, with no node activity.
    pub fn from_edges(edges: EdgeStats) -> (r: DataSetStats)
        ensures
            r.sv() == (DataSetStatsV { nodes: <NodeStats as Stats>::vzero(), edges: edges.sv() }),
    {
        DataSetStats { nodes: NodeStats::new(), edges }
    }
}

impl Diff for DataSetStats {
    open spec fn deq(&self, rhs: &Self) -> bool {
        self.sv() == rhs.sv()
    }

    fn diff(&self, rhs: &Self, name: Option<&str>) -> (r: Difference) {
        let mut d = Difference::new();
        d = d.add(self.nodes.diff(&rhs.nodes, Some("nodes")));
        d = d.add(self.edges.diff(&rhs.edges, Some("edges")));
        let r = d.opt_tag(name);
        proof {
            if vclean(r.dv()) {
                assert(self.sv() =~~= rhs.sv());
            }
        }
        r
    }
}

impl Stats for DataSetStats {
    type V = DataSetStatsV;

    open spec fn sv(&self) -> DataSetStatsV {
        DataSetStats::sv(self)
    }

    open spec fn vzero() -> DataSetStatsV {
        DataSetStatsV {
            nodes: <NodeStats as Stats>::vzero(),
            edges: <EdgeStats as Stats>::vzero(),
        }
    }

    open spec fn vadd(a: DataSetStatsV, b: DataSetStatsV) -> DataSetStatsV {
        DataSetStatsV {
            nodes: <NodeStats as Stats>::vadd(a.nodes, b.nodes),
            edges: <EdgeStats as Stats>::vadd(a.edges, b.edges),
        }
    }

    open spec fn can_add(a: DataSetStatsV, b: DataSetStatsV) -> bool {
        <NodeStats as Stats>::can_add(a.nodes, b.nodes) && <EdgeStats as Stats>::can_add(
            a.edges,
            b.edges,
        )
    }

    proof fn lemma_deq_is_sv(a: &Self, b: &Self) {
    }

    proof fn lemma_add_assoc(a: DataSetStatsV, b: DataSetStatsV, c: DataSetStatsV) {
        <NodeStats as Stats>::lemma_add_assoc(a.nodes, b.nodes, c.nodes);
        <EdgeStats as Stats>::lemma_add_assoc(a.edges, b.edges, c.edges);
    }

    proof fn lemma_add_comm(a: DataSetStatsV, b: DataSetStatsV) {
        <NodeStats as Stats>::lemma_add_comm(a.nodes, b.nodes);
        <EdgeStats as Stats>::lemma_add_comm(a.edges, b.edges);
    }

    proof fn lemma_add_zero(a: DataSetStatsV) {
        <NodeStats as Stats>::lemma_add_zero(a.nodes);
        <EdgeStats as Stats>::lemma_add_zero(a.edges);
    }

    fn zero() -> (r: Self) {
        DataSetStats::new()
    }

    fn add(self, rhs: Self) -> (r: Self) {
        DataSetStats { nodes: self.nodes.add(rhs.nodes), edges: self.edges.add(rhs.edges) }
    }

    fn dup(&self) -> (r: Self) {
        DataSetStats { nodes: self.nodes.dup(), edges: self.edges.dup() }
    }

    fn clear(&mut self) {
        self.nodes.clear();
        self.edges.clear();
    }
}

/// A group of related nodes and edges: the canonical, bound copies live
/// here, and every mutation flows through the insertion engine.
pub struct DataSet<G: Graph> {
    /// The set's own identity; set identity, not content-derived.
    pub guid: Guid,
    /// All the nodes known to this set.
    pub nodes: NodeSet<G>,
    /// All the edges known to this set.
    pub edges: EdgeSet<G>,
}

impl<G: Graph> DataSet<G> {
    /// The set's invariant: both collections are valid, every stored edge
    /// has both endpoints stored, and every stored node's indexed edges are
    /// stored with their targets.  So everything a stored item references
    /// is itself present.
    pub open spec fn wf(&self) -> bool {
        self.nodes.wf() && self.edges.wf() && (forall|g: Guid|
            #[trigger] self.edges.has_edge(g) ==> self.nodes.has_node(
                pairs_get(self.edges.edges@, g).source.guid,
            ) && self.nodes.has_node(pairs_get(self.edges.edges@, g).target.guid))
            && self.index_closed()
    }

    /// Every stored node's indexed edges are stored, with their targets.
    pub open spec fn index_closed(&self) -> bool {
        forall|h: Guid, i: int|
            #![trigger self.nodes.node_at(h).edges[i]]
            self.nodes.has_node(h) && 0 <= i < self.nodes.node_at(h).edges.len()
                ==> self.edges.has_edge(self.nodes.node_at(h).edges[i].guid)
                && self.nodes.has_node(self.nodes.node_at(h).edges[i].target.guid)
    }

    /// The weak node-index closure that holds while the worklist drains:
    /// each stored node's indexed edge, and that edge's target, is stored
    /// or waiting on the worklist.
    pub open spec fn index_closure_weak(&self, w: Seq<Value<G>>) -> bool {
        forall|h: Guid, i: int|
            #![trigger self.nodes.node_at(h).edges[i]]
            self.nodes.has_node(h) && 0 <= i < self.nodes.node_at(h).edges.len() ==> (
            self.edges.has_edge(self.nodes.node_at(h).edges[i].guid) || work_has_edge(
                w,
                self.nodes.node_at(h).edges[i].guid,
            )) && (self.nodes.has_node(self.nodes.node_at(h).edges[i].target.guid)
                || work_has_node(w, self.nodes.node_at(h).edges[i].target.guid))
    }

    pub fn new() -> (r: DataSet<G>)
        ensures
            r.wf(),
            r.nodes.nodes.sv().len() == 0,
            r.edges.edges@.len() == 0,
    {
        DataSet { guid: Guid::fresh(), nodes: NodeSet::new(), edges: EdgeSet::new() }
    }

    pub fn get_guid(&self) -> (r: Guid)
        ensures
            r == self.guid,
    {
        self.guid
    }

    /// Copies of all the nodes included in the data set; the query text is
    /// not yet interpreted.
    pub fn nodes(&self, _query: &str) -> (r: GraphtResult<Vec<Node<G>>>)
        requires
            self.wf(),
        ensures
            match r {
                Ok(v) => v@.len() == self.nodes.nodes.sv().len() && (forall|i: int|
                    0 <= i < v@.len() ==> (#[trigger] v@[i]).nv()
                        == self.nodes.nodes.sv()[i].1.nv()),
                Err(_e) => false,
            },
    {
        let mut out: Vec<Node<G>> = Vec::new();
        let mut i: usize = 0;
        while i < self.nodes.nodes.entries.len()
            invariant
                self.wf(),
                i <= self.nodes.nodes.sv().len(),
                out@.len() == i,
                forall|j: int|
                    0 <= j < i ==> (#[trigger] out@[j]).nv() == self.nodes.nodes.sv()[j].1.nv(),
            decreases self.nodes.nodes.sv().len() - i,
        {
            out.push(self.nodes.nodes.entries[i].1.dup());
            i = i + 1;
        }
        Ok(out)
    }

    /// Current totals for the whole set.
    pub fn stats(&self) -> (r: DataSetStats)
        requires
            self.wf(),
        ensures
            r.sv() == (DataSetStatsV {
                nodes: (NodeStatsV {
                    total: self.nodes.nodes.sv().len() as int,
                    typed: Map::new(
                        |k: Seq<char>| self.nodes.typed.spec_has(k),
                        |k: Seq<char>| self.nodes.typed.spec_get(k)@.len() as int,
                    ),
                    labels: Map::new(
                        |k: Seq<char>| self.nodes.labels.spec_has(k),
                        |k: Seq<char>| self.nodes.labels.spec_get(k)@.len() as int,
                    ),
                    properties: Map::empty(),
                }),
                edges: (EdgeStatsV {
                    total: self.edges.esv().len() as int,
                    typed: Map::new(
                        |k: Seq<char>| self.edges.groups().contains_key(k),
                        |k: Seq<char>| self.edges.groups()[k].len() as int,
                    ),
                    properties: Map::empty(),
                }),
            }),
    {
        let nodes = self.nodes.stats();
        let edges = self.edges.stats();
        DataSetStats { nodes, edges }
    }
}


/// Whether a worklist holds a node with the given identity.
pub open spec fn work_has_node<G: Graph>(w: Seq<Value<G>>, g: Guid) -> bool {
    exists|i: int|
        0 <= i < w.len() && ((#[trigger] w[i]) matches Value::Node(n) && n.nv().guid == g)
}

/// Whether a worklist holds an edge with the given identity.
pub open spec fn work_has_edge<G: Graph>(w: Seq<Value<G>>, g: Guid) -> bool {
    exists|i: int|
        0 <= i < w.len() && ((#[trigger] w[i]) matches Value::Edge(e) && e.ev().guid == g)
}

/// Every item on a worklist is internally consistent.
pub open spec fn work_ok<G: Graph>(w: Seq<Value<G>>) -> bool {
    forall|i: int| 0 <= i < w.len() ==> (#[trigger] w[i]).inv()
}

/// Every count in a map lies between zero and the bound.
pub open spec fn map_bounded(m: Map<Seq<char>, int>, b: int) -> bool {
    forall|k: Seq<char>| #[trigger] m.contains_key(k) ==> 0 <= m[k] <= b
}

/// The running result of an insert: either nothing was created (and the
/// collections are exactly as before), or the created bucket carries
/// exactly the nonzero growth of the two collections.
pub open spec fn created_tracks(
    cs: crate::stats::CrudV<DataSetStatsV>,
    nd: int,
    ed: int,
) -> bool {
    cs.read is None && cs.updated is None && cs.deleted is None && cs.errors.len() == 0 && (
    match cs.created {
        None => nd == 0 && ed == 0,
        Some(v) => v.nodes.total == nd && v.edges.total == ed && 0 <= nd && 0 <= ed && nd + ed
            >= 1
            && map_bounded(v.nodes.typed, nd) && map_bounded(v.nodes.labels, nd)
            && v.nodes.properties == Map::<Seq<char>, int>::empty() && v.edges.typed == Map::<
            Seq<char>,
            int,
        >::empty() && v.edges.properties == Map::<Seq<char>, int>::empty(),
    })
}

/// The structural potential of a node value: covers queuing each of its
/// edges together with that edge's own potential.
pub open spec fn pot_nv(v: crate::model::node::NodeView) -> nat
    decreases v,
{
    1 + pot_evs(v.edges)
}

/// The combined potential of an edge list.
pub open spec fn pot_evs(s: Seq<crate::model::node::EdgeView>) -> nat
    decreases s,
{
    if s.len() == 0 {
        0
    } else {
        pot_evs(s.drop_last()) + pot_ev(s.last()) + pot_nv(*s.last().target) + 1
    }
}

/// The structural potential of an edge value: covers materializing its
/// source inline and queuing its target.
pub open spec fn pot_ev(e: crate::model::node::EdgeView) -> nat
    decreases e,
{
    pot_nv(*e.source) + pot_nv(*e.target) + 2
}

/// The structural potential of one path step.
pub open spec fn pot_step(s: crate::model::path::StepV) -> nat {
    match s {
        crate::model::path::StepV::Nil => 1,
        crate::model::path::StepV::Node(n) => pot_nv(n) + 1,
        crate::model::path::StepV::Edge(e) => pot_ev(e) + 1,
    }
}

/// The combined potential of a path's steps.
pub open spec fn pot_steps(s: Seq<crate::model::path::StepV>) -> nat
    decreases s,
{
    if s.len() == 0 {
        0
    } else {
        pot_steps(s.drop_last()) + pot_step(s.last())
    }
}

/// The potential of one insertable value.
pub open spec fn pot_value<G: Graph>(v: Value<G>) -> nat {
    match v {
        Value::Node(n) => pot_nv(n.nv()),
        Value::Edge(e) => pot_ev(e.ev()),
        Value::Path(p) => pot_steps(p.pv()) + 1,
    }
}

/// The combined potential of a worklist; it shrinks with every pop and
/// bounds the work the engine can still do.
pub open spec fn pot_work<G: Graph>(w: Seq<Value<G>>) -> nat
    decreases w,
{
    if w.len() == 0 {
        0
    } else {
        pot_work(w.drop_last()) + pot_value(w.last())
    }
}

/// Popping takes exactly the last item's potential off the worklist's.
proof fn lemma_pot_pop<G: Graph>(pre: Seq<Value<G>>)
    requires
        pre.len() > 0,
    ensures
        pot_work(pre) == pot_work(pre.drop_last()) + pot_value(pre.last()),
{
}

/// Pushing adds exactly the new item's potential to the worklist's.
proof fn lemma_pot_push<G: Graph>(w: Seq<Value<G>>, v: Value<G>)
    ensures
        pot_work(w.push(v)) == pot_work(w) + pot_value(v),
{
    assert(w.push(v).drop_last() =~= w);
    assert(w.push(v).last() == v);
}

/// Every value's potential is at least one.
proof fn lemma_pot_value_pos<G: Graph>(v: Value<G>)
    ensures
        pot_value(v) >= 1,
{
}

/// Waiting-node and waiting-edge witnesses survive a push, and the pushed
/// item itself becomes one.
proof fn lemma_work_grow<G: Graph>(w: Seq<Value<G>>, v: Value<G>)
    ensures
        forall|g: Guid| #[trigger] work_has_node(w, g) ==> work_has_node(w.push(v), g),
        forall|g: Guid| #[trigger] work_has_edge(w, g) ==> work_has_edge(w.push(v), g),
        v matches Value::Node(n) ==> work_has_node(w.push(v), n.nv().guid),
        v matches Value::Edge(e) ==> work_has_edge(w.push(v), e.ev().guid),
        work_ok(w) && v.inv() ==> work_ok(w.push(v)),
{
    assert(w.push(v)[w.len() as int] == v);
    assert forall|g: Guid| #[trigger] work_has_node(w, g) implies work_has_node(w.push(v), g) by {
        let i = choose|i: int|
            0 <= i < w.len() && ((#[trigger] w[i]) matches Value::Node(n) && n.nv().guid == g);
        assert(w.push(v)[i] == w[i]);
    }
    assert forall|g: Guid| #[trigger] work_has_edge(w, g) implies work_has_edge(w.push(v), g) by {
        let i = choose|i: int|
            0 <= i < w.len() && ((#[trigger] w[i]) matches Value::Edge(e) && e.ev().guid == g);
        assert(w.push(v)[i] == w[i]);
    }
    if work_ok(w) && v.inv() {
        assert forall|i: int| 0 <= i < w.push(v).len() implies (#[trigger] w.push(v)[i]).inv() by {
            if i < w.len() {
                assert(w.push(v)[i] == w[i]);
            }
        }
    }
}

/// Popping the last worklist item keeps every witness that sits before it.
proof fn lemma_work_shrunk<G: Graph>(pre: Seq<Value<G>>, now: Seq<Value<G>>)
    requires
        pre.len() > 0,
        now == pre.drop_last(),
    ensures
        forall|g: Guid|
            #[trigger] work_has_node(pre, g) ==> work_has_node(now, g) || (pre.last()
                matches Value::Node(n) && n.nv().guid == g),
        forall|g: Guid|
            #[trigger] work_has_edge(pre, g) ==> work_has_edge(now, g) || (pre.last()
                matches Value::Edge(e) && e.ev().guid == g),
        work_ok(pre) ==> work_ok(now) && pre.last().inv(),
{
    assert forall|g: Guid|
        #[trigger] work_has_node(pre, g) implies work_has_node(now, g) || (pre.last()
        matches Value::Node(n) && n.nv().guid == g) by {
        let i = choose|i: int|
            0 <= i < pre.len() && ((#[trigger] pre[i]) matches Value::Node(n) && n.nv().guid
                == g);
        if i < pre.len() - 1 {
            assert(now[i] == pre[i]);
            assert(work_has_node(now, g));
        } else {
            assert(pre[i] == pre.last());
        }
    }
    assert forall|g: Guid|
        #[trigger] work_has_edge(pre, g) implies work_has_edge(now, g) || (pre.last()
        matches Value::Edge(e) && e.ev().guid == g) by {
        let i = choose|i: int|
            0 <= i < pre.len() && ((#[trigger] pre[i]) matches Value::Edge(e) && e.ev().guid
                == g);
        if i < pre.len() - 1 {
            assert(now[i] == pre[i]);
            assert(work_has_edge(now, g));
        } else {
            assert(pre[i] == pre.last());
        }
    }
    if work_ok(pre) {
        assert forall|i: int| 0 <= i < now.len() implies (#[trigger] now[i]).inv() by {
            assert(now[i] == pre[i]);
        }
        assert(pre.last() == pre[pre.len() - 1]);
    }
}

/// Whether a path step's item is already stored or still waiting on the
/// worklist.
pub open spec fn step_covered<G: Graph>(
    ds: DataSet<G>,
    w: Seq<Value<G>>,
    s: crate::model::path::StepV,
) -> bool {
    match s {
        crate::model::path::StepV::Nil => true,
        crate::model::path::StepV::Node(nv) => ds.nodes.has_node(nv.guid) || work_has_node(
            w,
            nv.guid,
        ),
        crate::model::path::StepV::Edge(ev) => ds.edges.has_edge(ev.guid) || work_has_edge(
            w,
            ev.guid,
        ),
    }
}

/// Every step of a path is stored or waiting.
pub open spec fn path_covered<G: Graph>(
    ds: DataSet<G>,
    w: Seq<Value<G>>,
    pv: Seq<crate::model::path::StepV>,
) -> bool {
    forall|i: int| 0 <= i < pv.len() ==> step_covered(ds, w, #[trigger] pv[i])
}

/// The edge-table half of one fresh edge insertion: the table grows by
/// exactly that edge, stored with its endpoints.
pub open spec fn edge_store_delta<G: Graph>(
    pre: DataSet<G>,
    post: DataSet<G>,
    ev: crate::model::node::EdgeView,
) -> bool {
    &&& !pre.edges.has_edge(ev.guid)
    &&& (forall|h: Guid|
        #[trigger] post.edges.has_edge(h) == (pre.edges.has_edge(h) || h == ev.guid))
    &&& post.edges.edges@.len() == pre.edges.edges@.len() + 1
    &&& post.edges.esv().len() == pre.edges.esv().len() + 1
    &&& pairs_get(post.edges.edges@, ev.guid).source.guid == ev.source.guid
    &&& pairs_get(post.edges.edges@, ev.guid).target.guid == ev.target.guid
}

/// The exact effect of inserting one fresh edge whose endpoint snapshots
/// carry no index of their own: the edge table grows by exactly that edge
/// and the node table by exactly the missing endpoints.
pub open spec fn edge_insert_delta<G: Graph>(
    pre: DataSet<G>,
    post: DataSet<G>,
    ev: crate::model::node::EdgeView,
) -> bool {
    edge_store_delta(pre, post, ev) && (forall|h: Guid|
        #[trigger] post.nodes.has_node(h) == (pre.nodes.has_node(h) || h == ev.source.guid || h
            == ev.target.guid)) && post.nodes.nodes.sv().len() == pre.nodes.nodes.sv().len() + (
    if pre.nodes.has_node(ev.source.guid) {
        0int
    } else {
        1int
    }) + (if pre.nodes.has_node(ev.target.guid) || ev.target.guid == ev.source.guid {
        0int
    } else {
        1int
    })
}

/// The created bucket recorded for one fresh node.
pub open spec fn node_created(nv: crate::model::node::NodeView) -> DataSetStatsV {
    DataSetStatsV {
        nodes: (NodeStatsV {
            total: 1,
            typed: crate::stats::msingle(nv.tlabel, 1),
            labels: crate::store::nodeset::label_units(nv.labels),
            properties: Map::empty(),
        }),
        edges: <EdgeStats as Stats>::vzero(),
    }
}

/// The engine's exact progress on a fresh, index-free top node: either it
/// is still waiting as the sole worklist item, or the work is done and the
/// store grew by exactly that node.
pub open spec fn node_phase<G: Graph>(
    ds: DataSet<G>,
    w: Seq<Value<G>>,
    cs: crate::stats::CrudV<DataSetStatsV>,
    init: DataSet<G>,
    top: Value<G>,
) -> bool {
    top matches Value::Node(n) ==> ((!init.nodes.has_node(n.nv().guid) && n.nv().edges.len()
        == 0) ==> ((w =~= seq![top] && ds == init) || (w =~= Seq::<Value<G>>::empty()
        && NodeSet::node_delta(init.nodes, ds.nodes, n.nv()) && ds.edges == init.edges
        && cs.created == Some(node_created(n.nv())))))
}

/// The engine's exact progress on a fresh top edge with index-free
/// endpoint snapshots: waiting, edge stored with its target queued, or done
/// with exactly the edge and its missing endpoints added.
pub open spec fn edge_phase<G: Graph>(
    ds: DataSet<G>,
    w: Seq<Value<G>>,
    init: DataSet<G>,
    top: Value<G>,
) -> bool {
    top matches Value::Edge(e) ==> ((!init.edges.has_edge(e.ev().guid)
        && e.ev().source.edges.len() == 0 && e.ev().target.edges.len() == 0) ==> ((w =~= seq![
        top,
    ] && ds == init) || (w.len() == 1 && (w[0] matches Value::Node(n2) && n2.nv()
        == *e.ev().target) && edge_store_delta(init, ds, e.ev()) && (forall|h: Guid|
        #[trigger] ds.nodes.has_node(h) == (init.nodes.has_node(h) || h == e.ev().source.guid))
        && ds.nodes.nodes.sv().len() == init.nodes.nodes.sv().len() + (if init.nodes.has_node(
        e.ev().source.guid,
    ) {
        0int
    } else {
        1int
    })) || (w =~= Seq::<Value<G>>::empty() && edge_insert_delta(init, ds, e.ev()))))
}

/// The insertion engine's loop invariant: the collections stay valid and
/// closed up to worklist witnesses, the created bucket tracks exactly the
/// growth, and the top value's progress is pinned.
pub open spec fn engine_inv<G: Graph>(
    ds: DataSet<G>,
    w: Seq<Value<G>>,
    cs: crate::stats::CrudV<DataSetStatsV>,
    init: DataSet<G>,
    top: Value<G>,
) -> bool {
    &&& ds.nodes.wf()
    &&& ds.edges.wf()
    &&& ds.closure_weak(w)
    &&& ds.index_closure_weak(w)
    &&& work_ok(w)
    &&& init.nodes.nodes.sv().len() <= ds.nodes.nodes.sv().len()
    &&& init.edges.edges@.len() <= ds.edges.edges@.len()
    &&& ds.nodes.nodes.sv().len() <= usize::MAX
    &&& ds.edges.edges@.len() <= usize::MAX
    &&& (forall|g: Guid| #[trigger] init.nodes.has_node(g) ==> ds.nodes.has_node(g))
    &&& (forall|g: Guid| #[trigger] init.edges.has_edge(g) ==> ds.edges.has_edge(g))
    &&& created_tracks(
        cs,
        ds.nodes.nodes.sv().len() - init.nodes.nodes.sv().len(),
        ds.edges.edges@.len() - init.edges.edges@.len(),
    )
    &&& (forall|i: int| 0 <= i < w.len() ==> (((#[trigger] w[i]) is Path) ==> w[i] == top))
    &&& (top matches Value::Node(n) ==> ds.nodes.has_node(n.nv().guid) || work_has_node(
        w,
        n.nv().guid,
    ))
    &&& (top matches Value::Edge(e) ==> ds.edges.has_edge(e.ev().guid) || work_has_edge(
        w,
        e.ev().guid,
    ))
    &&& (top matches Value::Node(n) ==> (init.nodes.has_node(n.nv().guid) ==> ds == init
        && cs.created is None && (w =~= seq![top] || w =~= Seq::<Value<G>>::empty())))
    &&& (top matches Value::Edge(e) ==> (init.edges.has_edge(e.ev().guid) ==> ds == init
        && cs.created is None && (w =~= seq![top] || w =~= Seq::<Value<G>>::empty())))
    &&& node_phase(ds, w, cs, init, top)
    &&& edge_phase(ds, w, init, top)
    &&& (top matches Value::Path(p) ==> (w =~= seq![top] || path_covered(ds, w, p.pv())))
    &&& ds.guid == init.guid
}

/// Steps covered by an old store and worklist stay covered once every
/// worklist witness has either survived or been stored, and the store has
/// only grown.
proof fn lemma_covered_carry<G: Graph>(
    pre_ds: DataSet<G>,
    post_ds: DataSet<G>,
    w1: Seq<Value<G>>,
    w2: Seq<Value<G>>,
    pv: Seq<crate::model::path::StepV>,
)
    requires
        path_covered(pre_ds, w1, pv),
        forall|g: Guid|
            #[trigger] work_has_node(w1, g) ==> work_has_node(w2, g) || post_ds.nodes.has_node(g),
        forall|g: Guid|
            #[trigger] work_has_edge(w1, g) ==> work_has_edge(w2, g) || post_ds.edges.has_edge(g),
        forall|g: Guid| #[trigger] pre_ds.nodes.has_node(g) ==> post_ds.nodes.has_node(g),
        forall|g: Guid| #[trigger] pre_ds.edges.has_edge(g) ==> post_ds.edges.has_edge(g),
    ensures
        path_covered(post_ds, w2, pv),
{
    assert forall|i: int| 0 <= i < pv.len() implies step_covered(post_ds, w2, #[trigger] pv[i]) by {
        assert(step_covered(pre_ds, w1, pv[i]));
        match pv[i] {
            crate::model::path::StepV::Nil => {},
            crate::model::path::StepV::Node(nv) => {
                if work_has_node(w1, nv.guid) {
                    assert(work_has_node(w2, nv.guid) || post_ds.nodes.has_node(nv.guid));
                }
            },
            crate::model::path::StepV::Edge(ev) => {
                if work_has_edge(w1, ev.guid) {
                    assert(work_has_edge(w2, ev.guid) || post_ds.edges.has_edge(ev.guid));
                }
            },
        }
    }
}

/// The weak closures carry over an engine step that stores no node and
/// changes none, when every witness survives or points at a stored item.
proof fn lemma_closures_carry<G: Graph>(
    pre_ds: DataSet<G>,
    post_ds: DataSet<G>,
    w1: Seq<Value<G>>,
    w2: Seq<Value<G>>,
)
    requires
        pre_ds.closure_weak(w1),
        pre_ds.index_closure_weak(w1),
        forall|h: Guid|
            #[trigger] post_ds.nodes.has_node(h) == pre_ds.nodes.has_node(h),
        forall|h: Guid|
            #[trigger] pre_ds.nodes.has_node(h) ==> post_ds.nodes.node_at(h)
                == pre_ds.nodes.node_at(h),
        forall|g: Guid| #[trigger] pre_ds.edges.has_edge(g) ==> post_ds.edges.has_edge(g),
        forall|g: Guid|
            #[trigger] pre_ds.edges.has_edge(g) ==> pairs_get(post_ds.edges.edges@, g)
                == pairs_get(pre_ds.edges.edges@, g),
        forall|g: Guid|
            #[trigger] post_ds.edges.has_edge(g) ==> pre_ds.edges.has_edge(g) || (
            post_ds.nodes.has_node(pairs_get(post_ds.edges.edges@, g).source.guid) && (
            post_ds.nodes.has_node(pairs_get(post_ds.edges.edges@, g).target.guid)
                || work_has_node(w2, pairs_get(post_ds.edges.edges@, g).target.guid))),
        forall|g: Guid|
            #[trigger] work_has_node(w1, g) ==> work_has_node(w2, g) || post_ds.nodes.has_node(g),
        forall|g: Guid|
            #[trigger] work_has_edge(w1, g) ==> work_has_edge(w2, g) || post_ds.edges.has_edge(g),
    ensures
        post_ds.closure_weak(w2),
        post_ds.index_closure_weak(w2),
{
    assert forall|g: Guid| #[trigger] post_ds.edges.has_edge(g) implies post_ds.nodes.has_node(
        pairs_get(post_ds.edges.edges@, g).source.guid,
    ) && (post_ds.nodes.has_node(pairs_get(post_ds.edges.edges@, g).target.guid)
        || work_has_node(w2, pairs_get(post_ds.edges.edges@, g).target.guid)) by {
        if pre_ds.edges.has_edge(g) {
            assert(pairs_get(post_ds.edges.edges@, g) == pairs_get(pre_ds.edges.edges@, g));
            let sv = pairs_get(pre_ds.edges.edges@, g).source.guid;
            let tv = pairs_get(pre_ds.edges.edges@, g).target.guid;
            assert(pre_ds.nodes.has_node(sv));
            assert(post_ds.nodes.has_node(sv));
            if work_has_node(w1, tv) {
                assert(work_has_node(w2, tv) || post_ds.nodes.has_node(tv));
            } else {
                assert(pre_ds.nodes.has_node(tv));
            }
        }
    }
    assert forall|h: Guid, i: int|
        post_ds.nodes.has_node(h) && 0 <= i < post_ds.nodes.node_at(h).edges.len() implies (
    post_ds.edges.has_edge(#[trigger] post_ds.nodes.node_at(h).edges[i].guid) || work_has_edge(
        w2,
        post_ds.nodes.node_at(h).edges[i].guid,
    )) && (post_ds.nodes.has_node(post_ds.nodes.node_at(h).edges[i].target.guid)
        || work_has_node(w2, post_ds.nodes.node_at(h).edges[i].target.guid)) by {
        assert(pre_ds.nodes.has_node(h));
        assert(post_ds.nodes.node_at(h) == pre_ds.nodes.node_at(h));
        let eg = pre_ds.nodes.node_at(h).edges[i].guid;
        let tg = pre_ds.nodes.node_at(h).edges[i].target.guid;
        assert((pre_ds.edges.has_edge(eg) || work_has_edge(w1, eg)) && (pre_ds.nodes.has_node(tg)
            || work_has_node(w1, tg)));
        if work_has_edge(w1, eg) {
            assert(work_has_edge(w2, eg) || post_ds.edges.has_edge(eg));
        }
        if work_has_node(w1, tg) {
            assert(work_has_node(w2, tg) || post_ds.nodes.has_node(tg));
        }
    }
}

/// The weak closures carry over storing one node whose indexed edges and
/// their targets are all waiting on the new worklist.
proof fn lemma_closures_node_insert<G: Graph>(
    pre_ds: DataSet<G>,
    post_ds: DataSet<G>,
    w1: Seq<Value<G>>,
    w2: Seq<Value<G>>,
    nv: crate::model::node::NodeView,
)
    requires
        pre_ds.closure_weak(w1),
        pre_ds.index_closure_weak(w1),
        NodeSet::node_delta(pre_ds.nodes, post_ds.nodes, nv),
        post_ds.edges == pre_ds.edges,
        forall|g: Guid|
            #[trigger] work_has_node(w1, g) ==> work_has_node(w2, g) || post_ds.nodes.has_node(g),
        forall|g: Guid|
            #[trigger] work_has_edge(w1, g) ==> work_has_edge(w2, g) || post_ds.edges.has_edge(g),
        forall|i: int|
            0 <= i < nv.edges.len() ==> work_has_edge(w2, (#[trigger] nv.edges[i]).guid)
                && work_has_node(w2, nv.edges[i].target.guid),
    ensures
        post_ds.closure_weak(w2),
        post_ds.index_closure_weak(w2),
{
    assert forall|g: Guid| #[trigger] post_ds.edges.has_edge(g) implies post_ds.nodes.has_node(
        pairs_get(post_ds.edges.edges@, g).source.guid,
    ) && (post_ds.nodes.has_node(pairs_get(post_ds.edges.edges@, g).target.guid)
        || work_has_node(w2, pairs_get(post_ds.edges.edges@, g).target.guid)) by {
        assert(pre_ds.edges.has_edge(g));
        let sv = pairs_get(pre_ds.edges.edges@, g).source.guid;
        let tv = pairs_get(pre_ds.edges.edges@, g).target.guid;
        assert(pre_ds.nodes.has_node(sv));
        assert(post_ds.nodes.has_node(sv) == (pre_ds.nodes.has_node(sv) || sv == nv.guid));
        assert(post_ds.nodes.has_node(tv) == (pre_ds.nodes.has_node(tv) || tv == nv.guid));
        if work_has_node(w1, tv) {
            assert(work_has_node(w2, tv) || post_ds.nodes.has_node(tv));
        }
    }
    assert forall|h: Guid, i: int|
        post_ds.nodes.has_node(h) && 0 <= i < post_ds.nodes.node_at(h).edges.len() implies (
    post_ds.edges.has_edge(#[trigger] post_ds.nodes.node_at(h).edges[i].guid) || work_has_edge(
        w2,
        post_ds.nodes.node_at(h).edges[i].guid,
    )) && (post_ds.nodes.has_node(post_ds.nodes.node_at(h).edges[i].target.guid)
        || work_has_node(w2, post_ds.nodes.node_at(h).edges[i].target.guid)) by {
        assert(post_ds.nodes.has_node(h) == (pre_ds.nodes.has_node(h) || h == nv.guid));
        if h == nv.guid {
            assert(post_ds.nodes.node_at(h) == (crate::model::node::NodeView {
                bound: true,
                ..nv
            }));
            assert(post_ds.nodes.node_at(h).edges[i] == nv.edges[i]);
            assert(work_has_edge(w2, nv.edges[i].guid) && work_has_node(
                w2,
                nv.edges[i].target.guid,
            ));
        } else {
            assert(pre_ds.nodes.has_node(h));
            assert(post_ds.nodes.node_at(h) == pre_ds.nodes.node_at(h));
            let eg = pre_ds.nodes.node_at(h).edges[i].guid;
            let tg = pre_ds.nodes.node_at(h).edges[i].target.guid;
            assert((pre_ds.edges.has_edge(eg) || work_has_edge(w1, eg)) && (
            pre_ds.nodes.has_node(tg) || work_has_node(w1, tg)));
            if work_has_edge(w1, eg) {
                assert(work_has_edge(w2, eg) || post_ds.edges.has_edge(eg));
            }
            if work_has_node(w1, tg) {
                assert(work_has_node(w2, tg) || post_ds.nodes.has_node(tg));
            }
            assert(pre_ds.nodes.has_node(tg) ==> post_ds.nodes.has_node(tg));
        }
    }
}

/// The weak closures carry over the whole edge step: at its end the
/// popped edge is stored with its source present and its target queued, a
/// missing source was materialized with its index covered, and every other
/// witness survived or points at a stored item.
proof fn lemma_closures_edge_branch<G: Graph>(
    pre_ds: DataSet<G>,
    fin: DataSet<G>,
    w1: Seq<Value<G>>,
    w2: Seq<Value<G>>,
    ev: crate::model::node::EdgeView,
)
    requires
        pre_ds.closure_weak(w1),
        pre_ds.index_closure_weak(w1),
        forall|g: Guid|
            #[trigger] work_has_node(w1, g) ==> work_has_node(w2, g) || fin.nodes.has_node(g),
        forall|g: Guid|
            #[trigger] work_has_edge(w1, g) ==> work_has_edge(w2, g) || fin.edges.has_edge(g),
        forall|g: Guid| #[trigger] pre_ds.nodes.has_node(g) ==> fin.nodes.has_node(g),
        forall|h: Guid|
            h != ev.source.guid && pre_ds.nodes.has_node(h) ==> #[trigger] fin.nodes.node_at(h)
                == pre_ds.nodes.node_at(h),
        forall|h: Guid|
            #[trigger] fin.nodes.has_node(h) ==> pre_ds.nodes.has_node(h) || h == ev.source.guid,
        forall|g: Guid|
            g != ev.guid && pre_ds.edges.has_edge(g) ==> #[trigger] pairs_get(
                fin.edges.edges@,
                g,
            ) == pairs_get(pre_ds.edges.edges@, g),
        forall|g: Guid| #[trigger] pre_ds.edges.has_edge(g) ==> fin.edges.has_edge(g),
        forall|g: Guid|
            #[trigger] fin.edges.has_edge(g) ==> pre_ds.edges.has_edge(g) || g == ev.guid,
        fin.edges.has_edge(ev.guid),
        pairs_get(fin.edges.edges@, ev.guid).source.guid == ev.source.guid,
        pairs_get(fin.edges.edges@, ev.guid).target.guid == ev.target.guid,
        fin.nodes.has_node(ev.source.guid),
        work_has_node(w2, ev.target.guid),
        forall|i: int|
            0 <= i < fin.nodes.node_at(ev.source.guid).edges.len() ==> (fin.edges.has_edge(
                (#[trigger] fin.nodes.node_at(ev.source.guid).edges[i]).guid,
            ) || work_has_edge(w2, fin.nodes.node_at(ev.source.guid).edges[i].guid)) && (
            fin.nodes.has_node(fin.nodes.node_at(ev.source.guid).edges[i].target.guid)
                || work_has_node(w2, fin.nodes.node_at(ev.source.guid).edges[i].target.guid)),
    ensures
        fin.closure_weak(w2),
        fin.index_closure_weak(w2),
{
    assert forall|g: Guid| #[trigger] fin.edges.has_edge(g) implies fin.nodes.has_node(
        pairs_get(fin.edges.edges@, g).source.guid,
    ) && (fin.nodes.has_node(pairs_get(fin.edges.edges@, g).target.guid) || work_has_node(
        w2,
        pairs_get(fin.edges.edges@, g).target.guid,
    )) by {
        if g == ev.guid {
            assert(fin.nodes.has_node(ev.source.guid));
            assert(work_has_node(w2, ev.target.guid));
        } else {
            assert(pre_ds.edges.has_edge(g));
            assert(pairs_get(fin.edges.edges@, g) == pairs_get(pre_ds.edges.edges@, g));
            let tv = pairs_get(pre_ds.edges.edges@, g).target.guid;
            assert(pre_ds.nodes.has_node(pairs_get(pre_ds.edges.edges@, g).source.guid));
            if work_has_node(w1, tv) {
                assert(work_has_node(w2, tv) || fin.nodes.has_node(tv));
            }
        }
    }
    assert forall|h: Guid, i: int|
        fin.nodes.has_node(h) && 0 <= i < fin.nodes.node_at(h).edges.len() implies (
    fin.edges.has_edge(#[trigger] fin.nodes.node_at(h).edges[i].guid) || work_has_edge(
        w2,
        fin.nodes.node_at(h).edges[i].guid,
    )) && (fin.nodes.has_node(fin.nodes.node_at(h).edges[i].target.guid) || work_has_node(
        w2,
        fin.nodes.node_at(h).edges[i].target.guid,
    )) by {
        if h == ev.source.guid {
            assert((fin.edges.has_edge(fin.nodes.node_at(h).edges[i].guid) || work_has_edge(
                w2,
                fin.nodes.node_at(h).edges[i].guid,
            )) && (fin.nodes.has_node(fin.nodes.node_at(h).edges[i].target.guid)
                || work_has_node(w2, fin.nodes.node_at(h).edges[i].target.guid)));
        } else {
            assert(pre_ds.nodes.has_node(h));
            assert(fin.nodes.node_at(h) == pre_ds.nodes.node_at(h));
            let eg = pre_ds.nodes.node_at(h).edges[i].guid;
            let tg = pre_ds.nodes.node_at(h).edges[i].target.guid;
            assert((pre_ds.edges.has_edge(eg) || work_has_edge(w1, eg)) && (
            pre_ds.nodes.has_node(tg) || work_has_node(w1, tg)));
            if work_has_edge(w1, eg) {
                assert(work_has_edge(w2, eg) || fin.edges.has_edge(eg));
            }
            if work_has_node(w1, tg) {
                assert(work_has_node(w2, tg) || fin.nodes.has_node(tg));
            }
        }
    }
}

impl<G: Graph> DataSet<G> {
    /// The weak endpoint closure that holds while the worklist drains: each
    /// stored edge's source is stored, and its target is stored or waiting
    /// on the worklist.
    pub open spec fn closure_weak(&self, w: Seq<Value<G>>) -> bool {
        forall|g: Guid|
            #[trigger] self.edges.has_edge(g) ==> self.nodes.has_node(
                pairs_get(self.edges.edges@, g).source.guid,
            ) && (self.nodes.has_node(pairs_get(self.edges.edges@, g).target.guid)
                || work_has_node(w, pairs_get(self.edges.edges@, g).target.guid))
    }

    /// The weak closure survives growth of the stored nodes alone.
    proof fn lemma_closure_nodes_grow(&self, pre: DataSet<G>, w: Seq<Value<G>>)
        requires
            pre.closure_weak(w),
            self.edges == pre.edges,
            forall|g: Guid| #[trigger] pre.nodes.has_node(g) ==> self.nodes.has_node(g),
        ensures
            self.closure_weak(w),
    {
        assert forall|g: Guid| #[trigger] self.edges.has_edge(g) implies self.nodes.has_node(
            pairs_get(self.edges.edges@, g).source.guid,
        ) && (self.nodes.has_node(pairs_get(self.edges.edges@, g).target.guid) || work_has_node(
            w,
            pairs_get(self.edges.edges@, g).target.guid,
        )) by {
            assert(pre.edges.has_edge(g));
        }
    }

    /// The weak closure survives any growth of the worklist's witnesses.
    proof fn lemma_closure_mono(&self, w1: Seq<Value<G>>, w2: Seq<Value<G>>)
        requires
            self.closure_weak(w1),
            forall|g: Guid| #[trigger] work_has_node(w1, g) ==> work_has_node(w2, g),
        ensures
            self.closure_weak(w2),
    {
        assert forall|g: Guid| #[trigger] self.edges.has_edge(g) implies self.nodes.has_node(
            pairs_get(self.edges.edges@, g).source.guid,
        ) && (self.nodes.has_node(pairs_get(self.edges.edges@, g).target.guid) || work_has_node(
            w2,
            pairs_get(self.edges.edges@, g).target.guid,
        )) by {
            if work_has_node(w1, pairs_get(self.edges.edges@, g).target.guid) {
                assert(work_has_node(w2, pairs_get(self.edges.edges@, g).target.guid));
            }
        }
    }
}


/// Queue every edge of a node's index, each followed by its target node.
#[verifier::loop_isolation(false)]
#[verifier::rlimit(100)]
#[verifier::spinoff_prover]
fn push_index_edges<G: Graph>(work: &mut Vec<Value<G>>, node: &Node<G>)
    requires
        node.inv(),
        crate::model::node::wf_node(node.nv()),
        work_ok(old(work)@),
    ensures
        work_ok(final(work)@),
        pot_work(final(work)@) + 1 <= pot_work(old(work)@) + pot_nv(node.nv()),
        forall|g: Guid|
            #[trigger] work_has_node(old(work)@, g) ==> work_has_node(final(work)@, g),
        forall|g: Guid|
            #[trigger] work_has_edge(old(work)@, g) ==> work_has_edge(final(work)@, g),
        node.nv().edges.len() == 0 ==> final(work)@ == old(work)@,
        forall|i: int|
            0 <= i < final(work)@.len() - old(work)@.len() ==> !((#[trigger] final(work)@[old(
                work,
            )@.len() + i]) is Path),
        forall|i: int| 0 <= i < old(work)@.len() ==> #[trigger] final(work)@[i] == old(work)@[i],
        final(work)@.len() >= old(work)@.len(),
        forall|i: int|
            0 <= i < node.nv().edges.len() ==> work_has_edge(
                final(work)@,
                (#[trigger] node.nv().edges[i]).guid,
            ) && work_has_node(final(work)@, node.nv().edges[i].target.guid),
{
    let ghost evs = node.nv().edges;
    proof {
        crate::model::node::lemma_wf_edge_list(evs, node.nv().guid);
    }
    let mut out_edges = node.edges("");
    proof {
        assert(evs.take(out_edges@.len() as int) =~= evs);
    }
    while out_edges.len() > 0
        invariant
            work_ok(work@),
            out_edges@.len() <= evs.len(),
            forall|t: int|
                0 <= t < out_edges@.len() ==> (#[trigger] out_edges@[t]).ev() == evs[t]
                    && out_edges@[t].inv(),
            pot_work(work@) + pot_evs(evs.take(out_edges@.len() as int)) <= pot_work(old(work)@)
                + pot_evs(evs),
            forall|g: Guid|
                #[trigger] work_has_node(old(work)@, g) ==> work_has_node(work@, g),
            forall|g: Guid|
                #[trigger] work_has_edge(old(work)@, g) ==> work_has_edge(work@, g),
            evs.len() == 0 ==> work@ == old(work)@,
            work@.len() >= old(work)@.len(),
            forall|i: int| 0 <= i < old(work)@.len() ==> #[trigger] work@[i] == old(work)@[i],
            forall|i: int|
                0 <= i < work@.len() - old(work)@.len() ==> !((#[trigger] work@[old(work)@.len()
                    + i]) is Path),
            forall|t: int|
                out_edges@.len() <= t < evs.len() ==> work_has_edge(work@, (#[trigger] evs[t]).guid)
                    && work_has_node(work@, evs[t].target.guid),
        decreases out_edges@.len(),
    {
        let ghost l = out_edges@.len() as int;
        let ed = out_edges.pop().unwrap();
        let ghost ev = ed.ev();
        proof {
            assert(ev == evs[l - 1]);
            assert(crate::model::node::wf_edge(ev));
            assert(evs.take(l).drop_last() =~= evs.take(l - 1));
            assert(evs.take(l).last() == ev);
        }
        let tgt = ed.get_target();
        proof {
            lemma_work_grow(work@, Value::Node(tgt));
            lemma_pot_push(work@, Value::Node(tgt));
        }
        work.push(Value::Node(tgt));
        proof {
            lemma_work_grow(work@, Value::Edge(ed));
            lemma_pot_push(work@, Value::Edge(ed));
        }
        work.push(Value::Edge(ed));
        proof {
            assert(work_has_edge(work@, ev.guid));
            assert(work_has_node(work@, ev.target.guid));
        }
    }
    proof {
        assert(evs.take(0) =~= Seq::<crate::model::node::EdgeView>::empty());
    }
}



/// Folding one more creation into the running created bucket keeps it
/// tracking the collection growth, and the fold fits the counter ranges.
proof fn lemma_fold_created(
    a: Option<DataSetStatsV>,
    b: DataSetStatsV,
    nd: int,
    ed: int,
    bn: int,
    be: int,
)
    requires
        (match a {
            None => nd == 0 && ed == 0,
            Some(v) => v.nodes.total == nd && v.edges.total == ed && 0 <= nd && 0 <= ed
                && map_bounded(v.nodes.typed, nd) && map_bounded(v.nodes.labels, nd)
                && v.nodes.properties == Map::<Seq<char>, int>::empty() && v.edges.typed == Map::<
                Seq<char>,
                int,
            >::empty() && v.edges.properties == Map::<Seq<char>, int>::empty(),
        }),
        b.nodes.total == bn,
        b.edges.total == be,
        0 <= bn <= 1,
        0 <= be <= 1,
        bn + be == 1,
        map_bounded(b.nodes.typed, bn),
        map_bounded(b.nodes.labels, bn),
        b.nodes.properties == Map::<Seq<char>, int>::empty(),
        b.edges.typed == Map::<Seq<char>, int>::empty(),
        b.edges.properties == Map::<Seq<char>, int>::empty(),
        0 <= nd <= usize::MAX,
        0 <= ed <= usize::MAX,
    ensures
        crate::stats::CrudResultStats::<DataSetStats>::opt_fold_ok(a, b),
        (match crate::stats::CrudResultStats::<DataSetStats>::opt_fold(a, b) {
            None => false,
            Some(v) => v.nodes.total == nd + bn && v.edges.total == ed + be && map_bounded(
                v.nodes.typed,
                nd + bn,
            ) && map_bounded(v.nodes.labels, nd + bn) && v.nodes.properties == Map::<
                Seq<char>,
                int,
            >::empty() && v.edges.typed == Map::<Seq<char>, int>::empty() && v.edges.properties
                == Map::<Seq<char>, int>::empty(),
        }),
{
    match a {
        None => {},
        Some(v) => {
            assert(<DataSetStats as crate::stats::Stats>::can_add(v, b)) by {
                assert(<StatMap as crate::stats::Stats>::can_add(v.nodes.typed, b.nodes.typed));
                assert(<StatMap as crate::stats::Stats>::can_add(v.nodes.labels, b.nodes.labels));
                assert(<StatMap as crate::stats::Stats>::can_add(
                    v.nodes.properties,
                    b.nodes.properties,
                ));
                assert(<StatMap as crate::stats::Stats>::can_add(v.edges.typed, b.edges.typed));
                assert(<StatMap as crate::stats::Stats>::can_add(
                    v.edges.properties,
                    b.edges.properties,
                ));
            }
            let folded = <DataSetStats as crate::stats::Stats>::vadd(v, b);
            assert(map_bounded(folded.nodes.typed, nd + bn)) by {
                assert forall|k: Seq<char>|
                    #[trigger] crate::stats::map_add(v.nodes.typed, b.nodes.typed).contains_key(
                    k) implies 0 <= crate::stats::map_add(v.nodes.typed, b.nodes.typed)[k] <= nd
                    + bn by {}
            }
            assert(map_bounded(folded.nodes.labels, nd + bn)) by {
                assert forall|k: Seq<char>|
                    #[trigger] crate::stats::map_add(v.nodes.labels, b.nodes.labels).contains_key(
                    k) implies 0 <= crate::stats::map_add(v.nodes.labels, b.nodes.labels)[k] <= nd
                    + bn by {}
            }
            assert(folded.nodes.properties =~= Map::<Seq<char>, int>::empty());
            assert(folded.edges.typed =~= Map::<Seq<char>, int>::empty());
            assert(folded.edges.properties =~= Map::<Seq<char>, int>::empty());
        },
    }
}

/// One engine step on a popped node value: store it when new, then queue
/// its indexed edges and their targets.
#[verifier::loop_isolation(false)]
#[verifier::rlimit(100)]
#[verifier::spinoff_prover]
fn engine_node_step<G: Graph>(
    ds: &mut DataSet<G>,
    work: &mut Vec<Value<G>>,
    stats: &mut CrudResultStats<DataSetStats>,
    node: Node<G>,
    Ghost(init): Ghost<DataSet<G>>,
    Ghost(top): Ghost<Value<G>>,
    Ghost(w_pre): Ghost<Seq<Value<G>>>,
)
    requires
        engine_inv(*old(ds), w_pre, old(stats).csv(), init, top),
        w_pre.len() > 0,
        w_pre.last() == Value::Node(node),
        old(work)@ == w_pre.drop_last(),
    ensures
        engine_inv(*final(ds), final(work)@, final(stats).csv(), init, top),
        pot_work(final(work)@) < pot_work(w_pre),
{
    let ghost ds_pre = *ds;
    let ghost w_pop = work@;
    proof {
        lemma_work_shrunk(w_pre, w_pop);
        lemma_pot_pop(w_pre);
        lemma_pot_value_pos(w_pre.last());
        assert(Value::Node(node) == w_pre[w_pre.len() - 1]);
        assert forall|i: int| 0 <= i < w_pop.len() implies #[trigger] w_pop[i] == w_pre[i] by {}
        assert(node.inv() && crate::model::node::wf_node(node.nv())) by {
            assert(w_pre[w_pre.len() - 1].inv());
        }
        if w_pre =~= seq![top] {
            assert(Value::Node(node) == top);
            assert(w_pop =~= Seq::<Value<G>>::empty());
        }
    }
    let outcome = ds.nodes.insert(&node);
    match outcome {
        Err(_e) => {
            proof {
                assert forall|g: Guid| #[trigger] work_has_node(w_pre, g) implies work_has_node(
                    w_pop,
                    g,
                ) || ds.nodes.has_node(g) by {}
                assert forall|g: Guid| #[trigger] work_has_edge(w_pre, g) implies work_has_edge(
                    w_pop,
                    g,
                ) || ds.edges.has_edge(g) by {}
                lemma_closures_carry(ds_pre, *ds, w_pre, w_pop);
                match top {
                    Value::Path(p) => {
                        if !(w_pre =~= seq![top]) {
                            lemma_covered_carry(ds_pre, *ds, w_pre, w_pop, p.pv());
                        }
                    },
                    Value::Edge(e) => {
                        if !init.edges.has_edge(e.ev().guid) && e.ev().source.edges.len() == 0
                            && e.ev().target.edges.len() == 0 && !(w_pre =~= seq![top])
                            && w_pre.len() == 1 {
                            assert(node.nv() == *e.ev().target);
                            assert(w_pop =~= Seq::<Value<G>>::empty());
                            assert forall|h: Guid|
                                #[trigger] ds.nodes.has_node(h) == (init.nodes.has_node(h) || h
                                    == e.ev().source.guid || h == e.ev().target.guid) by {}
                            assert(edge_insert_delta(init, *ds, e.ev()));
                        }
                    },
                    _ => {},
                }
            }
        },
        Ok(cs_n) => {
            let _bound_n = ds.nodes.nodes.len();
            let created_opt = cs_n.created();
            match created_opt {
                Some(ns) => {
                    proof {
                        crate::store::nodeset::lemma_label_units_domain(node.nv().labels);
                        assert(map_bounded(crate::stats::msingle(node.nv().tlabel, 1), 1)) by {
                            assert forall|k: Seq<char>|
                                #[trigger] crate::stats::msingle(
                                node.nv().tlabel, 1).contains_key(k) implies 0
                                <= crate::stats::msingle(node.nv().tlabel, 1)[k] <= 1 by {}
                        }
                        lemma_fold_created(
                            stats.csv().created,
                            (DataSetStatsV {
                                nodes: ns.sv(),
                                edges: <EdgeStats as crate::stats::Stats>::vzero(),
                            }),
                            ds.nodes.nodes.sv().len() - 1 - init.nodes.nodes.sv().len(),
                            ds.edges.edges@.len() - init.edges.edges@.len(),
                            1,
                            0,
                        );
                    }
                    stats.add_created(DataSetStats::from_nodes(ns));
                },
                None => {
                    proof {
                        assert(false);
                    }
                },
            }
            let ghost w_mid = work@;
            push_index_edges(work, &node);
            proof {
                assert forall|g: Guid| #[trigger] work_has_node(w_pre, g) implies work_has_node(
                    work@,
                    g,
                ) || ds.nodes.has_node(g) by {
                    if work_has_node(w_pop, g) {
                        assert(work_has_node(work@, g));
                    }
                }
                assert forall|g: Guid| #[trigger] work_has_edge(w_pre, g) implies work_has_edge(
                    work@,
                    g,
                ) || ds.edges.has_edge(g) by {
                    if work_has_edge(w_pop, g) {
                        assert(work_has_edge(work@, g));
                    }
                }
                lemma_closures_node_insert(ds_pre, *ds, w_pre, work@, node.nv());
                assert forall|i: int|
                    0 <= i < work@.len() implies (((#[trigger] work@[i]) is Path) ==> work@[i]
                    == top) by {
                    if i < w_mid.len() {
                        assert(work@[i] == w_mid[i]);
                        assert(w_mid[i] == w_pre[i]);
                    } else {
                        assert(!(work@[w_mid.len() + (i - w_mid.len())] is Path));
                    }
                }
                match top {
                    Value::Node(n) => {
                        if !init.nodes.has_node(n.nv().guid) && n.nv().edges.len() == 0 && w_pre
                            =~= seq![top] {
                            assert(node == n);
                            assert(work@ =~= Seq::<Value<G>>::empty());
                            assert(NodeSet::node_delta(init.nodes, ds.nodes, n.nv()));
                        }
                    },
                    Value::Edge(e) => {
                        if !init.edges.has_edge(e.ev().guid) && e.ev().source.edges.len() == 0
                            && e.ev().target.edges.len() == 0 && !(w_pre =~= seq![top])
                            && w_pre.len() == 1 {
                            assert(node.nv() == *e.ev().target);
                            assert(node.nv().edges.len() == 0);
                            assert(work@ =~= Seq::<Value<G>>::empty());
                            assert(edge_insert_delta(init, *ds, e.ev()));
                        }
                    },
                    Value::Path(p) => {
                        lemma_covered_carry(ds_pre, *ds, w_pre, work@, p.pv());
                    },
                }
            }
        },
    }
}

/// One engine step on a popped edge value: when new, materialize a missing
/// source, attach the edge to its source's index, store it, and queue its
/// target.
#[verifier::loop_isolation(false)]
#[verifier::rlimit(100)]
#[verifier::spinoff_prover]
fn engine_edge_step<G: Graph>(
    ds: &mut DataSet<G>,
    work: &mut Vec<Value<G>>,
    stats: &mut CrudResultStats<DataSetStats>,
    edge: crate::model::edge::Edge<G>,
    Ghost(init): Ghost<DataSet<G>>,
    Ghost(top): Ghost<Value<G>>,
    Ghost(w_pre): Ghost<Seq<Value<G>>>,
)
    requires
        engine_inv(*old(ds), w_pre, old(stats).csv(), init, top),
        w_pre.len() > 0,
        w_pre.last() == Value::Edge(edge),
        old(work)@ == w_pre.drop_last(),
    ensures
        engine_inv(*final(ds), final(work)@, final(stats).csv(), init, top),
        pot_work(final(work)@) < pot_work(w_pre),
{
    let ghost ds_pre = *ds;
    let ghost w_pop = work@;
    proof {
        lemma_work_shrunk(w_pre, w_pop);
        lemma_pot_pop(w_pre);
        lemma_pot_value_pos(w_pre.last());
        assert(Value::Edge(edge) == w_pre[w_pre.len() - 1]);
        assert forall|i: int| 0 <= i < w_pop.len() implies #[trigger] w_pop[i] == w_pre[i] by {}
        assert(edge.inv() && crate::model::node::wf_edge(edge.ev())) by {
            assert(w_pre[w_pre.len() - 1].inv());
        }
        if w_pre =~= seq![top] {
            assert(Value::Edge(edge) == top);
            assert(w_pop =~= Seq::<Value<G>>::empty());
        }
    }
    let eg = edge.get_guid();
    if ds.edges.contains(&eg) {
        proof {
            assert forall|g: Guid| #[trigger] work_has_node(w_pre, g) implies work_has_node(
                w_pop,
                g,
            ) || ds.nodes.has_node(g) by {}
            assert forall|g: Guid| #[trigger] work_has_edge(w_pre, g) implies work_has_edge(
                w_pop,
                g,
            ) || ds.edges.has_edge(g) by {}
            lemma_closures_carry(ds_pre, *ds, w_pre, w_pop);
            match top {
                Value::Path(p) => {
                    if !(w_pre =~= seq![top]) {
                        lemma_covered_carry(ds_pre, *ds, w_pre, w_pop, p.pv());
                    }
                },
                _ => {},
            }
        }
    } else {
        let src_guid = edge.source.get_guid();
        if !ds.nodes.contains(&src_guid) {
            // the source is not stored yet: materialize it first, then
            // attach the edge to it
            let src = edge.get_source();
            let outcome = ds.nodes.insert(&src);
            match outcome {
                Ok(cs_n) => {
                    let _bound_n = ds.nodes.nodes.len();
                    let created_opt = cs_n.created();
                    match created_opt {
                        Some(ns) => {
                            proof {
                                crate::store::nodeset::lemma_label_units_domain(src.nv().labels);
                                assert(map_bounded(
                                    crate::stats::msingle(src.nv().tlabel, 1),
                                    1,
                                )) by {
                                    assert forall|k: Seq<char>|
                                        #[trigger] crate::stats::msingle(
                                        src.nv().tlabel, 1).contains_key(k) implies 0
                                        <= crate::stats::msingle(src.nv().tlabel, 1)[k] <= 1 by {}
                                }
                                lemma_fold_created(
                                    stats.csv().created,
                                    (DataSetStatsV {
                                        nodes: ns.sv(),
                                        edges: <EdgeStats as crate::stats::Stats>::vzero(),
                                    }),
                                    ds.nodes.nodes.sv().len() - 1 - init.nodes.nodes.sv().len(),
                                    ds.edges.edges@.len() - init.edges.edges@.len(),
                                    1,
                                    0,
                                );
                            }
                            stats.add_created(DataSetStats::from_nodes(ns));
                        },
                        None => {
                            proof {
                                assert(false);
                            }
                        },
                    }
                },
                Err(_e) => {
                    proof {
                        assert(false);
                    }
                },
            }
            let ghost w_mid0 = work@;
            push_index_edges(work, &src);
            proof {
                assert forall|i: int|
                    0 <= i < work@.len() implies (((#[trigger] work@[i]) is Path) ==> work@[i]
                    == top) by {
                    if i < w_mid0.len() {
                        assert(work@[i] == w_mid0[i]);
                        assert(w_mid0[i] == w_pre[i]);
                    } else {
                        assert(!(work@[w_mid0.len() + (i - w_mid0.len())] is Path));
                    }
                }
            }
        }
        proof {
            assert(ds.nodes.has_node(edge.ev().source.guid));
        }
        let ghost ds_mid = *ds;
        let ghost w_a = work@;
        let attach_copy = edge.dup();
        let _attached = ds.nodes.attach_edge(edge.source.get_guid(), attach_copy);
        let ghost ds_att = *ds;
        let inserted = ds.edges.insert(&edge);
        match inserted {
            Ok(es) => {
                let _bound_e = ds.edges.edges.len();
                proof {
                    crate::model::node::lemma_epairs_vv(ds.edges.edges@);
                    crate::model::node::lemma_epairs_vv(ds_att.edges.edges@);
                    assert(ds.edges.edges@.len() == ds_att.edges.edges@.len() + 1);
                    assert(map_bounded(Map::<Seq<char>, int>::empty(), 0)) by {}
                    lemma_fold_created(
                        stats.csv().created,
                        (DataSetStatsV {
                            nodes: <NodeStats as crate::stats::Stats>::vzero(),
                            edges: es.sv(),
                        }),
                        ds.nodes.nodes.sv().len() - init.nodes.nodes.sv().len(),
                        ds.edges.edges@.len() - 1 - init.edges.edges@.len(),
                        0,
                        1,
                    );
                }
                stats.add_created(DataSetStats::from_edges(es));
            },
            Err(_e) => {
                proof {
                    assert(false);
                }
            },
        }
        let tgt = edge.get_target();
        proof {
            lemma_work_grow(work@, Value::Node(tgt));
            lemma_pot_push(work@, Value::Node(tgt));
        }
        work.push(Value::Node(tgt));
        proof {
            assert(work_has_node(work@, edge.ev().target.guid));
            let ghost ev = edge.ev();
            let ghost src_g = ev.source.guid;
            assert forall|g: Guid| #[trigger] work_has_node(w_pre, g) implies work_has_node(
                work@,
                g,
            ) || ds.nodes.has_node(g) by {
                if work_has_node(w_pop, g) {
                    assert(work_has_node(w_a, g));
                    assert(work_has_node(work@, g));
                }
            }
            assert forall|g: Guid| #[trigger] work_has_edge(w_pre, g) implies work_has_edge(
                work@,
                g,
            ) || ds.edges.has_edge(g) by {
                if work_has_edge(w_pop, g) {
                    assert(work_has_edge(w_a, g));
                    assert(work_has_edge(work@, g));
                }
            }
            assert forall|h: Guid|
                h != src_g && ds_pre.nodes.has_node(h) implies #[trigger] ds.nodes.node_at(h)
                == ds_pre.nodes.node_at(h) by {
                assert(ds_mid.nodes.node_at(h) == ds_pre.nodes.node_at(h));
            }
            assert forall|h: Guid|
                #[trigger] ds.nodes.has_node(h) implies ds_pre.nodes.has_node(h) || h
                == src_g by {
                assert(ds_mid.nodes.has_node(h) == ds.nodes.has_node(h));
            }
            assert forall|g: Guid|
                g != ev.guid && ds_pre.edges.has_edge(g) implies #[trigger] pairs_get(
                ds.edges.edges@,
                g,
            ) == pairs_get(ds_pre.edges.edges@, g) by {
                assert(ds_att.edges == ds_pre.edges);
            }
            assert(ds.nodes.node_at(src_g) == (if _attached is Ok {
                crate::model::node::NodeView {
                    edges: ds_mid.nodes.node_at(src_g).edges.push(ev),
                    ..ds_mid.nodes.node_at(src_g)
                }
            } else {
                ds_mid.nodes.node_at(src_g)
            }));
            assert forall|i: int|
                0 <= i < ds.nodes.node_at(src_g).edges.len() implies (ds.edges.has_edge(
                (#[trigger] ds.nodes.node_at(src_g).edges[i]).guid,
            ) || work_has_edge(work@, ds.nodes.node_at(src_g).edges[i].guid)) && (
            ds.nodes.has_node(ds.nodes.node_at(src_g).edges[i].target.guid) || work_has_node(
                work@,
                ds.nodes.node_at(src_g).edges[i].target.guid,
            )) by {
                let mid_at = ds_mid.nodes.node_at(src_g);
                if i < mid_at.edges.len() {
                    assert(ds.nodes.node_at(src_g).edges[i] == mid_at.edges[i]);
                    if ds_pre.nodes.has_node(src_g) {
                        assert(mid_at == ds_pre.nodes.node_at(src_g));
                        let eg = ds_pre.nodes.node_at(src_g).edges[i].guid;
                        let tg = ds_pre.nodes.node_at(src_g).edges[i].target.guid;
                        assert((ds_pre.edges.has_edge(eg) || work_has_edge(w_pre, eg)) && (
                        ds_pre.nodes.has_node(tg) || work_has_node(w_pre, tg)));
                        if work_has_edge(w_pre, eg) {
                            assert(work_has_edge(work@, eg) || ds.edges.has_edge(eg));
                        }
                        if work_has_node(w_pre, tg) {
                            assert(work_has_node(work@, tg) || ds.nodes.has_node(tg));
                        }
                    } else {
                        assert(mid_at == (crate::model::node::NodeView {
                            bound: true,
                            ..*ev.source
                        }));
                        assert(mid_at.edges[i] == ev.source.edges[i]);
                        assert(work_has_edge(w_a, ev.source.edges[i].guid) && work_has_node(
                            w_a,
                            ev.source.edges[i].target.guid,
                        ));
                        assert(work_has_edge(work@, ev.source.edges[i].guid) && work_has_node(
                            work@,
                            ev.source.edges[i].target.guid,
                        ));
                    }
                } else {
                    assert(_attached is Ok);
                    assert(ds.nodes.node_at(src_g).edges[i] == ev);
                }
            }
            lemma_closures_edge_branch(ds_pre, *ds, w_pre, work@, ev);
            assert forall|i: int|
                0 <= i < work@.len() implies (((#[trigger] work@[i]) is Path) ==> work@[i]
                == top) by {
                if i < work@.len() - 1 {
                    assert(work@[i] == w_a[i]);
                    if i < w_pop.len() {
                        assert(w_a[i] == w_pop[i]);
                    } else {
                        assert(!(w_a[w_pop.len() + (i - w_pop.len())] is Path));
                    }
                }
            }
            match top {
                Value::Edge(e) => {
                    if !init.edges.has_edge(e.ev().guid) && e.ev().source.edges.len() == 0
                        && e.ev().target.edges.len() == 0 && w_pre =~= seq![top] {
                        assert(edge == e);
                        assert(w_a =~= Seq::<Value<G>>::empty());
                        assert(work@.len() == 1);
                        assert(work@[0] matches Value::Node(n2) && n2.nv() == *e.ev().target);
                        assert(edge_store_delta(init, *ds, e.ev()));
                        assert forall|h: Guid|
                            #[trigger] ds.nodes.has_node(h) == (init.nodes.has_node(h) || h
                                == e.ev().source.guid) by {}
                    }
                },
                Value::Path(p) => {
                    lemma_covered_carry(ds_pre, *ds, w_pre, work@, p.pv());
                },
                _ => {},
            }
        }
    }
}

/// One engine step on a popped path value: queue every step individually.
#[verifier::loop_isolation(false)]
#[verifier::rlimit(100)]
#[verifier::spinoff_prover]
fn engine_path_step<G: Graph>(
    ds: &mut DataSet<G>,
    work: &mut Vec<Value<G>>,
    path: crate::model::path::Path<G>,
    Ghost(cs): Ghost<crate::stats::CrudV<DataSetStatsV>>,
    Ghost(init): Ghost<DataSet<G>>,
    Ghost(top): Ghost<Value<G>>,
    Ghost(w_pre): Ghost<Seq<Value<G>>>,
)
    requires
        engine_inv(*old(ds), w_pre, cs, init, top),
        w_pre.len() > 0,
        w_pre.last() == Value::Path(path),
        old(work)@ == w_pre.drop_last(),
    ensures
        engine_inv(*final(ds), final(work)@, cs, init, top),
        pot_work(final(work)@) < pot_work(w_pre),
{
    let ghost w_pop = work@;
    proof {
        lemma_work_shrunk(w_pre, w_pop);
        lemma_pot_pop(w_pre);
        lemma_pot_value_pos(w_pre.last());
        assert(Value::Path(path) == w_pre[w_pre.len() - 1]);
        assert forall|i: int| 0 <= i < w_pop.len() implies #[trigger] w_pop[i] == w_pre[i] by {}
        assert(Value::Path(path) == top);
        assert(path.inv()) by {
            assert(w_pre[w_pre.len() - 1].inv());
        }
        crate::model::path::lemma_steps_vv(path.steps@);
        assert forall|g: Guid| #[trigger] work_has_node(w_pre, g) implies work_has_node(
            w_pop,
            g,
        ) || ds.nodes.has_node(g) by {}
        assert forall|g: Guid| #[trigger] work_has_edge(w_pre, g) implies work_has_edge(
            w_pop,
            g,
        ) || ds.edges.has_edge(g) by {}
        lemma_closures_carry(*ds, *ds, w_pre, w_pop);
    }
    let ghost pv0 = path.pv();
    let mut steps = path.steps;
    proof {
        assert(steps@.len() == pv0.len());
        assert(pv0.take(pv0.len() as int) =~= pv0);
        assert(crate::model::path::wf_steps(pv0));
        assert forall|t: int|
            0 <= t < steps@.len() implies (#[trigger] steps@[t]).pv() == pv0[t] && steps@[t].inv()
            && step_pushable(steps@[t]) by {
            match pv0[0] {
                crate::model::path::StepV::Nil => {
                    assert(pv0.len() == 1);
                    assert(t == 0);
                },
                crate::model::path::StepV::Node(nv) => {
                    assert(pv0.len() == 1);
                    assert(t == 0);
                    assert(crate::model::node::wf_node(nv));
                },
                crate::model::path::StepV::Edge(_e0) => {
                    assert(pv0[t] is Edge && crate::model::node::wf_edge(pv0[t]->Edge_0));
                },
            }
        }
    }
    while steps.len() > 0
        invariant
            ds.closure_weak(work@),
            ds.index_closure_weak(work@),
            work_ok(work@),
            steps@.len() <= pv0.len(),
            forall|t: int|
                0 <= t < steps@.len() ==> (#[trigger] steps@[t]).pv() == pv0[t]
                    && steps@[t].inv() && step_pushable(steps@[t]),
            pot_work(work@) + pot_steps(pv0.take(steps@.len() as int)) <= pot_work(w_pre) - 1,
            forall|i: int|
                0 <= i < work@.len() ==> (((#[trigger] work@[i]) is Path) ==> work@[i] == top),
            forall|t: int|
                steps@.len() <= t < pv0.len() ==> step_covered(*ds, work@, #[trigger] pv0[t]),
        decreases steps@.len(),
    {
        let ghost l = steps@.len() as int;
        let step = steps.pop().unwrap();
        proof {
            assert(step.pv() == pv0[l - 1]);
            assert(pv0.take(l).drop_last() =~= pv0.take(l - 1));
            assert(pv0.take(l).last() == pv0[l - 1]);
        }
        match step {
            crate::model::path::PathStep::Nil => {},
            crate::model::path::PathStep::Node(n) => {
                let ghost nv2 = n.nv();
                let ghost w_in = work@;
                proof {
                    lemma_work_grow(work@, Value::Node(n));
                    lemma_pot_push(work@, Value::Node(n));
                    lemma_closures_carry(*ds, *ds, work@, work@.push(Value::Node(n)));
                }
                work.push(Value::Node(n));
                proof {
                    assert forall|i: int|
                        0 <= i < work@.len() implies (((#[trigger] work@[i]) is Path)
                        ==> work@[i] == top) by {
                        if i < w_in.len() {
                            assert(work@[i] == w_in[i]);
                        }
                    }
                    assert forall|t: int|
                        steps@.len() <= t < pv0.len() implies step_covered(
                        *ds,
                        work@,
                        #[trigger] pv0[t],
                    ) by {
                        if t == l - 1 {
                            assert(pv0[t] == crate::model::path::StepV::Node(nv2));
                            assert(work_has_node(work@, nv2.guid));
                        } else {
                            assert(step_covered(*ds, w_in, pv0[t]));
                            match pv0[t] {
                                crate::model::path::StepV::Nil => {},
                                crate::model::path::StepV::Node(m) => {
                                    if work_has_node(w_in, m.guid) {
                                        assert(work_has_node(work@, m.guid));
                                    }
                                },
                                crate::model::path::StepV::Edge(ev3) => {
                                    if work_has_edge(w_in, ev3.guid) {
                                        assert(work_has_edge(work@, ev3.guid));
                                    }
                                },
                            }
                        }
                    }
                }
            },
            crate::model::path::PathStep::Edge(e) => {
                let ghost ev2 = e.ev();
                let ghost w_in = work@;
                proof {
                    lemma_work_grow(work@, Value::Edge(e));
                    lemma_pot_push(work@, Value::Edge(e));
                    lemma_closures_carry(*ds, *ds, work@, work@.push(Value::Edge(e)));
                }
                work.push(Value::Edge(e));
                proof {
                    assert forall|i: int|
                        0 <= i < work@.len() implies (((#[trigger] work@[i]) is Path)
                        ==> work@[i] == top) by {
                        if i < w_in.len() {
                            assert(work@[i] == w_in[i]);
                        }
                    }
                    assert forall|t: int|
                        steps@.len() <= t < pv0.len() implies step_covered(
                        *ds,
                        work@,
                        #[trigger] pv0[t],
                    ) by {
                        if t == l - 1 {
                            assert(pv0[t] == crate::model::path::StepV::Edge(ev2));
                            assert(work_has_edge(work@, ev2.guid));
                        } else {
                            assert(step_covered(*ds, w_in, pv0[t]));
                            match pv0[t] {
                                crate::model::path::StepV::Nil => {},
                                crate::model::path::StepV::Node(m) => {
                                    if work_has_node(w_in, m.guid) {
                                        assert(work_has_node(work@, m.guid));
                                    }
                                },
                                crate::model::path::StepV::Edge(ev3) => {
                                    if work_has_edge(w_in, ev3.guid) {
                                        assert(work_has_edge(work@, ev3.guid));
                                    }
                                },
                            }
                        }
                    }
                }
            },
        }
    }
    proof {
        assert(pv0.take(0) =~= Seq::<crate::model::path::StepV>::empty());
        assert(path_covered(*ds, work@, pv0));
    }
}

impl<G: Graph> DataSet<G> {
    /// Add a value and everything it transitively references to the data
    /// set.
    ///
    /// A worklist drives the insertion without recursion.  Re-inserting an
    /// already-present node or edge is not an error: the set is left
    /// untouched.  An edge whose source is not yet stored first
    /// materializes the source; an edge's target is always queued.  A path
    /// is decomposed into its steps, each queued individually.  The
    /// returned counters report what this call created, not the live
    /// totals.
    #[verifier::loop_isolation(false)]
    #[verifier::rlimit(100)]
    #[verifier::spinoff_prover]
    pub fn insert(&mut self, value: Value<G>) -> (r: GraphtResult<
        CrudResultStats<DataSetStats>,
    >)
        requires
            old(self).wf(),
            value.inv(),
        ensures
            final(self).wf(),
            match r {
                Ok(cs) => {
                    &&& created_tracks(
                        cs.csv(),
                        final(self).nodes.nodes.sv().len() - old(self).nodes.nodes.sv().len(),
                        final(self).edges.edges@.len() - old(self).edges.edges@.len(),
                    )
                    &&& (forall|g: Guid|
                        #[trigger] old(self).nodes.has_node(g) ==> final(self).nodes.has_node(g))
                    &&& (forall|g: Guid|
                        #[trigger] old(self).edges.has_edge(g) ==> final(self).edges.has_edge(g))
                    &&& (value matches Value::Node(n) ==> final(self).nodes.has_node(n.nv().guid))
                    &&& (value matches Value::Node(n) && old(self).nodes.has_node(n.nv().guid)
                        ==> *final(self) == *old(self))
                    &&& (value matches Value::Node(n) ==> ((!old(self).nodes.has_node(
                        n.nv().guid,
                    ) && n.nv().edges.len() == 0) ==> NodeSet::node_delta(
                        old(self).nodes,
                        final(self).nodes,
                        n.nv(),
                    ) && final(self).edges == old(self).edges && cs.csv().created == Some(
                        node_created(n.nv()),
                    )))
                    &&& (value matches Value::Edge(e) ==> final(self).edges.has_edge(
                        e.ev().guid,
                    ))
                    &&& (value matches Value::Edge(e) && old(self).edges.has_edge(e.ev().guid)
                        ==> *final(self) == *old(self))
                    &&& (value matches Value::Edge(e) ==> ((!old(self).edges.has_edge(
                        e.ev().guid,
                    ) && e.ev().source.edges.len() == 0 && e.ev().target.edges.len() == 0)
                        ==> edge_insert_delta(*old(self), *final(self), e.ev())))
                    &&& (value matches Value::Path(p) ==> (forall|i: int|
                        0 <= i < p.pv().len() ==> step_covered(
                            *final(self),
                            Seq::<Value<G>>::empty(),
                            #[trigger] p.pv()[i],
                        )))
                },
                Err(_e) => false,
            },
    {
        let ghost init = *old(self);
        let ghost top = value;
        let mut stats = CrudResultStats::<DataSetStats>::new();
        let mut work: Vec<Value<G>> = Vec::new();
        work.push(value);
        let _bound_n0 = self.nodes.nodes.len();
        let _bound_e0 = self.edges.edges.len();
        proof {
            assert(work@[0] == top);
            assert(work@ =~= seq![top]);
            match top {
                Value::Node(n) => {
                    assert(work_has_node(work@, n.nv().guid));
                },
                Value::Edge(e) => {
                    assert(work_has_edge(work@, e.ev().guid));
                },
                Value::Path(_p) => {},
            }
            assert(engine_inv(*self, work@, stats.csv(), init, top));
        }
        while work.len() > 0
            invariant
                engine_inv(*self, work@, stats.csv(), init, top),
            decreases pot_work(work@),
        {
            let ghost w_pre = work@;
            let item = work.pop().unwrap();
            proof {
                assert(item == w_pre.last());
            }
            match item {
                Value::Node(node) => {
                    engine_node_step(
                        self,
                        &mut work,
                        &mut stats,
                        node,
                        Ghost(init),
                        Ghost(top),
                        Ghost(w_pre),
                    );
                },
                Value::Edge(edge) => {
                    engine_edge_step(
                        self,
                        &mut work,
                        &mut stats,
                        edge,
                        Ghost(init),
                        Ghost(top),
                        Ghost(w_pre),
                    );
                },
                Value::Path(path) => {
                    engine_path_step(
                        self,
                        &mut work,
                        path,
                        Ghost(stats.csv()),
                        Ghost(init),
                        Ghost(top),
                        Ghost(w_pre),
                    );
                },
            }
        }
        proof {
            assert(work@ =~= Seq::<Value<G>>::empty());
            assert forall|g: Guid| #[trigger] self.edges.has_edge(g) implies self.nodes.has_node(
                pairs_get(self.edges.edges@, g).source.guid,
            ) && self.nodes.has_node(pairs_get(self.edges.edges@, g).target.guid) by {
                assert(!work_has_node(work@, pairs_get(self.edges.edges@, g).target.guid));
            }
            assert(self.index_closed()) by {
                assert forall|h: Guid, i: int|
                    self.nodes.has_node(h) && 0 <= i < self.nodes.node_at(h).edges.len() implies
                    self.edges.has_edge(
                        (#[trigger] self.nodes.node_at(h).edges[i]).guid,
                    ) && self.nodes.has_node(self.nodes.node_at(h).edges[i].target.guid) by {
                    assert(!work_has_edge(work@, self.nodes.node_at(h).edges[i].guid));
                    assert(!work_has_node(work@, self.nodes.node_at(h).edges[i].target.guid));
                }
            }
            match top {
                Value::Node(n) => {
                    assert(!work_has_node(work@, n.nv().guid));
                },
                Value::Edge(e) => {
                    assert(!work_has_edge(work@, e.ev().guid));
                },
                Value::Path(p) => {
                    assert(!(work@ =~= seq![top]));
                    assert forall|i: int| 0 <= i < p.pv().len() implies step_covered(
                        *self,
                        Seq::<Value<G>>::empty(),
                        #[trigger] p.pv()[i],
                    ) by {
                        assert(step_covered(*self, work@, p.pv()[i]));
                    }
                },
            }
        }
        Ok(stats)
    }
}

/// A step that, once pushed on the worklist, is a consistent item.
pub open spec fn step_pushable<G: Graph>(s: crate::model::path::PathStep<G>) -> bool {
    match s {
        crate::model::path::PathStep::Nil => true,
        crate::model::path::PathStep::Node(n) => n.inv() && crate::model::node::wf_node(n.nv()),
        crate::model::path::PathStep::Edge(e) => e.inv() && crate::model::node::wf_edge(e.ev()),
    }
}

} // verus!
