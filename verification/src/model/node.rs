//! A record in a graph.
//!
//! A node's identity equals its payload's content key, so re-insertion is
//! naturally idempotent at the identity level.  A node owns its payload, a
//! set of string labels (the type label is always a member), and an index of
//! its outgoing edges.  A handle returned to a caller is an independent
//! copy: mutating it never reaches the canonical copy a data set stores.

use vstd::prelude::*;

use crate::errors::{GraphtError, GraphtResult, Kind};
use crate::model::edge::Edge;
use crate::model::entity::GraphtEntity;
use crate::model::graph::Graph;
use crate::model::guid::{spec_guid3, Guid};
use crate::store::edgeset::EdgeSet;

verus! {

/// The mathematical value of a node.
pub ghost struct NodeView {
    /// The node's identity, equal to the payload key.
    pub guid: Guid,
    /// Whether the value is a canonical copy owned by a data set.
    pub bound: bool,
    /// The payload's content key.
    pub key: Guid,
    /// The payload's type label.
    pub tlabel: Seq<char>,
    /// The labels, the type label among them.
    pub labels: Seq<Seq<char>>,
    /// The outgoing edges.
    pub edges: Seq<EdgeView>,
}

/// The mathematical value of an edge.
pub ghost struct EdgeView {
    /// The edge's identity, derived from endpoints and payload key.
    pub guid: Guid,
    /// The payload's content key.
    pub key: Guid,
    /// The payload's type label.
    pub tlabel: Seq<char>,
    /// A snapshot of the source node.
    pub source: Box<NodeView>,
    /// A snapshot of the target node.
    pub target: Box<NodeView>,
}

/// A structural size measure of a node, used to justify recursion.
pub open spec fn node_h<G: Graph>(n: &Node<G>) -> nat
    decreases n,
{
    2 + epairs_h(n.edges.edges@)
}

/// The combined size of an edge table's entries.
pub open spec fn epairs_h<G: Graph>(s: Seq<(Guid, Edge<G>)>) -> nat
    decreases s,
{
    if s.len() == 0 {
        0
    } else {
        1 + epairs_h(s.drop_last()) + edge_h(&s.last().1)
    }
}

/// A structural size measure of an edge.
pub open spec fn edge_h<G: Graph>(e: &Edge<G>) -> nat
    decreases e,
{
    1 + node_h(&e.source) + node_h(&e.target)
}

/// Every entry's edge is strictly smaller than its table.
pub proof fn lemma_epairs_h<G: Graph>(s: Seq<(Guid, Edge<G>)>)
    ensures
        forall|i: int| 0 <= i < s.len() ==> edge_h(&(#[trigger] s[i]).1) < epairs_h(s),
    decreases s,
{
    if s.len() > 0 {
        lemma_epairs_h(s.drop_last());
        assert forall|i: int| 0 <= i < s.len() implies edge_h(&(#[trigger] s[i]).1) < epairs_h(
            s,
        ) by {
            if i < s.len() - 1 {
                assert(s.drop_last()[i] == s[i]);
                assert(edge_h(&s.drop_last()[i].1) < epairs_h(s.drop_last()));
            } else {
                assert(s[i] == s.last());
            }
        }
    }
}

/// The views of an edge table's entries, in entry order.
pub open spec fn epairs_vv<G: Graph>(s: Seq<(Guid, Edge<G>)>) -> Seq<EdgeView>
    decreases epairs_h(s),
{
    if s.len() == 0 {
        Seq::empty()
    } else {
        epairs_vv(s.drop_last()).push(s.last().1.ev())
    }
}

/// Pointwise description of an edge table's views.
pub proof fn lemma_epairs_vv<G: Graph>(s: Seq<(Guid, Edge<G>)>)
    ensures
        epairs_vv(s).len() == s.len(),
        forall|i: int| 0 <= i < s.len() ==> #[trigger] epairs_vv(s)[i] == s[i].1.ev(),
    decreases s,
{
    if s.len() > 0 {
        lemma_epairs_vv(s.drop_last());
        assert forall|i: int| 0 <= i < s.len() implies #[trigger] epairs_vv(s)[i]
            == s[i].1.ev() by {
            if i < s.len() - 1 {
                assert(s.drop_last()[i] == s[i]);
                assert(epairs_vv(s)[i] == epairs_vv(s.drop_last())[i]);
            } else {
                assert(s[i] == s.last());
            }
        }
    }
}

/// No two labels repeat.
pub open spec fn labels_unique(s: Seq<Seq<char>>) -> bool {
    forall|i: int, j: int| 0 <= i < j < s.len() ==> s[i] != s[j]
}

/// No two edges share an identity.
pub open spec fn edge_guids_unique(s: Seq<EdgeView>) -> bool {
    forall|i: int, j: int| 0 <= i < j < s.len() ==> (#[trigger] s[i]).guid != (#[trigger] s[j]).guid
}

/// Well-formedness of a node value: identity equals payload key, the type
/// label is a label, labels and edge identities are unique, and every
/// outgoing edge is well-formed and starts at this node.
pub open spec fn wf_node(v: NodeView) -> bool
    decreases v,
{
    v.guid == v.key && v.labels.contains(v.tlabel) && labels_unique(v.labels)
        && edge_guids_unique(v.edges) && wf_edge_list(v.edges, v.guid)
}

/// Well-formedness of an edge list attached to the node named by `src`.
pub open spec fn wf_edge_list(s: Seq<EdgeView>, src: Guid) -> bool
    decreases s,
{
    if s.len() == 0 {
        true
    } else {
        wf_edge_list(s.drop_last(), src) && wf_edge(s.last()) && s.last().source.guid == src
    }
}

/// Well-formedness of an edge value: identity derived from the endpoints
/// and payload key, with well-formed endpoint snapshots.
pub open spec fn wf_edge(e: EdgeView) -> bool
    decreases e,
{
    e.guid == spec_guid3(e.source.guid, e.target.guid, e.key) && wf_node(*e.source) && wf_node(
        *e.target,
    )
}

/// `wf_edge_list` is the conjunction of its pointwise facts.
pub proof fn lemma_wf_edge_list(s: Seq<EdgeView>, src: Guid)
    ensures
        wf_edge_list(s, src) <==> (forall|i: int|
            0 <= i < s.len() ==> wf_edge(#[trigger] s[i]) && s[i].source.guid == src),
    decreases s,
{
    if s.len() > 0 {
        lemma_wf_edge_list(s.drop_last(), src);
        assert(s[s.len() - 1] == s.last());
        if wf_edge_list(s, src) {
            assert forall|i: int| 0 <= i < s.len() implies wf_edge(#[trigger] s[i])
                && s[i].source.guid == src by {
                if i < s.len() - 1 {
                    assert(s.drop_last()[i] == s[i]);
                    assert(wf_edge(s.drop_last()[i]));
                }
            }
        } else {
            if forall|i: int|
                0 <= i < s.len() ==> wf_edge(#[trigger] s[i]) && s[i].source.guid == src {
                assert forall|i: int| 0 <= i < s.drop_last().len() implies wf_edge(
                    #[trigger] s.drop_last()[i],
                ) && s.drop_last()[i].source.guid == src by {
                    assert(s.drop_last()[i] == s[i]);
                }
                assert(wf_edge(s.last()));
                assert(false);
            }
        }
    }
}

/// A record in a graph.
pub struct Node<G: Graph> {
    /// The unique identity, equal to the payload's content key.
    pub guid: Guid,
    /// Whether this value is the canonical copy owned by a data set.
    pub bound: bool,
    /// The node's data payload.
    pub props: G::Node,
    /// Searchable tags; the type label is always among them.
    pub labels: Vec<String>,
    /// A lookup for the edges that have this node as starting point.
    pub edges: EdgeSet<G>,
}

impl<G: Graph> Node<G> {
    /// The mathematical value of the node.
    pub open spec fn nv(&self) -> NodeView
        decreases node_h(self),
    {
        NodeView {
            guid: self.guid,
            bound: self.bound,
            key: self.props.key_spec(),
            tlabel: self.props.type_label_spec(),
            labels: self.labels.deep_view(),
            edges: epairs_vv(self.edges.edges@),
        }
    }

    /// The node value is well-formed and its edge index is coherent.
    pub open spec fn inv(&self) -> bool
        decreases node_h(self),
    {
        self.edges.wf() && wf_node(self.nv())
    }

    /// Wrap a payload as a fresh, unbound node carrying its type label.
    pub fn new(props: G::Node) -> (r: Node<G>)
        ensures
            r.nv() == (NodeView {
                guid: props.key_spec(),
                bound: false,
                key: props.key_spec(),
                tlabel: props.type_label_spec(),
                labels: seq![props.type_label_spec()],
                edges: Seq::empty(),
            }),
            r.inv(),
    {
        let guid = props.get_key();
        let mut labels: Vec<String> = Vec::new();
        labels.push(props.get_type_label());
        let edges: EdgeSet<G> = EdgeSet::new();
        let r = Node { guid, bound: false, props, labels, edges };
        proof {
            assert(r.labels.deep_view() =~= seq![r.props.type_label_spec()]);
            assert(r.edges.edges@ =~= Seq::<(Guid, Edge<G>)>::empty());
            assert(r.nv().labels.contains(r.nv().tlabel)) by {
                assert(r.nv().labels[0] == r.nv().tlabel);
            }
        }
        r
    }

    /// Mark whether this value is a data set's canonical copy.
    pub(crate) fn set_bound(&mut self, bound: bool)
        ensures
            final(self).nv() == (NodeView { bound, ..old(self).nv() }),
            old(self).inv() ==> final(self).inv(),
    {
        self.bound = bound;
        proof {
            if old(self).inv() {
                assert(final(self).nv().labels =~= old(self).nv().labels);
            }
        }
    }

    pub fn is_bound(&self) -> (r: bool)
        ensures
            r == self.nv().bound,
    {
        self.bound
    }

    pub fn get_guid(&self) -> (r: Guid)
        ensures
            r == self.nv().guid,
    {
        self.guid
    }

    /// Whether the node carries the given label.
    pub fn has_label(&self, label: &str) -> (r: bool)
        ensures
            r == self.nv().labels.contains(label@),
    {
        let key: String = label.to_owned();
        let mut i: usize = 0;
        while i < self.labels.len()
            invariant
                key@ == label@,
                i <= self.labels@.len(),
                forall|j: int| 0 <= j < i ==> self.labels.deep_view()[j] != label@,
            decreases self.labels@.len() - i,
        {
            if self.labels[i] == key {
                proof {
                    assert(self.nv().labels[i as int] == label@);
                }
                return true;
            }
            i = i + 1;
        }
        proof {
            if self.nv().labels.contains(label@) {
                let w = choose|w: int|
                    0 <= w < self.nv().labels.len() && self.nv().labels[w] == label@;
                assert(self.labels.deep_view()[w] == label@);
            }
        }
        false
    }

    /// Attach a label; reports whether it was newly added.
    pub fn add_label(&mut self, label: &str) -> (r: bool)
        ensures
            r == !old(self).nv().labels.contains(label@),
            r ==> final(self).nv() == (NodeView {
                labels: old(self).nv().labels.push(label@),
                ..old(self).nv()
            }),
            !r ==> final(self).nv() == old(self).nv(),
            old(self).inv() ==> final(self).inv(),
    {
        if self.has_label(label) {
            return false;
        }
        let ghost pre = *self;
        self.labels.push(label.to_owned());
        proof {
            assert(self.labels.deep_view() =~= pre.labels.deep_view().push(label@));
            if pre.inv() {
                assert(self.nv().labels.contains(self.nv().tlabel)) by {
                    let w = choose|w: int|
                        0 <= w < pre.nv().labels.len() && pre.nv().labels[w] == pre.nv().tlabel;
                    assert(self.nv().labels[w] == self.nv().tlabel);
                }
                assert(labels_unique(self.nv().labels)) by {
                    assert forall|i: int, j: int|
                        0 <= i < j < self.nv().labels.len() implies self.nv().labels[i]
                        != self.nv().labels[j] by {
                        if j < pre.nv().labels.len() {
                            assert(self.nv().labels[i] == pre.nv().labels[i]);
                            assert(self.nv().labels[j] == pre.nv().labels[j]);
                        } else {
                            assert(self.nv().labels[j] == label@);
                            assert(self.nv().labels[i] == pre.nv().labels[i]);
                            assert(pre.nv().labels.contains(pre.nv().labels[i]));
                        }
                    }
                }
            }
        }
        true
    }

    /// Remove a label; reports whether it was present.
    pub fn drop_label(&mut self, label: &str) -> (r: bool)
        requires
            old(self).inv(),
        ensures
            r == old(self).nv().labels.contains(label@),
            r ==> final(self).nv() == (NodeView {
                labels: old(self).nv().labels.remove(old(self).nv().labels.index_of(label@)),
                ..old(self).nv()
            }),
            !r ==> final(self).nv() == old(self).nv(),
            label@ != old(self).nv().tlabel ==> final(self).inv(),
    {
        let ghost pre = *self;
        let key: String = label.to_owned();
        let mut i: usize = 0;
        while i < self.labels.len()
            invariant
                *self == pre,
                pre == *old(self),
                pre.inv(),
                key@ == label@,
                i <= self.labels@.len(),
                forall|j: int| 0 <= j < i ==> self.labels.deep_view()[j] != label@,
            decreases self.labels@.len() - i,
        {
            if self.labels[i] == key {
                proof {
                    assert(wf_node(pre.nv()));
                    assert(pre.nv().labels[i as int] == label@);
                    assert(pre.nv().labels.contains(label@));
                    let w = pre.nv().labels.index_of(label@);
                    assert(pre.nv().labels[w] == label@);
                    if w < i {
                        assert(pre.nv().labels[w] != pre.nv().labels[i as int]);
                        assert(false);
                    } else if i < w {
                        assert(pre.nv().labels[i as int] != pre.nv().labels[w]);
                        assert(false);
                    }
                }
                self.labels.remove(i);
                proof {
                    assert(self.labels.deep_view() =~= pre.nv().labels.remove(i as int));
                    if label@ != pre.nv().tlabel {
                        lemma_labels_remove_keeps(pre.nv().labels, i as int, pre.nv().tlabel);
                        assert(self.nv().labels =~= pre.nv().labels.remove(i as int));
                        assert(labels_unique(self.nv().labels)) by {
                            assert forall|p: int, q: int|
                                0 <= p < q < self.nv().labels.len() implies self.nv().labels[p]
                                != self.nv().labels[q] by {
                                let sp = if p < i {
                                    p
                                } else {
                                    p + 1
                                };
                                let sq = if q < i {
                                    q
                                } else {
                                    q + 1
                                };
                                assert(self.nv().labels[p] == pre.nv().labels[sp]);
                                assert(self.nv().labels[q] == pre.nv().labels[sq]);
                            }
                        }
                    }
                    assert(self.nv() =~~= (NodeView {
                        labels: pre.nv().labels.remove(pre.nv().labels.index_of(label@)),
                        ..pre.nv()
                    }));
                }
                return true;
            }
            i = i + 1;
        }
        proof {
            if pre.nv().labels.contains(label@) {
                let w = choose|w: int|
                    0 <= w < pre.nv().labels.len() && pre.nv().labels[w] == label@;
                assert(self.labels.deep_view()[w] == label@);
            }
        }
        false
    }

    /// Copies of the labels.
    pub fn get_labels(&self) -> (r: Vec<String>)
        ensures
            r.deep_view() == self.nv().labels,
    {
        clone_strings(&self.labels)
    }

    /// The payload's type label.
    pub fn type_label(&self) -> (r: String)
        ensures
            r@ == self.nv().tlabel,
    {
        self.props.get_type_label()
    }

    /// A copy of the payload.
    pub fn get_props(&self) -> (r: G::Node)
        ensures
            r.key_spec() == self.nv().key,
            r.type_label_spec() == self.nv().tlabel,
    {
        self.props.dup()
    }

    /// A copy with the same value.
    pub fn dup(&self) -> (r: Node<G>)
        requires
            self.inv(),
        ensures
            r.nv() == self.nv(),
            r.inv(),
        decreases node_h(self),
    {
        let edges = self.edges.dup();
        let labels = clone_strings(&self.labels);
        let r = Node {
            guid: self.guid,
            bound: self.bound,
            props: self.props.dup(),
            labels,
            edges,
        };
        proof {
            assert(r.labels.deep_view() =~= self.labels.deep_view());
            assert(r.nv() =~~= self.nv());
        }
        r
    }

    /// A detached copy: the contents are copied rather than shared, so
    /// changes to the copy never reach this node or any data set that holds
    /// it.  Detachment is infallible.
    pub fn deep_clone(&self) -> (r: GraphtResult<Node<G>>)
        requires
            self.inv(),
        ensures
            r matches Ok(n) && n.nv() == (NodeView { bound: false, ..self.nv() }) && n.inv(),
    {
        let mut n = self.dup();
        n.set_bound(false);
        Ok(n)
    }

    /// Detach this handle from any data set: the handle keeps its contents
    /// but stops being a canonical copy.
    fn unbind(&mut self)
        ensures
            final(self).nv() == (NodeView { bound: false, ..old(self).nv() }),
            old(self).inv() ==> final(self).inv(),
    {
        self.set_bound(false);
    }

    /// Create a relationship from this node to the target.
    ///
    /// This is the copy-on-write entry point: the handle is detached first,
    /// so a data set's canonical copy is never altered through it; the new
    /// edge is then attached to the handle's own edge index.
    pub fn create_edge(&mut self, props: G::Edge, target: Node<G>) -> (r: GraphtResult<Edge<G>>)
        requires
            old(self).inv(),
            target.inv(),
        ensures
            final(self).inv(),
            final(self).nv().bound == false,
            ({
                let g = spec_guid3(old(self).nv().guid, target.nv().guid, props.key_spec());
                match r {
                    Ok(e) => !edges_have(old(self).nv().edges, g) && e.ev() == (EdgeView {
                        guid: g,
                        key: props.key_spec(),
                        tlabel: props.type_label_spec(),
                        source: Box::new((NodeView { bound: false, ..old(self).nv() })),
                        target: Box::new(target.nv()),
                    }) && e.inv() && final(self).nv() == (NodeView {
                        bound: false,
                        edges: old(self).nv().edges.push(e.ev()),
                        ..old(self).nv()
                    }),
                    Err(e) => edges_have(old(self).nv().edges, g) && e.kind == Kind::DuplicateKey
                        && final(self).nv() == (NodeView { bound: false, ..old(self).nv() }),
                }
            }),
    {
        self.unbind();
        let edge = Edge::new(&*self, &target, props);
        let copy = edge.dup();
        match self.add_edge(copy) {
            Ok(()) => Ok(edge),
            Err(e) => Err(e),
        }
    }

    /// Attach an already-constructed edge to this node's edge index without
    /// detaching; reserved for the insertion engine, which may only wire
    /// edges that start at this node.
    #[verifier::rlimit(60)]
    pub(crate) fn add_edge(&mut self, edge: Edge<G>) -> (r: GraphtResult<()>)
        requires
            old(self).inv(),
            edge.inv(),
            wf_edge(edge.ev()),
            edge.ev().source.guid == old(self).nv().guid,
        ensures
            final(self).inv(),
            match r {
                Ok(()) => !edges_have(old(self).nv().edges, edge.ev().guid) && final(self).nv()
                    == (NodeView { edges: old(self).nv().edges.push(edge.ev()), ..old(self).nv() }),
                Err(e) => edges_have(old(self).nv().edges, edge.ev().guid) && e.kind
                    == Kind::DuplicateKey && final(self).nv() == old(self).nv(),
            },
    {
        let ghost pre = *self;
        let ghost ev = edge.ev();
        let mut es = EdgeSet::new();
        core::mem::swap(&mut self.edges, &mut es);
        proof {
            es.lemma_esv_has();
        }
        let result = es.insert_owned(edge);
        self.edges = es;
        proof {
            assert(pre.nv().edges == pre.edges.esv());
            assert(self.nv().edges == self.edges.esv());
            if result is Ok {
                self.edges.lemma_esv_has();
                assert(self.nv().edges == pre.nv().edges.push(ev));
                assert(wf_edge_list(self.nv().edges, self.nv().guid)) by {
                    lemma_wf_edge_list(pre.nv().edges, pre.nv().guid);
                    lemma_wf_edge_list(self.nv().edges, self.nv().guid);
                    assert forall|i: int| 0 <= i < self.nv().edges.len() implies wf_edge(
                        #[trigger] self.nv().edges[i],
                    ) && self.nv().edges[i].source.guid == self.nv().guid by {
                        if i < pre.nv().edges.len() {
                            assert(self.nv().edges[i] == pre.nv().edges[i]);
                            assert(wf_edge(pre.nv().edges[i]));
                        } else {
                            assert(self.nv().edges[i] == ev);
                        }
                    }
                }
                assert(edge_guids_unique(self.nv().edges)) by {
                    assert forall|i: int, j: int|
                        0 <= i < j < self.nv().edges.len() implies (
                    #[trigger] self.nv().edges[i]).guid != (#[trigger] self.nv().edges[j]).guid by {
                        if j < pre.nv().edges.len() {
                            assert(self.nv().edges[i] == pre.nv().edges[i]);
                            assert(self.nv().edges[j] == pre.nv().edges[j]);
                        } else {
                            assert(self.nv().edges[i] == pre.nv().edges[i]);
                            assert(edges_have(pre.nv().edges, pre.nv().edges[i].guid));
                            assert(pre.edges.has_edge(pre.nv().edges[i].guid));
                        }
                    }
                }
                assert(self.nv().labels =~= pre.nv().labels);
                assert(self.nv() == (NodeView { edges: pre.nv().edges.push(ev), ..pre.nv() }));
            } else {
                assert(*self == pre);
            }
        }
        match result {
            Ok(()) => Ok(()),
            Err(e) => Err(e),
        }
    }

    /// Copies of all edges attached to this node; the query text is not yet
    /// interpreted.
    pub fn edges(&self, _query: &str) -> (r: Vec<Edge<G>>)
        requires
            self.inv(),
        ensures
            r@.len() == self.nv().edges.len(),
            forall|i: int| 0 <= i < r@.len() ==> (#[trigger] r@[i]).ev() == self.nv().edges[i],
            forall|i: int| 0 <= i < r@.len() ==> (#[trigger] r@[i]).inv(),
    {
        self.edges.all_edges()
    }
}

/// A copy of a label vector, element for element.
fn clone_strings(v: &Vec<String>) -> (r: Vec<String>)
    ensures
        r@.len() == v@.len(),
        forall|j: int| 0 <= j < v@.len() ==> r@[j] == v@[j],
        r.deep_view() == v.deep_view(),
{
    let mut out: Vec<String> = Vec::new();
    let mut i: usize = 0;
    while i < v.len()
        invariant
            i <= v@.len(),
            out@.len() == i,
            forall|j: int| 0 <= j < i ==> out@[j] == v@[j],
        decreases v@.len() - i,
    {
        out.push(v[i].clone());
        i = i + 1;
    }
    proof {
        assert(out.deep_view() =~= v.deep_view());
    }
    out
}

/// Whether an edge list holds an edge with the given identity.
pub open spec fn edges_have(s: Seq<EdgeView>, g: Guid) -> bool {
    exists|i: int| 0 <= i < s.len() && (#[trigger] s[i]).guid == g
}

/// Removing a label other than `t` keeps `t` present.
proof fn lemma_labels_remove_keeps(s: Seq<Seq<char>>, i: int, t: Seq<char>)
    requires
        0 <= i < s.len(),
        s[i] != t,
        s.contains(t),
    ensures
        s.remove(i).contains(t),
{
    let w = choose|w: int| 0 <= w < s.len() && s[w] == t;
    if w < i {
        assert(s.remove(i)[w] == t);
    } else {
        assert(s.remove(i)[w - 1] == t);
    }
}

} // verus!
