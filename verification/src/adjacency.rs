//! The first pass: a breadth-first traversal of the raw document (and of
//! every document transitively reachable through references) producing a
//! deduplicated, index-addressed node/edge graph. A value already visited is
//! never re-expanded, which is what terminates reference cycles.

use vstd::prelude::*;
use vstd::string::StrSliceExecFns;
use crate::errors::CompileError;
use crate::json::{Addr, Doc, Documents, JsonValue, Member, total_values_of};
use crate::resolving::{
    Registry, Resolver, is_local, parse_url, spec_is_local, spec_lookup, spec_resolve,
    url_parse_of,
};
use crate::scope::{Scope, spec_build_url};
use crate::text::{spec_doc_part, str_eq};

verus! {

/// A label on an edge between two values: the key of an object member or
/// the position of an array element.
#[derive(Debug, PartialEq, Eq)]
pub enum EdgeLabel {
    Key(String),
    Index(usize),
}

impl EdgeLabel {
    /// The key of a keyed edge, or nothing for an indexed one.
    pub fn as_key(&self) -> (r: Option<&str>)
        ensures
            match self {
                EdgeLabel::Key(k) => r matches Some(s) && s@ == k@,
                EdgeLabel::Index(_) => r is None,
            },
    {
        match self {
            EdgeLabel::Key(k) => Some(k.as_str()),
            EdgeLabel::Index(_) => None,
        }
    }

    /// Copies the label.
    pub fn duplicate(&self) -> (r: EdgeLabel)
        ensures
            r == *self,
    {
        match self {
            EdgeLabel::Key(k) => EdgeLabel::Key(k.clone()),
            EdgeLabel::Index(i) => EdgeLabel::Index(*i),
        }
    }
}

/// Unique identifier of a node in a graph; identifiers are dense and follow
/// discovery order.
#[derive(Debug, Clone, Copy, PartialEq, Eq, Structural, Hash)]
pub struct NodeId(pub usize);

impl NodeId {
    pub fn value(&self) -> (r: usize)
        ensures
            r == self.0,
    {
        self.0
    }

    /// Whether this identifier names the reserved sentinel root-parent.
    pub fn is_root(&self) -> (r: bool)
        ensures
            r == (self.0 == 0),
    {
        self.0 == 0
    }
}

/// An edge of the adjacency list: a label and the target node.
#[derive(Debug, PartialEq, Eq)]
pub struct Edge {
    pub label: EdgeLabel,
    pub target: NodeId,
}

impl Edge {
    pub fn new(label: EdgeLabel, target: NodeId) -> (e: Edge)
        ensures
            e.label == label,
            e.target == target,
    {
        Edge { label, target }
    }
}

/// A contiguous, half-open run of node indices.
#[derive(Debug, Clone, Copy, PartialEq, Eq, Structural)]
pub struct NodeRange {
    pub start: usize,
    pub end: usize,
}

/// An edge addressing a contiguous range of nodes: the compacted replacement
/// for a node's full edge list.
#[derive(Debug, PartialEq, Eq)]
pub struct RangedEdge {
    /// A label for this edge.
    pub label: EdgeLabel,
    /// The range of nodes referenced by this edge.
    pub nodes: NodeRange,
}

impl RangedEdge {
    pub fn new(label: EdgeLabel, nodes: NodeRange) -> (e: RangedEdge)
        ensures
            e.label == label,
            e.nodes == nodes,
    {
        RangedEdge { label, nodes }
    }
}

/// Whether a slot was used before.
#[derive(Debug, Clone, Copy, PartialEq, Eq, Structural)]
pub enum SlotState {
    New,
    Used,
}

/// The slot a pushed value landed in, and whether it was fresh.
pub struct NodeSlot {
    pub id: NodeId,
    pub state: SlotState,
}

impl NodeSlot {
    /// A slot that was already used by an earlier push of the same value.
    pub fn seen(id: NodeId) -> (s: Self)
        ensures
            s.id == id,
            s.state is Used,
    {
        Self { id, state: SlotState::Used }
    }

    /// A slot used for the first time.
    pub fn new(id: NodeId) -> (s: Self)
        ensures
            s.id == id,
            s.state is New,
    {
        Self { id, state: SlotState::New }
    }

    pub fn is_new(&self) -> (r: bool)
        ensures
            r == (self.state is New),
    {
        match self.state {
            SlotState::New => true,
            SlotState::Used => false,
        }
    }
}

/// How many slots of a visited-row are marked.
pub open spec fn row_count(r: Seq<Option<usize>>) -> int
    decreases r.len(),
{
    if r.len() == 0 {
        0
    } else {
        row_count(r.drop_last()) + if r.last() is Some {
            1int
        } else {
            0int
        }
    }
}

/// How many slots of the whole visited table are marked.
pub open spec fn table_count(t: Seq<Vec<Option<usize>>>) -> int
    decreases t.len(),
{
    if t.len() == 0 {
        0
    } else {
        table_count(t.drop_last()) + row_count(t.last()@)
    }
}

proof fn lemma_row_le(r: Seq<Option<usize>>)
    ensures
        row_count(r) <= r.len(),
        row_count(r) >= 0,
    decreases r.len(),
{
    if r.len() > 0 {
        lemma_row_le(r.drop_last());
    }
}

proof fn lemma_row_none(r: Seq<Option<usize>>, i: int)
    requires
        0 <= i < r.len(),
        r[i] is None,
    ensures
        row_count(r) <= r.len() - 1,
    decreases r.len(),
{
    lemma_row_le(r.drop_last());
    if i < r.len() - 1 {
        lemma_row_none(r.drop_last(), i);
    }
}

proof fn lemma_row_update(r: Seq<Option<usize>>, i: int, v: usize)
    requires
        0 <= i < r.len(),
        r[i] is None,
    ensures
        row_count(r.update(i, Some(v))) == row_count(r) + 1,
    decreases r.len(),
{
    let r2 = r.update(i, Some(v));
    if i == r.len() - 1 {
        assert(r2.drop_last() =~= r.drop_last());
    } else {
        assert(r2.drop_last() =~= r.drop_last().update(i, Some(v)));
        assert(r2.last() == r.last());
        lemma_row_update(r.drop_last(), i, v);
    }
}

proof fn lemma_row_zero(r: Seq<Option<usize>>)
    requires
        forall|j: int| 0 <= j < r.len() ==> r[j] is None,
    ensures
        row_count(r) == 0,
    decreases r.len(),
{
    if r.len() > 0 {
        lemma_row_zero(r.drop_last());
    }
}

proof fn lemma_table_push_row(t: Seq<Vec<Option<usize>>>, row: Vec<Option<usize>>)
    ensures
        table_count(t.push(row)) == table_count(t) + row_count(row@),
{
    assert(t.push(row).drop_last() =~= t);
    assert(t.push(row).last() == row);
}

proof fn lemma_table_le(t: Seq<Vec<Option<usize>>>, docs: Seq<Doc>)
    requires
        t.len() == docs.len(),
        forall|d: int| 0 <= d < t.len() ==> (#[trigger] t[d])@.len() == docs[d].values@.len(),
    ensures
        table_count(t) <= total_values_of(docs),
        table_count(t) >= 0,
    decreases t.len(),
{
    if t.len() > 0 {
        lemma_table_le(t.drop_last(), docs.drop_last());
        lemma_row_le(t.last()@);
        assert(t.last() == t[t.len() - 1]);
    }
}

proof fn lemma_table_update(t: Seq<Vec<Option<usize>>>, t2: Seq<Vec<Option<usize>>>, d: int, i: int)
    requires
        t2.len() == t.len(),
        0 <= d < t.len(),
        0 <= i < t[d]@.len(),
        t[d]@[i] is None,
        t2[d]@ == t[d]@.update(i, t2[d]@[i]),
        t2[d]@[i] is Some,
        forall|d2: int| 0 <= d2 < t.len() && d2 != d ==> t2[d2] == t[d2],
    ensures
        table_count(t2) == table_count(t) + 1,
    decreases t.len(),
{
    assert(t.last() == t[t.len() - 1]);
    assert(t2.last() == t2[t2.len() - 1]);
    if d == t.len() - 1 {
        assert(t2.drop_last() =~= t.drop_last());
        let v = t2[d]@[i]->0;
        assert(t2[d]@ == t[d]@.update(i, Some(v)));
        lemma_row_update(t[d]@, i, v);
    } else {
        assert(t2.drop_last()[d] == t2[d]);
        lemma_table_update(t.drop_last(), t2.drop_last(), d, i);
        assert(t2.last() == t.last());
    }
}

/// The adjacency list: a node array of value addresses, a parallel array of
/// labeled edges in discovery order, and the identity map used during
/// construction to refuse re-expansion of an already visited value.
pub struct AdjacencyList {
    /// The address of each node's raw value; slot 0 is the sentinel
    /// root-parent and holds no meaningful address.
    pub nodes: Vec<Addr>,
    /// The outgoing edges of each node, in discovery order.
    pub edges: Vec<Vec<Edge>>,
    /// For each document slot, the node assigned to it, if visited.
    pub visited: Vec<Vec<Option<usize>>>,
    /// For each node, the node whose expansion discovered it (allocated its
    /// slot); the sentinel counts as its own discoverer.
    pub disc: Ghost<Seq<int>>,
    /// For each node, the scope it was enqueued under: the folder stack and
    /// resolver its expansion starts from.
    pub scopes: Ghost<Seq<ScopeView>>,
}

impl AdjacencyList {
    /// The structural invariant: the visited table and the node array are
    /// inverse to one another on non-sentinel nodes, and every edge targets
    /// an existing node. Being inverse is what deduplicates: two distinct
    /// non-sentinel nodes never hold the same address.
    pub open spec fn wf(&self, docs: &Documents) -> bool {
        &&& self.nodes@.len() >= 1
        &&& self.edges@.len() == self.nodes@.len()
        &&& self.visited@.len() == docs.docs@.len()
        &&& forall|d: int|
            0 <= d < docs.docs@.len() ==> (#[trigger] self.visited@[d])@.len()
                == docs.docs@[d].values@.len()
        &&& forall|d: int, i: int|
            0 <= d < docs.docs@.len() && 0 <= i < docs.docs@[d].values@.len() ==> match (
            #[trigger] self.visited@[d]@[i]) {
                Some(n) => 1 <= n < self.nodes@.len() && self.nodes@[n as int] == (Addr {
                    doc: d as usize,
                    idx: i as usize,
                }),
                None => true,
            }
        &&& forall|n: int|
            1 <= n < self.nodes@.len() ==> {
                let a = #[trigger] self.nodes@[n];
                docs.addr_ok(a) && self.visited@[a.doc as int]@[a.idx as int] == Some(n as usize)
            }
        &&& forall|p: int, j: int|
            0 <= p < self.edges@.len() && 0 <= j < self.edges@[p]@.len() ==> 1 <= (
            #[trigger] self.edges@[p]@[j]).target.0 < self.nodes@.len()
    }

    /// The identity map holds exactly one mark per non-sentinel node.
    pub open spec fn count_ok(&self) -> bool {
        table_count(self.visited@) == self.nodes@.len() - 1
    }

    /// Some edge of a node's discoverer targets the node.
    pub open spec fn has_discovery_edge(&self, t: int) -> bool {
        exists|j: int|
            0 <= j < self.edges@[self.disc@[t]]@.len()
                && (#[trigger] self.edges@[self.disc@[t]]@[j]).target.0 == t
    }

    /// The discovery record: every node was discovered by an earlier node;
    /// discoverers never decrease along the allocation order, because a
    /// breadth-first traversal finishes one parent's children before it
    /// starts the next parent's; each node is targeted by an edge of its
    /// discoverer; and within one parent's edge list, targets the parent
    /// itself discovered only ever grow, except on a repeated target.
    pub open spec fn disc_ok(&self) -> bool {
        &&& self.disc@.len() == self.nodes@.len()
        &&& self.disc@[0] == 0
        &&& forall|t: int| 1 <= t < self.disc@.len() ==> 0 <= #[trigger] self.disc@[t] < t
        &&& forall|t1: int, t2: int|
            1 <= t1 <= t2 < self.disc@.len() ==> #[trigger] self.disc@[t1]
                <= #[trigger] self.disc@[t2]
        &&& forall|t: int| 1 <= t < self.disc@.len() ==> #[trigger] self.has_discovery_edge(t)
        &&& forall|p: int, j1: int, j2: int|
            0 <= p < self.edges@.len() && 0 <= j1 < j2 < self.edges@[p]@.len()
                && self.disc@[(#[trigger] self.edges@[p]@[j1]).target.0 as int] == p
                && self.disc@[(#[trigger] self.edges@[p]@[j2]).target.0 as int] == p ==> (
            self.edges@[p]@[j1].target.0 <= self.edges@[p]@[j2].target.0 || exists|j0: int|
                0 <= j0 < j2 && self.edges@[p]@[j0].target.0 == self.edges@[p]@[j2].target.0)
    }

    /// An empty adjacency list over the given documents, holding only the
    /// sentinel root-parent.
    pub fn empty(docs: &Documents) -> (r: Self)
        ensures
            r.wf(docs),
            r.count_ok(),
            r.disc_ok(),
            r.scopes@.len() == 1,
            r.nodes@.len() == 1,
            r.edges@[0]@.len() == 0,
            forall|d: int, i: int|
                0 <= d < docs.docs@.len() && 0 <= i < docs.docs@[d].values@.len()
                    ==> (#[trigger] r.visited@[d]@[i]) is None,
    {
        let mut nodes: Vec<Addr> = Vec::new();
        nodes.push(Addr { doc: 0, idx: 0 });
        let mut edges: Vec<Vec<Edge>> = Vec::new();
        edges.push(Vec::new());
        let mut visited: Vec<Vec<Option<usize>>> = Vec::new();
        let mut d: usize = 0;
        proof {
            assert(table_count(visited@) == 0);
        }
        while d < docs.docs.len()
            invariant
                0 <= d <= docs.docs@.len(),
                visited@.len() == d,
                table_count(visited@) == 0,
                forall|d2: int|
                    0 <= d2 < d ==> (#[trigger] visited@[d2])@.len()
                        == docs.docs@[d2].values@.len(),
                forall|d2: int, i: int|
                    0 <= d2 < d && 0 <= i < visited@[d2]@.len() ==> (
                    #[trigger] visited@[d2]@[i]) is None,
            decreases docs.docs@.len() - d,
        {
            let n = docs.docs[d].values.len();
            let mut row: Vec<Option<usize>> = Vec::new();
            let mut i: usize = 0;
            while i < n
                invariant
                    row@.len() == i,
                    0 <= i <= n,
                    forall|j: int| 0 <= j < i ==> (#[trigger] row@[j]) is None,
                decreases n - i,
            {
                row.push(None);
                i += 1;
            }
            proof {
                lemma_row_zero(row@);
                lemma_table_push_row(visited@, row);
            }
            visited.push(row);
            d += 1;
        }
        let ghost d0: Seq<int> = seq![0int];
        let ghost s0: Seq<ScopeView> = seq![vstd::pervasive::arbitrary()];
        let r = AdjacencyList { nodes, edges, visited, disc: Ghost(d0), scopes: Ghost(s0) };
        proof {
            assert(r.disc@[0] == 0);
        }
        r
    }

    /// Pushes a value reached over an edge: reuses the value's node when its
    /// address was seen before, allocates the next node otherwise, and in
    /// both cases appends the edge to the parent's list.
    #[verifier::rlimit(100)]
    #[verifier::spinoff_prover]
    pub fn push(
        &mut self,
        docs: &Documents,
        parent: NodeId,
        label: EdgeLabel,
        addr: Addr,
        sc: Ghost<ScopeView>,
    ) -> (slot: NodeSlot)
        requires
            old(self).wf(docs),
            old(self).count_ok(),
            old(self).disc_ok(),
            docs.wf(),
            parent.0 < old(self).nodes@.len(),
            parent.0 as int >= old(self).disc@[old(self).nodes@.len() - 1],
            docs.addr_ok(addr),
        ensures
            final(self).wf(docs),
            final(self).count_ok(),
            final(self).disc_ok(),
            final(self).disc@ == (if slot.state is New {
                old(self).disc@.push(parent.0 as int)
            } else {
                old(self).disc@
            }),
            final(self).scopes@ == (if slot.state is New {
                old(self).scopes@.push(sc@)
            } else {
                old(self).scopes@
            }),
            slot.id.0 < final(self).nodes@.len(),
            1 <= slot.id.0,
            final(self).nodes@[slot.id.0 as int] == addr,
            final(self).nodes@.len() == old(self).nodes@.len() + (if slot.state is New {
                1int
            } else {
                0
            }),
            slot.state is New ==> final(self).nodes@ == old(self).nodes@.push(addr)
                && old(self).visited@[addr.doc as int]@[addr.idx as int] is None
                && slot.id.0 == old(self).nodes@.len(),
            slot.state is Used ==> final(self).nodes@ == old(self).nodes@
                && final(self).visited@ == old(self).visited@
                && old(self).visited@[addr.doc as int]@[addr.idx as int] == Some(slot.id.0),
            final(self).edges@[parent.0 as int]@ == old(self).edges@[parent.0 as int]@.push(
                Edge { label, target: slot.id },
            ),
            forall|p: int|
                0 <= p < old(self).edges@.len() && p != parent.0 ==> (#[trigger] final(self).edges@[p]) == old(self).edges@[p],
            slot.state is New ==> final(self).edges@[old(self).nodes@.len() as int]@.len() == (
            if parent.0 == old(self).nodes@.len() {
                1int
            } else {
                0
            }),
    {
        let d = addr.doc;
        let i = addr.idx;
        let existing = self.visited[d][i];
        let slot = match existing {
            Some(n) => NodeSlot::seen(NodeId(n)),
            None => {
                let id = self.nodes.len();
                let ghost told = self.visited@;
                self.nodes.push(addr);
                self.edges.push(Vec::new());
                self.visited[d][i] = Some(id);
                self.disc = Ghost(self.disc@.push(parent.0 as int));
                self.scopes = Ghost(self.scopes@.push(sc@));
                proof {
                    lemma_table_update(told, self.visited@, d as int, i as int);
                }
                NodeSlot::new(NodeId(id))
            },
        };
        let edge = Edge { label, target: NodeId(slot.id.0) };
        self.edges[parent.0].push(edge);
        proof {
            let od = old(self).disc@;
            let nd = self.disc@;
            let oe = old(self).edges@;
            let ne = self.edges@;
            let on = old(self).nodes@.len() as int;
            let p0 = parent.0 as int;
            assert forall|t: int| 1 <= t < nd.len() implies 0 <= #[trigger] nd[t] < t by {
                if t < od.len() {
                    assert(nd[t] == od[t]);
                }
            }
            assert forall|t1: int, t2: int|
                1 <= t1 <= t2 < nd.len() implies #[trigger] nd[t1] <= #[trigger] nd[t2] by {
                if t2 < od.len() {
                    assert(od[t1] <= od[t2]);
                } else {
                    assert(nd[t2] == p0);
                    if t1 < od.len() {
                        assert(od[t1] <= od[on - 1]);
                    }
                }
            }
            assert forall|t: int|
                1 <= t < self.disc@.len() implies #[trigger] self.has_discovery_edge(t) by {
                assert(nd == self.disc@ && ne == self.edges@);
                if t < od.len() {
                    assert(nd[t] == od[t]);
                    assert(old(self).has_discovery_edge(t));
                    assert(exists|j: int|
                        0 <= j < oe[od[t]]@.len() && (#[trigger] oe[od[t]]@[j]).target.0 == t);
                    let j0 = choose|j: int|
                        0 <= j < oe[od[t]]@.len() && oe[od[t]]@[j].target.0 == t;
                    assert(0 <= od[t] < oe.len());
                    assert(ne[od[t]]@[j0] == oe[od[t]]@[j0]);
                    assert(0 <= j0 < self.edges@[self.disc@[t]]@.len()
                        && self.edges@[self.disc@[t]]@[j0].target.0 == t);
                } else {
                    assert(nd[t] == p0);
                    let jn = ne[p0]@.len() - 1;
                    assert(ne[p0]@ == oe[p0]@.push(Edge { label, target: NodeId(slot.id.0) }));
                    assert(0 <= jn < self.edges@[self.disc@[t]]@.len()
                        && self.edges@[self.disc@[t]]@[jn].target.0 == t);
                }
            }
            assert forall|p: int, j1: int, j2: int|
                0 <= p < ne.len() && 0 <= j1 < j2 < ne[p]@.len() && nd[(
                #[trigger] ne[p]@[j1]).target.0 as int] == p && nd[(
                #[trigger] ne[p]@[j2]).target.0 as int] == p implies (ne[p]@[j1].target.0
                <= ne[p]@[j2].target.0 || exists|j0: int|
                0 <= j0 < j2 && ne[p]@[j0].target.0 == ne[p]@[j2].target.0) by {
                if p == p0 && j2 == ne[p0]@.len() - 1 && j2 >= oe[p0]@.len() {
                    let t2 = ne[p]@[j2].target.0 as int;
                    if slot.state is New {
                        assert(t2 == on);
                        assert(ne[p]@[j1] == oe[p]@[j1]);
                        assert(oe[p]@[j1].target.0 < on);
                    } else {
                        assert(t2 == slot.id.0);
                        assert(1 <= t2 < od.len());
                        if nd[t2] == p {
                            assert(od[t2] == p0);
                            assert(old(self).has_discovery_edge(t2));
                            assert(exists|j: int|
                                0 <= j < oe[od[t2]]@.len() && (#[trigger] oe[od[t2]]@[j]).target.0
                                    == t2);
                            let j0 = choose|j: int|
                                0 <= j < oe[od[t2]]@.len() && oe[od[t2]]@[j].target.0 == t2;
                            assert(ne[p]@[j0] == oe[p0]@[j0]);
                            assert(ne[p]@[j0].target.0 == ne[p]@[j2].target.0);
                            assert(0 <= j0 < j2);
                        }
                    }
                } else {
                    assert(ne[p]@[j1] == oe[p]@[j1]);
                    assert(ne[p]@[j2] == oe[p]@[j2]);
                    let ot1 = oe[p]@[j1].target.0 as int;
                    let ot2 = oe[p]@[j2].target.0 as int;
                    assert(1 <= ot1 < on && 1 <= ot2 < on);
                    assert(nd[ot1] == od[ot1] && nd[ot2] == od[ot2]);
                    if od[ot1] == p && od[ot2] == p {
                        assert(oe[p]@[j1].target.0 <= oe[p]@[j2].target.0 || exists|j0: int|
                            0 <= j0 < j2 && oe[p]@[j0].target.0 == oe[p]@[j2].target.0);
                        if !(oe[p]@[j1].target.0 <= oe[p]@[j2].target.0) {
                            let j0 = choose|j0: int|
                                0 <= j0 < j2 && oe[p]@[j0].target.0 == oe[p]@[j2].target.0;
                            assert(ne[p]@[j0] == oe[p]@[j0]);
                            assert(ne[p]@[j0].target.0 == ne[p]@[j2].target.0);
                        }
                    }
                }
            }
            assert(self.disc_ok());
        }
        slot
    }

    /// The smallest half-open range covering the targets of a node's edges,
    /// read off its first and last edge; an explicitly empty range for a
    /// node with no edges.
    pub open spec fn spec_range_of(&self, target_id: int) -> NodeRange {
        if self.edges@[target_id]@.len() == 0 {
            NodeRange { start: 0, end: 0 }
        } else {
            NodeRange {
                start: self.edges@[target_id]@[0].target.0,
                end: (self.edges@[target_id]@.last().target.0 + 1) as usize,
            }
        }
    }

    /// Reads the child range of a node from its edge list.
    pub fn range_of(&self, target_id: usize) -> (r: NodeRange)
        requires
            target_id < self.edges@.len(),
            self.edges@.len() == self.nodes@.len(),
            forall|p: int, j: int|
                0 <= p < self.edges@.len() && 0 <= j < self.edges@[p]@.len() ==> (
                #[trigger] self.edges@[p]@[j]).target.0 < self.nodes@.len(),
        ensures
            r == self.spec_range_of(target_id as int),
    {
        let n = self.nodes.len();
        let list = &self.edges[target_id];
        let len = list.len();
        if len == 0 {
            NodeRange { start: 0, end: 0 }
        } else {
            let first = list[0].target.0;
            let last = list[len - 1].target.0;
            NodeRange { start: first, end: last + 1 }
        }
    }
}

/// The scope a value is traversed under, as the traversal records it: the
/// base-location segments pushed so far and the active resolver.
pub struct ScopeView {
    pub folders: Seq<Seq<char>>,
    pub resolver: Resolver,
}

/// One child a node's expansion enqueues: the edge label, the child's
/// address, and the scope the child is traversed under.
pub struct ChildRec {
    pub label: EdgeLabel,
    pub addr: Addr,
    pub scope: ScopeView,
}

/// What one object member contributes to its parent's expansion: a child, a
/// skipped position (a reference keyword whose value is no string), or a
/// failed reference resolution.
pub enum ChildOutcome {
    Skip,
    Fail,
    Child(ChildRec),
}

/// The scope a node's members are resolved under: its own local identifier,
/// if it carries one, is pushed first.
pub open spec fn spec_expansion_scope(docs: &Documents, sc: ScopeView, a: Addr) -> ScopeView {
    match docs.spec_value_at(a) {
        JsonValue::Obj(members) => match crate::json::spec_id_of(
            docs.docs@[a.doc as int].values@,
            members@,
        ) {
            Some(id) => ScopeView { folders: sc.folders.push(id), resolver: sc.resolver },
            None => sc,
        },
        _ => sc,
    }
}

/// What one member of an object at document `d` contributes under scope
/// `sc`: a reference keyword with a string value is classified and resolved
/// and its target becomes the child; any other member's own value becomes
/// the child under the unchanged scope.
pub open spec fn spec_member_child(
    docs: &Documents,
    registry: &Registry,
    sc: ScopeView,
    d: int,
    m: Member,
) -> ChildOutcome {
    if m.key@ == "$ref"@ {
        match docs.docs@[d].values@[m.value as int] {
            JsonValue::Str(r) => match spec_ref_resolution(docs, registry, sc.folders, sc.resolver, r@) {
                Some((res, f, i)) => ChildOutcome::Child(
                    ChildRec {
                        label: EdgeLabel::Key(m.key),
                        addr: Addr { doc: res.doc, idx: i as usize },
                        scope: ScopeView { folders: f, resolver: res },
                    },
                ),
                None => ChildOutcome::Fail,
            },
            _ => ChildOutcome::Skip,
        }
    } else {
        ChildOutcome::Child(
            ChildRec {
                label: EdgeLabel::Key(m.key),
                addr: Addr { doc: d as usize, idx: m.value },
                scope: sc,
            },
        )
    }
}

/// The children an object's members from position `k` on contribute, in
/// member order; nothing if some reference among them fails to resolve.
pub open spec fn spec_obj_children(
    docs: &Documents,
    registry: &Registry,
    sc: ScopeView,
    d: int,
    members: Seq<Member>,
    k: int,
) -> Option<Seq<ChildRec>>
    decreases members.len() - k,
{
    if k < 0 || k >= members.len() {
        Some(Seq::empty())
    } else {
        match spec_member_child(docs, registry, sc, d, members[k]) {
            ChildOutcome::Fail => None,
            ChildOutcome::Skip => spec_obj_children(docs, registry, sc, d, members, k + 1),
            ChildOutcome::Child(rec) => match spec_obj_children(
                docs,
                registry,
                sc,
                d,
                members,
                k + 1,
            ) {
                Some(rest) => Some(seq![rec] + rest),
                None => None,
            },
        }
    }
}

/// The children of an array at document `d` from position `k` on: one per
/// element, labeled by position, under the unchanged scope.
pub open spec fn spec_arr_children(sc: ScopeView, d: int, items: Seq<usize>, k: int) -> Seq<
    ChildRec,
>
    decreases items.len() - k,
{
    if k < 0 || k >= items.len() {
        Seq::empty()
    } else {
        seq![
            ChildRec {
                label: EdgeLabel::Index(k as usize),
                addr: Addr { doc: d as usize, idx: items[k] },
                scope: sc,
            },
        ] + spec_arr_children(sc, d, items, k + 1)
    }
}

/// Everything a value's expansion enqueues, in discovery order, or nothing
/// if one of its references fails to resolve.
pub open spec fn spec_children(docs: &Documents, registry: &Registry, sc: ScopeView, a: Addr) -> Option<
    Seq<ChildRec>,
> {
    match docs.spec_value_at(a) {
        JsonValue::Obj(members) => spec_obj_children(
            docs,
            registry,
            spec_expansion_scope(docs, sc, a),
            a.doc as int,
            members@,
            0,
        ),
        JsonValue::Arr(items) => Some(spec_arr_children(sc, a.doc as int, items@, 0)),
        _ => Some(Seq::empty()),
    }
}

/// A node's final edge list is exactly its value's child list: same length,
/// matching labels in order, and each edge's target holds the child's
/// address.
pub open spec fn expansion_ok(docs: &Documents, registry: &Registry, al: &AdjacencyList, n: int) -> bool {
    match spec_children(docs, registry, al.scopes@[n], al.nodes@[n]) {
        Some(ch) => al.edges@[n]@.len() == ch.len() && forall|j: int|
            0 <= j < ch.len() ==> (#[trigger] al.edges@[n]@[j]).label == ch[j].label
                && al.nodes@[al.edges@[n]@[j].target.0 as int] == ch[j].addr,
        None => false,
    }
}

/// A discovered node's recorded scope is the one its discoverer's child
/// list hands it, through the discovering edge.
pub open spec fn scope_grounded(docs: &Documents, registry: &Registry, al: &AdjacencyList, t: int) -> bool {
    match spec_children(docs, registry, al.scopes@[al.disc@[t]], al.nodes@[al.disc@[t]]) {
        Some(ch) => exists|j: int|
            0 <= j < al.edges@[al.disc@[t]]@.len() && 0 <= j < ch.len() && (
            #[trigger] al.edges@[al.disc@[t]]@[j]).target.0 == t && ch[j].scope == al.scopes@[t]
                && ch[j].addr == al.nodes@[t],
        None => true,
    }
}

/// The whole tie between the finished adjacency list and the documents it
/// was built from: the sentinel's one edge reaches the root value; every
/// non-sentinel node's edge list matches its value's child list under the
/// node's recorded scope; and every recorded scope is handed down from the
/// discoverer's child list, starting from the empty stack at the root.
pub open spec fn traversal_ok(
    docs: &Documents,
    registry: &Registry,
    root: &Resolver,
    al: &AdjacencyList,
) -> bool {
    &&& al.scopes@.len() == al.nodes@.len()
    &&& al.nodes@.len() >= 2
    &&& al.nodes@[1] == (Addr { doc: root.doc, idx: 0 })
    &&& al.scopes@[1] == (ScopeView { folders: Seq::<Seq<char>>::empty(), resolver: *root })
    &&& al.edges@[0]@.len() == 1
    &&& al.edges@[0]@[0] == (Edge { label: EdgeLabel::Index(0), target: NodeId(1) })
    &&& forall|n: int|
        1 <= n < al.nodes@.len() ==> #[trigger] expansion_ok(docs, registry, al, n)
    &&& forall|t: int|
        1 <= t < al.nodes@.len() && al.disc@[t] != 0 ==> #[trigger] scope_grounded(
            docs,
            registry,
            al,
            t,
        )
}

/// Step `i` of a path is one of the children the previous position's value
/// offers, judged member by member so that one sibling's failure does not
/// unmake another's membership.
/// The value at `pa`, traversed under `psc`, offers `rec` as one of its
/// children, judged member by member so that one sibling's failure does not
/// unmake another's membership.
pub open spec fn child_offered(
    docs: &Documents,
    registry: &Registry,
    pa: Addr,
    psc: ScopeView,
    rec: ChildRec,
) -> bool {
    &&& docs.addr_ok(pa)
    &&& match docs.spec_value_at(pa) {
        JsonValue::Obj(members) => exists|mj: int|
            0 <= mj < members@.len() && #[trigger] spec_member_child(
                docs,
                registry,
                spec_expansion_scope(docs, psc, pa),
                pa.doc as int,
                members@[mj],
            ) == ChildOutcome::Child(rec),
        JsonValue::Arr(items) => exists|k: int|
            0 <= k < items@.len() && #[trigger] spec_arr_children(psc, pa.doc as int, items@, 0)[k]
                == rec,
        _ => false,
    }
}

pub open spec fn path_step_ok(
    docs: &Documents,
    registry: &Registry,
    root: &Resolver,
    path: Seq<ChildRec>,
    i: int,
) -> bool {
    if i == 0 {
        child_offered(
            docs,
            registry,
            Addr { doc: root.doc, idx: 0 },
            ScopeView { folders: Seq::<Seq<char>>::empty(), resolver: *root },
            path[i],
        )
    } else {
        child_offered(docs, registry, path[i - 1].addr, path[i - 1].scope, path[i])
    }
}

/// A chain of child steps from the root document's value.
pub open spec fn spec_path_ok(
    docs: &Documents,
    registry: &Registry,
    root: &Resolver,
    path: Seq<ChildRec>,
) -> bool {
    forall|i: int| 0 <= i < path.len() ==> #[trigger] path_step_ok(docs, registry, root, path, i)
}

/// Where a path ends: the root document's value for the empty path.
pub open spec fn spec_path_end(root: &Resolver, path: Seq<ChildRec>) -> (Addr, ScopeView) {
    if path.len() == 0 {
        (
            Addr { doc: root.doc, idx: 0 },
            ScopeView { folders: Seq::<Seq<char>>::empty(), resolver: *root },
        )
    } else {
        (path.last().addr, path.last().scope)
    }
}

/// The expansion of the value at `a` under scope `sc` hits a reference that
/// fails to resolve.
pub open spec fn spec_expansion_fails(
    docs: &Documents,
    registry: &Registry,
    sc: ScopeView,
    a: Addr,
) -> bool {
    match docs.spec_value_at(a) {
        JsonValue::Obj(members) => exists|mj: int|
            0 <= mj < members@.len() && (#[trigger] spec_member_child(
                docs,
                registry,
                spec_expansion_scope(docs, sc, a),
                a.doc as int,
                members@[mj],
            )) is Fail,
        _ => false,
    }
}

/// Some value reachable from the root document carries a reference that
/// fails to resolve: the exact condition under which building the adjacency
/// list is allowed to abort.
pub open spec fn spec_resolution_fails(docs: &Documents, registry: &Registry, root: &Resolver) -> bool {
    exists|path: Seq<ChildRec>|
        #[trigger] spec_path_ok(docs, registry, root, path) && spec_expansion_fails(
            docs,
            registry,
            spec_path_end(root, path).1,
            spec_path_end(root, path).0,
        )
}

/// Extending a valid path by one child of its endpoint keeps it valid.
proof fn lemma_path_extend(
    docs: &Documents,
    registry: &Registry,
    root: &Resolver,
    path: Seq<ChildRec>,
    rec: ChildRec,
)
    requires
        spec_path_ok(docs, registry, root, path),
        path_step_ok(docs, registry, root, path.push(rec), path.len() as int),
    ensures
        spec_path_ok(docs, registry, root, path.push(rec)),
        spec_path_end(root, path.push(rec)) == (rec.addr, rec.scope),
{
    let p2 = path.push(rec);
    assert forall|i: int|
        0 <= i < p2.len() implies #[trigger] path_step_ok(docs, registry, root, p2, i) by {
        if i < path.len() {
            assert(path_step_ok(docs, registry, root, path, i));
            assert(p2[i] == path[i]);
            if i > 0 {
                assert(p2[i - 1] == path[i - 1]);
                assert(child_offered(docs, registry, path[i - 1].addr, path[i - 1].scope, path[i]));
            }
        } else {
            assert(i == path.len());
            assert(p2[i] == rec);
            if i > 0 {
                assert(p2[i - 1] == path[i - 1]);
            }
        }
    }
    assert(p2.last() == rec);
}

/// The progress of one object expansion: the edges recorded so far are the
/// child list's prefix, and what remains is the members' tail contribution.
spec fn obj_progress_row(
    docs: &Documents,
    registry: &Registry,
    nodes: Seq<Addr>,
    row: Seq<Edge>,
    scx: ScopeView,
    d: int,
    members: Seq<Member>,
    mi: int,
) -> bool {
    let overall = spec_obj_children(docs, registry, scx, d, members, 0);
    let rest = spec_obj_children(docs, registry, scx, d, members, mi);
    &&& (overall is Some <==> rest is Some)
    &&& match overall {
        Some(ch) => match rest {
            Some(rs) => {
                &&& ch.len() == row.len() + rs.len()
                &&& forall|j: int|
                    0 <= j < row.len() ==> (#[trigger] row[j]).label == ch[j].label
                        && nodes[row[j].target.0 as int] == ch[j].addr
                &&& forall|x: int| 0 <= x < rs.len() ==> ch[row.len() + x] == #[trigger] rs[x]
            },
            None => false,
        },
        None => true,
    }
}

spec fn obj_progress(
    docs: &Documents,
    registry: &Registry,
    al: &AdjacencyList,
    n: int,
    scx: ScopeView,
    d: int,
    members: Seq<Member>,
    mi: int,
) -> bool {
    obj_progress_row(docs, registry, al.nodes@, al.edges@[n]@, scx, d, members, mi)
}

/// The progress of one array expansion, in the same shape.
spec fn arr_progress_row(
    nodes: Seq<Addr>,
    row: Seq<Edge>,
    sc: ScopeView,
    d: int,
    items: Seq<usize>,
    ii: int,
) -> bool {
    let ch = spec_arr_children(sc, d, items, 0);
    let rs = spec_arr_children(sc, d, items, ii);
    &&& ch.len() == row.len() + rs.len()
    &&& forall|j: int|
        0 <= j < row.len() ==> (#[trigger] row[j]).label == ch[j].label
            && nodes[row[j].target.0 as int] == ch[j].addr
    &&& forall|x: int| 0 <= x < rs.len() ==> ch[row.len() + x] == #[trigger] rs[x]
}

spec fn arr_progress(
    al: &AdjacencyList,
    n: int,
    sc: ScopeView,
    d: int,
    items: Seq<usize>,
    ii: int,
) -> bool {
    arr_progress_row(al.nodes@, al.edges@[n]@, sc, d, items, ii)
}

/// One object member's child was appended as the node's next edge: the
/// expansion progress steps forward, and when the child is fresh its
/// recorded scope is grounded in the parent's child list.
proof fn lemma_obj_step(
    docs: &Documents,
    registry: &Registry,
    al: &AdjacencyList,
    n: int,
    scx: ScopeView,
    dd: int,
    members: Seq<Member>,
    mi: int,
    rec: ChildRec,
    old_edges: Seq<Edge>,
    tid: int,
)
    requires
        0 <= mi < members.len(),
        spec_member_child(docs, registry, scx, dd, members[mi]) == ChildOutcome::Child(rec),
        0 <= n < al.edges@.len(),
        0 <= tid < al.nodes@.len(),
        al.edges@[n]@ =~= old_edges.push(Edge { label: rec.label, target: NodeId(tid as usize) }),
        al.nodes@[tid] == rec.addr,
        obj_progress_row(docs, registry, al.nodes@, old_edges, scx, dd, members, mi),
        al.scopes@.len() == al.nodes@.len(),
        0 <= n < al.nodes@.len(),
        al.nodes@[n] == al.nodes@[n],
    ensures
        obj_progress_row(docs, registry, al.nodes@, al.edges@[n]@, scx, dd, members, mi + 1),
        (al.disc@[tid] == n && al.scopes@[tid] == rec.scope && al.nodes@[n] != rec.addr
            ==> true),
        ({
            al.disc@[tid] == n && al.scopes@[tid] == rec.scope && scx == spec_expansion_scope(
                docs,
                al.scopes@[n],
                al.nodes@[n],
            ) && dd == al.nodes@[n].doc as int && (docs.spec_value_at(al.nodes@[n])
                matches JsonValue::Obj(ms) && ms@ == members) ==> scope_grounded(
                docs,
                registry,
                al,
                tid,
            )
        }),
{
    broadcast use vstd::std_specs::vec::axiom_spec_len;

    assert(vstd::std_specs::vec::spec_vec_len(&al.nodes) == al.nodes@.len());
    let overall = spec_obj_children(docs, registry, scx, dd, members, 0);
    let rs1 = spec_obj_children(docs, registry, scx, dd, members, mi);
    let rs2 = spec_obj_children(docs, registry, scx, dd, members, mi + 1);
    let ne = al.edges@[n]@;
    let ll = old_edges.len() as int;
    assert(rs1 == (match rs2 {
        Some(r2) => Some(seq![rec] + r2),
        None => None::<Seq<ChildRec>>,
    }));
    if overall is Some {
        let ch = overall->0;
        let r2 = rs2->0;
        assert(rs1 is Some);
        assert(rs2 is Some);
        assert(rs1->0 == seq![rec] + r2);
        assert(ch[ll] == rec) by {
            assert(ch[ll + 0] == rs1->0[0]);
            assert((seq![rec] + r2)[0] == rec);
        }
        assert forall|x: int| 0 <= x < r2.len() implies ch[ne.len() + x] == #[trigger] r2[x] by {
            assert(ch[ll + (x + 1)] == rs1->0[x + 1]);
            assert((seq![rec] + r2)[x + 1] == r2[x]);
        }
        assert forall|j: int|
            0 <= j < ne.len() implies (#[trigger] ne[j]).label == ch[j].label
                && al.nodes@[ne[j].target.0 as int] == ch[j].addr by {
            if j < ll {
                assert(ne[j] == old_edges[j]);
            } else {
                assert(ne[j] == Edge { label: rec.label, target: NodeId(tid as usize) });
                assert(ch[j] == rec);
            }
        }
        if al.disc@[tid] == n && al.scopes@[tid] == rec.scope && scx == spec_expansion_scope(
            docs,
            al.scopes@[n],
            al.nodes@[n],
        ) && dd == al.nodes@[n].doc as int && (docs.spec_value_at(al.nodes@[n])
            matches JsonValue::Obj(ms) && ms@ == members) {
            assert(spec_children(docs, registry, al.scopes@[n], al.nodes@[n]) == overall);
            assert(0 <= ll < ne.len() && 0 <= ll < ch.len() && ne[ll].target.0 == tid
                && ch[ll].scope == al.scopes@[tid] && ch[ll].addr == al.nodes@[tid]);
            assert(scope_grounded(docs, registry, al, tid));
        }
    } else {
        if al.disc@[tid] == n && al.scopes@[tid] == rec.scope && scx == spec_expansion_scope(
            docs,
            al.scopes@[n],
            al.nodes@[n],
        ) && dd == al.nodes@[n].doc as int && (docs.spec_value_at(al.nodes@[n])
            matches JsonValue::Obj(ms) && ms@ == members) {
            assert(spec_children(docs, registry, al.scopes@[n], al.nodes@[n]) == overall);
            assert(scope_grounded(docs, registry, al, tid));
        }
    }
}

/// The length of an array's child list from a position on.
proof fn lemma_arr_len(sc: ScopeView, d: int, items: Seq<usize>, k: int)
    requires
        0 <= k <= items.len(),
    ensures
        spec_arr_children(sc, d, items, k).len() == items.len() - k,
    decreases items.len() - k,
{
    if k < items.len() {
        lemma_arr_len(sc, d, items, k + 1);
    }
}

/// The child an array offers at each position.
proof fn lemma_arr_child_from(sc: ScopeView, d: int, items: Seq<usize>, from: int, k: int)
    requires
        0 <= from <= k < items.len(),
    ensures
        spec_arr_children(sc, d, items, from)[k - from] == (ChildRec {
            label: EdgeLabel::Index(k as usize),
            addr: Addr { doc: d as usize, idx: items[k] },
            scope: sc,
        }),
    decreases k - from,
{
    lemma_arr_len(sc, d, items, from + 1);
    if from < k {
        lemma_arr_child_from(sc, d, items, from + 1, k);
    }
}

/// The child an array offers at one position, from the start.
proof fn lemma_arr_child_at(sc: ScopeView, d: int, items: Seq<usize>, k: int)
    requires
        0 <= k < items.len(),
    ensures
        spec_arr_children(sc, d, items, 0).len() == items.len(),
        spec_arr_children(sc, d, items, 0)[k] == (ChildRec {
            label: EdgeLabel::Index(k as usize),
            addr: Addr { doc: d as usize, idx: items[k] },
            scope: sc,
        }),
{
    lemma_arr_len(sc, d, items, 0);
    lemma_arr_child_from(sc, d, items, 0, k);
}

/// One array element's child was appended as the node's next edge.
proof fn lemma_arr_step(
    docs: &Documents,
    registry: &Registry,
    al: &AdjacencyList,
    n: int,
    sc: ScopeView,
    dd: int,
    items: Seq<usize>,
    ii: int,
    rec: ChildRec,
    old_edges: Seq<Edge>,
    tid: int,
)
    requires
        0 <= ii < items.len(),
        rec == (ChildRec {
            label: EdgeLabel::Index(ii as usize),
            addr: Addr { doc: dd as usize, idx: items[ii] },
            scope: sc,
        }),
        0 <= n < al.edges@.len(),
        0 <= tid < al.nodes@.len(),
        al.edges@[n]@ =~= old_edges.push(Edge { label: rec.label, target: NodeId(tid as usize) }),
        al.nodes@[tid] == rec.addr,
        arr_progress_row(al.nodes@, old_edges, sc, dd, items, ii),
        al.scopes@.len() == al.nodes@.len(),
        0 <= n < al.nodes@.len(),
    ensures
        arr_progress_row(al.nodes@, al.edges@[n]@, sc, dd, items, ii + 1),
        ({
            al.disc@[tid] == n && al.scopes@[tid] == rec.scope && sc == al.scopes@[n] && dd
                == al.nodes@[n].doc as int && (docs.spec_value_at(al.nodes@[n])
                matches JsonValue::Arr(its) && its@ == items) ==> scope_grounded(
                docs,
                registry,
                al,
                tid,
            )
        }),
{
    broadcast use vstd::std_specs::vec::axiom_spec_len;

    assert(vstd::std_specs::vec::spec_vec_len(&al.nodes) == al.nodes@.len());
    let ch = spec_arr_children(sc, dd, items, 0);
    let rs1 = spec_arr_children(sc, dd, items, ii);
    let rs2 = spec_arr_children(sc, dd, items, ii + 1);
    let ne = al.edges@[n]@;
    let ll = old_edges.len() as int;
    assert(rs1 =~= seq![rec] + rs2);
    assert(ch[ll] == rec) by {
        assert(ch[ll + 0] == rs1[0]);
        assert((seq![rec] + rs2)[0] == rec);
    }
    assert forall|x: int| 0 <= x < rs2.len() implies ch[ne.len() + x] == #[trigger] rs2[x] by {
        assert(ch[ll + (x + 1)] == rs1[x + 1]);
        assert((seq![rec] + rs2)[x + 1] == rs2[x]);
    }
    assert forall|j: int|
        0 <= j < ne.len() implies (#[trigger] ne[j]).label == ch[j].label
            && al.nodes@[ne[j].target.0 as int] == ch[j].addr by {
        if j < ll {
            assert(ne[j] == old_edges[j]);
        } else {
            assert(ne[j] == Edge { label: rec.label, target: NodeId(tid as usize) });
            assert(ch[j] == rec);
        }
    }
    if al.disc@[tid] == n && al.scopes@[tid] == rec.scope && sc == al.scopes@[n] && dd
        == al.nodes@[n].doc as int && (docs.spec_value_at(al.nodes@[n])
        matches JsonValue::Arr(its) && its@ == items) {
        assert(spec_children(docs, registry, al.scopes@[n], al.nodes@[n]) == Some(ch));
        assert(0 <= ll < ne.len() && 0 <= ll < ch.len() && ne[ll].target.0 == tid
            && ch[ll].scope == al.scopes@[tid] && ch[ll].addr == al.nodes@[tid]);
        assert(scope_grounded(docs, registry, al, tid));
    }
}

/// Growing the structure by at most one node, without touching the rows of
/// already expanded nodes, keeps their expansions intact.
proof fn lemma_expansion_frame(
    docs: &Documents,
    registry: &Registry,
    pre: AdjacencyList,
    post: &AdjacencyList,
    hi: int,
)
    requires
        0 <= hi <= pre.nodes@.len(),
        pre.nodes@.len() <= post.nodes@.len(),
        pre.scopes@.len() == pre.nodes@.len(),
        forall|x: int| 0 <= x < pre.nodes@.len() ==> #[trigger] post.nodes@[x] == pre.nodes@[x],
        forall|x: int| 0 <= x < pre.nodes@.len() ==> #[trigger] post.scopes@[x] == pre.scopes@[x],
        forall|p: int| 0 <= p < hi ==> #[trigger] post.edges@[p]@ == pre.edges@[p]@,
        forall|p: int, j: int|
            0 <= p < pre.edges@.len() && 0 <= j < pre.edges@[p]@.len() ==> (
            #[trigger] pre.edges@[p]@[j]).target.0 < pre.nodes@.len(),
        pre.edges@.len() == pre.nodes@.len(),
        forall|n2: int| 1 <= n2 < hi ==> #[trigger] expansion_ok(docs, registry, &pre, n2),
    ensures
        forall|n2: int| 1 <= n2 < hi ==> #[trigger] expansion_ok(docs, registry, post, n2),
{
    assert forall|n2: int|
        1 <= n2 < hi implies #[trigger] expansion_ok(docs, registry, post, n2) by {
        assert(expansion_ok(docs, registry, &pre, n2));
        assert(post.scopes@[n2] == pre.scopes@[n2]);
        assert(post.nodes@[n2] == pre.nodes@[n2]);
        assert(post.edges@[n2]@ == pre.edges@[n2]@);
        match spec_children(docs, registry, pre.scopes@[n2], pre.nodes@[n2]) {
            Some(ch) => {
                assert forall|j: int|
                    0 <= j < ch.len() implies (#[trigger] post.edges@[n2]@[j]).label
                    == ch[j].label && post.nodes@[post.edges@[n2]@[j].target.0 as int]
                    == ch[j].addr by {
                    assert(pre.edges@[n2]@[j].label == ch[j].label
                        && pre.nodes@[pre.edges@[n2]@[j].target.0 as int] == ch[j].addr);
                    assert(pre.edges@[n2]@[j].target.0 < pre.nodes@.len());
                }
            },
            None => {},
        }
    }
}

/// Growing the structure by at most one node and appended edges keeps every
/// discovered node's scope grounded: the old witnesses carry over, and the
/// caller grounds the one new node itself.
proof fn lemma_grounded_frame(
    docs: &Documents,
    registry: &Registry,
    pre: AdjacencyList,
    post: &AdjacencyList,
)
    requires
        pre.disc_ok(),
        pre.scopes@.len() == pre.nodes@.len(),
        post.disc@.len() == post.nodes@.len(),
        pre.nodes@.len() <= post.nodes@.len() <= pre.nodes@.len() + 1,
        forall|x: int| 0 <= x < pre.nodes@.len() ==> #[trigger] post.nodes@[x] == pre.nodes@[x],
        forall|x: int| 0 <= x < pre.nodes@.len() ==> #[trigger] post.scopes@[x] == pre.scopes@[x],
        forall|x: int| 0 <= x < pre.nodes@.len() ==> #[trigger] post.disc@[x] == pre.disc@[x],
        post.edges@.len() >= pre.edges@.len(),
        pre.edges@.len() == pre.nodes@.len(),
        forall|p: int|
            0 <= p < pre.edges@.len() ==> (#[trigger] post.edges@[p])@.len()
                >= pre.edges@[p]@.len(),
        forall|p: int, j: int|
            0 <= p < pre.edges@.len() && 0 <= j < pre.edges@[p]@.len() ==> (
            #[trigger] post.edges@[p]@[j]) == pre.edges@[p]@[j],
        forall|t: int|
            1 <= t < pre.nodes@.len() && pre.disc@[t] != 0 ==> #[trigger] scope_grounded(
                docs,
                registry,
                &pre,
                t,
            ),
        post.nodes@.len() == pre.nodes@.len() + 1 && post.disc@[post.nodes@.len() - 1] != 0
            ==> scope_grounded(docs, registry, post, post.nodes@.len() - 1),
    ensures
        forall|t: int|
            1 <= t < post.nodes@.len() && post.disc@[t] != 0 ==> #[trigger] scope_grounded(
                docs,
                registry,
                post,
                t,
            ),
{
    assert forall|t: int|
        1 <= t < post.nodes@.len() && post.disc@[t] != 0 implies #[trigger] scope_grounded(
            docs,
            registry,
            post,
            t,
        ) by {
        if t < pre.nodes@.len() {
            assert(scope_grounded(docs, registry, &pre, t));
            let p = pre.disc@[t];
            assert(0 <= p < t);
            assert(post.disc@[t] == p);
            assert(post.scopes@[p] == pre.scopes@[p]);
            assert(post.nodes@[p] == pre.nodes@[p]);
            match spec_children(docs, registry, pre.scopes@[p], pre.nodes@[p]) {
                Some(ch) => {
                    let j = choose|j: int|
                        0 <= j < pre.edges@[p]@.len() && 0 <= j < ch.len() && (
                        #[trigger] pre.edges@[p]@[j]).target.0 == t && ch[j].scope
                            == pre.scopes@[t] && ch[j].addr == pre.nodes@[t];
                    assert(post.edges@[p]@[j] == pre.edges@[p]@[j]);
                    assert(0 <= j < post.edges@[p]@.len() && 0 <= j < ch.len()
                        && post.edges@[p]@[j].target.0 == t && ch[j].scope == post.scopes@[t]
                        && ch[j].addr == post.nodes@[t]);
                },
                None => {},
            }
        }
    }
}

/// An item of the traversal work list: a freshly allocated node waiting to
/// be expanded, the scope it was discovered under, and the chain of child
/// steps that reached it.
struct WorkItem {
    scope: Scope,
    id: usize,
    path: Ghost<Seq<ChildRec>>,
}

/// The target a reference designates, mirroring the classification done at
/// traversal time: an absolute location is resolved in its registered
/// document (or, failing registration, as a fragment of the current one); a
/// purely local fragment in the current document; any other relative
/// reference through URL joining with the scope's folder stack.
pub open spec fn spec_ref_resolution(
    docs: &Documents,
    registry: &Registry,
    folders: Seq<Seq<char>>,
    resolver: Resolver,
    rv: Seq<char>,
) -> Option<(Resolver, Seq<Seq<char>>, int)> {
    match url_parse_of(rv) {
        Some(loc) => match spec_lookup(registry.resolvers@, loc) {
            Some(res) => match spec_resolve(docs.docs@[res.doc as int].values@, rv) {
                Some((f, i)) => Some((res, f, i)),
                None => None,
            },
            None => match spec_resolve(docs.docs@[resolver.doc as int].values@, rv) {
                Some((f, i)) => Some((resolver, folders, i)),
                None => None,
            },
        },
        None => if spec_is_local(rv) {
            match spec_resolve(docs.docs@[resolver.doc as int].values@, rv) {
                Some((f, i)) => Some((resolver, f, i)),
                None => None,
            }
        } else {
            match spec_build_url(folders, resolver.base@, rv) {
                Some(loc) => if spec_doc_part(loc) == spec_doc_part(resolver.base@) {
                    match spec_resolve(docs.docs@[resolver.doc as int].values@, rv) {
                        Some((f, i)) => Some((resolver, f, i)),
                        None => None,
                    }
                } else {
                    match spec_lookup(registry.resolvers@, loc) {
                        Some(res) => match spec_resolve(docs.docs@[res.doc as int].values@, rv) {
                            Some((f, i)) => Some((res, f, i)),
                            None => None,
                        },
                        None => None,
                    }
                },
                None => None,
            }
        },
    }
}

/// Classifies and resolves one reference string under a scope, yielding the
/// scope and address of the value the reference designates.
pub fn resolve_reference(
    docs: &Documents,
    registry: &Registry,
    scope: &Scope,
    reference: &str,
) -> (r: Result<(Scope, Addr), CompileError>)
    requires
        docs.wf(),
        scope.resolver.wf(docs),
        registry.wf(docs),
    ensures
        match r {
            Ok((s2, a)) => spec_ref_resolution(
                docs,
                registry,
                scope.folders.deep_view(),
                scope.resolver,
                reference@,
            ) == Some((s2.resolver, s2.folders.deep_view(), a.idx as int)) && a.doc
                == s2.resolver.doc && docs.addr_ok(a) && s2.resolver.wf(docs),
            Err(e) => spec_ref_resolution(
                docs,
                registry,
                scope.folders.deep_view(),
                scope.resolver,
                reference@,
            ) is None && match e {
                CompileError::LocationNotFound(s) => s@ == reference@,
                CompileError::MalformedReference(s) => s@ == reference@,
                CompileError::UnknownDocument(s) => spec_build_url(
                    scope.folders.deep_view(),
                    scope.resolver.base@,
                    reference@,
                ) == Some(s@),
                _ => false,
            },
        },
{
    match parse_url(reference) {
        Some(location) => {
            match registry.lookup(location.as_str()) {
                Some(found) => {
                    proof {
                        registry.lemma_lookup_wf(docs, location@);
                    }
                    let res = found.duplicate();
                    let rdoc = res.doc;
                    match res.resolve(docs, reference) {
                        Ok((folders, idx)) => Ok(
                            (Scope::with_folders(res, folders), Addr { doc: rdoc, idx }),
                        ),
                        Err(e) => Err(e),
                    }
                },
                None => {
                    match scope.resolver.resolve(docs, reference) {
                        Ok((_, idx)) => Ok(
                            (scope.duplicate(), Addr { doc: scope.resolver.doc, idx }),
                        ),
                        Err(e) => Err(e),
                    }
                },
            }
        },
        None => {
            if is_local(reference) {
                match scope.resolver.resolve(docs, reference) {
                    Ok((folders, idx)) => {
                        let res = scope.resolver.duplicate();
                        Ok((Scope::with_folders(res, folders), Addr { doc: scope.resolver.doc, idx }))
                    },
                    Err(e) => Err(e),
                }
            } else {
                match scope.build_url(scope.resolver.base.as_str(), reference) {
                    Ok(location) => {
                        if scope.resolver.contains(location.as_str()) {
                            match scope.resolver.resolve(docs, reference) {
                                Ok((folders, idx)) => {
                                    let res = scope.resolver.duplicate();
                                    Ok(
                                        (
                                            Scope::with_folders(res, folders),
                                            Addr { doc: scope.resolver.doc, idx },
                                        ),
                                    )
                                },
                                Err(e) => Err(e),
                            }
                        } else {
                            match registry.lookup(location.as_str()) {
                                Some(found) => {
                                    proof {
                                        registry.lemma_lookup_wf(docs, location@);
                                    }
                                    let res = found.duplicate();
                                    let rdoc = res.doc;
                                    match res.resolve(docs, reference) {
                                        Ok((folders, idx)) => Ok(
                                            (
                                                Scope::with_folders(res, folders),
                                                Addr { doc: rdoc, idx },
                                            ),
                                        ),
                                        Err(e) => Err(e),
                                    }
                                },
                                None => Err(CompileError::UnknownDocument(location)),
                            }
                        }
                    },
                    Err(e) => Err(e),
                }
            }
        },
    }
}

impl AdjacencyList {
    /// Builds the adjacency list of everything reachable from the root
    /// document: a breadth-first traversal that expands each distinct value
    /// exactly once and follows reference keywords transparently. One
    /// parent's children are allocated as one batch during its expansion,
    /// before any other node's, which is what makes range addressing valid.
    #[verifier::rlimit(100)]
    #[verifier::spinoff_prover]
    pub fn new(docs: &Documents, root: &Resolver, registry: &Registry) -> (r: Result<
        AdjacencyList,
        CompileError,
    >)
        requires
            docs.wf(),
            root.wf(docs),
            registry.wf(docs),
        ensures
            match r {
                Ok(out) => out.wf(docs) && out.disc_ok() && out.nodes@.len() <= docs.total_values()
                    + 1 && traversal_ok(docs, registry, root, &out),
                Err(e) => spec_resolution_fails(docs, registry, root) && (e
                    matches CompileError::LocationNotFound(_) || e
                    matches CompileError::MalformedReference(_) || e
                    matches CompileError::UnknownDocument(_)),
            },
    {
        let mut out = AdjacencyList::empty(docs);
        let root_addr = Addr { doc: root.doc, idx: 0 };
        let root_scope = Scope::new(root.duplicate());
        let ghost rsv = ScopeView {
            folders: root_scope.folders.deep_view(),
            resolver: root_scope.resolver,
        };
        let root_slot = out.push(docs, NodeId(0), EdgeLabel::Index(0), root_addr, Ghost(rsv));
        proof {
            assert(root_slot.id.0 == 1);
        }
        proof {
            assert(root_scope.folders.deep_view() =~~= Seq::<Seq<char>>::empty());
            assert(out.scopes@[1] == ScopeView {
                folders: Seq::<Seq<char>>::empty(),
                resolver: *root,
            });
        }
        let mut queue: Vec<WorkItem> = Vec::new();
        let ghost empty_path: Seq<ChildRec> = Seq::empty();
        queue.push(WorkItem { scope: root_scope, id: 1, path: Ghost(empty_path) });
        let mut head: usize = 0;
        proof {
            lemma_table_le(out.visited@, docs.docs@);
            assert(spec_path_ok(docs, registry, root, empty_path));
        }
        while head < queue.len()
            invariant
                docs.wf(),
                root.wf(docs),
                registry.wf(docs),
                out.wf(docs),
                out.count_ok(),
                out.disc_ok(),
                out.scopes@.len() == out.nodes@.len(),
                out.nodes@.len() >= 2,
                out.nodes@[1] == (Addr { doc: root.doc, idx: 0 }),
                out.scopes@[1] == (ScopeView {
                    folders: Seq::<Seq<char>>::empty(),
                    resolver: *root,
                }),
                out.edges@[0]@.len() == 1,
                out.edges@[0]@[0] == (Edge { label: EdgeLabel::Index(0), target: NodeId(1) }),
                queue@.len() == out.nodes@.len() - 1,
                head <= queue@.len(),
                forall|k: int| 0 <= k < queue@.len() ==> (#[trigger] queue@[k]).id == k + 1,
                forall|k: int|
                    0 <= k < queue@.len() ==> {
                        let it = #[trigger] queue@[k];
                        it.scope.resolver.wf(docs) && it.scope.resolver == out.scopes@[k
                            + 1].resolver && it.scope.folders.deep_view() == out.scopes@[k
                            + 1].folders
                    },
                forall|k: int|
                    0 <= k < queue@.len() ==> spec_path_ok(
                        docs,
                        registry,
                        root,
                        (#[trigger] queue@[k]).path@,
                    ) && spec_path_end(root, queue@[k].path@) == (
                    out.nodes@[k + 1],
                    out.scopes@[k + 1],
                ),
                forall|t: int|
                    1 <= t < out.nodes@.len() && out.disc@[t] != 0 ==> #[trigger] scope_grounded(
                        docs,
                        registry,
                        &out,
                        t,
                    ),
                out.disc@[out.nodes@.len() - 1] <= head as int,
                forall|n2: int|
                    1 <= n2 <= head ==> #[trigger] expansion_ok(docs, registry, &out, n2),
                forall|n2: int|
                    head < n2 < out.nodes@.len() ==> (#[trigger] out.edges@[n2])@.len() == 0,
            decreases total_values_of(docs.docs@) + 1 - out.nodes@.len(), queue.len() - head,
        {
            proof {
                lemma_table_le(out.visited@, docs.docs@);
            }
            let n = queue[head].id;
            let scope = queue[head].scope.duplicate();
            let ghost path = queue@[head as int].path@;
            head += 1;
            proof {
                assert(queue@[head - 1].id == head as int);
            }
            let addr = out.nodes[n];
            let ghost nodes0 = out.nodes@.len() as int;
            let ghost sc0 = out.scopes@[n as int];
            proof {
                assert(spec_path_end(root, path) == (addr, sc0));
                assert(out.edges@[n as int]@.len() == 0);
            }
            let doc = &docs.docs[addr.doc];
            match &doc.values[addr.idx] {
                JsonValue::Obj(members) => {
                    let mut scope2 = scope;
                    scope2.track_folder(doc, members);
                    let ghost scx = spec_expansion_scope(docs, sc0, addr);
                    let ghost dd = addr.doc as int;
                    proof {
                        assert(scope2.folders.deep_view() == scx.folders);
                        assert(scope2.resolver == scx.resolver);
                        assert(obj_progress(docs, registry, &out, n as int, scx, dd, members@, 0))
                            by {
                            match spec_obj_children(docs, registry, scx, dd, members@, 0) {
                                Some(ch) => {
                                    assert(ch.skip(0) =~= ch);
                                },
                                None => {},
                            }
                        }
                    }
                    let mut mi: usize = 0;
                    while mi < members.len()
                        invariant
                            docs.wf(),
                            root.wf(docs),
                            registry.wf(docs),
                            out.wf(docs),
                            out.count_ok(),
                            out.disc_ok(),
                            out.scopes@.len() == out.nodes@.len(),
                            out.nodes@.len() >= 2,
                            out.nodes@[1] == (Addr { doc: root.doc, idx: 0 }),
                            out.scopes@[1] == (ScopeView {
                                folders: Seq::<Seq<char>>::empty(),
                                resolver: *root,
                            }),
                            out.edges@[0]@.len() == 1,
                            out.edges@[0]@[0] == (Edge { label: EdgeLabel::Index(0), target: NodeId(1) }),
                            queue@.len() == out.nodes@.len() - 1,
                            head <= queue@.len(),
                            forall|k: int| 0 <= k < queue@.len() ==> (#[trigger] queue@[k]).id == k + 1,
                            forall|k: int|
                                0 <= k < queue@.len() ==> {
                                    let it = #[trigger] queue@[k];
                                    it.scope.resolver.wf(docs) && it.scope.resolver == out.scopes@[k
                                        + 1].resolver && it.scope.folders.deep_view() == out.scopes@[k
                                        + 1].folders
                                },
                            forall|k: int|
                                0 <= k < queue@.len() ==> spec_path_ok(
                                    docs,
                                    registry,
                                    root,
                                    (#[trigger] queue@[k]).path@,
                                ) && spec_path_end(root, queue@[k].path@) == (
                                out.nodes@[k + 1],
                                out.scopes@[k + 1],
                            ),
                            forall|t: int|
                                1 <= t < out.nodes@.len() && out.disc@[t] != 0 ==> #[trigger] scope_grounded(
                                    docs,
                                    registry,
                                    &out,
                                    t,
                                ),
                            1 <= n,
                            n as int == head as int,
                            nodes0 <= out.nodes@.len(),
                            addr == out.nodes@[n as int],
                            docs.addr_ok(addr),
                            sc0 == out.scopes@[n as int],
                            doc.values@ == docs.docs@[addr.doc as int].values@,
                            dd == addr.doc as int,
                            docs.spec_value_at(addr) == JsonValue::Obj(*members),
                            scx == spec_expansion_scope(docs, sc0, addr),
                            scope2.folders.deep_view() == scx.folders,
                            scope2.resolver == scx.resolver,
                            scope2.resolver.wf(docs),
                            spec_path_ok(docs, registry, root, path),
                            spec_path_end(root, path) == (addr, sc0),
                            0 <= mi <= members@.len(),
                            obj_progress(docs, registry, &out, n as int, scx, dd, members@, mi as int),
                            out.disc@[out.nodes@.len() - 1] <= n as int,
                            forall|n2: int|
                                1 <= n2 < n ==> #[trigger] expansion_ok(docs, registry, &out, n2),
                            forall|n2: int|
                                (n as int) < n2 < out.nodes@.len() ==> (
                                #[trigger] out.edges@[n2])@.len() == 0,
                        decreases members@.len() - mi,
                    {
                        let m = &members[mi];
                        let ghost mrec = spec_member_child(
                            docs,
                            registry,
                            scx,
                            dd,
                            members@[mi as int],
                        );
                        let ghost old_edges = out.edges@[n as int]@;
                        if str_eq(m.key.as_str(), "$ref") {
                            match &doc.values[m.value] {
                                JsonValue::Str(reference) => {
                                    match resolve_reference(
                                        docs,
                                        registry,
                                        &scope2,
                                        reference.as_str(),
                                    ) {
                                        Ok((nscope, naddr)) => {
                                            let ghost rec = ChildRec {
                                                label: EdgeLabel::Key(members@[mi as int].key),
                                                addr: naddr,
                                                scope: ScopeView {
                                                    folders: nscope.folders.deep_view(),
                                                    resolver: nscope.resolver,
                                                },
                                            };
                                            proof {
                                                assert(mrec == ChildOutcome::Child(rec));
                                            }
                                            let ghost pre = out;
                                            let slot = out.push(
                                                docs,
                                                NodeId(n),
                                                EdgeLabel::Key(m.key.clone()),
                                                naddr,
                                                Ghost(rec.scope),
                                            );
                                            proof {
                                                lemma_obj_step(
                                                    docs,
                                                    registry,
                                                    &out,
                                                    n as int,
                                                    scx,
                                                    dd,
                                                    members@,
                                                    mi as int,
                                                    rec,
                                                    old_edges,
                                                    slot.id.0 as int,
                                                );
                                                lemma_grounded_frame(docs, registry, pre, &out);
                            lemma_expansion_frame(docs, registry, pre, &out, n as int);
                                lemma_expansion_frame(docs, registry, pre, &out, n as int);
                                                lemma_expansion_frame(
                                                    docs,
                                                    registry,
                                                    pre,
                                                    &out,
                                                    n as int,
                                                );
                                            }
                                            if slot.is_new() {
                                                proof {
                                                    assert(path_step_ok(
                                                        docs,
                                                        registry,
                                                        root,
                                                        path.push(rec),
                                                        path.len() as int,
                                                    ));
                                                    lemma_path_extend(
                                                        docs,
                                                        registry,
                                                        root,
                                                        path,
                                                        rec,
                                                    );
                                                }
                                                queue.push(
                                                    WorkItem {
                                                        scope: nscope,
                                                        id: slot.id.value(),
                                                        path: Ghost(path.push(rec)),
                                                    },
                                                );
                                            }
                                        },
                                        Err(e) => {
                                            proof {
                                                assert(mrec is Fail);
                                                assert(spec_expansion_fails(
                                                    docs,
                                                    registry,
                                                    sc0,
                                                    addr,
                                                ));
                                                assert(spec_resolution_fails(
                                                    docs,
                                                    registry,
                                                    root,
                                                ));
                                            }
                                            return Err(e);
                                        },
                                    }
                                },
                                _ => {
                                    proof {
                                        assert(mrec is Skip);
                                    }
                                },
                            }
                        } else {
                            let child_addr = Addr { doc: addr.doc, idx: m.value };
                            let ghost rec = ChildRec {
                                label: EdgeLabel::Key(members@[mi as int].key),
                                addr: child_addr,
                                scope: scx,
                            };
                            proof {
                                assert(mrec == ChildOutcome::Child(rec));
                            }
                            let ghost pre = out;
                            proof {
                                assert(docs.docs@[addr.doc as int].wf());
                                assert(crate::json::value_wf(
                                    docs.spec_value_at(addr),
                                    docs.docs@[addr.doc as int].values@.len() as nat,
                                ));
                                assert(docs.addr_ok(child_addr));
                            }
                            let slot = out.push(
                                docs,
                                NodeId(n),
                                EdgeLabel::Key(m.key.clone()),
                                child_addr,
                                Ghost(scx),
                            );
                            proof {
                                lemma_obj_step(
                                    docs,
                                    registry,
                                    &out,
                                    n as int,
                                    scx,
                                    dd,
                                    members@,
                                    mi as int,
                                    rec,
                                    old_edges,
                                    slot.id.0 as int,
                                );
                                lemma_grounded_frame(docs, registry, pre, &out);
                            lemma_expansion_frame(docs, registry, pre, &out, n as int);
                                lemma_expansion_frame(docs, registry, pre, &out, n as int);
                            }
                            if slot.is_new() {
                                proof {
                                    assert(path_step_ok(
                                        docs,
                                        registry,
                                        root,
                                        path.push(rec),
                                        path.len() as int,
                                    ));
                                    lemma_path_extend(docs, registry, root, path, rec);
                                }
                                queue.push(
                                    WorkItem {
                                        scope: scope2.duplicate(),
                                        id: slot.id.value(),
                                        path: Ghost(path.push(rec)),
                                    },
                                );
                            }
                        }
                        mi += 1;
                    }
                    proof {
                        assert(expansion_ok(docs, registry, &out, n as int)) by {
                            assert(spec_obj_children(
                                docs,
                                registry,
                                scx,
                                dd,
                                members@,
                                members@.len() as int,
                            ) == Some(Seq::<ChildRec>::empty()));
                            match spec_obj_children(docs, registry, scx, dd, members@, 0) {
                                Some(ch) => {
                                    assert(ch.skip(out.edges@[n as int]@.len() as int)
                                        =~= Seq::<ChildRec>::empty());
                                },
                                None => {},
                            }
                        }
                    }
                },
                JsonValue::Arr(items) => {
                    let ghost dd = addr.doc as int;
                    proof {
                        assert(spec_expansion_scope(docs, sc0, addr) == sc0);
                        assert(arr_progress(&out, n as int, sc0, dd, items@, 0)) by {
                            assert(spec_arr_children(sc0, dd, items@, 0).skip(0)
                                =~= spec_arr_children(sc0, dd, items@, 0));
                        }
                    }
                    let mut ii: usize = 0;
                    while ii < items.len()
                        invariant
                            docs.wf(),
                            root.wf(docs),
                            registry.wf(docs),
                            out.wf(docs),
                            out.count_ok(),
                            out.disc_ok(),
                            out.scopes@.len() == out.nodes@.len(),
                            out.nodes@.len() >= 2,
                            out.nodes@[1] == (Addr { doc: root.doc, idx: 0 }),
                            out.scopes@[1] == (ScopeView {
                                folders: Seq::<Seq<char>>::empty(),
                                resolver: *root,
                            }),
                            out.edges@[0]@.len() == 1,
                            out.edges@[0]@[0] == (Edge { label: EdgeLabel::Index(0), target: NodeId(1) }),
                            queue@.len() == out.nodes@.len() - 1,
                            head <= queue@.len(),
                            forall|k: int| 0 <= k < queue@.len() ==> (#[trigger] queue@[k]).id == k + 1,
                            forall|k: int|
                                0 <= k < queue@.len() ==> {
                                    let it = #[trigger] queue@[k];
                                    it.scope.resolver.wf(docs) && it.scope.resolver == out.scopes@[k
                                        + 1].resolver && it.scope.folders.deep_view() == out.scopes@[k
                                        + 1].folders
                                },
                            forall|k: int|
                                0 <= k < queue@.len() ==> spec_path_ok(
                                    docs,
                                    registry,
                                    root,
                                    (#[trigger] queue@[k]).path@,
                                ) && spec_path_end(root, queue@[k].path@) == (
                                out.nodes@[k + 1],
                                out.scopes@[k + 1],
                            ),
                            forall|t: int|
                                1 <= t < out.nodes@.len() && out.disc@[t] != 0 ==> #[trigger] scope_grounded(
                                    docs,
                                    registry,
                                    &out,
                                    t,
                                ),
                            1 <= n,
                            n as int == head as int,
                            nodes0 <= out.nodes@.len(),
                            addr == out.nodes@[n as int],
                            docs.addr_ok(addr),
                            sc0 == out.scopes@[n as int],
                            dd == addr.doc as int,
                            docs.spec_value_at(addr) == JsonValue::Arr(*items),
                            scope.folders.deep_view() == sc0.folders,
                            scope.resolver == sc0.resolver,
                            scope.resolver.wf(docs),
                            spec_path_ok(docs, registry, root, path),
                            spec_path_end(root, path) == (addr, sc0),
                            0 <= ii <= items@.len(),
                            arr_progress(&out, n as int, sc0, dd, items@, ii as int),
                            out.disc@[out.nodes@.len() - 1] <= n as int,
                            forall|n2: int|
                                1 <= n2 < n ==> #[trigger] expansion_ok(docs, registry, &out, n2),
                            forall|n2: int|
                                (n as int) < n2 < out.nodes@.len() ==> (
                                #[trigger] out.edges@[n2])@.len() == 0,
                        decreases items@.len() - ii,
                    {
                        let child_addr = Addr { doc: addr.doc, idx: items[ii] };
                        let ghost rec = ChildRec {
                            label: EdgeLabel::Index(ii),
                            addr: child_addr,
                            scope: sc0,
                        };
                        let ghost old_edges = out.edges@[n as int]@;
                        let ghost pre = out;
                        proof {
                            assert(docs.docs@[addr.doc as int].wf());
                            assert(crate::json::value_wf(
                                docs.spec_value_at(addr),
                                docs.docs@[addr.doc as int].values@.len() as nat,
                            ));
                            assert(docs.addr_ok(child_addr));
                        }
                        let slot = out.push(
                            docs,
                            NodeId(n),
                            EdgeLabel::Index(ii),
                            child_addr,
                            Ghost(sc0),
                        );
                        proof {
                            lemma_arr_step(
                                docs,
                                registry,
                                &out,
                                n as int,
                                sc0,
                                dd,
                                items@,
                                ii as int,
                                rec,
                                old_edges,
                                slot.id.0 as int,
                            );
                            lemma_grounded_frame(docs, registry, pre, &out);
                            lemma_expansion_frame(docs, registry, pre, &out, n as int);
                        }
                        if slot.is_new() {
                            proof {
                                assert(path_step_ok(
                                    docs,
                                    registry,
                                    root,
                                    path.push(rec),
                                    path.len() as int,
                                )) by {
                                    lemma_arr_child_at(sc0, dd, items@, ii as int);
                                }
                                lemma_path_extend(docs, registry, root, path, rec);
                            }
                            queue.push(
                                WorkItem {
                                    scope: scope.duplicate(),
                                    id: slot.id.value(),
                                    path: Ghost(path.push(rec)),
                                },
                            );
                        }
                        ii += 1;
                    }
                    proof {
                        assert(expansion_ok(docs, registry, &out, n as int)) by {
                            assert(spec_arr_children(sc0, dd, items@, items@.len() as int)
                                =~= Seq::<ChildRec>::empty());
                            assert(spec_arr_children(sc0, dd, items@, 0).skip(
                                out.edges@[n as int]@.len() as int,
                            ) =~= Seq::<ChildRec>::empty());
                        }
                    }
                },
                _ => {
                    proof {
                        assert(expansion_ok(docs, registry, &out, n as int)) by {
                            assert(spec_children(docs, registry, sc0, addr) == Some(
                                Seq::<ChildRec>::empty(),
                            ));
                        }
                    }
                },
            }
            proof {
                lemma_table_le(out.visited@, docs.docs@);
            }
        }
        proof {
            lemma_table_le(out.visited@, docs.docs@);
            assert(traversal_ok(docs, registry, root, &out));
        }
        Ok(out)
    }
}

/// Deduplication, stated over the finished structure: two non-sentinel nodes
/// holding the same value address are the same node, so an edge target is
/// determined by the value it reaches.
pub proof fn lemma_dedup(al: &AdjacencyList, docs: &Documents, n1: int, n2: int)
    requires
        al.wf(docs),
        1 <= n1 < al.nodes@.len(),
        1 <= n2 < al.nodes@.len(),
        al.nodes@[n1] == al.nodes@[n2],
    ensures
        n1 == n2,
{
    broadcast use vstd::std_specs::vec::axiom_spec_len;

    let a = al.nodes@[n1];
    assert(vstd::std_specs::vec::spec_vec_len(&al.nodes) == al.nodes@.len());
    assert(al.visited@[a.doc as int]@[a.idx as int] == Some(n1 as usize));
    assert(al.visited@[a.doc as int]@[a.idx as int] == Some(n2 as usize));
}

/// Idempotence of deduplication, in edge form: two edges, wherever they
/// originate, that reach the same underlying value target the same node.
pub proof fn lemma_edges_share_target(
    al: &AdjacencyList,
    docs: &Documents,
    p1: int,
    j1: int,
    p2: int,
    j2: int,
)
    requires
        al.wf(docs),
        0 <= p1 < al.edges@.len(),
        0 <= j1 < al.edges@[p1]@.len(),
        0 <= p2 < al.edges@.len(),
        0 <= j2 < al.edges@[p2]@.len(),
        al.nodes@[al.edges@[p1]@[j1].target.0 as int] == al.nodes@[al.edges@[p2]@[j2].target.0 as int],
    ensures
        al.edges@[p1]@[j1].target == al.edges@[p2]@[j2].target,
{
    lemma_dedup(
        al,
        docs,
        al.edges@[p1]@[j1].target.0 as int,
        al.edges@[p2]@[j2].target.0 as int,
    );
}

/// Within one parent's edge list whose targets were all discovered by that
/// parent and are pairwise distinct, targets strictly increase.
proof fn lemma_targets_increase(docs: &Documents, al: &AdjacencyList, p: int)
    requires
        al.wf(docs),
        al.disc_ok(),
        0 <= p < al.edges@.len(),
        forall|j: int|
            0 <= j < al.edges@[p]@.len() ==> al.disc@[(#[trigger] al.edges@[p]@[j]).target.0
                as int] == p,
        forall|j1: int, j2: int|
            0 <= j1 < j2 < al.edges@[p]@.len() ==> (#[trigger] al.edges@[p]@[j1]).target.0 != (
            #[trigger] al.edges@[p]@[j2]).target.0,
    ensures
        forall|j1: int, j2: int|
            0 <= j1 < j2 < al.edges@[p]@.len() ==> (#[trigger] al.edges@[p]@[j1]).target.0 < (
            #[trigger] al.edges@[p]@[j2]).target.0,
{
    assert forall|j1: int, j2: int|
        0 <= j1 < j2 < al.edges@[p]@.len() implies (#[trigger] al.edges@[p]@[j1]).target.0 < (
        #[trigger] al.edges@[p]@[j2]).target.0 by {
        assert(al.edges@[p]@[j1].target.0 <= al.edges@[p]@[j2].target.0 || exists|j0: int|
            0 <= j0 < j2 && al.edges@[p]@[j0].target.0 == al.edges@[p]@[j2].target.0);
        if !(al.edges@[p]@[j1].target.0 <= al.edges@[p]@[j2].target.0) {
            let j0 = choose|j0: int|
                0 <= j0 < j2 && al.edges@[p]@[j0].target.0 == al.edges@[p]@[j2].target.0;
            assert(al.edges@[p]@[j0].target.0 != al.edges@[p]@[j2].target.0);
        }
    }
}

/// Under the same hypotheses, consecutive edges of the parent hit
/// consecutive node indices.
proof fn lemma_targets_consecutive(docs: &Documents, al: &AdjacencyList, p: int)
    requires
        al.wf(docs),
        al.disc_ok(),
        0 <= p < al.edges@.len(),
        forall|j: int|
            0 <= j < al.edges@[p]@.len() ==> al.disc@[(#[trigger] al.edges@[p]@[j]).target.0
                as int] == p,
        forall|j1: int, j2: int|
            0 <= j1 < j2 < al.edges@[p]@.len() ==> (#[trigger] al.edges@[p]@[j1]).target.0 != (
            #[trigger] al.edges@[p]@[j2]).target.0,
    ensures
        forall|j: int|
            0 <= j < al.edges@[p]@.len() - 1 ==> (#[trigger] al.edges@[p]@[j + 1]).target.0
                == al.edges@[p]@[j].target.0 + 1,
{
    lemma_targets_increase(docs, al, p);
    assert forall|j: int|
        0 <= j < al.edges@[p]@.len() - 1 implies (#[trigger] al.edges@[p]@[j + 1]).target.0
        == al.edges@[p]@[j].target.0 + 1 by {
        let tj = al.edges@[p]@[j].target.0 as int;
        let tj1 = al.edges@[p]@[j + 1].target.0 as int;
        assert(tj < tj1);
        if tj + 1 < tj1 {
            let u = tj + 1;
            assert(1 <= tj && tj1 < al.nodes@.len());
            assert(al.disc@[tj] == p && al.disc@[tj1] == p);
            assert(al.disc@[tj] <= al.disc@[u]);
            assert(al.disc@[u] <= al.disc@[tj1]);
            assert(al.disc@[u] == p);
            assert(al.has_discovery_edge(u));
            let ju = choose|ju: int|
                0 <= ju < al.edges@[al.disc@[u]]@.len()
                    && (#[trigger] al.edges@[al.disc@[u]]@[ju]).target.0 == u;
            assert(al.edges@[p]@[ju].target.0 == u);
            if ju < j {
                assert(al.edges@[p]@[ju].target.0 < al.edges@[p]@[j].target.0);
            } else if ju == j {
            } else if ju == j + 1 {
            } else {
                assert(al.edges@[p]@[j + 1].target.0 < al.edges@[p]@[ju].target.0);
            }
        }
    }
}

/// The first targets of the run grow one by one from the first edge's.
proof fn lemma_targets_linear(docs: &Documents, al: &AdjacencyList, p: int, j: int)
    requires
        al.wf(docs),
        al.disc_ok(),
        0 <= p < al.edges@.len(),
        0 <= j < al.edges@[p]@.len(),
        forall|j2: int|
            0 <= j2 < al.edges@[p]@.len() - 1 ==> (#[trigger] al.edges@[p]@[j2 + 1]).target.0
                == al.edges@[p]@[j2].target.0 + 1,
    ensures
        al.edges@[p]@[j].target.0 == al.edges@[p]@[0].target.0 + j,
    decreases j,
{
    if j > 0 {
        lemma_targets_linear(docs, al, p, j - 1);
        assert(al.edges@[p]@[(j - 1) + 1].target.0 == al.edges@[p]@[j - 1].target.0 + 1);
    }
}

/// Contiguity: when a node's direct children were each discovered by it and
/// no two edges share a target, the derived child range's length equals the
/// number of direct edges, and the range's indices are exactly the edges'
/// targets, each at its own offset: index `start + j` is edge `j`'s child.
/// The two hypotheses carve out exactly the inputs on which no such range
/// exists: an edge that re-targets a value already visited along another
/// path (a reference to a sibling's subtree, say) either duplicates one of
/// the node's own targets or points outside the run of children this node
/// discovered, and the first and last edge then no longer bound the
/// children alone.
pub proof fn lemma_contiguity(docs: &Documents, al: &AdjacencyList, p: int)
    requires
        al.wf(docs),
        al.disc_ok(),
        0 <= p < al.edges@.len(),
        al.edges@[p]@.len() >= 1,
        forall|j: int|
            0 <= j < al.edges@[p]@.len() ==> al.disc@[(#[trigger] al.edges@[p]@[j]).target.0
                as int] == p,
        forall|j1: int, j2: int|
            0 <= j1 < j2 < al.edges@[p]@.len() ==> (#[trigger] al.edges@[p]@[j1]).target.0 != (
            #[trigger] al.edges@[p]@[j2]).target.0,
    ensures
        al.spec_range_of(p).end == al.spec_range_of(p).start + al.edges@[p]@.len(),
        forall|j: int|
            0 <= j < al.edges@[p]@.len() ==> (#[trigger] al.edges@[p]@[j]).target.0
                == al.spec_range_of(p).start + j,
{
    broadcast use vstd::std_specs::vec::axiom_spec_len;

    lemma_targets_consecutive(docs, al, p);
    assert(vstd::std_specs::vec::spec_vec_len(&al.nodes) == al.nodes@.len());
    let len = al.edges@[p]@.len() as int;
    assert forall|j: int|
        0 <= j < al.edges@[p]@.len() implies (#[trigger] al.edges@[p]@[j]).target.0
        == al.spec_range_of(p).start + j by {
        lemma_targets_linear(docs, al, p, j);
    }
    lemma_targets_linear(docs, al, p, len - 1);
    assert(al.edges@[p]@.last() == al.edges@[p]@[len - 1]);
}

} // verus!
