//! The second pass and the compactor: keyword positions are recognized by
//! edge label, each recognized position gets a typed keyword built from the
//! raw value (aggregating keywords get a contiguous child index range), and
//! structural slots holding no keyword are then compacted away with all
//! indices renumbered.

use vstd::prelude::*;
use vstd::string::StrSliceExecFns;
use crate::adjacency::{
    AdjacencyList, Edge, EdgeLabel, NodeRange, RangedEdge, spec_resolution_fails, traversal_ok,
};
use crate::errors::CompileError;
use crate::json::{Documents, JsonValue};
use crate::text::str_eq;

verus! {

/// The closed set of type names the type keyword accepts.
#[derive(Debug, Clone, Copy, PartialEq, Eq, Structural)]
pub enum ValueType {
    Array,
    Boolean,
    Integer,
    Null,
    Number,
    Object,
    Str,
}

/// A typed, constructed schema keyword, as stored in the compiled graph.
/// Aggregating keywords carry the contiguous index range of their children.
#[derive(Debug, Clone, Copy, PartialEq, Eq, Structural)]
pub enum Keyword {
    AllOf(NodeRange),
    /// The items keyword is recognized but carries no child range yet: its
    /// representation is deliberately a bare marker, and giving it the
    /// range treatment of the other aggregators is left as a later,
    /// type-changing extension.
    Items,
    MaxLength(u64),
    Maximum(u64),
    MinProperties(u64),
    Properties(NodeRange),
    Ref(NodeRange),
    Type(ValueType),
}

/// What the type keyword's string value names, if anything.
pub open spec fn spec_type_of_name(s: Seq<char>) -> Option<ValueType> {
    if s == "array"@ {
        Some(ValueType::Array)
    } else if s == "boolean"@ {
        Some(ValueType::Boolean)
    } else if s == "integer"@ {
        Some(ValueType::Integer)
    } else if s == "null"@ {
        Some(ValueType::Null)
    } else if s == "number"@ {
        Some(ValueType::Number)
    } else if s == "object"@ {
        Some(ValueType::Object)
    } else if s == "string"@ {
        Some(ValueType::Str)
    } else {
        None
    }
}

/// The outcome of inspecting one edge for a keyword position.
pub enum KwOutcome {
    /// The label is no recognized keyword; the target stays structural.
    NotKeyword,
    /// The label is recognized but its value has the wrong shape.
    Malformed,
    /// The keyword built for the edge's target.
    Built(Keyword),
}

/// What one edge of the adjacency list contributes: the keyword built for
/// its target, judged from the label and the raw value stored there.
pub open spec fn spec_keyword_at(
    docs: &Documents,
    al: &AdjacencyList,
    label: EdgeLabel,
    t: int,
) -> KwOutcome {
    match label {
        EdgeLabel::Index(_) => KwOutcome::NotKeyword,
        EdgeLabel::Key(k) => {
            let v = docs.spec_value_at(al.nodes@[t]);
            if k@ == "maximum"@ {
                match v {
                    JsonValue::Num(Some(u)) => KwOutcome::Built(Keyword::Maximum(u)),
                    _ => KwOutcome::Malformed,
                }
            } else if k@ == "maxLength"@ {
                match v {
                    JsonValue::Num(Some(u)) => KwOutcome::Built(Keyword::MaxLength(u)),
                    _ => KwOutcome::Malformed,
                }
            } else if k@ == "minProperties"@ {
                match v {
                    JsonValue::Num(Some(u)) => KwOutcome::Built(Keyword::MinProperties(u)),
                    _ => KwOutcome::Malformed,
                }
            } else if k@ == "type"@ {
                match v {
                    JsonValue::Str(s) => match spec_type_of_name(s@) {
                        Some(vt) => KwOutcome::Built(Keyword::Type(vt)),
                        None => KwOutcome::Malformed,
                    },
                    _ => KwOutcome::Malformed,
                }
            } else if k@ == "properties"@ {
                KwOutcome::Built(Keyword::Properties(al.spec_range_of(t)))
            } else if k@ == "items"@ {
                KwOutcome::Built(Keyword::Items)
            } else if k@ == "allOf"@ {
                KwOutcome::Built(Keyword::AllOf(al.spec_range_of(t)))
            } else if k@ == "$ref"@ {
                KwOutcome::Built(Keyword::Ref(al.spec_range_of(t)))
            } else {
                KwOutcome::NotKeyword
            }
        },
    }
}

/// The range graph under construction: a node slot is either structural
/// (`None`) or holds a built keyword; an edge slot optionally holds the
/// contiguous range replacing a child edge list.
pub struct RangeGraph {
    pub nodes: Vec<Option<Keyword>>,
    pub edges: Vec<Option<RangedEdge>>,
}

/// The edge array after range edges were recorded for each listed edge's
/// target, in order.
pub open spec fn spec_set_many_from(
    es: Seq<Option<RangedEdge>>,
    edges: Seq<Edge>,
    al: &AdjacencyList,
    k: int,
) -> Seq<Option<RangedEdge>>
    decreases edges.len() - k,
{
    if k < 0 || k >= edges.len() {
        es
    } else {
        spec_set_many_from(
            es.update(
                edges[k].target.0 as int,
                Some(
                    RangedEdge {
                        label: edges[k].label,
                        nodes: al.spec_range_of(edges[k].target.0 as int),
                    },
                ),
            ),
            edges,
            al,
            k + 1,
        )
    }
}

impl RangeGraph {
    /// Every recorded range, on an edge or inside a keyword, stays inside
    /// the node array.
    pub open spec fn ranges_ok(&self) -> bool {
        &&& self.nodes@.len() == self.edges@.len()
        &&& forall|t: int|
            0 <= t < self.edges@.len() ==> match #[trigger] self.edges@[t] {
                Some(re) => re.nodes.start <= self.nodes@.len() && re.nodes.end
                    <= self.nodes@.len(),
                None => true,
            }
        &&& forall|t: int|
            0 <= t < self.nodes@.len() ==> match #[trigger] self.nodes@[t] {
                Some(kw) => match kw {
                    Keyword::AllOf(r) => r.start <= self.nodes@.len() && r.end
                        <= self.nodes@.len(),
                    Keyword::Properties(r) => r.start <= self.nodes@.len() && r.end
                        <= self.nodes@.len(),
                    Keyword::Ref(r) => r.start <= self.nodes@.len() && r.end
                        <= self.nodes@.len(),
                    _ => true,
                },
                None => true,
            }
    }

    /// Records the keyword built for a node.
    pub fn set_node(&mut self, id: usize, keyword: Keyword)
        requires
            id < old(self).nodes@.len(),
        ensures
            final(self).nodes@ == old(self).nodes@.update(id as int, Some(keyword)),
            final(self).edges@ == old(self).edges@,
    {
        self.nodes[id] = Some(keyword);
    }

    /// Records the range edge of a node.
    pub fn set_edge(&mut self, id: usize, label: EdgeLabel, nodes: NodeRange)
        requires
            id < old(self).edges@.len(),
        ensures
            final(self).edges@ == old(self).edges@.update(
                id as int,
                Some(RangedEdge { label, nodes }),
            ),
            final(self).nodes@ == old(self).nodes@,
    {
        self.edges[id] = Some(RangedEdge { label, nodes });
    }

    /// Records a range edge for the target of every listed edge, replacing
    /// each target's per-child edges with its contiguous range.
    pub fn set_many_edges(&mut self, edges: &Vec<Edge>, input: &AdjacencyList)
        requires
            forall|j: int|
                0 <= j < edges@.len() ==> (#[trigger] edges@[j]).target.0 < old(
                    self,
                ).edges@.len(),
            forall|j: int|
                0 <= j < edges@.len() ==> (#[trigger] edges@[j]).target.0 < input.edges@.len(),
            input.edges@.len() == input.nodes@.len(),
            forall|p: int, j: int|
                0 <= p < input.edges@.len() && 0 <= j < input.edges@[p]@.len() ==> (
                #[trigger] input.edges@[p]@[j]).target.0 < input.nodes@.len(),
        ensures
            final(self).edges@ == spec_set_many_from(old(self).edges@, edges@, input, 0),
            final(self).nodes@ == old(self).nodes@,
    {
        let mut j: usize = 0;
        while j < edges.len()
            invariant
                forall|j2: int|
                    0 <= j2 < edges@.len() ==> (#[trigger] edges@[j2]).target.0
                        < self.edges@.len(),
                forall|j2: int|
                    0 <= j2 < edges@.len() ==> (#[trigger] edges@[j2]).target.0
                        < input.edges@.len(),
                input.edges@.len() == input.nodes@.len(),
                forall|p: int, j2: int|
                    0 <= p < input.edges@.len() && 0 <= j2 < input.edges@[p]@.len() ==> (
                    #[trigger] input.edges@[p]@[j2]).target.0 < input.nodes@.len(),
                0 <= j <= edges@.len(),
                self.nodes@ == old(self).nodes@,
                spec_set_many_from(old(self).edges@, edges@, input, 0) == spec_set_many_from(
                    self.edges@,
                    edges@,
                    input,
                    j as int,
                ),
            decreases edges@.len() - j,
        {
            let id = edges[j].target.value();
            let range = input.range_of(id);
            let label = edges[j].label.duplicate();
            self.set_edge(id, label, range);
            j += 1;
        }
    }
}

/// The per-edge outcome over a whole adjacency list is free of malformed
/// keyword values.
pub open spec fn no_malformed(docs: &Documents, al: &AdjacencyList) -> bool {
    forall|s: int, j: int|
        1 <= s < al.edges@.len() && 0 <= j < al.edges@[s]@.len() ==> !((#[trigger] spec_keyword_at(
            docs,
            al,
            al.edges@[s]@[j].label,
            al.edges@[s]@[j].target.0 as int,
        )) is Malformed)
}

/// The edge at `(s, j)` recognizes an aggregating keyword (an object of
/// sub-schemas or a list of sub-schemas) at its target.
pub open spec fn spec_aggregate_edge(docs: &Documents, al: &AdjacencyList, s: int, j: int) -> bool {
    &&& 1 <= s < al.edges@.len()
    &&& 0 <= j < al.edges@[s]@.len()
    &&& match spec_keyword_at(
        docs,
        al,
        al.edges@[s]@[j].label,
        al.edges@[s]@[j].target.0 as int,
    ) {
        KwOutcome::Built(kw) => kw is Properties || kw is AllOf,
        _ => false,
    }
}

/// Slot `t` is a direct child of some node an aggregating keyword was built
/// for: exactly the positions whose per-child edges are replaced by ranges.
pub open spec fn is_range_position(docs: &Documents, al: &AdjacencyList, t: int) -> bool {
    exists|s: int, j: int, jc: int|
        #![trigger spec_aggregate_edge(docs, al, s, j), al.edges@[al.edges@[s]@[j].target.0 as int]@[jc]]
        spec_aggregate_edge(docs, al, s, j) && 0 <= jc < al.edges@[al.edges@[s]@[j].target.0 as int]@.len()
            && al.edges@[al.edges@[s]@[j].target.0 as int]@[jc].target.0 == t
}

/// How a finished range graph relates to the adjacency list it was derived
/// from: same shape; every slot a recognized edge targets holds a keyword
/// that some recognizing edge built; every other slot is structural; and a
/// slot carries a range edge exactly when it is an aggregating keyword's
/// direct child, with the child edge's label and the slot's own range.
pub open spec fn derived_from(docs: &Documents, al: &AdjacencyList, g: &RangeGraph) -> bool {
    &&& g.nodes@.len() == al.nodes@.len()
    &&& g.edges@.len() == al.edges@.len()
    &&& forall|s: int, j: int|
        1 <= s < al.edges@.len() && 0 <= j < al.edges@[s]@.len() ==> match (
        #[trigger] spec_keyword_at(
            docs,
            al,
            al.edges@[s]@[j].label,
            al.edges@[s]@[j].target.0 as int,
        )) {
            KwOutcome::Built(_) => g.nodes@[al.edges@[s]@[j].target.0 as int] is Some,
            KwOutcome::Malformed => false,
            KwOutcome::NotKeyword => true,
        }
    &&& forall|t: int|
        0 <= t < g.nodes@.len() && (#[trigger] g.nodes@[t]) is Some ==> exists|s: int, j: int|
            1 <= s < al.edges@.len() && 0 <= j < al.edges@[s]@.len() && al.edges@[s]@[j].target.0
                == t && spec_keyword_at(docs, al, al.edges@[s]@[j].label, t) == KwOutcome::Built(
                g.nodes@[t]->0,
            )
    &&& forall|t: int|
        0 <= t < g.edges@.len() ==> ((#[trigger] g.edges@[t]) is Some <==> is_range_position(
            docs,
            al,
            t,
        ))
    &&& edges_sound(docs, al, g.edges@)
}

/// A subsequent write never clears a keyword slot, so a recognized position
/// stays filled.
impl RangeGraph {
    /// Derives the range graph: visits every non-sentinel node exactly once
    /// and, for each of its edges whose label names a keyword, builds the
    /// typed keyword for the edge's target; aggregating keywords replace
    /// their target's child edges with its contiguous range. Fails exactly
    /// when some recognized keyword position holds a malformed value.
    pub fn try_from(input: &AdjacencyList, docs: &Documents) -> (r: Result<
        RangeGraph,
        CompileError,
    >)
        requires
            docs.wf(),
            input.wf(docs),
        ensures
            match r {
                Ok(g) => derived_from(docs, input, &g) && g.ranges_ok(),
                Err(e) => !no_malformed(docs, input) && (e
                    matches CompileError::MalformedKeywordValue { .. } || e
                    matches CompileError::UnrecognizedType(_)),
            },
    {
        let n = input.nodes.len();
        let mut nodes: Vec<Option<Keyword>> = Vec::new();
        let mut edges: Vec<Option<RangedEdge>> = Vec::new();
        let mut i: usize = 0;
        while i < n
            invariant
                0 <= i <= n,
                nodes@.len() == i,
                edges@.len() == i,
                forall|t: int| 0 <= t < i ==> (#[trigger] nodes@[t]) is None,
                forall|t: int| 0 <= t < i ==> (#[trigger] edges@[t]) is None,
            decreases n - i,
        {
            nodes.push(None);
            edges.push(None);
            i += 1;
        }
        let mut g = RangeGraph { nodes, edges };
        let mut s: usize = 1;
        while s < n
            invariant
                docs.wf(),
                input.wf(docs),
                n == input.nodes@.len(),
                1 <= s <= n || (n == 0 && s == 1),
                g.nodes@.len() == n,
                g.edges@.len() == n,
                g.ranges_ok(),
                forall|s2: int, j2: int|
                    1 <= s2 < s && 0 <= j2 < input.edges@[s2]@.len() ==> match (
                    #[trigger] spec_keyword_at(
                        docs,
                        input,
                        input.edges@[s2]@[j2].label,
                        input.edges@[s2]@[j2].target.0 as int,
                    )) {
                        KwOutcome::Built(_) => g.nodes@[input.edges@[s2]@[j2].target.0 as int]
                            is Some,
                        KwOutcome::Malformed => false,
                        KwOutcome::NotKeyword => true,
                    },
                sound_nodes(docs, input, &g),
                edges_sound(docs, input, g.edges@),
                forall|s2: int, j2: int, jc: int|
                    1 <= s2 < s && spec_aggregate_edge(docs, input, s2, j2) && 0 <= jc
                        < input.edges@[(#[trigger] input.edges@[s2]@[j2]).target.0 as int]@.len()
                        ==> g.edges@[(#[trigger] input.edges@[input.edges@[s2]@[j2].target.0
                        as int]@[jc]).target.0 as int] is Some,
            decreases n - s,
        {
            let elist = &input.edges[s];
            let mut j: usize = 0;
            while j < elist.len()
                invariant
                    docs.wf(),
                    input.wf(docs),
                    n == input.nodes@.len(),
                    1 <= s < n,
                    elist@ == input.edges@[s as int]@,
                    0 <= j <= elist@.len(),
                    g.nodes@.len() == n,
                    g.edges@.len() == n,
                    g.ranges_ok(),
                    forall|s2: int, j2: int|
                        1 <= s2 < s && 0 <= j2 < input.edges@[s2]@.len() ==> match (
                        #[trigger] spec_keyword_at(
                            docs,
                            input,
                            input.edges@[s2]@[j2].label,
                            input.edges@[s2]@[j2].target.0 as int,
                        )) {
                            KwOutcome::Built(_) => g.nodes@[input.edges@[s2]@[j2].target.0 as int]
                                is Some,
                            KwOutcome::Malformed => false,
                            KwOutcome::NotKeyword => true,
                        },
                    forall|j2: int|
                        0 <= j2 < j ==> match (#[trigger] spec_keyword_at(
                            docs,
                            input,
                            input.edges@[s as int]@[j2].label,
                            input.edges@[s as int]@[j2].target.0 as int,
                        )) {
                            KwOutcome::Built(_) => g.nodes@[input.edges@[s as int]@[j2].target.0
                                as int] is Some,
                            KwOutcome::Malformed => false,
                            KwOutcome::NotKeyword => true,
                        },
                    sound_nodes(docs, input, &g),
                    edges_sound(docs, input, g.edges@),
                    forall|s2: int, j2: int, jc: int|
                        1 <= s2 < s && spec_aggregate_edge(docs, input, s2, j2) && 0 <= jc
                            < input.edges@[(#[trigger] input.edges@[s2]@[j2]).target.0
                            as int]@.len() ==> g.edges@[(
                        #[trigger] input.edges@[input.edges@[s2]@[j2].target.0
                            as int]@[jc]).target.0 as int] is Some,
                    forall|j2: int, jc: int|
                        0 <= j2 < j && spec_aggregate_edge(docs, input, s as int, j2) && 0 <= jc
                            < input.edges@[(#[trigger] input.edges@[s as int]@[j2]).target.0
                            as int]@.len() ==> g.edges@[(
                        #[trigger] input.edges@[input.edges@[s as int]@[j2].target.0
                            as int]@[jc]).target.0 as int] is Some,
                decreases elist@.len() - j,
            {
                let t = elist[j].target.value();
                let ghost tt = t as int;
                let ghost lab = input.edges@[s as int]@[j as int].label;
                match elist[j].label.as_key() {
                    None => {},
                    Some(key) => {
                        let a = input.nodes[t];
                        if str_eq(key, "maximum") {
                            match docs.value_at(a) {
                                JsonValue::Num(Some(u)) => {
                                    let kw = Keyword::Maximum(*u);
                                    g.set_node(t, kw);
                                    proof {
                                        lemma_built_witness(docs, input, &g, s as int, j as int, kw);
                                    }
                                },
                                _ => {
                                    proof {
                                        lemma_malformed_witness(docs, input, s as int, j as int);
                                    }
                                    return Err(
                                        CompileError::MalformedKeywordValue {
                                            keyword: key.to_owned(),
                                            node: t,
                                        },
                                    );
                                },
                            }
                        } else if str_eq(key, "maxLength") {
                            match docs.value_at(a) {
                                JsonValue::Num(Some(u)) => {
                                    let kw = Keyword::MaxLength(*u);
                                    g.set_node(t, kw);
                                    proof {
                                        lemma_built_witness(docs, input, &g, s as int, j as int, kw);
                                    }
                                },
                                _ => {
                                    proof {
                                        lemma_malformed_witness(docs, input, s as int, j as int);
                                    }
                                    return Err(
                                        CompileError::MalformedKeywordValue {
                                            keyword: key.to_owned(),
                                            node: t,
                                        },
                                    );
                                },
                            }
                        } else if str_eq(key, "minProperties") {
                            match docs.value_at(a) {
                                JsonValue::Num(Some(u)) => {
                                    let kw = Keyword::MinProperties(*u);
                                    g.set_node(t, kw);
                                    proof {
                                        lemma_built_witness(docs, input, &g, s as int, j as int, kw);
                                    }
                                },
                                _ => {
                                    proof {
                                        lemma_malformed_witness(docs, input, s as int, j as int);
                                    }
                                    return Err(
                                        CompileError::MalformedKeywordValue {
                                            keyword: key.to_owned(),
                                            node: t,
                                        },
                                    );
                                },
                            }
                        } else if str_eq(key, "type") {
                            match docs.value_at(a) {
                                JsonValue::Str(sv) => {
                                    let vt = if str_eq(sv.as_str(), "array") {
                                        Some(ValueType::Array)
                                    } else if str_eq(sv.as_str(), "boolean") {
                                        Some(ValueType::Boolean)
                                    } else if str_eq(sv.as_str(), "integer") {
                                        Some(ValueType::Integer)
                                    } else if str_eq(sv.as_str(), "null") {
                                        Some(ValueType::Null)
                                    } else if str_eq(sv.as_str(), "number") {
                                        Some(ValueType::Number)
                                    } else if str_eq(sv.as_str(), "object") {
                                        Some(ValueType::Object)
                                    } else if str_eq(sv.as_str(), "string") {
                                        Some(ValueType::Str)
                                    } else {
                                        None
                                    };
                                    match vt {
                                        Some(v) => {
                                            let kw = Keyword::Type(v);
                                            g.set_node(t, kw);
                                            proof {
                                                lemma_built_witness(
                                                    docs,
                                                    input,
                                                    &g,
                                                    s as int,
                                                    j as int,
                                                    kw,
                                                );
                                            }
                                        },
                                        None => {
                                            proof {
                                                lemma_malformed_witness(
                                                    docs,
                                                    input,
                                                    s as int,
                                                    j as int,
                                                );
                                            }
                                            return Err(CompileError::UnrecognizedType(sv.clone()));
                                        },
                                    }
                                },
                                _ => {
                                    proof {
                                        lemma_malformed_witness(docs, input, s as int, j as int);
                                    }
                                    return Err(
                                        CompileError::MalformedKeywordValue {
                                            keyword: key.to_owned(),
                                            node: t,
                                        },
                                    );
                                },
                            }
                        } else if str_eq(key, "properties") {
                            let range = input.range_of(t);
                            let kw = Keyword::Properties(range);
                            g.set_node(t, kw);
                            proof {
                                lemma_built_witness(docs, input, &g, s as int, j as int, kw);
                            }
                            let ghost before = g.edges@;
                            g.set_many_edges(&input.edges[t], input);
                            proof {
                                lemma_set_many_sound(
                                    docs,
                                    input,
                                    before,
                                    input.edges@[tt]@,
                                    s as int,
                                    j as int,
                                    0,
                                );
                            }
                        } else if str_eq(key, "items") {
                            let kw = Keyword::Items;
                            g.set_node(t, kw);
                            proof {
                                lemma_built_witness(docs, input, &g, s as int, j as int, kw);
                            }
                        } else if str_eq(key, "allOf") {
                            let range = input.range_of(t);
                            let kw = Keyword::AllOf(range);
                            g.set_node(t, kw);
                            proof {
                                lemma_built_witness(docs, input, &g, s as int, j as int, kw);
                            }
                            let ghost before = g.edges@;
                            g.set_many_edges(&input.edges[t], input);
                            proof {
                                lemma_set_many_sound(
                                    docs,
                                    input,
                                    before,
                                    input.edges@[tt]@,
                                    s as int,
                                    j as int,
                                    0,
                                );
                            }
                        } else if str_eq(key, "$ref") {
                            let range = input.range_of(t);
                            let kw = Keyword::Ref(range);
                            g.set_node(t, kw);
                            proof {
                                lemma_built_witness(docs, input, &g, s as int, j as int, kw);
                            }
                        }
                    },
                }
                j += 1;
            }
            s += 1;
        }
        proof {
            assert forall|t: int|
                0 <= t < g.edges@.len() implies ((#[trigger] g.edges@[t]) is Some
                <==> is_range_position(docs, input, t)) by {
                if g.edges@[t] is Some {
                    let (s2, j2, jc) = choose|s2: int, j2: int, jc: int|
                        #![trigger spec_aggregate_edge(docs, input, s2, j2), input.edges@[input.edges@[s2]@[j2].target.0 as int]@[jc]]
                        spec_aggregate_edge(docs, input, s2, j2) && 0 <= jc < input.edges@[
                            input.edges@[s2]@[j2].target.0 as int]@.len() && input.edges@[
                            input.edges@[s2]@[j2].target.0 as int]@[jc].target.0 == t
                            && g.edges@[t]->0 == RangedEdge {
                            label: input.edges@[input.edges@[s2]@[j2].target.0 as int]@[jc].label,
                            nodes: input.spec_range_of(t),
                        };
                    assert(is_range_position(docs, input, t));
                }
                if is_range_position(docs, input, t) {
                    let (s2, j2, jc) = choose|s2: int, j2: int, jc: int|
                        #![trigger spec_aggregate_edge(docs, input, s2, j2), input.edges@[input.edges@[s2]@[j2].target.0 as int]@[jc]]
                        spec_aggregate_edge(docs, input, s2, j2) && 0 <= jc < input.edges@[
                            input.edges@[s2]@[j2].target.0 as int]@.len() && input.edges@[
                            input.edges@[s2]@[j2].target.0 as int]@[jc].target.0 == t;
                    assert(g.edges@[(input.edges@[input.edges@[s2]@[j2].target.0
                        as int]@[jc]).target.0 as int] is Some);
                }
            }
        }
        Ok(g)
    }
}

/// Every keyword slot of the graph is justified by some recognizing edge.
pub open spec fn sound_nodes(docs: &Documents, al: &AdjacencyList, g: &RangeGraph) -> bool {
    forall|t: int|
        0 <= t < g.nodes@.len() && (#[trigger] g.nodes@[t]) is Some ==> exists|s: int, j: int|
            1 <= s < al.edges@.len() && 0 <= j < al.edges@[s]@.len() && al.edges@[s]@[j].target.0
                == t && spec_keyword_at(docs, al, al.edges@[s]@[j].label, t) == KwOutcome::Built(
                g.nodes@[t]->0,
            )
}

/// Every range edge of the array is justified by an aggregating keyword's
/// child edge and carries that edge's label with the slot's own range.
pub open spec fn edges_sound(docs: &Documents, al: &AdjacencyList, es: Seq<Option<RangedEdge>>) -> bool {
    forall|t: int|
        0 <= t < es.len() && (#[trigger] es[t]) is Some ==> exists|s: int, j: int, jc: int|
            #![trigger spec_aggregate_edge(docs, al, s, j), al.edges@[al.edges@[s]@[j].target.0 as int]@[jc]]
            spec_aggregate_edge(docs, al, s, j) && 0 <= jc < al.edges@[al.edges@[s]@[j].target.0
                as int]@.len() && al.edges@[al.edges@[s]@[j].target.0 as int]@[jc].target.0 == t
                && es[t]->0 == RangedEdge {
                label: al.edges@[al.edges@[s]@[j].target.0 as int]@[jc].label,
                nodes: al.spec_range_of(t),
            }
}

/// A fresh keyword write is justified by the edge that recognized it.
proof fn lemma_built_witness(
    docs: &Documents,
    al: &AdjacencyList,
    g: &RangeGraph,
    s: int,
    j: int,
    kw: Keyword,
)
    requires
        1 <= s < al.edges@.len(),
        0 <= j < al.edges@[s]@.len(),
        0 <= al.edges@[s]@[j].target.0 < g.nodes@.len(),
        spec_keyword_at(docs, al, al.edges@[s]@[j].label, al.edges@[s]@[j].target.0 as int)
            == KwOutcome::Built(kw),
        g.nodes@[al.edges@[s]@[j].target.0 as int] == Some(kw),
        forall|t: int|
            0 <= t < g.nodes@.len() && t != al.edges@[s]@[j].target.0 && (
            #[trigger] g.nodes@[t]) is Some ==> exists|s2: int, j2: int|
                1 <= s2 < al.edges@.len() && 0 <= j2 < al.edges@[s2]@.len()
                    && al.edges@[s2]@[j2].target.0 == t && spec_keyword_at(
                    docs,
                    al,
                    al.edges@[s2]@[j2].label,
                    t,
                ) == KwOutcome::Built(g.nodes@[t]->0),
    ensures
        sound_nodes(docs, al, g),
{
    let t0 = al.edges@[s]@[j].target.0 as int;
    assert forall|t: int|
        0 <= t < g.nodes@.len() && (#[trigger] g.nodes@[t]) is Some implies exists|
        s2: int,
        j2: int,
    |
        1 <= s2 < al.edges@.len() && 0 <= j2 < al.edges@[s2]@.len() && al.edges@[s2]@[j2].target.0
            == t && spec_keyword_at(docs, al, al.edges@[s2]@[j2].label, t) == KwOutcome::Built(
            g.nodes@[t]->0,
        ) by {
        if t == t0 {
            assert(1 <= s < al.edges@.len() && 0 <= j < al.edges@[s]@.len()
                && al.edges@[s]@[j].target.0 == t && spec_keyword_at(
                docs,
                al,
                al.edges@[s]@[j].label,
                t,
            ) == KwOutcome::Built(g.nodes@[t]->0));
        }
    }
}

/// A malformed keyword position refutes the absence of malformed values.
proof fn lemma_malformed_witness(docs: &Documents, al: &AdjacencyList, s: int, j: int)
    requires
        1 <= s < al.edges@.len(),
        0 <= j < al.edges@[s]@.len(),
        spec_keyword_at(docs, al, al.edges@[s]@[j].label, al.edges@[s]@[j].target.0 as int)
            is Malformed,
    ensures
        !no_malformed(docs, al),
{
    assert(!no_malformed(docs, al)) by {
        if no_malformed(docs, al) {
            assert(!((spec_keyword_at(
                docs,
                al,
                al.edges@[s]@[j].label,
                al.edges@[s]@[j].target.0 as int,
            )) is Malformed));
        }
    }
}

/// Folding range-edge writes over an aggregating keyword's child edges
/// keeps every edge slot justified, marks every listed child, and clears
/// nothing.
proof fn lemma_set_many_sound(
    docs: &Documents,
    al: &AdjacencyList,
    es: Seq<Option<RangedEdge>>,
    edges: Seq<Edge>,
    s: int,
    j: int,
    k: int,
)
    requires
        edges_sound(docs, al, es),
        spec_aggregate_edge(docs, al, s, j),
        edges == al.edges@[al.edges@[s]@[j].target.0 as int]@,
        forall|j2: int| 0 <= j2 < edges.len() ==> (#[trigger] edges[j2]).target.0 < es.len(),
        0 <= k <= edges.len(),
    ensures
        edges_sound(docs, al, spec_set_many_from(es, edges, al, k)),
        spec_set_many_from(es, edges, al, k).len() == es.len(),
        forall|jc: int|
            k <= jc < edges.len() ==> spec_set_many_from(es, edges, al, k)[(
            #[trigger] edges[jc]).target.0 as int] is Some,
        forall|t: int|
            0 <= t < es.len() && (#[trigger] es[t]) is Some ==> spec_set_many_from(
                es,
                edges,
                al,
                k,
            )[t] is Some,
    decreases edges.len() - k,
{
    let u = al.edges@[s]@[j].target.0 as int;
    if k < edges.len() {
        let t0 = edges[k].target.0 as int;
        let re = RangedEdge { label: edges[k].label, nodes: al.spec_range_of(t0) };
        let es2 = es.update(t0, Some(re));
        assert forall|t: int|
            0 <= t < es2.len() && (#[trigger] es2[t]) is Some implies exists|
            s2: int,
            j2: int,
            jc: int,
        |
            #![trigger spec_aggregate_edge(docs, al, s2, j2), al.edges@[al.edges@[s2]@[j2].target.0 as int]@[jc]]
            spec_aggregate_edge(docs, al, s2, j2) && 0 <= jc < al.edges@[al.edges@[s2]@[j2].target.0
                as int]@.len() && al.edges@[al.edges@[s2]@[j2].target.0 as int]@[jc].target.0 == t
                && es2[t]->0 == RangedEdge {
                label: al.edges@[al.edges@[s2]@[j2].target.0 as int]@[jc].label,
                nodes: al.spec_range_of(t),
            } by {
            if t == t0 {
                assert(spec_aggregate_edge(docs, al, s, j) && 0 <= k < al.edges@[u]@.len()
                    && al.edges@[u]@[k].target.0 == t && es2[t]->0 == RangedEdge {
                    label: al.edges@[u]@[k].label,
                    nodes: al.spec_range_of(t),
                });
            } else {
                assert(es2[t] == es[t]);
            }
        }
        lemma_set_many_sound(docs, al, es2, edges, s, j, k + 1);
        assert(spec_set_many_from(es, edges, al, k) == spec_set_many_from(es2, edges, al, k + 1));
        assert forall|jc: int|
            k <= jc < edges.len() implies spec_set_many_from(es, edges, al, k)[(
            #[trigger] edges[jc]).target.0 as int] is Some by {
            if jc == k {
                assert(es2[t0] is Some);
                assert(spec_set_many_from(es2, edges, al, k + 1)[t0] is Some);
            }
        }
        assert forall|t: int|
            0 <= t < es.len() && (#[trigger] es[t]) is Some implies spec_set_many_from(
                es,
                edges,
                al,
                k,
            )[t] is Some by {
            assert(es2[t] is Some);
            assert(spec_set_many_from(es2, edges, al, k + 1)[t] is Some);
        }
    }
}

/// How many keyword slots are kept among the first `k`.
pub open spec fn count_kept(nodes: Seq<Option<Keyword>>, k: int) -> int
    decreases k,
{
    if k <= 0 {
        0
    } else {
        count_kept(nodes, k - 1) + if nodes[k - 1] is Some {
            1int
        } else {
            0int
        }
    }
}

/// Prefix counts grow, and by at most one per slot.
pub proof fn lemma_count_bounds(nodes: Seq<Option<Keyword>>, a: int, b: int)
    requires
        0 <= a <= b,
    ensures
        count_kept(nodes, a) <= count_kept(nodes, b),
        count_kept(nodes, b) - count_kept(nodes, a) <= b - a,
        count_kept(nodes, a) >= 0,
    decreases b - a,
{
    if a < b {
        lemma_count_bounds(nodes, a, b - 1);
    } else {
        lemma_count_le(nodes, a);
    }
}

/// A prefix count never exceeds the prefix length.
pub proof fn lemma_count_le(nodes: Seq<Option<Keyword>>, k: int)
    ensures
        count_kept(nodes, k) <= k || k < 0,
        count_kept(nodes, k) >= 0,
    decreases k,
{
    if k > 0 {
        lemma_count_le(nodes, k - 1);
    }
}

/// Compaction preserves relative order: of two kept slots, the earlier one
/// gets the smaller new index.
pub proof fn lemma_count_order(nodes: Seq<Option<Keyword>>, a: int, b: int)
    requires
        0 <= a < b,
        nodes[a] is Some,
    ensures
        count_kept(nodes, a) < count_kept(nodes, b),
{
    assert(count_kept(nodes, a + 1) == count_kept(nodes, a) + 1);
    lemma_count_bounds(nodes, a + 1, b);
}

/// The dense artifact: every node slot a typed keyword, every edge slot an
/// optional labeled range over the compacted indices.
#[derive(Debug)]
pub struct CompressedRangeGraph {
    pub nodes: Vec<Keyword>,
    pub edges: Vec<Option<RangedEdge>>,
}

/// A range with both endpoints renumbered to compacted indices.
pub open spec fn spec_remap_range(nodes: Seq<Option<Keyword>>, r: NodeRange) -> NodeRange {
    NodeRange {
        start: count_kept(nodes, r.start as int) as usize,
        end: count_kept(nodes, r.end as int) as usize,
    }
}

/// A keyword with any child range it carries renumbered to compacted
/// indices.
pub open spec fn spec_remap_kw(nodes: Seq<Option<Keyword>>, kw: Keyword) -> Keyword {
    match kw {
        Keyword::AllOf(r) => Keyword::AllOf(spec_remap_range(nodes, r)),
        Keyword::Properties(r) => Keyword::Properties(spec_remap_range(nodes, r)),
        Keyword::Ref(r) => Keyword::Ref(spec_remap_range(nodes, r)),
        _ => kw,
    }
}

/// A range edge with both endpoints renumbered to compacted indices.
pub open spec fn spec_remap_edge(nodes: Seq<Option<Keyword>>, e: Option<RangedEdge>) -> Option<
    RangedEdge,
> {
    match e {
        Some(re) => Some(RangedEdge { label: re.label, nodes: spec_remap_range(nodes, re.nodes) }),
        None => None,
    }
}

/// How the compacted artifact relates to the range graph it came from:
/// exactly the keyword-holding slots survive, in order, each with its range
/// edge renumbered through the prefix count of kept slots.
pub open spec fn compressed_from(g: &RangeGraph, out: &CompressedRangeGraph) -> bool {
    &&& g.edges@.len() == g.nodes@.len()
    &&& out.nodes@.len() == count_kept(g.nodes@, g.nodes@.len() as int)
    &&& out.edges@.len() == out.nodes@.len()
    &&& forall|k: int|
        0 <= k < g.nodes@.len() && (#[trigger] g.nodes@[k]) is Some ==> {
            let nk = count_kept(g.nodes@, k);
            0 <= nk < out.nodes@.len() && out.nodes@[nk] == spec_remap_kw(g.nodes@, g.nodes@[k]->0)
                && out.edges@[nk] == spec_remap_edge(g.nodes@, g.edges@[k])
        }
}

impl RangeGraph {
    /// Removes every node slot holding no typed keyword and renumbers all
    /// surviving indices and ranges to be contiguous over the shrunk array,
    /// preserving relative order.
    pub fn compress(self) -> (out: CompressedRangeGraph)
        requires
            self.ranges_ok(),
        ensures
            compressed_from(&self, &out),
    {
        let n = self.nodes.len();
        let ghost nv = self.nodes@;
        let mut remap: Vec<usize> = Vec::new();
        remap.push(0);
        let mut k: usize = 0;
        while k < n
            invariant
                0 <= k <= n,
                n == nv.len(),
                nv == self.nodes@,
                remap@.len() == k + 1,
                forall|j: int| 0 <= j <= k ==> (#[trigger] remap@[j]) as int == count_kept(nv, j),
            decreases n - k,
        {
            proof {
                lemma_count_le(nv, k as int);
            }
            let c = remap[k];
            let c2 = match &self.nodes[k] {
                Some(_) => c + 1,
                None => c,
            };
            remap.push(c2);
            k += 1;
        }
        let mut out_nodes: Vec<Keyword> = Vec::new();
        k = 0;
        while k < n
            invariant
                0 <= k <= n,
                n == nv.len(),
                nv == self.nodes@,
                self.ranges_ok(),
                remap@.len() == n + 1,
                forall|j: int| 0 <= j <= n ==> (#[trigger] remap@[j]) as int == count_kept(nv, j),
                out_nodes@.len() == count_kept(nv, k as int),
                forall|j: int|
                    0 <= j < k && (#[trigger] nv[j]) is Some ==> 0 <= count_kept(nv, j)
                        < out_nodes@.len() && out_nodes@[count_kept(nv, j)] == spec_remap_kw(
                        nv,
                        nv[j]->0,
                    ),
            decreases n - k,
        {
            match &self.nodes[k] {
                Some(kw) => {
                    proof {
                        lemma_count_le(nv, k as int);
                    }
                    let mapped = match kw {
                        Keyword::AllOf(r) => Keyword::AllOf(
                            NodeRange { start: remap[r.start], end: remap[r.end] },
                        ),
                        Keyword::Properties(r) => Keyword::Properties(
                            NodeRange { start: remap[r.start], end: remap[r.end] },
                        ),
                        Keyword::Ref(r) => Keyword::Ref(
                            NodeRange { start: remap[r.start], end: remap[r.end] },
                        ),
                        _ => *kw,
                    };
                    proof {
                        assert(mapped == spec_remap_kw(nv, nv[k as int]->0));
                    }
                    out_nodes.push(mapped);
                    proof {
                        assert forall|j: int|
                            0 <= j < k + 1 && (#[trigger] nv[j]) is Some implies 0 <= count_kept(
                            nv,
                            j,
                        ) < out_nodes@.len() && out_nodes@[count_kept(nv, j)] == spec_remap_kw(
                            nv,
                            nv[j]->0,
                        ) by {
                            lemma_count_le(nv, j);
                            if j < k {
                                lemma_count_order(nv, j, k as int);
                            }
                        }
                    }
                },
                None => {},
            }
            k += 1;
        }
        let mut out_edges: Vec<Option<RangedEdge>> = Vec::new();
        k = 0;
        while k < n
            invariant
                0 <= k <= n,
                n == nv.len(),
                nv == self.nodes@,
                self.ranges_ok(),
                self.edges@.len() == n,
                remap@.len() == n + 1,
                forall|j: int| 0 <= j <= n ==> (#[trigger] remap@[j]) as int == count_kept(nv, j),
                out_edges@.len() == count_kept(nv, k as int),
                forall|j: int|
                    0 <= j < k && (#[trigger] nv[j]) is Some ==> 0 <= count_kept(nv, j)
                        < out_edges@.len() && out_edges@[count_kept(nv, j)] == spec_remap_edge(
                        nv,
                        self.edges@[j],
                    ),
            decreases n - k,
        {
            match &self.nodes[k] {
                Some(_) => {
                    proof {
                        lemma_count_le(nv, k as int);
                    }
                    let item = match &self.edges[k] {
                        Some(re) => {
                            let ns = remap[re.nodes.start];
                            let ne = remap[re.nodes.end];
                            Some(
                                RangedEdge {
                                    label: re.label.duplicate(),
                                    nodes: NodeRange { start: ns, end: ne },
                                },
                            )
                        },
                        None => None,
                    };
                    proof {
                        assert(item == spec_remap_edge(nv, self.edges@[k as int]));
                    }
                    out_edges.push(item);
                    proof {
                        assert forall|j: int|
                            0 <= j < k + 1 && (#[trigger] nv[j]) is Some implies 0 <= count_kept(
                            nv,
                            j,
                        ) < out_edges@.len() && out_edges@[count_kept(nv, j)] == spec_remap_edge(
                            nv,
                            self.edges@[j],
                        ) by {
                            lemma_count_le(nv, j);
                            if j < k {
                                lemma_count_order(nv, j, k as int);
                            }
                        }
                    }
                },
                None => {},
            }
            k += 1;
        }
        CompressedRangeGraph { nodes: out_nodes, edges: out_edges }
    }
}

/// Range-compaction correctness: a surviving range addresses only surviving
/// nodes, each carrying its keyword with ranges renumbered, in the same
/// relative order as before compaction.
pub proof fn lemma_compaction_correct(
    g: &RangeGraph,
    out: &CompressedRangeGraph,
    k: int,
    t1: int,
    t2: int,
)
    requires
        g.ranges_ok(),
        compressed_from(g, out),
        0 <= k < g.nodes@.len(),
        g.nodes@[k] is Some,
        g.edges@[k] is Some,
        g.edges@[k]->0.nodes.start <= t1 <= t2 < g.edges@[k]->0.nodes.end,
        g.nodes@[t1] is Some,
        g.nodes@[t2] is Some,
    ensures
        ({
            let ne = out.edges@[count_kept(g.nodes@, k)]->0;
            &&& ne.nodes.start <= count_kept(g.nodes@, t1) < ne.nodes.end
            &&& out.nodes@[count_kept(g.nodes@, t1)] == spec_remap_kw(g.nodes@, g.nodes@[t1]->0)
            &&& (t1 < t2 ==> count_kept(g.nodes@, t1) < count_kept(g.nodes@, t2))
        }),
{
    broadcast use vstd::std_specs::vec::axiom_spec_len;

    let nv = g.nodes@;
    let re = g.edges@[k]->0;
    assert(vstd::std_specs::vec::spec_vec_len(&g.nodes) == nv.len());
    lemma_count_le(nv, nv.len() as int);
    lemma_count_bounds(nv, re.nodes.start as int, t1);
    lemma_count_order(nv, t1, re.nodes.end as int);
    lemma_count_bounds(nv, re.nodes.end as int, nv.len() as int);
    lemma_count_bounds(nv, 0, re.nodes.start as int);
    if t1 < t2 {
        lemma_count_order(nv, t1, t2);
    }
    assert(out.edges@[count_kept(nv, k)] == spec_remap_edge(nv, g.edges@[k]));
}

/// A compacted artifact is compiled from the documents when intermediate
/// structures witness all three passes: an adjacency list whose traversal
/// ties every node to the documents, the range graph derived from it, and
/// the artifact compacted from that.
#[verifier::opaque]
pub open spec fn compiled_from(
    docs: &Documents,
    root: &crate::resolving::Resolver,
    registry: &crate::resolving::Registry,
    out: &CompressedRangeGraph,
) -> bool {
    exists|al: AdjacencyList, g: RangeGraph|
        al.wf(docs) && al.disc_ok() && traversal_ok(docs, registry, root, &al) && (
        #[trigger] derived_from(docs, &al, &g)) && g.ranges_ok() && (#[trigger] compressed_from(
            &g,
            out,
        ))
}

/// A compilation may abort only because a reachable reference fails to
/// resolve, or because the traversal succeeds and some recognized keyword
/// position holds a malformed value.
#[verifier::opaque]
pub open spec fn compile_fails(
    docs: &Documents,
    root: &crate::resolving::Resolver,
    registry: &crate::resolving::Registry,
) -> bool {
    spec_resolution_fails(docs, registry, root) || (exists|al: AdjacencyList|
        al.wf(docs) && (#[trigger] traversal_ok(docs, registry, root, &al)) && !no_malformed(
            docs,
            &al,
        ))
}

/// Introduces the existential over the intermediate structures.
proof fn lemma_compiled_witness(
    docs: &Documents,
    root: &crate::resolving::Resolver,
    registry: &crate::resolving::Registry,
    al: AdjacencyList,
    g: RangeGraph,
    out: &CompressedRangeGraph,
)
    requires
        al.wf(docs),
        al.disc_ok(),
        traversal_ok(docs, registry, root, &al),
        derived_from(docs, &al, &g),
        g.ranges_ok(),
        compressed_from(&g, out),
    ensures
        compiled_from(docs, root, registry, out),
{
    reveal(compiled_from);
}

/// A failing resolution is one way a compilation may abort.
proof fn lemma_fails_resolution(
    docs: &Documents,
    root: &crate::resolving::Resolver,
    registry: &crate::resolving::Registry,
)
    requires
        spec_resolution_fails(docs, registry, root),
    ensures
        compile_fails(docs, root, registry),
{
    reveal(compile_fails);
}

/// A malformed keyword position in a successful traversal is the other.
proof fn lemma_fails_malformed(
    docs: &Documents,
    root: &crate::resolving::Resolver,
    registry: &crate::resolving::Registry,
    al: AdjacencyList,
)
    requires
        al.wf(docs),
        traversal_ok(docs, registry, root, &al),
        !no_malformed(docs, &al),
    ensures
        compile_fails(docs, root, registry),
{
    reveal(compile_fails);
}

/// Builds the packed graph for a schema: the adjacency list of everything
/// reachable, the derived range graph, and its compacted form, in that
/// order; any resolution or keyword error aborts the whole compilation.
#[verifier::rlimit(100)]
pub fn build(docs: &Documents, root: &crate::resolving::Resolver, registry: &crate::resolving::Registry) -> (r: Result<
    CompressedRangeGraph,
    CompileError,
>)
    requires
        docs.wf(),
        root.wf(docs),
        registry.wf(docs),
    ensures
        match r {
            Ok(out) => compiled_from(docs, root, registry, &out),
            Err(e) => compile_fails(docs, root, registry) && (e
                matches CompileError::LocationNotFound(_) || e
                matches CompileError::MalformedReference(_) || e
                matches CompileError::UnknownDocument(_) || e
                matches CompileError::MalformedKeywordValue { .. } || e
                matches CompileError::UnrecognizedType(_)),
        },
{
    match AdjacencyList::new(docs, root, registry) {
        Ok(al) => {
            let ghost gal = al;
            match RangeGraph::try_from(&al, docs) {
                Ok(g) => {
                    let ghost gg = g;
                    let out = g.compress();
                    proof {
                        lemma_compiled_witness(docs, root, registry, gal, gg, &out);
                    }
                    Ok(out)
                },
                Err(e) => {
                    proof {
                        lemma_fails_malformed(docs, root, registry, gal);
                    }
                    Err(e)
                },
            }
        },
        Err(e) => {
            proof {
                lemma_fails_resolution(docs, root, registry);
            }
            Err(e)
        },
    }
}

} // verus!
