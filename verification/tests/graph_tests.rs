use schema_graph::adjacency::{AdjacencyList, Edge, EdgeLabel, NodeId, NodeRange, NodeSlot, RangedEdge};
use schema_graph::errors::CompileError;
use schema_graph::json::{Addr, Doc, Documents, JsonValue, Member};
use schema_graph::range_graph::{build, Keyword, RangeGraph, ValueType};
use schema_graph::resolving::{Registry, Resolver};
use schema_graph::scope::Scope;

fn obj(members: Vec<(&str, usize)>) -> JsonValue {
    JsonValue::Obj(
        members
            .into_iter()
            .map(|(k, v)| Member { key: k.to_string(), value: v })
            .collect(),
    )
}

fn text(x: &str) -> JsonValue {
    JsonValue::Str(x.to_string())
}

fn num(x: u64) -> JsonValue {
    JsonValue::Num(Some(x))
}

fn single_doc(values: Vec<JsonValue>) -> Documents {
    Documents { docs: vec![Doc { values }] }
}

fn root_resolver() -> Resolver {
    Resolver { base: "https://example.com/root.json".to_string(), doc: 0 }
}

fn no_registry() -> Registry {
    Registry { resolvers: vec![] }
}

#[test]
fn small_types_hold_their_fields() {
    let id = NodeId(3);
    assert_eq!(id.value(), 3);
    assert!(!id.is_root());
    assert!(NodeId(0).is_root());
    let e = Edge::new(EdgeLabel::Key("k".to_string()), NodeId(2));
    assert_eq!(e.target, NodeId(2));
    assert_eq!(e.label.as_key(), Some("k"));
    assert_eq!(EdgeLabel::Index(4).as_key(), None);
    let re = RangedEdge::new(EdgeLabel::Index(0), NodeRange { start: 1, end: 3 });
    assert_eq!(re.nodes, NodeRange { start: 1, end: 3 });
    assert!(NodeSlot::new(NodeId(1)).is_new());
    assert!(!NodeSlot::seen(NodeId(1)).is_new());
}

#[test]
fn dedup_two_paths_one_node() {
    // Two members sharing the identical sub-value by identity: one node,
    // both edges target it.
    let docs = single_doc(vec![obj(vec![("a", 1), ("b", 1)]), obj(vec![])]);
    let al = AdjacencyList::new(&docs, &root_resolver(), &no_registry()).unwrap();
    assert_eq!(al.nodes.len(), 3);
    assert_eq!(al.edges[1].len(), 2);
    assert_eq!(al.edges[1][0].target, NodeId(2));
    assert_eq!(al.edges[1][1].target, NodeId(2));
}

#[test]
fn shared_all_of_items_share_a_node() {
    // Two siblings of an allOf list literally being the same parsed node
    // yield one shared target with two inbound edges.
    let docs = single_doc(vec![
        obj(vec![("allOf", 1)]),
        JsonValue::Arr(vec![2, 2]),
        obj(vec![("type", 3)]),
        text("string"),
    ]);
    let al = AdjacencyList::new(&docs, &root_resolver(), &no_registry()).unwrap();
    assert_eq!(al.nodes.len(), 5);
    assert_eq!(al.edges[2].len(), 2);
    assert_eq!(al.edges[2][0].target, NodeId(3));
    assert_eq!(al.edges[2][1].target, NodeId(3));
    assert_eq!(al.edges[2][0].label, EdgeLabel::Index(0));
    assert_eq!(al.edges[2][1].label, EdgeLabel::Index(1));
}

#[test]
fn self_reference_terminates() {
    // {"$ref": "#"} compiles without infinite expansion; the reference's
    // range points back at the root's own slot.
    let docs = single_doc(vec![obj(vec![("$ref", 1)]), text("#")]);
    let al = AdjacencyList::new(&docs, &root_resolver(), &no_registry()).unwrap();
    assert_eq!(al.nodes.len(), 2);
    assert_eq!(al.edges[1].len(), 1);
    assert_eq!(al.edges[1][0].target, NodeId(1));
    let rg = RangeGraph::try_from(&al, &docs).unwrap();
    assert_eq!(rg.nodes[1], Some(Keyword::Ref(NodeRange { start: 1, end: 2 })));
    let out = rg.compress();
    assert_eq!(out.nodes, vec![Keyword::Ref(NodeRange { start: 0, end: 1 })]);
    assert_eq!(out.edges.len(), 1);
    assert!(out.edges[0].is_none());
}

#[test]
fn mutual_references_terminate() {
    let doc_a = Doc {
        values: vec![obj(vec![("$ref", 1)]), text("https://b.example/s")],
    };
    let doc_b = Doc {
        values: vec![obj(vec![("$ref", 1)]), text("https://a.example/s")],
    };
    let docs = Documents { docs: vec![doc_a, doc_b] };
    let root = Resolver { base: "https://a.example/s".to_string(), doc: 0 };
    let registry = Registry {
        resolvers: vec![
            Resolver { base: "https://a.example/s".to_string(), doc: 0 },
            Resolver { base: "https://b.example/s".to_string(), doc: 1 },
        ],
    };
    let al = AdjacencyList::new(&docs, &root, &registry).unwrap();
    // One node per distinct reachable value, not per reference traversal.
    assert_eq!(al.nodes.len(), 3);
    assert_eq!(al.nodes[1], Addr { doc: 0, idx: 0 });
    assert_eq!(al.nodes[2], Addr { doc: 1, idx: 0 });
    assert_eq!(al.edges[2][0].target, NodeId(1));
}

#[test]
fn cross_document_reference_resolves_to_target_value() {
    // The adjacency list holds the target document's designated sub-value,
    // not the reference string.
    let root_doc = Doc {
        values: vec![obj(vec![("$ref", 1)]), text("https://other.example/s")],
    };
    let other_doc = Doc { values: vec![obj(vec![("type", 1)]), text("boolean")] };
    let docs = Documents { docs: vec![root_doc, other_doc] };
    let root = root_resolver();
    let registry = Registry {
        resolvers: vec![Resolver { base: "https://other.example/s".to_string(), doc: 1 }],
    };
    let al = AdjacencyList::new(&docs, &root, &registry).unwrap();
    assert_eq!(al.nodes[2], Addr { doc: 1, idx: 0 });
    let rg = RangeGraph::try_from(&al, &docs).unwrap();
    assert_eq!(rg.nodes[3], Some(Keyword::Type(ValueType::Boolean)));
}

#[test]
fn properties_spans_two_children_in_order() {
    // {"properties": {"a": {"type": "string"}, "b": {"type": "integer"}}}
    let docs = single_doc(vec![
        obj(vec![("properties", 1)]),
        obj(vec![("a", 2), ("b", 3)]),
        obj(vec![("type", 4)]),
        obj(vec![("type", 5)]),
        text("string"),
        text("integer"),
    ]);
    let al = AdjacencyList::new(&docs, &root_resolver(), &no_registry()).unwrap();
    let rg = RangeGraph::try_from(&al, &docs).unwrap();
    // The properties keyword's child range spans exactly the two property
    // sub-schemas, a first, b second.
    assert_eq!(rg.nodes[2], Some(Keyword::Properties(NodeRange { start: 3, end: 5 })));
    assert_eq!(
        rg.edges[3],
        Some(RangedEdge::new(EdgeLabel::Key("a".to_string()), NodeRange { start: 5, end: 6 }))
    );
    assert_eq!(
        rg.edges[4],
        Some(RangedEdge::new(EdgeLabel::Key("b".to_string()), NodeRange { start: 6, end: 7 }))
    );
    assert_eq!(rg.nodes[5], Some(Keyword::Type(ValueType::Str)));
    assert_eq!(rg.nodes[6], Some(Keyword::Type(ValueType::Integer)));
    // Contiguity: the range's length equals the number of direct edges.
    assert_eq!(al.edges[2].len(), 2);
    assert_eq!(al.edges[2][0].target, NodeId(3));
    assert_eq!(al.edges[2][1].target, NodeId(4));
}

#[test]
fn compaction_renumbers_surviving_ranges() {
    let mut g = RangeGraph { nodes: vec![None; 4], edges: vec![None, None, None, None] };
    g.set_node(1, Keyword::Maximum(5));
    g.set_node(3, Keyword::Type(ValueType::Boolean));
    g.set_edge(1, EdgeLabel::Key("x".to_string()), NodeRange { start: 2, end: 4 });
    let out = g.compress();
    assert_eq!(out.nodes, vec![Keyword::Maximum(5), Keyword::Type(ValueType::Boolean)]);
    // Old range 2..4 held one survivor (slot 3, now 1): renumbered to 1..2.
    assert_eq!(
        out.edges[0],
        Some(RangedEdge::new(EdgeLabel::Key("x".to_string()), NodeRange { start: 1, end: 2 }))
    );
    assert_eq!(out.edges[1], None);
}

#[test]
fn compaction_collapses_dead_ranges_to_empty() {
    let mut g = RangeGraph { nodes: vec![None; 3], edges: vec![None, None, None] };
    g.set_node(0, Keyword::Properties(NodeRange { start: 1, end: 3 }));
    let out = g.compress();
    // The range spanned only removed nodes: it collapses to an empty range
    // at the correct position.
    assert_eq!(out.nodes, vec![Keyword::Properties(NodeRange { start: 1, end: 1 })]);
}

#[test]
fn full_build_produces_dense_artifact() {
    let docs = single_doc(vec![
        obj(vec![("properties", 1)]),
        obj(vec![("a", 2), ("b", 3)]),
        obj(vec![("type", 4)]),
        obj(vec![("type", 5)]),
        text("string"),
        text("integer"),
    ]);
    let out = build(&docs, &root_resolver(), &no_registry()).unwrap();
    assert_eq!(
        out.nodes,
        vec![
            Keyword::Properties(NodeRange { start: 1, end: 1 }),
            Keyword::Type(ValueType::Str),
            Keyword::Type(ValueType::Integer),
        ]
    );
    assert_eq!(out.edges.len(), 3);
}

#[test]
fn numeric_bounds_build_exact_keywords() {
    let docs = single_doc(vec![
        obj(vec![("maximum", 1), ("maxLength", 2), ("minProperties", 3)]),
        num(17),
        num(4),
        num(2),
    ]);
    let out = build(&docs, &root_resolver(), &no_registry()).unwrap();
    assert_eq!(
        out.nodes,
        vec![Keyword::Maximum(17), Keyword::MaxLength(4), Keyword::MinProperties(2)]
    );
}

#[test]
fn malformed_bound_value_is_an_error() {
    let docs = single_doc(vec![obj(vec![("maximum", 1)]), text("x")]);
    let err = build(&docs, &root_resolver(), &no_registry()).unwrap_err();
    assert_eq!(err, CompileError::MalformedKeywordValue { keyword: "maximum".to_string(), node: 2 });
}

#[test]
fn unrecognized_type_name_is_an_error() {
    let docs = single_doc(vec![obj(vec![("type", 1)]), text("frob")]);
    let err = build(&docs, &root_resolver(), &no_registry()).unwrap_err();
    assert_eq!(err, CompileError::UnrecognizedType("frob".to_string()));
}

#[test]
fn missing_location_is_an_error() {
    let docs = single_doc(vec![obj(vec![("$ref", 1)]), text("#/missing")]);
    let err = build(&docs, &root_resolver(), &no_registry()).unwrap_err();
    assert_eq!(err, CompileError::LocationNotFound("#/missing".to_string()));
}

#[test]
fn non_pointer_fragment_is_malformed() {
    let docs = single_doc(vec![obj(vec![("$ref", 1)]), text("#frag")]);
    let err = build(&docs, &root_resolver(), &no_registry()).unwrap_err();
    assert_eq!(err, CompileError::MalformedReference("#frag".to_string()));
}

#[test]
fn unregistered_document_is_an_error() {
    let docs = single_doc(vec![obj(vec![("$ref", 1)]), text("other.json")]);
    let err = build(&docs, &root_resolver(), &no_registry()).unwrap_err();
    assert_eq!(err, CompileError::UnknownDocument("https://example.com/other.json".to_string()));
}

#[test]
fn resolver_walks_pointers_and_collects_identifiers() {
    let docs = single_doc(vec![
        obj(vec![("$id", 1), ("a", 2)]),
        text("https://example.com/root.json"),
        obj(vec![("$id", 3), ("b", 4)]),
        text("sub/"),
        obj(vec![]),
    ]);
    let r = root_resolver();
    let (folders, idx) = r.resolve(&docs, "#/a/b").unwrap();
    assert_eq!(idx, 4);
    assert_eq!(folders, vec!["https://example.com/root.json".to_string(), "sub/".to_string()]);
}

#[test]
fn resolver_indexes_arrays_by_position() {
    let docs = single_doc(vec![
        obj(vec![("items", 1)]),
        JsonValue::Arr(vec![2, 3]),
        obj(vec![]),
        obj(vec![("x", 4)]),
        num(1),
    ]);
    let r = root_resolver();
    let (_, idx) = r.resolve(&docs, "#/items/1").unwrap();
    assert_eq!(idx, 3);
    let (_, root_idx) = r.resolve(&docs, "#").unwrap();
    assert_eq!(root_idx, 0);
    assert!(r.resolve(&docs, "#/items/2").is_err());
    assert!(r.resolve(&docs, "#/items/x").is_err());
}

#[test]
fn scope_joins_folders_then_reference() {
    let scope = Scope::with_folders(
        root_resolver(),
        vec!["https://example.com/root.json".to_string(), "sub/".to_string()],
    );
    let joined = scope.build_url("https://example.com/root.json", "other.json").unwrap();
    // Fails if URL joining handed an argument back unchanged.
    assert_eq!(joined, "https://example.com/sub/other.json");
    let empty_scope = Scope::new(root_resolver());
    let joined2 = empty_scope.build_url("https://example.net/a/b.html", "c.png").unwrap();
    assert_eq!(joined2, "https://example.net/a/c.png");
    let absolute = empty_scope.build_url("https://example.net/a/b.html", "http://eve.com/b").unwrap();
    assert_eq!(absolute, "http://eve.com/b");
}

#[test]
fn items_and_all_of_are_recognized() {
    let docs = single_doc(vec![
        obj(vec![("allOf", 1), ("items", 5)]),
        JsonValue::Arr(vec![2]),
        obj(vec![("type", 3)]),
        text("null"),
        num(0),
        JsonValue::Arr(vec![4]),
    ]);
    let al = AdjacencyList::new(&docs, &root_resolver(), &no_registry()).unwrap();
    let rg = RangeGraph::try_from(&al, &docs).unwrap();
    let all_of = rg.nodes.iter().flatten().any(|k| matches!(k, Keyword::AllOf(_)));
    let items = rg.nodes.iter().flatten().any(|k| matches!(k, Keyword::Items));
    assert!(all_of);
    assert!(items);
}

#[test]
fn absolute_reference_is_canonicalized_before_lookup() {
    // "https://other.example" (no path) canonicalizes with a trailing
    // slash; the registry is keyed by the canonical form, so the lookup
    // succeeds only through that canonicalization.
    let root_doc = Doc {
        values: vec![obj(vec![("$ref", 1)]), text("https://other.example")],
    };
    let other_doc = Doc { values: vec![obj(vec![("type", 1)]), text("null")] };
    let docs = Documents { docs: vec![root_doc, other_doc] };
    let registry = Registry {
        resolvers: vec![Resolver { base: "https://other.example/".to_string(), doc: 1 }],
    };
    let al = AdjacencyList::new(&docs, &root_resolver(), &registry).unwrap();
    assert_eq!(al.nodes[2], Addr { doc: 1, idx: 0 });
}

#[test]
fn resolver_claims_locations_of_its_own_document() {
    let r = root_resolver();
    assert!(r.contains("https://example.com/root.json#/a/b"));
    assert!(r.contains("https://example.com/root.json"));
    assert!(!r.contains("https://example.com/other.json"));
}
