//! The store, updates, the feed slot and reasoning views.

use horndb_sparql::algebra::{
    Algebra, DatasetSpec, GraphScope, GraphSpec, Term, TriplePattern, Var,
};
use horndb_sparql::error::SparqlError;
use horndb_sparql::exec::executor::Executor;
use horndb_sparql::exec::mem::MemStore;
use horndb_sparql::exec::scope::{is_reserved_graph, ResolvedScope, ScanScope};
use horndb_sparql::exec::store::{AlgebraQuad, AlgebraTriple, Store};
use horndb_sparql::feed::{
    advance_slot_at, check_feed_id, decode_literal, plain_literal, read_slot, slot_delta, slot_quads,
    FeedPosition, Slot, FEED_GRAPH,
};
use horndb_sparql::percent::{percent_decode, percent_decode_segment, percent_encode_segment};
use horndb_sparql::reasoning::catalog::ViewCatalog;
use horndb_sparql::reasoning::derive::{Step, ViewManager};
use horndb_sparql::reasoning::{
    is_reasoning_output, source_of_inferred_graph, validate, Reasoning, ViewOutput, ViewSelect,
    ViewSource, Views, SPINE_CLOSURE_GRAPH, VIEWS_GRAPH,
};
use horndb_sparql::update::apply::{apply_update, apply_update_with, apply_update_with_feed};
use horndb_sparql::update::hints::{recover_amc_hints, resolve_iri, AmcSource};
use horndb_sparql::update::load::{
    file_iri_to_path, is_dataset_format, parse_rdf_bytes, scope_blank_node_label, source_path,
};
use horndb_sparql::update::request::{
    Document, GraphTarget, UpdateOp, UpdateRequest, WherePattern,
};
use horndb_sparql::update::template::{GraphTemplate, QuadTemplate};
use horndb_sparql::{DefaultGraphMode, SparqlConfig};

fn iri(s: &str) -> Term {
    Term::Iri(format!("http://ex/{s}"))
}

fn quad(g: Option<&str>, s: &str, p: &str, o: &str) -> AlgebraQuad {
    (g.map(|g| format!("http://ex/{g}")), iri(s), iri(p), iri(o))
}

fn triple(s: &str, p: &str, o: &str) -> AlgebraTriple {
    (iri(s), iri(p), iri(o))
}

// ── Settings ────────────────────────────────────────────────────────────────

#[test]
fn default_graph_mode_defaults_to_union() {
    assert_eq!(DefaultGraphMode::default(), DefaultGraphMode::Union);
    assert_eq!(
        SparqlConfig::default().default_graph,
        DefaultGraphMode::Union
    );
}

#[test]
fn default_graph_mode_parses_known_values() {
    assert_eq!(
        DefaultGraphMode::parse("union"),
        Some(DefaultGraphMode::Union)
    );
    assert_eq!(
        DefaultGraphMode::parse("strict"),
        Some(DefaultGraphMode::Strict)
    );
}

#[test]
fn default_graph_mode_rejects_unknown_values() {
    assert_eq!(DefaultGraphMode::parse("bogus"), None);
    assert_eq!(DefaultGraphMode::parse("Union"), None);
    assert_eq!(DefaultGraphMode::parse(""), None);
}

#[test]
fn triple_terms_are_switched_on() {
    assert!(!SparqlConfig::default().rdf12);
    assert!(SparqlConfig::rdf12().rdf12);
}

// ── Scopes ──────────────────────────────────────────────────────────────────

fn named(iri: &str) -> GraphScope {
    GraphScope::Named(GraphSpec::Iri(iri.to_owned()))
}

#[test]
fn no_dataset_follows_the_mode() {
    let ds = DatasetSpec::none();
    assert_eq!(
        ScanScope::new(&GraphScope::DefaultGraph, &ds, DefaultGraphMode::Union).resolve(),
        ResolvedScope::DefaultUnion
    );
    assert_eq!(
        ScanScope::new(&GraphScope::DefaultGraph, &ds, DefaultGraphMode::Strict).resolve(),
        ResolvedScope::DefaultStrict
    );
}

#[test]
fn from_wins_over_the_mode() {
    let ds = DatasetSpec {
        default: Some(vec!["http://ex/g".into()]),
        named: Some(vec![]),
    };
    for mode in [DefaultGraphMode::Union, DefaultGraphMode::Strict] {
        match ScanScope::new(&GraphScope::DefaultGraph, &ds, mode).resolve() {
            ResolvedScope::Union(l) => assert_eq!(l, ["http://ex/g".to_owned()]),
            other => panic!("expected the FROM list, got {other:?}"),
        }
    }
}

#[test]
fn from_named_only_yields_an_empty_default_graph() {
    let ds = DatasetSpec {
        default: Some(vec![]),
        named: Some(vec!["http://ex/g".into()]),
    };
    assert_eq!(
        ScanScope::new(&GraphScope::DefaultGraph, &ds, DefaultGraphMode::Union).resolve(),
        ResolvedScope::Union(&[])
    );
}

#[test]
fn ground_graph_outside_the_named_set_is_empty() {
    let ds = DatasetSpec {
        default: Some(vec![]),
        named: Some(vec!["http://ex/g1".into()]),
    };
    let inside = named("http://ex/g1");
    let outside = named("http://ex/g2");
    assert_eq!(
        ScanScope::new(&inside, &ds, DefaultGraphMode::Union).resolve(),
        ResolvedScope::OneGraph("http://ex/g1")
    );
    assert_eq!(
        ScanScope::new(&outside, &ds, DefaultGraphMode::Union).resolve(),
        ResolvedScope::Union(&[])
    );
}

#[test]
fn a_bare_graph_var_leaf_does_not_resolve_to_a_graph_set() {
    let scoped = GraphScope::Named(GraphSpec::Var(Var::new("g")));
    let no_clause = DatasetSpec::none();
    match ScanScope::new(&scoped, &no_clause, DefaultGraphMode::Union).resolve() {
        ResolvedScope::UnboundGraphVar(v) => assert_eq!(v.name(), "g"),
        other => panic!("expected UnboundGraphVar, got {other:?}"),
    }
}

#[test]
fn reserved_prefix_test() {
    assert!(is_reserved_graph("https://horndb.io/graph/inferred"));
    assert!(!is_reserved_graph("http://ex/g"));
}

// ── The store ───────────────────────────────────────────────────────────────

#[test]
fn what_is_written_is_read() {
    let mut st: MemStore = MemStore::new();
    st.apply_quads(
        vec![],
        vec![
            quad(None, "a", "p", "b"),
            quad(Some("g"), "a", "p", "b"),
            quad(Some("g"), "c", "p", "d"),
            quad(Some("g"), "c", "p", "d"),
        ],
    )
    .unwrap();
    assert!(st.quad_exists(&quad(Some("g"), "a", "p", "b")));
    assert!(!st.quad_exists(&quad(Some("h"), "a", "p", "b")));
    assert!(st.graph_exists("http://ex/g"));
    assert!(!st.graph_exists("http://ex/h"));
    assert_eq!(st.graphs(), vec!["http://ex/g".to_owned()]);
    let g = Some("http://ex/g".to_owned());
    assert_eq!(
        st.scan_graph_quads(&g).unwrap(),
        vec![triple("a", "p", "b"), triple("c", "p", "d")]
    );
    st.apply_quads(
        vec![quad(Some("g"), "a", "p", "b")],
        vec![quad(Some("h"), "x", "y", "z")],
    )
    .unwrap();
    assert_eq!(st.scan_graph_quads(&g).unwrap(), vec![triple("c", "p", "d")]);
    st.clear_graph(&g).unwrap();
    assert!(!st.graph_exists("http://ex/g"));
    assert_eq!(st.graphs(), vec!["http://ex/h".to_owned()]);
    assert_eq!(st.scan_graph_quads(&None).unwrap(), vec![triple("a", "p", "b")]);
}

#[test]
fn an_unknown_id_is_the_empty_iri() {
    let st: MemStore = MemStore::new();
    assert_eq!(st.decode_term(7).unwrap(), Term::Iri(String::new()));
    assert_eq!(st.decode_numeric(7).unwrap(), None);
}

#[test]
fn estimates_are_the_smallest_count() {
    let mut st: MemStore = MemStore::new();
    for o in ["b", "c", "d"] {
        st.insert_quad(quad(None, "a", "p", o));
    }
    st.insert_quad(quad(None, "a", "q", "b"));
    let pat = |p: &str| TriplePattern {
        subject: Term::Var(Var::new("s")),
        predicate: iri(p),
        object: Term::Var(Var::new("o")),
    };
    assert_eq!(st.cardinality_estimate(&vec![pat("p")]), Some(3));
    assert_eq!(st.cardinality_estimate(&vec![pat("p"), pat("q")]), Some(1));
    assert_eq!(st.cardinality_estimate(&vec![pat("r")]), Some(0));
    assert_eq!(st.cardinality_estimate(&vec![]), Some(1));
}

// ── Updates ─────────────────────────────────────────────────────────────────

fn request(operations: Vec<UpdateOp>) -> UpdateRequest {
    UpdateRequest {
        operations,
        source: String::new(),
        base_iri: None,
    }
}

fn insert_data(q: AlgebraQuad) -> UpdateOp {
    UpdateOp::InsertData { data: vec![q] }
}

fn all_triples(st: &MemStore, g: Option<&str>) -> Vec<AlgebraTriple> {
    st.scan_graph_quads(&g.map(|g| format!("http://ex/{g}")))
        .unwrap()
}

#[test]
fn data_is_inserted_and_deleted() {
    let mut st: MemStore = MemStore::new();
    let u = request(vec![
        insert_data(quad(None, "a", "p", "b")),
        insert_data(quad(Some("g"), "c", "p", "d")),
        UpdateOp::DeleteData {
            data: vec![quad(None, "a", "p", "b")],
        },
    ]);
    apply_update(&u, &mut st).unwrap();
    assert_eq!(all_triples(&st, None), vec![]);
    assert_eq!(all_triples(&st, Some("g")), vec![triple("c", "p", "d")]);
}

fn template(p: &str) -> QuadTemplate {
    QuadTemplate {
        graph: GraphTemplate::DefaultGraph,
        subject: Term::Var(Var::new("s")),
        predicate: iri(p),
        object: Term::Var(Var::new("o")),
    }
}

fn rename(from: &str, to: &str) -> UpdateOp {
    UpdateOp::DeleteInsert {
        delete: vec![template(from)],
        insert: vec![template(to)],
        using: DatasetSpec::none(),
        pattern: WherePattern::Algebra(Algebra::Bgp {
            patterns: vec![TriplePattern {
                subject: Term::Var(Var::new("s")),
                predicate: iri(from),
                object: Term::Var(Var::new("o")),
            }],
        }),
    }
}

#[test]
fn a_pattern_drives_deletes_and_inserts() {
    let mut st: MemStore = MemStore::new();
    st.insert_quad(quad(None, "a", "old", "b"));
    st.insert_quad(quad(None, "c", "old", "d"));
    st.insert_quad(quad(None, "e", "keep", "f"));
    apply_update(&request(vec![rename("old", "new")]), &mut st).unwrap();
    let mut got = all_triples(&st, None);
    got.sort_by_key(|t| format!("{t:?}"));
    assert_eq!(
        got,
        vec![
            triple("a", "new", "b"),
            triple("c", "new", "d"),
            triple("e", "keep", "f")
        ]
    );
}

#[test]
fn a_failing_operation_undoes_the_request() {
    let mut st: MemStore = MemStore::new();
    st.insert_quad(quad(None, "a", "p", "b"));
    // The graph comes into being with the first operation, so creating it in
    // the second fails only then.
    let u = request(vec![
        insert_data(quad(Some("g"), "c", "p", "d")),
        UpdateOp::Create {
            silent: false,
            graph: "http://ex/g".into(),
        },
    ]);
    let r = apply_update(&u, &mut st);
    assert!(r.is_err(), "{r:?}");
    assert_eq!(all_triples(&st, Some("g")), vec![]);
    assert_eq!(all_triples(&st, None), vec![triple("a", "p", "b")]);
}

#[test]
fn reserved_graphs_are_not_written() {
    let mut st: MemStore = MemStore::new();
    let q = (
        Some("https://horndb.io/graph/feed".to_owned()),
        iri("a"),
        iri("p"),
        iri("b"),
    );
    let r = apply_update(&request(vec![insert_data(q)]), &mut st);
    assert!(matches!(r, Err(SparqlError::UnsupportedAlgebra(_)) | Err(SparqlError::Executor(_))), "{r:?}");
    assert!(st.graphs().is_empty());
    // Clearing everything leaves them alone.
    st.insert_quad((
        Some("https://horndb.io/graph/feed".to_owned()),
        iri("a"),
        iri("p"),
        iri("b"),
    ));
    st.insert_quad(quad(Some("g"), "a", "p", "b"));
    st.insert_quad(quad(None, "a", "p", "b"));
    apply_update(
        &request(vec![UpdateOp::Clear {
            silent: false,
            graph: GraphTarget::AllGraphs,
        }]),
        &mut st,
    )
    .unwrap();
    assert_eq!(st.graphs(), vec!["https://horndb.io/graph/feed".to_owned()]);
    assert_eq!(all_triples(&st, None), vec![]);
}

#[test]
fn graphs_are_created_dropped_and_cleared() {
    let mut st: MemStore = MemStore::new();
    let missing = request(vec![UpdateOp::Drop {
        silent: false,
        graph: GraphTarget::NamedNode("http://ex/g".into()),
    }]);
    assert!(apply_update(&missing, &mut st).is_err());
    let quiet = request(vec![UpdateOp::Drop {
        silent: true,
        graph: GraphTarget::NamedNode("http://ex/g".into()),
    }]);
    apply_update(&quiet, &mut st).unwrap();
    st.insert_quad(quad(Some("g"), "a", "p", "b"));
    st.insert_quad(quad(Some("h"), "a", "p", "b"));
    st.insert_quad(quad(None, "a", "p", "b"));
    let drop_g = request(vec![UpdateOp::Drop {
        silent: false,
        graph: GraphTarget::NamedNode("http://ex/g".into()),
    }]);
    apply_update(&drop_g, &mut st).unwrap();
    assert_eq!(st.graphs(), vec!["http://ex/h".to_owned()]);
    let clear_named = request(vec![UpdateOp::Clear {
        silent: false,
        graph: GraphTarget::NamedGraphs,
    }]);
    apply_update(&clear_named, &mut st).unwrap();
    assert!(st.graphs().is_empty());
    assert_eq!(all_triples(&st, None).len(), 1);
    let clear_default = request(vec![UpdateOp::Clear {
        silent: false,
        graph: GraphTarget::DefaultGraph,
    }]);
    apply_update(&clear_default, &mut st).unwrap();
    assert_eq!(all_triples(&st, None).len(), 0);
}

#[test]
fn a_document_is_loaded_into_a_graph() {
    let mut st: MemStore = MemStore::new();
    let quads = parse_rdf_bytes(
        3,
        b"<http://ex/a> <http://ex/p> \"x\"@en .\n_:n <http://ex/p> <http://ex/b> .\n",
        Some("nt"),
        "http://ex/doc.nt",
    )
    .unwrap();
    let load = UpdateOp::Load {
        silent: false,
        source: "http://ex/doc.nt".into(),
        destination: Some("http://ex/g".into()),
        document: Document::Quads(quads),
    };
    apply_update_with(&request(vec![load]), &mut st, &SparqlConfig::default()).unwrap();
    assert_eq!(
        all_triples(&st, Some("g")),
        vec![
            (iri("a"), iri("p"), Term::Literal("\"x\"@en".into())),
            (Term::BlankNode("d3_n".into()), iri("p"), iri("b")),
        ]
    );
    let failed = |silent| UpdateOp::Load {
        silent,
        source: "http://ex/doc.nt".into(),
        destination: None,
        document: Document::Failed(SparqlError::Executor("no such file".into())),
    };
    let r = apply_update(&request(vec![failed(false)]), &mut st);
    assert_eq!(r, Err(SparqlError::Executor("no such file".into())));
    apply_update(&request(vec![failed(true)]), &mut st).unwrap();
}

#[test]
fn documents_of_each_format_are_read() {
    let nt = parse_rdf_bytes(1, b"<http://ex/a> <http://ex/p> <http://ex/b> .", Some("nt"), "http://ex/");
    assert_eq!(nt.unwrap(), vec![quad(None, "a", "p", "b")]);
    let ttl = parse_rdf_bytes(1, b"@prefix : <http://ex/> . :a :p :b .", Some("ttl"), "http://ex/");
    assert_eq!(ttl.unwrap(), vec![quad(None, "a", "p", "b")]);
    let relative = parse_rdf_bytes(1, b"<a> <p> <b> .", None, "http://ex/");
    assert_eq!(relative.unwrap(), vec![quad(None, "a", "p", "b")]);
    let nq = parse_rdf_bytes(
        1,
        b"<http://ex/a> <http://ex/p> <http://ex/b> <http://ex/g> .",
        Some("nq"),
        "http://ex/",
    );
    assert_eq!(nq.unwrap(), vec![quad(Some("g"), "a", "p", "b")]);
    let trig = parse_rdf_bytes(
        1,
        b"<http://ex/g> { <http://ex/a> <http://ex/p> <http://ex/b> }",
        Some("trig"),
        "http://ex/",
    );
    assert_eq!(trig.unwrap(), vec![quad(Some("g"), "a", "p", "b")]);
    assert!(parse_rdf_bytes(1, b"<http://ex/a> .", Some("nt"), "http://ex/").is_err());
}

#[test]
fn sources_of_documents() {
    assert_eq!(source_path("file:///tmp/a%20b.ttl").unwrap(), "/tmp/a b.ttl");
    assert_eq!(file_iri_to_path("file:///tmp/a%20b.ttl").unwrap(), "/tmp/a%20b.ttl");
    assert!(file_iri_to_path("http://ex/a.ttl").is_err());
    assert!(is_dataset_format("file:///x.trig"));
    assert!(is_dataset_format("file:///x.nq"));
    assert!(!is_dataset_format("file:///x.ttl"));
    assert_ne!(
        scope_blank_node_label(1, "1_x"),
        scope_blank_node_label(11, "x")
    );
}

#[test]
fn hints_name_the_source_of_a_move() {
    let src = "BASE <http://ex/> PREFIX e: <http://ex/> # a comment with MOVE <x> TO <y>\n\
               MOVE SILENT e:a TO <b> ; COPY DEFAULT TO <c> ; ADD GRAPH <g> TO GRAPH <g>";
    let hints = recover_amc_hints(src, &None);
    assert_eq!(hints.len(), 3);
    assert!(hints[0].silent);
    assert!(matches!(&hints[0].source, AmcSource::Named(s) if s == "http://ex/a"));
    assert!(!hints[0].is_identity);
    assert!(!hints[1].silent);
    assert!(matches!(&hints[1].source, AmcSource::Default));
    assert!(matches!(&hints[2].source, AmcSource::Named(s) if s == "http://ex/g"));
    assert!(hints[2].is_identity);
    assert_eq!(resolve_iri("http://ex/x", &None), Some("http://ex/x".into()));
    assert_eq!(resolve_iri("x", &None), None);
    assert_eq!(
        resolve_iri("y", &Some("http://ex/d/".into())),
        Some("http://ex/d/y".into())
    );
}

#[test]
fn a_move_from_a_missing_graph_is_refused() {
    let mut st: MemStore = MemStore::new();
    let mut u = request(vec![]);
    u.source = "MOVE <http://ex/none> TO <http://ex/g>".into();
    assert!(apply_update(&u, &mut st).is_err());
    u.source = "MOVE SILENT <http://ex/none> TO <http://ex/g>".into();
    apply_update(&u, &mut st).unwrap();
}

#[test]
fn unsupported_patterns_are_refused() {
    let mut st: MemStore = MemStore::new();
    let u = request(vec![UpdateOp::DeleteInsert {
        delete: vec![],
        insert: vec![template("p")],
        using: DatasetSpec::none(),
        pattern: WherePattern::Unsupported("SERVICE".into()),
    }]);
    assert_eq!(
        apply_update(&u, &mut st),
        Err(SparqlError::UnsupportedAlgebra("SERVICE".into()))
    );
}

// ── The feed slot ───────────────────────────────────────────────────────────

#[test]
fn literal_round_trips_special_characters() {
    for s in [
        "plain",
        "with\"quote",
        "with\\backslash",
        "with\nnewline",
        "",
    ] {
        let lex = plain_literal(s);
        assert_eq!(decode_literal(&lex).as_deref(), Some(s));
    }
}

#[test]
fn slot_delta_replaces_old_with_new() {
    let old = Slot {
        id: "a".into(),
        generation: 0,
        position: "1".into(),
        advanced_at: "2026-01-01T00:00:00Z".into(),
    };
    let new = Slot {
        id: "a".into(),
        generation: 0,
        position: "2".into(),
        advanced_at: "2026-01-02T00:00:00Z".into(),
    };
    let (dels, adds) = slot_delta(slot_quads(&old), &new);
    assert_eq!(dels.len(), 4);
    assert_eq!(adds.len(), 4);
    assert_ne!(dels, adds);
}

#[test]
fn slot_delta_with_no_prior_slot_has_no_deletions() {
    let new = Slot {
        id: "a".into(),
        generation: 0,
        position: "1".into(),
        advanced_at: "2026-01-01T00:00:00Z".into(),
    };
    let (dels, adds) = slot_delta(Vec::new(), &new);
    assert!(dels.is_empty());
    assert_eq!(adds.len(), 4);
}

fn at(id: &str, position: &str) -> FeedPosition {
    FeedPosition {
        id: id.into(),
        position: position.into(),
    }
}

#[test]
fn the_slot_reads_back_what_it_was_moved_to() {
    let mut st: MemStore = MemStore::new();
    assert_eq!(read_slot(&st).unwrap(), None);
    check_feed_id(&st, &at("a", "1")).unwrap();
    advance_slot_at(&mut st, &at("a", "1"), "2026-01-01T00:00:00Z".into()).unwrap();
    advance_slot_at(&mut st, &at("a", "2"), "2026-01-02T00:00:00Z".into()).unwrap();
    assert_eq!(
        read_slot(&st).unwrap(),
        Some(Slot {
            id: "a".into(),
            generation: 0,
            position: "2".into(),
            advanced_at: "2026-01-02T00:00:00Z".into(),
        })
    );
    assert_eq!(
        st.scan_graph_quads(&Some(FEED_GRAPH.to_owned())).unwrap().len(),
        4
    );
    assert_eq!(
        check_feed_id(&st, &at("b", "3")),
        Err(SparqlError::FeedIdMismatch {
            slot: "a".into(),
            request: "b".into()
        })
    );
}

#[test]
fn the_slot_moves_with_the_update() {
    let mut st: MemStore = MemStore::new();
    let cfg = SparqlConfig::default();
    let u = request(vec![insert_data(quad(None, "a", "p", "b"))]);
    apply_update_with_feed(&u, &mut st, &cfg, Some(&at("feed", "7"))).unwrap();
    let slot = read_slot(&st).unwrap().expect("a slot");
    assert_eq!((slot.id.as_str(), slot.position.as_str()), ("feed", "7"));
    assert!(slot.advanced_at.contains('T'), "{slot:?}");
    // Another feed is refused, and nothing is written.
    let more = request(vec![insert_data(quad(None, "c", "p", "d"))]);
    let r = apply_update_with_feed(&more, &mut st, &cfg, Some(&at("other", "1")));
    assert!(matches!(r, Err(SparqlError::FeedIdMismatch { .. })), "{r:?}");
    assert_eq!(all_triples(&st, None), vec![triple("a", "p", "b")]);
    // Without a position the slot stays.
    apply_update_with_feed(&more, &mut st, &cfg, None).unwrap();
    assert_eq!(read_slot(&st).unwrap().expect("a slot").position, "7");
}

// ── Reasoning ───────────────────────────────────────────────────────────────

#[test]
fn minting_roundtrips_and_is_injective() {
    let sources = [
        ViewSource::Default,
        ViewSource::Named("http://ex/g1".into()),
        ViewSource::Named("https://ex.org/a/b#frag".into()),
        ViewSource::Named("https://ex.org/100%25".into()),
        ViewSource::Named("https://ex.org/blåbær".into()),
        ViewSource::Named("https://ex.org/a?x=1&y=2".into()),
        ViewSource::Named("default".into()),
    ];
    let mut minted = std::collections::BTreeSet::new();
    for s in &sources {
        let g = s.inferred_graph();
        assert!(
            is_reasoning_output(&g),
            "{g} must be under the reserved namespace"
        );
        assert_eq!(
            source_of_inferred_graph(&g).as_ref(),
            Some(s),
            "{g} must decode back to its source"
        );
        assert!(minted.insert(g.clone()), "{g} was minted twice");
    }
    assert_eq!(minted.len(), sources.len());
}

#[test]
fn decoding_rejects_malformed_segments() {
    assert_eq!(percent_decode_segment("%"), None);
    assert_eq!(percent_decode_segment("%ZZ"), None);
    assert_eq!(percent_decode_segment("%FF"), None, "not valid UTF-8");
    assert_eq!(source_of_inferred_graph("http://ex/not-ours"), None);
}

#[test]
fn percent_encoding() {
    assert_eq!(percent_encode_segment("a/b é"), "a%2Fb%20%C3%A9");
    assert_eq!(percent_decode_segment("a%2Fb%20%C3%A9"), Some("a/b é".into()));
    assert_eq!(percent_decode("a%20b%zz%"), "a b%zz%");
    assert_eq!(percent_decode("%FF"), "\u{FFFD}");
}

fn cfg(spine: &[&str], select: ViewSelect) -> Reasoning {
    Reasoning {
        enabled: true,
        spine: spine.iter().map(|s| s.to_string()).collect(),
        views: Views {
            select,
            include_spine: true,
            output: ViewOutput::Graph,
        },
        default_dataset_includes_inferred: false,
    }
}

fn patterns(p: &[&str]) -> ViewSelect {
    ViewSelect::Patterns(p.iter().map(|s| s.to_string()).collect())
}

#[test]
fn validation_enforces_d9() {
    let all = || ViewSelect::AllExceptSpine;
    let e = validate(&cfg(&["https://horndb.io/graph/"], all())).unwrap_err();
    assert!(e.contains("[reasoning].spine"), "{e}");
    let e = validate(&cfg(
        &[],
        patterns(&["https://horndb.io/graph/inferred/"]),
    ))
    .unwrap_err();
    assert!(e.contains("[reasoning].views.select"), "{e}");

    let e = validate(&cfg(
        &["https://ex.org/vocab/"],
        patterns(&["https://ex.org/vocab/dcat"]),
    ))
    .unwrap_err();
    assert!(e.contains("[reasoning].spine"), "{e}");
    assert!(e.contains("[reasoning].views.select"), "{e}");

    let ok = validate(&cfg(
        &["https://ex.org/vocab/"],
        patterns(&["https://ex.org/data/"]),
    ))
    .unwrap();
    assert!(ok.is_empty(), "{ok:?}");

    let ok = validate(&cfg(&[], all())).unwrap();
    assert_eq!(ok.len(), 1, "{ok:?}");
    assert!(ok[0].contains("spine"), "{ok:?}");

    let mut off = cfg(&[], all());
    off.enabled = false;
    assert!(validate(&off).unwrap().is_empty());

    let mut virtual_view = cfg(&["https://ex.org/vocab/"], patterns(&[]));
    virtual_view.views.output = ViewOutput::Virtual;
    let e = validate(&virtual_view).unwrap_err();
    assert!(e.contains("P4"), "{e}");
}

fn view_cfg(spine: &[&str], select: Option<&[&str]>) -> Reasoning {
    cfg(
        spine,
        match select {
            None => ViewSelect::AllExceptSpine,
            Some(p) => patterns(p),
        },
    )
}

fn sources(c: &ViewCatalog) -> Vec<ViewSource> {
    c.views().iter().map(|v| v.source.clone()).collect()
}

#[test]
fn catalog_covers_non_spine_non_reserved_graphs() {
    let mut c = ViewCatalog::new(&view_cfg(&["https://ex.org/vocab/"], None));
    let graphs = vec![
        "https://ex.org/vocab/dcat".to_string(),
        "https://ex.org/data/a".to_string(),
        "https://ex.org/data/b".to_string(),
        "https://horndb.io/graph/inferred/x".to_string(),
        "https://horndb.io/graph/views".to_string(),
    ];
    assert!(c.refresh_membership(&graphs, false).is_empty());
    assert_eq!(
        sources(&c),
        vec![
            ViewSource::Named("https://ex.org/data/a".into()),
            ViewSource::Named("https://ex.org/data/b".into()),
        ]
    );
    assert_eq!(c.dirty_count(), 2, "new views arrive dirty");

    assert!(c.refresh_membership(&graphs, true).is_empty());
    assert!(sources(&c).contains(&ViewSource::Default));
    let gone = c.refresh_membership(&graphs, false);
    assert_eq!(gone.len(), 1);
    assert_eq!(gone[0].inferred_graph, ViewSource::Default.inferred_graph());

    let mut c = ViewCatalog::new(&view_cfg(
        &["https://ex.org/vocab/"],
        Some(&["https://ex.org/data/a"]),
    ));
    c.refresh_membership(&graphs, false);
    assert_eq!(
        sources(&c),
        vec![ViewSource::Named("https://ex.org/data/a".into())]
    );
}

#[test]
fn routing_is_per_view_and_ignores_our_own_writes() {
    let mut c = ViewCatalog::new(&view_cfg(&["https://ex.org/vocab/"], None));
    c.refresh_membership(
        &vec![
            "https://ex.org/vocab/dcat".to_string(),
            "https://ex.org/data/a".to_string(),
            "https://ex.org/data/b".to_string(),
        ],
        false,
    );
    for src in sources(&c) {
        c.mark_derived(&src, true);
    }
    c.mark_spine_fresh();
    assert_eq!(c.dirty_count(), 0);

    c.route(&vec![Some("https://ex.org/data/a".into())]);
    assert_eq!(c.dirty_count(), 1);
    assert_eq!(
        c.next_dirty(),
        Some(ViewSource::Named("https://ex.org/data/a".into()))
    );

    c.mark_derived(&ViewSource::Named("https://ex.org/data/a".into()), true);
    c.route(&vec![
        Some("https://horndb.io/graph/inferred/x".into()),
        Some("https://horndb.io/graph/views".into()),
        Some("https://horndb.io/graph/spine-closure".into()),
    ]);
    assert_eq!(c.dirty_count(), 0, "our own output must not dirty a view");

    let before = c.spine_version();
    c.route(&vec![Some("https://ex.org/vocab/dcat".into())]);
    assert_eq!(c.spine_version(), before + 1);
    assert_eq!(c.dirty_count(), 2, "a spine edit stales every view");
    assert!(c.spine_stale());
}

#[test]
fn visible_inferred_excludes_the_catalog_graph() {
    let mut c = ViewCatalog::new(&view_cfg(&[], None));
    c.refresh_membership(&vec!["https://ex.org/data/a".to_string()], false);
    let visible = c.visible_inferred();
    assert!(visible.contains(SPINE_CLOSURE_GRAPH));
    assert!(visible.contains(
        &ViewSource::Named("https://ex.org/data/a".into()).inferred_graph()
    ));
    assert!(!visible.contains(VIEWS_GRAPH));
    assert_eq!(visible.len(), 2);
}

#[test]
fn a_view_is_derived_and_published() {
    let mut st: MemStore = MemStore::new();
    let data = Some("https://ex.org/data/a".to_owned());
    st.insert_quad((data.clone(), iri("a"), iri("p"), iri("b")));
    let mut m = ViewManager::new(&view_cfg(&["https://ex.org/vocab/"], None));
    m.refresh(&st.graphs(), false);
    assert_eq!(m.next_step(), Step::BuildSpine);
    m.build_spine(&mut st, &vec![], vec![triple("x", "y", "z")]).unwrap();
    let src = ViewSource::Named("https://ex.org/data/a".into());
    assert_eq!(m.next_step(), Step::Derive(src.clone()));
    let asserted = vec![triple("a", "p", "b")];
    let closure = vec![
        triple("a", "p", "b"),
        triple("x", "y", "z"),
        triple("b", "q", "a"),
    ];
    m.derive_view(&mut st, &src, &asserted, &closure, true).unwrap();
    assert_eq!(
        st.scan_graph_quads(&Some(src.inferred_graph())).unwrap(),
        vec![triple("b", "q", "a")],
        "what the view adds to the spine and to its data"
    );
    assert_eq!(st.scan_graph_quads(&data).unwrap(), asserted);
    assert_eq!(m.next_step(), Step::Publish);
    m.publish(&mut st).unwrap();
    assert!(st.graph_exists(VIEWS_GRAPH));
    m.clear_derived(&mut st, &src.inferred_graph()).unwrap();
    assert!(!st.graph_exists(&src.inferred_graph()));
}

#[test]
fn a_partial_slot_is_replaced() {
    let mut st: MemStore = MemStore::new();
    let graph = Some(FEED_GRAPH.to_owned());
    let whole = slot_quads(&Slot {
        id: "a".into(),
        generation: 0,
        position: "1".into(),
        advanced_at: "2026-01-01T00:00:00Z".into(),
    });
    st.insert_quad(whole[0].clone());
    st.insert_quad((graph.clone(), iri("note"), iri("p"), iri("o")));
    assert_eq!(read_slot(&st).unwrap(), None);
    advance_slot_at(&mut st, &at("b", "7"), "2026-01-02T00:00:00Z".into()).unwrap();
    let slot = read_slot(&st).unwrap().unwrap();
    assert_eq!((slot.id.as_str(), slot.position.as_str()), ("b", "7"));
    let left = st.scan_graph_quads(&graph).unwrap();
    assert_eq!(left.len(), 5, "the four of the slot and the note");
    assert!(left.contains(&(iri("note"), iri("p"), iri("o"))));
}

#[test]
fn a_new_view_counts_as_derived_at_no_version() {
    let mut c = ViewCatalog::new(&view_cfg(&["https://ex.org/vocab/"], None));
    c.route(&vec![Some("https://ex.org/vocab/dcat".into())]);
    c.refresh_membership(&vec!["https://ex.org/data/a".to_string()], false);
    assert_eq!(c.spine_version(), 1);
    assert_eq!(c.dirty_count(), 1);
    assert_eq!(c.views()[0].state.derived_at_spine_version, 0);
    assert!(c.views()[0].state.dirty);
}

#[test]
fn a_manager_shows_inferred_graphs_only_where_it_is_told_to() {
    let mut cfg = view_cfg(&[], None);
    cfg.default_dataset_includes_inferred = true;
    let mut m = ViewManager::new(&cfg);
    m.refresh(&vec!["https://ex.org/data/a".to_string()], false);
    assert_eq!(m.visible().len(), 2);
    assert!(m.visible().contains(SPINE_CLOSURE_GRAPH));
    cfg.default_dataset_includes_inferred = false;
    let mut m = ViewManager::new(&cfg);
    m.refresh(&vec!["https://ex.org/data/a".to_string()], false);
    assert_eq!(m.visible().len(), 0);
}

#[test]
fn a_failed_clear_in_a_sequence_leaves_the_store_as_it_was() {
    let mut st: MemStore = MemStore::new();
    st.insert_quad(quad(Some("g"), "a", "p", "b"));
    let req = request(vec![
        UpdateOp::Clear {
            silent: false,
            graph: GraphTarget::AllGraphs,
        },
        UpdateOp::Drop {
            silent: false,
            graph: GraphTarget::NamedNode("http://ex/g".into()),
        },
    ]);
    assert!(apply_update(&req, &mut st).is_err());
    assert!(st.quad_exists(&quad(Some("g"), "a", "p", "b")));
}

/// A store that cannot be read.
struct Unreadable;

impl Store for Unreadable {
    fn apply_quads(
        &mut self,
        _dels: Vec<AlgebraQuad>,
        _adds: Vec<AlgebraQuad>,
    ) -> Result<(), SparqlError> {
        Err(SparqlError::Executor("closed".into()))
    }
    fn clear_graph(&mut self, _graph: &Option<String>) -> Result<(), SparqlError> {
        Err(SparqlError::Executor("closed".into()))
    }
    fn graph_exists(&self, _iri: &str) -> bool {
        false
    }
    fn graphs(&self) -> Vec<String> {
        Vec::new()
    }
    fn quad_exists(&self, _q: &AlgebraQuad) -> bool {
        false
    }
    fn scan_graph_quads(
        &self,
        _graph: &Option<String>,
    ) -> Result<Vec<AlgebraTriple>, SparqlError> {
        Err(SparqlError::Executor("closed".into()))
    }
}

#[test]
fn a_slot_that_cannot_be_read_takes_no_feed() {
    assert!(check_feed_id(&Unreadable, &at("a", "1")).is_err());
}

#[test]
fn relative_iris_go_by_the_base() {
    let there = |base: &str, ext: Option<&str>| {
        parse_rdf_bytes(1, b"<a> <p> <b> .", ext, base).unwrap()[0].1.clone()
    };
    for ext in [None, Some("ttl"), Some("trig")] {
        assert_eq!(there("http://ex/", ext), iri("a"));
        assert_eq!(there("http://ex/d/e", ext), Term::Iri("http://ex/d/a".into()));
    }
    assert!(matches!(
        parse_rdf_bytes(1, b"<a> <p> <b> .", None, "no base"),
        Err(SparqlError::Executor(_))
    ));
}

#[test]
fn only_local_files_are_loaded() {
    assert!(matches!(
        file_iri_to_path("http://ex/d.ttl"),
        Err(SparqlError::UnsupportedAlgebra(m))
            if m == "LOAD of a non-file source (Stage-1 fetches file: IRIs only): http://ex/d.ttl"
    ));
    assert!(matches!(
        file_iri_to_path("file://host/d.ttl"),
        Err(SparqlError::UnsupportedAlgebra(m))
            if m == "LOAD of a non-local file authority (Stage-1 fetches local files only): file://host/d.ttl"
    ));
}
