//! What the server decides.

use horndb_sparql::algebra::Term;
use horndb_sparql::error::SparqlError;
use horndb_sparql::exec::bindings::Bindings;
use horndb_sparql::exec::mem::MemStore;
use horndb_sparql::exec::store::{AlgebraTriple, Store};
use horndb_sparql::results::ResultFormat;
use horndb_sparql::server::form::{
    param, query_of_get, query_of_post, setting_overrides, update_of_post, url_form_field,
    url_form_pairs,
};
use horndb_sparql::server::graph_store::{
    check_writable, delete_graph, graph_diff, payload_extension, quads, serialize, target,
    write_graph, write_status, Target, WriteOutcome, WriteRefusal,
};
use horndb_sparql::server::query::{
    answer_body, classify, error_status, QueryAnswer, SelectStream, StreamAction, StreamEvent,
};
use horndb_sparql::server::request_id::request_id;
use horndb_sparql::server::update::{
    feed_position_from_headers, update_status, UNPAIRED_FEED_HEADERS,
};
use horndb_sparql::server::{
    endpoint_of, query_slots, readiness, retry_after, shed_while_loading, Endpoint,
};

fn pair(k: &str, v: &str) -> (String, String) {
    (k.to_owned(), v.to_owned())
}

// ── Forms ───────────────────────────────────────────────────────────────────

#[test]
fn form_bodies_are_decoded() {
    assert_eq!(
        url_form_pairs("query=ASK+%7B%7D&x&max_result_rows=10&=e&a=b=c"),
        vec![
            pair("query", "ASK {}"),
            pair("max_result_rows", "10"),
            pair("", "e"),
            pair("a", "b=c"),
        ]
    );
    assert_eq!(url_form_pairs(""), vec![]);
    assert_eq!(url_form_field("a=1&a=2", "a"), Some("1".into()));
    assert_eq!(url_form_field("a=1", "b"), None);
    assert_eq!(url_form_pairs("k=%2B+%zz"), vec![pair("k", "+ %zz")]);
}

#[test]
fn the_query_text_is_found() {
    assert_eq!(
        query_of_get(&vec![pair("query", "ASK {}")]),
        Ok("ASK {}".into())
    );
    assert_eq!(
        query_of_get(&vec![pair("q", "ASK {}")]),
        Err("missing `query` parameter".into())
    );
    let form = "application/x-www-form-urlencoded; charset=utf-8";
    let (q, pairs) = query_of_post(form, "query=ASK%7B%7D&rdf12=true");
    assert_eq!(q, Ok("ASK{}".into()));
    assert_eq!(pairs.len(), 2);
    assert_eq!(query_of_post(form, "x=1").0, Err("form missing `query`".into()));
    let (q, pairs) = query_of_post("application/sparql-query", "ASK {}");
    assert_eq!(q, Ok("ASK {}".into()));
    assert!(pairs.is_empty());
    assert_eq!(update_of_post("", "CLEAR ALL"), Ok("CLEAR ALL".into()));
    assert_eq!(update_of_post(form, "update=CLEAR+ALL"), Ok("CLEAR ALL".into()));
    assert_eq!(update_of_post(form, "u=1"), Err("form missing `update`".into()));
}

#[test]
fn settings_of_the_body_come_last() {
    let url = vec![
        pair("query", "ASK {}"),
        pair("rdf12", "true"),
        pair("default-graph-uri", "http://ex/g"),
    ];
    let body = vec![pair("named-graph-uri", "http://ex/h"), pair("rdf12", "false")];
    assert_eq!(
        setting_overrides(&url, &body),
        vec![pair("rdf12", "true"), pair("rdf12", "false")]
    );
    assert_eq!(param(&url, "rdf12"), Some("true"));
    assert_eq!(param(&url, "none"), None);
}

// ── Streams ─────────────────────────────────────────────────────────────────

fn rows(n: usize) -> Vec<Bindings> {
    (0..n)
        .map(|i| {
            let mut b = Bindings::new();
            b.set("x".into(), Term::Iri(format!("http://ex/{i}")));
            b
        })
        .collect()
}

fn stream(max_rows: u64) -> SelectStream {
    SelectStream::new(ResultFormat::Tsv, vec!["x".into()], max_rows)
}

#[test]
fn one_chunk_is_sent_whole() {
    let mut s = stream(10);
    assert!(matches!(s.step(StreamEvent::Rows(rows(1)), false), StreamAction::Next));
    match s.step(StreamEvent::End, false) {
        StreamAction::Whole(text) => assert_eq!(text, "?x\n<http://ex/0>\n"),
        _ => panic!("expected the whole document"),
    }
    assert!(s.done());
    assert!(matches!(s.step(StreamEvent::End, false), StreamAction::Idle));
}

#[test]
fn an_empty_result_is_sent_whole() {
    match stream(0).step(StreamEvent::End, false) {
        StreamAction::Whole(text) => assert_eq!(text, "?x\n"),
        _ => panic!("expected the whole document"),
    }
}

#[test]
fn more_chunks_are_streamed() {
    let mut s = stream(10);
    assert!(matches!(s.step(StreamEvent::Rows(rows(1)), false), StreamAction::Next));
    match s.step(StreamEvent::Rows(rows(1)), false) {
        StreamAction::Commit { head, chunk } => {
            assert_eq!(head, "?x\n<http://ex/0>\n");
            assert_eq!(chunk, "<http://ex/0>\n");
        }
        _ => panic!("expected the start of a stream"),
    }
    assert!(s.interrupt(false).is_none());
    match s.step(StreamEvent::Rows(rows(2)), false) {
        StreamAction::Send(text) => assert_eq!(text, "<http://ex/0>\n<http://ex/1>\n"),
        _ => panic!("expected a chunk"),
    }
    match s.step(StreamEvent::End, false) {
        StreamAction::Close(text) => assert_eq!(text, ""),
        _ => panic!("expected the end"),
    }
}

#[test]
fn the_row_limit_fails_the_result() {
    let mut s = stream(1);
    match s.step(StreamEvent::Rows(rows(2)), false) {
        StreamAction::Refuse(e) => assert_eq!(e, SparqlError::ResultRowLimit(1)),
        _ => panic!("expected a refusal"),
    }
    let mut s = stream(2);
    s.step(StreamEvent::Rows(rows(1)), false);
    match s.step(StreamEvent::Rows(rows(2)), false) {
        StreamAction::Refuse(e) => assert_eq!(e, SparqlError::ResultRowLimit(2)),
        _ => panic!("expected a refusal"),
    }
    let mut s = stream(2);
    s.step(StreamEvent::Rows(rows(1)), false);
    s.step(StreamEvent::Rows(rows(1)), false);
    match s.step(StreamEvent::Rows(rows(1)), false) {
        StreamAction::Abort(e) => assert_eq!(e, SparqlError::ResultRowLimit(2)),
        _ => panic!("expected the answer to be broken off"),
    }
    assert!(s.done());
}

#[test]
fn errors_are_a_status_until_something_is_sent() {
    let fault = || SparqlError::Executor("disk".into());
    match stream(9).step(StreamEvent::Failed(fault()), false) {
        StreamAction::Refuse(e) => assert_eq!(error_status(&e), 400),
        _ => panic!("expected a refusal"),
    }
    match stream(9).step(StreamEvent::Failed(fault()), true) {
        StreamAction::Refuse(e) => assert_eq!(error_status(&e), 504),
        _ => panic!("expected a refusal"),
    }
    let mut s = stream(9);
    s.step(StreamEvent::Rows(rows(1)), false);
    match s.step(StreamEvent::Failed(fault()), false) {
        StreamAction::CommitAbort { head, error } => {
            assert_eq!(head, "?x\n<http://ex/0>\n");
            assert_eq!(error, fault());
        }
        _ => panic!("expected a start that is broken off"),
    }
    let mut s = stream(9);
    s.step(StreamEvent::Rows(rows(1)), false);
    s.step(StreamEvent::Rows(rows(1)), false);
    assert_eq!(s.interrupt(true), Some(SparqlError::QueryTimeout));
    assert!(s.done());
    assert_eq!(classify(fault(), false), fault());
    assert_eq!(classify(fault(), true), SparqlError::QueryTimeout);
}

#[test]
fn answers_have_a_type_and_a_text() {
    let (ctype, text) = answer_body(ResultFormat::Csv, &QueryAnswer::Boolean(true));
    assert_eq!(ctype, "application/sparql-results+xml");
    assert!(text.contains("<boolean>true</boolean>"));
    let (ctype, text) = answer_body(ResultFormat::Json, &QueryAnswer::Boolean(false));
    assert_eq!(ctype, "application/sparql-results+json");
    assert_eq!(text, "{\"boolean\":false,\"head\":{}}");
    let (ctype, text) = answer_body(
        ResultFormat::Json,
        &QueryAnswer::Triples(vec![("a".into(), "b".into(), "c".into())]),
    );
    assert_eq!((ctype, text.as_str()), ("application/n-triples", "<a> <b> <c> .\n"));
    let plan = |json| QueryAnswer::Explanation {
        text: "plan".into(),
        json,
    };
    assert_eq!(answer_body(ResultFormat::Csv, &plan(true)).0, "application/json");
    assert_eq!(
        answer_body(ResultFormat::Csv, &plan(false)).0,
        "text/plain; charset=utf-8"
    );
    let (ctype, text) = answer_body(
        ResultFormat::Tsv,
        &QueryAnswer::Solutions {
            vars: vec!["x".into()],
            rows: rows(1),
        },
    );
    assert_eq!(
        (ctype, text.as_str()),
        ("text/tab-separated-values", "?x\n<http://ex/0>\n")
    );
}

// ── Graphs ──────────────────────────────────────────────────────────────────

fn t(s: &str) -> AlgebraTriple {
    (
        Term::Iri(format!("http://ex/{s}")),
        Term::Iri("http://ex/p".into()),
        Term::Iri("http://ex/o".into()),
    )
}

#[test]
fn identical_payload_diffs_to_nothing() {
    let base = vec![t("a"), t("b")];
    let (dels, adds) = graph_diff(&base, &vec![t("a"), t("b")]);
    assert!(dels.is_empty() && adds.is_empty());
}

#[test]
fn diff_is_symmetric_difference() {
    let base = vec![t("a"), t("b")];
    let payload = vec![t("b"), t("c")];
    let (dels, adds) = graph_diff(&base, &payload);
    assert_eq!(dels, vec![t("a")]);
    assert_eq!(adds, vec![t("c")]);
}

#[test]
fn dataset_formats_are_unsupported_media_types() {
    for ct in [
        "application/trig",
        "application/n-quads",
        "application/json",
    ] {
        assert!(payload_extension(ct).is_none(), "{ct} must be a 415");
    }
    assert_eq!(payload_extension("text/turtle;charset=utf-8"), Some("ttl"));
    assert_eq!(payload_extension("application/n-triples"), Some("nt"));
    assert_eq!(payload_extension(""), Some("ttl"));
    assert_eq!(payload_extension(" Application/N-Triples ; q=1"), Some("nt"));
}

#[test]
fn the_target_is_one_graph() {
    assert_eq!(
        target(&vec![pair("graph", "http://ex/g")]),
        Ok(Target::Named("http://ex/g".into()))
    );
    assert_eq!(target(&vec![pair("default", "")]), Ok(Target::Default));
    assert_eq!(
        target(&vec![]),
        Err("one of `graph=<iri>` or `default` is required".into())
    );
    assert_eq!(
        target(&vec![pair("graph", "http://ex/g"), pair("default", "")]),
        Err("`graph` and `default` are mutually exclusive".into())
    );
    assert_eq!(
        target(&vec![pair("g", "http://ex/g")]),
        Err("unknown query parameter `g`".into())
    );
    let fault = target(&vec![pair("graph", "not an iri")]).unwrap_err();
    assert!(!fault.is_empty() && fault != "not an iri", "{fault}");
    assert_eq!(Target::Default.base_iri(), "urn:horndb:default-graph");
    assert_eq!(Target::Named("http://ex/g".into()).base_iri(), "http://ex/g");
    assert_eq!(Target::Default.graph_name(), None);
}

#[test]
fn some_graphs_may_not_be_written() {
    let reserved = Target::Named("https://horndb.io/graph/feed".into());
    assert!(matches!(
        check_writable(&reserved, false),
        Err(WriteRefusal::Reserved(_))
    ));
    assert!(check_writable(&Target::Named("http://ex/g".into()), true).is_ok());
    assert!(check_writable(&Target::Default, false).is_ok());
    assert!(matches!(
        check_writable(&Target::Default, true),
        Err(WriteRefusal::Materialized)
    ));
}

#[test]
fn a_graph_is_replaced_merged_and_deleted() {
    let mut st: MemStore = MemStore::new();
    let g = Some("http://ex/g".to_owned());
    assert_eq!(
        write_graph(&mut st, &g, &vec![t("a"), t("b")], true),
        Ok(WriteOutcome::Created)
    );
    assert_eq!(
        write_graph(&mut st, &g, &vec![t("b"), t("c")], true),
        Ok(WriteOutcome::Changed)
    );
    assert_eq!(st.scan_graph_quads(&g).unwrap(), vec![t("b"), t("c")]);
    assert_eq!(
        write_graph(&mut st, &g, &vec![t("d")], false),
        Ok(WriteOutcome::Changed)
    );
    assert_eq!(st.scan_graph_quads(&g).unwrap(), vec![t("b"), t("c"), t("d")]);
    assert_eq!(delete_graph(&mut st, &g), Ok(true));
    assert_eq!(delete_graph(&mut st, &g), Ok(false));
    assert_eq!(
        write_graph(&mut st, &g, &vec![], true),
        Ok(WriteOutcome::Changed),
        "nothing was created"
    );
    assert_eq!(write_status(WriteOutcome::Created), 201);
    assert_eq!(write_status(WriteOutcome::Changed), 204);
    assert_eq!(quads(&g, &vec![t("a")]), vec![(g.clone(), t("a").0, t("a").1, t("a").2)]);
}

#[test]
fn a_graph_is_written_as_a_document() {
    let graph = vec![
        t("a"),
        (
            Term::BlankNode("_:b".into()),
            Term::Iri("http://ex/q".into()),
            Term::Literal("\"x\"@en".into()),
        ),
        (
            Term::Literal("\"no subject\"".into()),
            Term::Iri("http://ex/q".into()),
            Term::Literal("plain".into()),
        ),
    ];
    let (ctype, body) = serialize(&graph, "application/N-Triples");
    assert_eq!(ctype, "application/n-triples");
    assert_eq!(
        String::from_utf8(body).unwrap(),
        "<http://ex/a> <http://ex/p> <http://ex/o> .\n_:b <http://ex/q> \"x\"@en .\n"
    );
    let (ctype, body) = serialize(&graph, "*/*");
    assert_eq!(ctype, "text/turtle");
    let text = String::from_utf8(body).unwrap();
    assert!(text.contains("<http://ex/a> <http://ex/p> <http://ex/o>"), "{text}");
}

#[test]
fn documents_are_written_of_terms() {
    let object = |o: Term| -> String {
        let graph: Vec<AlgebraTriple> = vec![(
            Term::Iri("http://ex/a".into()),
            Term::Iri("http://ex/p".into()),
            o,
        )];
        String::from_utf8(serialize(&graph, "application/n-triples").1).unwrap()
    };
    let line = |o: &str| format!("<http://ex/a> <http://ex/p> {o} .\n");
    assert_eq!(object(Term::Literal("plain".into())), line("\"plain\""));
    assert_eq!(object(Term::Literal("a \"b\"".into())), line("\"a \\\"b\\\"\""));
    assert_eq!(
        object(Term::Literal("\"a\\nb\"".into())),
        line("\"a\\nb\""),
        "an escape is read and written once"
    );
    assert_eq!(
        object(Term::Literal(
            "\"1\"^^<http://www.w3.org/2001/XMLSchema#integer>".into()
        )),
        line("\"1\"^^<http://www.w3.org/2001/XMLSchema#integer>")
    );
    assert_eq!(
        object(Term::Literal(
            "\"s\"^^<http://www.w3.org/2001/XMLSchema#string>".into()
        )),
        line("\"s\"")
    );
    assert_eq!(object(Term::BlankNode("_:n1".into())), line("_:n1"));
    let text = object(Term::Iri("http://ex/b> . <http://ex/c".into()));
    assert_eq!(text.lines().count(), 1, "one triple is one line: {text}");
}

// ── The rest ────────────────────────────────────────────────────────────────

#[test]
fn feed_headers_come_together() {
    let f = feed_position_from_headers(Some("a".into()), Some("1".into()))
        .unwrap()
        .expect("a position");
    assert_eq!((f.id.as_str(), f.position.as_str()), ("a", "1"));
    assert_eq!(feed_position_from_headers(None, None), Ok(None));
    assert_eq!(
        feed_position_from_headers(Some("a".into()), None),
        Err(UNPAIRED_FEED_HEADERS.to_owned())
    );
    assert_eq!(update_status(&Ok(())), 204);
    assert_eq!(
        update_status(&Err(SparqlError::FeedIdMismatch {
            slot: "a".into(),
            request: "b".into()
        })),
        409
    );
    assert_eq!(update_status(&Err(SparqlError::Parse("x".into()))), 400);
}

#[test]
fn passes_through_caller_supplied_header() {
    assert_eq!(request_id(Some("client-abc-123"), 1, 0), "client-abc-123");
}

#[test]
fn generates_distinct_ids_when_absent() {
    let a = request_id(None, 42, 0);
    let b = request_id(None, 42, 1);
    assert_ne!(a, b, "successive generated ids must differ: {a} vs {b}");
    assert_eq!(a, "42-0");
}

#[test]
fn empty_header_falls_back_to_generated() {
    assert!(!request_id(Some(""), 7, 3).is_empty());
    assert_eq!(request_id(Some(""), 7, 3), "7-3");
}

#[test]
fn readyz_reflects_the_ready_flag() {
    assert_eq!(readiness(false), (503, "loading"));
    assert_eq!(readiness(true), (200, "ready"));
}

#[test]
fn query_and_update_shed_until_ready() {
    let shed = shed_while_loading(false).expect("turned away while loading");
    assert_eq!(shed.status, 503);
    assert_eq!(shed.retry_after, "1");
    assert!(shed_while_loading(true).is_none());
}

#[test]
fn limits_and_endpoints() {
    assert_eq!(query_slots(0), 1);
    assert_eq!(query_slots(8), 8);
    assert_eq!(retry_after(0), "1");
    assert_eq!(retry_after(5), "5");
    assert_eq!(endpoint_of("/query"), Some(Endpoint::Query));
    assert_eq!(endpoint_of("/update"), Some(Endpoint::Update));
    assert_eq!(endpoint_of("/metrics"), Some(Endpoint::Metrics));
    assert_eq!(endpoint_of("/graphs"), None);
}
