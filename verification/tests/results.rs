//! Results as text, and what queries construct and describe.

use horndb_sparql::algebra::{DatasetSpec, GraphScope, Term, TriplePattern, Var};
use horndb_sparql::error::SparqlError;
use horndb_sparql::exec::bindings::Bindings;
use horndb_sparql::exec::construct::{construct_triples, describe_triples};
use horndb_sparql::exec::mem::MemStore;
use horndb_sparql::exec::scope::ScanScope;
use horndb_sparql::parser::{
    form_of_update, parse_query, parse_update, OperationKind, ParsedQuery, ParsedUpdate, UpdateForm,
};
use horndb_sparql::regime::owl_rl::MaterializedOwlRlRegime;
use horndb_sparql::regime::{default_regime, EntailmentRegime};
use horndb_sparql::results::csv::{csv_escape, write_select_csv};
use horndb_sparql::results::json::{write_ask_json, write_select_json};
use horndb_sparql::results::tsv::write_select_tsv;
use horndb_sparql::results::xml::{write_ask_xml, write_select_xml};
use horndb_sparql::results::{select_serializer, ResultFormat, SelectSerializer};
use horndb_sparql::DefaultGraphMode;
use sparesults::{QueryResultsFormat, QueryResultsParser, ReaderQueryResultsParserOutput};

fn row(pairs: &[(&str, Term)]) -> Bindings {
    let mut b = Bindings::new();
    for (k, t) in pairs {
        b.set((*k).to_owned(), t.clone());
    }
    b
}

#[test]
fn select_xml_is_well_formed_and_roundtrips() {
    let vars = vec!["s".to_string(), "o".to_string()];
    let rows = vec![
        row(&[
            ("s", Term::Iri("http://example/a".into())),
            ("o", Term::Literal("\"hello\"".into())),
        ]),
        row(&[("s", Term::Iri("http://example/b".into()))]),
    ];
    let xml = write_select_xml(&vars, &rows);
    let parser = QueryResultsParser::from_format(QueryResultsFormat::Xml);
    let out = parser
        .for_reader(xml.as_bytes())
        .expect("parse XML results");
    match out {
        ReaderQueryResultsParserOutput::Solutions(solutions) => {
            let collected: Vec<_> = solutions.map(|s| s.expect("solution")).collect();
            assert_eq!(collected.len(), 2);
            assert!(collected[0].get("s").is_some());
            assert!(collected[0].get("o").is_some());
            assert!(collected[1].get("s").is_some());
            assert!(collected[1].get("o").is_none());
        }
        ReaderQueryResultsParserOutput::Boolean(_) => panic!("expected solutions"),
    }
}

#[test]
fn ask_xml_roundtrips() {
    let xml = write_ask_xml(true);
    let parser = QueryResultsParser::from_format(QueryResultsFormat::Xml);
    let out = parser.for_reader(xml.as_bytes()).expect("parse XML");
    match out {
        ReaderQueryResultsParserOutput::Boolean(b) => assert!(b),
        ReaderQueryResultsParserOutput::Solutions(_) => panic!("expected boolean"),
    }
}

#[test]
fn literal_with_datatype_and_lang() {
    let vars = vec!["v".to_string()];
    let rows = vec![
        row(&[(
            "v",
            Term::Literal("\"42\"^^<http://www.w3.org/2001/XMLSchema#integer>".into()),
        )]),
        row(&[("v", Term::Literal("\"bonjour\"@fr".into()))]),
    ];
    let xml = write_select_xml(&vars, &rows);
    assert!(xml.contains("datatype=\"http://www.w3.org/2001/XMLSchema#integer\""));
    assert!(xml.contains("xml:lang=\"fr\""));
}

fn sample() -> (Vec<String>, Vec<Bindings>) {
    (
        vec!["x".to_string(), "l".to_string()],
        vec![
            row(&[
                ("x", Term::Iri("http://ex/a".into())),
                ("l", Term::Literal("\"a,\\\"b\"@en".into())),
            ]),
            row(&[("x", Term::BlankNode("_:b0".into()))]),
        ],
    )
}

#[test]
fn select_json_names_every_binding() {
    let (vars, rows) = sample();
    let json = write_select_json(&vars, &rows);
    let v: serde_json::Value = serde_json::from_str(&json).expect("valid JSON");
    assert_eq!(v["head"]["vars"][0], "x");
    let b = &v["results"]["bindings"];
    assert_eq!(b.as_array().expect("rows").len(), 2);
    assert_eq!(b[0]["x"]["type"], "uri");
    assert_eq!(b[0]["x"]["value"], "http://ex/a");
    assert_eq!(b[0]["l"]["xml:lang"], "en");
    assert_eq!(b[1]["x"]["type"], "bnode");
    assert_eq!(b[1]["x"]["value"], "b0");
    assert!(b[1].get("l").is_none());
    assert!(json.starts_with("{\"head\":{\"vars\":[\"x\",\"l\"]},\"results\":{\"bindings\":[{\"l\":"));
    let empty = write_select_json(&vars, &vec![]);
    assert_eq!(
        empty,
        "{\"head\":{\"vars\":[\"x\",\"l\"]},\"results\":{\"bindings\":[]}}"
    );
}

#[test]
fn json_and_xml_of_a_typed_literal() {
    let vars = vec!["v".to_string()];
    let rows = vec![row(&[(
        "v",
        Term::Literal("\"4<2\"^^<http://www.w3.org/2001/XMLSchema#string>".into()),
    )])];
    assert!(write_select_json(&vars, &rows).contains(
        "{\"datatype\":\"http://www.w3.org/2001/XMLSchema#string\",\"type\":\"literal\",\"value\":\"4<2\"}"
    ));
    assert!(write_select_xml(&vars, &rows).contains(">4&lt;2</literal>"));
}

#[test]
fn answers_to_ask() {
    assert_eq!(write_ask_json(true), "{\"boolean\":true,\"head\":{}}");
    assert_eq!(write_ask_json(false), "{\"boolean\":false,\"head\":{}}");
    assert!(write_ask_xml(false).contains("<boolean>false</boolean>"));
}

#[test]
fn select_csv_and_tsv() {
    let vars = vec!["x".to_string(), "l".to_string()];
    let rows = vec![
        row(&[
            ("x", Term::Iri("http://ex/a".into())),
            ("l", Term::Literal("\"a,b\"".into())),
        ]),
        row(&[("x", Term::BlankNode("b0".into()))]),
    ];
    let csv = write_select_csv(&vars, &rows);
    assert!(csv.starts_with("x,l\r\nhttp://ex/a,"), "{csv}");
    assert!(csv.ends_with(",\r\n"), "{csv}");
    assert_eq!(
        write_select_tsv(&vars, &rows),
        "?x\t?l\n<http://ex/a>\t\"a,b\"\n_:b0\t\n"
    );
}

#[test]
fn chunks_join_to_the_whole() {
    let (vars, rows) = sample();
    for format in [
        ResultFormat::Json,
        ResultFormat::Xml,
        ResultFormat::Csv,
        ResultFormat::Tsv,
    ] {
        let mut ser = select_serializer(format);
        let mut text = ser.header(&vars);
        for r in [&rows[0], &rows[1]] {
            let pairs: Vec<(&str, Term)> = r
                .vars()
                .iter()
                .map(|(k, t)| (k.as_str(), (*t).clone()))
                .collect();
            text.push_str(&ser.chunk(&vars, &vec![row(&pairs)]));
            text.push_str(&ser.chunk(&vars, &vec![]));
        }
        text.push_str(&ser.footer());
        let whole = match format {
            ResultFormat::Json => write_select_json(&vars, &rows),
            ResultFormat::Xml => write_select_xml(&vars, &rows),
            ResultFormat::Csv => write_select_csv(&vars, &rows),
            ResultFormat::Tsv => write_select_tsv(&vars, &rows),
        };
        assert_eq!(text, whole, "{format:?}");
    }
}

#[test]
fn formats_are_negotiated() {
    assert_eq!(ResultFormat::from_accept("text/csv"), ResultFormat::Csv);
    assert_eq!(
        ResultFormat::from_accept("application/sparql-results+xml"),
        ResultFormat::Xml
    );
    assert_eq!(
        ResultFormat::from_accept("text/tab-separated-values"),
        ResultFormat::Tsv
    );
    assert_eq!(ResultFormat::from_accept("*/*"), ResultFormat::Xml);
    assert_eq!(ResultFormat::from_accept("APPLICATION/JSON"), ResultFormat::Json);
    assert_eq!(ResultFormat::Csv.content_type(), "text/csv");
}

// ── Construct and describe ──────────────────────────────────────────────────

fn var(n: &str) -> Term {
    Term::Var(Var::new(n))
}

#[test]
fn constructed_triples_are_ground() {
    let template = Some(vec![
        TriplePattern {
            subject: var("s"),
            predicate: Term::Iri("http://ex/p".into()),
            object: var("o"),
        },
        TriplePattern {
            subject: Term::BlankNode("b".into()),
            predicate: var("o"),
            object: Term::Literal("\"x\"".into()),
        },
    ]);
    let rows = vec![
        row(&[
            ("s", Term::Iri("http://ex/a".into())),
            ("o", Term::Literal("\"1\"".into())),
        ]),
        row(&[("o", Term::Iri("http://ex/q".into()))]),
    ];
    let t = |a: &str, b: &str, c: &str| (a.to_owned(), b.to_owned(), c.to_owned());
    assert_eq!(
        construct_triples(&template, &rows).unwrap(),
        vec![
            t("http://ex/a", "http://ex/p", "\"1\""),
            t("b", "http://ex/q", "\"x\""),
        ],
        "a predicate is an IRI, and an unbound variable makes no triple"
    );
    assert_eq!(
        construct_triples(&None, &rows),
        Err(SparqlError::Executor(
            "construct_triples called on non-CONSTRUCT query".into()
        ))
    );
}

#[test]
fn descriptions_are_sorted_and_distinct() {
    let mut st: MemStore = MemStore::new();
    let iri = |s: &str| Term::Iri(format!("http://ex/{s}"));
    st.insert_quad((None, iri("b"), iri("p"), iri("c")));
    st.insert_quad((None, iri("a"), iri("q"), iri("c")));
    st.insert_quad((None, iri("a"), iri("p"), iri("c")));
    st.insert_quad((None, iri("z"), iri("p"), iri("c")));
    let dataset = DatasetSpec::none();
    let scope = ScanScope::new(&GraphScope::DefaultGraph, &dataset, DefaultGraphMode::Union);
    let rows = vec![row(&[("x", iri("b"))]), row(&[("x", iri("a")), ("y", var("v"))])];
    let t = |a: &str, b: &str, c: &str| {
        (
            format!("http://ex/{a}"),
            format!("http://ex/{b}"),
            format!("http://ex/{c}"),
        )
    };
    assert_eq!(
        describe_triples(&st, &scope, &vec![iri("a"), var("v")], &rows).unwrap(),
        vec![t("a", "p", "c"), t("a", "q", "c"), t("b", "p", "c")]
    );
    assert_eq!(
        describe_triples(&st, &scope, &vec![iri("z")], &vec![]).unwrap(),
        vec![t("z", "p", "c")],
        "a seed is described without any solution"
    );
}

// ── Parsing ─────────────────────────────────────────────────────────────────

#[test]
fn queries_are_told_apart() {
    assert!(matches!(
        parse_query("SELECT * WHERE { ?s ?p ?o }"),
        Ok(ParsedQuery::Select { .. })
    ));
    assert!(matches!(
        parse_query("ASK { ?s ?p ?o }"),
        Ok(ParsedQuery::Ask { .. })
    ));
    assert!(matches!(
        parse_query("CONSTRUCT WHERE { ?s ?p ?o }"),
        Ok(ParsedQuery::Construct { .. })
    ));
    assert!(matches!(
        parse_query("DESCRIBE <http://ex/a>"),
        Ok(ParsedQuery::Describe { .. })
    ));
    match parse_query("SELEKT *") {
        Err(SparqlError::Parse(m)) => assert!(!m.is_empty()),
        other => panic!("expected a parse error, got {other:?}"),
    }
}

#[test]
fn updates_are_told_apart() {
    assert!(matches!(
        parse_update("INSERT DATA { <http://ex/a> <http://ex/p> <http://ex/b> }"),
        Ok(ParsedUpdate::InsertData { .. })
    ));
    assert!(matches!(
        parse_update("DELETE DATA { <http://ex/a> <http://ex/p> <http://ex/b> }"),
        Ok(ParsedUpdate::DeleteData { .. })
    ));
    assert!(matches!(
        parse_update("DELETE WHERE { ?s ?p ?o }"),
        Ok(ParsedUpdate::DeleteInsert { .. })
    ));
    assert!(matches!(
        parse_update("CLEAR ALL"),
        Ok(ParsedUpdate::GraphManagement { .. })
    ));
    assert!(matches!(
        parse_update("MOVE <http://ex/g> TO <http://ex/g>"),
        Ok(ParsedUpdate::GraphManagement { .. })
    ));
    assert!(matches!(parse_update("INSERT"), Err(SparqlError::Parse(_))));
    assert_eq!(form_of_update(&vec![]), UpdateForm::GraphManagement);
    assert_eq!(
        form_of_update(&vec![OperationKind::InsertData, OperationKind::InsertData]),
        UpdateForm::GraphManagement
    );
    assert_eq!(
        form_of_update(&vec![OperationKind::DeleteInsert]),
        UpdateForm::DeleteInsert
    );
}

#[test]
fn regimes_have_names() {
    assert_eq!(default_regime().name(), "simple");
    assert_eq!(
        MaterializedOwlRlRegime.name(),
        "http://www.w3.org/ns/entailment/OWL-RL"
    );
}

#[test]
fn csv_fields_are_quoted_where_they_must_be() {
    assert_eq!(csv_escape("plain"), "plain");
    assert_eq!(csv_escape("a,b"), "\"a,b\"");
    assert_eq!(csv_escape("say \"x\""), "\"say \"\"x\"\"\"");
    assert_eq!(csv_escape("two\nlines"), "\"two\nlines\"");
}

#[test]
fn xml_text_holds_no_markup() {
    let vars = vec!["x".to_string()];
    let rows = vec![row(&[("x", Term::Literal("\"<a & 'b'>\"".into()))])];
    let xml = write_select_xml(&vars, &rows);
    assert!(xml.contains("&lt;a &amp; "), "{xml}");
    assert!(xml.contains("&gt;</literal>"), "{xml}");
}
