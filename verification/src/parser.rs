//! Parsing queries and updates, and telling their forms apart.
//!
//! The grammar is that of `spargebra`. What it parses is carried along; the
//! library looks only at its form.

use crate::error::{ErrorView, SparqlError};
use crate::text::Text;
use spargebra::{GraphUpdateOperation, Query, SparqlParser, Update};
use vstd::prelude::*;

verus! {

/// A query of `spargebra`.
#[verifier::external_type_specification]
#[verifier::external_body]
pub struct ExQuery(spargebra::Query);

/// An update of `spargebra`.
#[verifier::external_type_specification]
#[verifier::external_body]
pub struct ExUpdate(spargebra::Update);

/// The form of a query.
#[derive(Debug, Clone, Copy, PartialEq, Eq, Structural)]
pub enum QueryForm {
    Select,
    Ask,
    Construct,
    Describe,
}

/// The verb of one operation of an update.
#[derive(Debug, Clone, Copy, PartialEq, Eq, Structural)]
pub enum OperationKind {
    InsertData,
    DeleteData,
    DeleteInsert,
    Load,
    Clear,
    Create,
    Drop,
}

/// A query by its form.
#[derive(Debug)]
pub enum ParsedQuery {
    Select { inner: Query },
    Ask { inner: Query },
    Construct { inner: Query },
    /// Describes the resources that the query's variables are bound to.
    Describe { inner: Query },
}

/// The form of an update.
#[derive(Debug, Clone, Copy, PartialEq, Eq, Structural)]
pub enum UpdateForm {
    InsertData,
    DeleteData,
    DeleteInsert,
    GraphManagement,
    UnsupportedForm,
}

/// An update by its form.
#[derive(Debug)]
pub enum ParsedUpdate {
    InsertData { inner: Update },
    DeleteData { inner: Update },
    /// One operation with a pattern: it deletes, inserts, or both.
    DeleteInsert { inner: Update },
    /// An operation on whole graphs, or several operations, or none.
    GraphManagement { inner: Update },
    /// A form that cannot be applied. Every verb there is can be.
    UnsupportedForm { inner: Update },
}

impl ParsedQuery {
    pub open spec fn form(&self) -> QueryForm {
        match self {
            ParsedQuery::Select { .. } => QueryForm::Select,
            ParsedQuery::Ask { .. } => QueryForm::Ask,
            ParsedQuery::Construct { .. } => QueryForm::Construct,
            ParsedQuery::Describe { .. } => QueryForm::Describe,
        }
    }

    /// The parsed query.
    pub open spec fn query(&self) -> Query {
        match *self {
            ParsedQuery::Select { inner } => inner,
            ParsedQuery::Ask { inner } => inner,
            ParsedQuery::Construct { inner } => inner,
            ParsedQuery::Describe { inner } => inner,
        }
    }
}

impl ParsedUpdate {
    pub open spec fn form(&self) -> UpdateForm {
        match self {
            ParsedUpdate::InsertData { .. } => UpdateForm::InsertData,
            ParsedUpdate::DeleteData { .. } => UpdateForm::DeleteData,
            ParsedUpdate::DeleteInsert { .. } => UpdateForm::DeleteInsert,
            ParsedUpdate::GraphManagement { .. } => UpdateForm::GraphManagement,
            ParsedUpdate::UnsupportedForm { .. } => UpdateForm::UnsupportedForm,
        }
    }

    /// The parsed update.
    pub open spec fn update(&self) -> Update {
        match *self {
            ParsedUpdate::InsertData { inner } => inner,
            ParsedUpdate::DeleteData { inner } => inner,
            ParsedUpdate::DeleteInsert { inner } => inner,
            ParsedUpdate::GraphManagement { inner } => inner,
            ParsedUpdate::UnsupportedForm { inner } => inner,
        }
    }
}

/// The form of the query that `spargebra` reads a text as, or its message on a
/// text that is no query.
pub uninterp spec fn query_form(input: Text) -> Result<QueryForm, Text>;

/// The verbs of the update that `spargebra` reads a text as, or `None` for a
/// text that is no update.
pub uninterp spec fn update_verbs(input: Text) -> Option<Seq<OperationKind>>;

/// Calls `SparqlParser::parse_query` of `spargebra` with no base and no
/// prefixes. The contract names the form of the query and the message of the
/// error. Nothing is said of the query itself: the parser makes up blank nodes
/// and variables at random.
#[verifier::external_body]
fn read_query(input: &str) -> (r: Result<(QueryForm, Query), String>)
    ensures
        match query_form(input@) {
            Ok(form) => r is Ok && r->Ok_0.0 == form,
            Err(message) => r is Err && r->Err_0@ == message,
        },
{
    let q = SparqlParser::new().parse_query(input).map_err(|e| e.to_string())?;
    let form = match &q {
        Query::Select { .. } => QueryForm::Select,
        Query::Ask { .. } => QueryForm::Ask,
        Query::Construct { .. } => QueryForm::Construct,
        Query::Describe { .. } => QueryForm::Describe,
    };
    Ok((form, q))
}

/// Calls `SparqlParser::parse_update` of `spargebra` with no base and no
/// prefixes. The contract names the verbs of the update's operations; a text
/// without any is an error. Nothing is said of the error's message, which may
/// name any one of several blank nodes that are at fault, nor of the update
/// itself: the parser makes up blank nodes and variables at random.
#[verifier::external_body]
fn read_update(input: &str) -> (r: Result<(Vec<OperationKind>, Update), String>)
    ensures
        match update_verbs(input@) {
            Some(kinds) => r is Ok && r->Ok_0.0@ == kinds,
            None => r is Err,
        },
{
    let u = SparqlParser::new().parse_update(input).map_err(|e| e.to_string())?;
    let verb = |op: &GraphUpdateOperation| match op {
        GraphUpdateOperation::InsertData { .. } => OperationKind::InsertData,
        GraphUpdateOperation::DeleteData { .. } => OperationKind::DeleteData,
        GraphUpdateOperation::DeleteInsert { .. } => OperationKind::DeleteInsert,
        GraphUpdateOperation::Load { .. } => OperationKind::Load,
        GraphUpdateOperation::Clear { .. } => OperationKind::Clear,
        GraphUpdateOperation::Create { .. } => OperationKind::Create,
        GraphUpdateOperation::Drop { .. } => OperationKind::Drop,
    };
    Ok((u.operations.iter().map(verb).collect(), u))
}

/// A query of a form.
pub fn classify_query(form: QueryForm, inner: Query) -> (r: ParsedQuery)
    ensures
        r.form() == form,
        r.query() == inner,
{
    match form {
        QueryForm::Select => ParsedQuery::Select { inner },
        QueryForm::Ask => ParsedQuery::Ask { inner },
        QueryForm::Construct => ParsedQuery::Construct { inner },
        QueryForm::Describe => ParsedQuery::Describe { inner },
    }
}

/// The form of an update with these verbs. One operation on data or with a
/// pattern has a form of its own.
pub open spec fn update_form(kinds: Seq<OperationKind>) -> UpdateForm {
    if kinds == seq![OperationKind::InsertData] {
        UpdateForm::InsertData
    } else if kinds == seq![OperationKind::DeleteData] {
        UpdateForm::DeleteData
    } else if kinds == seq![OperationKind::DeleteInsert] {
        UpdateForm::DeleteInsert
    } else {
        UpdateForm::GraphManagement
    }
}

/// The form of an update with these verbs.
pub fn form_of_update(kinds: &Vec<OperationKind>) -> (r: UpdateForm)
    ensures
        r == update_form(kinds@),
{
    if kinds.len() == 1 {
        let k = kinds[0];
        assert(kinds@ =~= seq![k]);
        proof {
            assert(seq![OperationKind::InsertData][0] == OperationKind::InsertData);
            assert(seq![OperationKind::DeleteData][0] == OperationKind::DeleteData);
            assert(seq![OperationKind::DeleteInsert][0] == OperationKind::DeleteInsert);
        }
        match k {
            OperationKind::InsertData => UpdateForm::InsertData,
            OperationKind::DeleteData => UpdateForm::DeleteData,
            OperationKind::DeleteInsert => UpdateForm::DeleteInsert,
            _ => {
                assert(kinds@[0] == k);
                UpdateForm::GraphManagement
            },
        }
    } else {
        UpdateForm::GraphManagement
    }
}

/// An update with these verbs.
pub fn classify_update(kinds: &Vec<OperationKind>, inner: Update) -> (r: ParsedUpdate)
    ensures
        r.form() == update_form(kinds@),
        r.update() == inner,
{
    match form_of_update(kinds) {
        UpdateForm::InsertData => ParsedUpdate::InsertData { inner },
        UpdateForm::DeleteData => ParsedUpdate::DeleteData { inner },
        UpdateForm::DeleteInsert => ParsedUpdate::DeleteInsert { inner },
        UpdateForm::GraphManagement => ParsedUpdate::GraphManagement { inner },
        UpdateForm::UnsupportedForm => ParsedUpdate::UnsupportedForm { inner },
    }
}

/// Parses a query.
pub fn parse_query(input: &str) -> (r: Result<ParsedQuery, SparqlError>)
    ensures
        match query_form(input@) {
            Ok(form) => r is Ok && r->Ok_0.form() == form,
            Err(message) => r is Err && r->Err_0@ == ErrorView::Parse(message),
        },
{
    match read_query(input) {
        Ok((form, q)) => Ok(classify_query(form, q)),
        Err(e) => Err(SparqlError::Parse(e)),
    }
}

/// Parses an update. What is no update is a parse error, whose message is that
/// of the parser.
pub fn parse_update(input: &str) -> (r: Result<ParsedUpdate, SparqlError>)
    ensures
        match update_verbs(input@) {
            Some(kinds) => r is Ok && r->Ok_0.form() == update_form(kinds),
            None => r is Err && r->Err_0@ is Parse,
        },
{
    match read_update(input) {
        Ok((kinds, u)) => Ok(classify_update(&kinds, u)),
        Err(e) => Err(SparqlError::Parse(e)),
    }
}

/// An update has the form of its operation where it has just one, on data or with
/// a pattern; any other is one of graphs.
pub proof fn one_operation_gives_the_form(kinds: Seq<OperationKind>)
    ensures
        update_form(kinds) == UpdateForm::InsertData <==> kinds.len() == 1 && kinds[0]
            == OperationKind::InsertData,
        update_form(kinds) == UpdateForm::DeleteData <==> kinds.len() == 1 && kinds[0]
            == OperationKind::DeleteData,
        update_form(kinds) == UpdateForm::DeleteInsert <==> kinds.len() == 1 && kinds[0]
            == OperationKind::DeleteInsert,
        kinds.len() != 1 ==> update_form(kinds) == UpdateForm::GraphManagement,
{
    if kinds.len() == 1 {
        assert(kinds =~= seq![kinds[0]]);
        assert(kinds[0] == OperationKind::InsertData ==> kinds =~= seq![OperationKind::InsertData]);
        assert(kinds[0] == OperationKind::DeleteData ==> kinds =~= seq![OperationKind::DeleteData]);
        assert(kinds[0] == OperationKind::DeleteInsert ==> kinds
            =~= seq![OperationKind::DeleteInsert]);
    }
}

}
