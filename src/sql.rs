//! The SQL parser behind trusted items: parsing text into statements, each
//! with the name it declares.

use vstd::prelude::*;
use crate::change_block::string_views;
use sqlparser::ast::Statement;
use sqlparser::dialect::PostgreSqlDialect;
use sqlparser::parser::{Parser, ParserError};

verus! {

#[verifier::external_type_specification]
#[verifier::external_body]
pub struct ExStatement(Statement);

#[verifier::external_type_specification]
#[verifier::external_body]
pub struct ExParserError(ParserError);

/// How many statements the PostgreSQL-dialect parser reads from a text, or
/// `None` where it rejects the text. It depends on the text alone.
pub uninterp spec fn sql_statement_count(sql: Seq<char>) -> Option<nat>;

/// The dot-separated parts of the name that the first statement of a text
/// creates (`CREATE TABLE`, `VIEW`, `FUNCTION`, `PROCEDURE`, `SEQUENCE` or
/// `INDEX`), each an identifier's unquoted value; empty where the statement
/// creates no named object. It depends on the text alone.
pub uninterp spec fn created_name_parts(sql: Seq<char>) -> Seq<Seq<char>>;

/// Relies on `sqlparser::parser::Parser::parse_sql` with `PostgreSqlDialect`:
/// the statements of the text in order, each beside the parts of the name it
/// creates (read from the `name` field of the `Statement` variant), or the
/// error that stopped parsing.
#[verifier::external_body]
pub fn parse_sql(sql: &str) -> (r: Result<Vec<(Statement, Vec<String>)>, ParserError>)
    ensures
        r matches Ok(v) ==> sql_statement_count(sql@) == Some(v@.len()),
        r matches Ok(v) ==> (v@.len() > 0 ==> string_views(v@[0].1@) == created_name_parts(sql@)),
        r is Err ==> sql_statement_count(sql@) is None,
{
    Parser::parse_sql(&PostgreSqlDialect {}, sql).map(|v| v.into_iter().map(|s| {
        let name = match &s {
            Statement::CreateTable(t) => Some(&t.name),
            Statement::CreateView(v) => Some(&v.name),
            Statement::CreateFunction(f) => Some(&f.name),
            Statement::CreateProcedure { name, .. } | Statement::CreateSequence { name, .. } => Some(name),
            Statement::CreateIndex(i) => i.name.as_ref(),
            _ => None,
        };
        let parts = name.map_or(vec![], |n| n.0.iter().map(|p| p.as_ident().map_or(String::new(), |i| i.value.clone())).collect());
        (s, parts)
    }).collect())
}

/// Relies on `Display` for `sqlparser::parser::ParserError`: its message.
#[verifier::external_body]
pub fn parser_error_text(e: &ParserError) -> (r: String) {
    e.to_string()
}

} // verus!
