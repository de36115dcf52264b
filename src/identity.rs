//! The identity of a change block: the object its SQL creates must be the one
//! its file is named after, in the schema its directory names.

use vstd::prelude::*;
use sqlparser::ast::Statement;
use crate::change_block::{
    add_dep, add_dependency, declared, merge, pair_views, string_views, with_declared, Stmt,
};
use crate::sql::{created_name_parts, parse_sql, parser_error_text, sql_statement_count};

verus! {

/// Which part of a unit's identity disagrees with its place in the tree.
#[derive(Debug, Clone, Copy, PartialEq, Eq, Structural)]
pub enum NamingMismatch {
    ObjectName,
    SchemaName,
}

/// The file or directory says `expected`; the SQL says `actual`.
#[derive(Debug)]
pub struct NamingError {
    pub kind: NamingMismatch,
    pub expected: String,
    pub actual: String,
}

pub open spec fn naming_view(e: NamingError) -> (NamingMismatch, Seq<char>, Seq<char>) {
    (e.kind, e.expected@, e.actual@)
}

/// The object name of a one-, two- or three-part SQL name; empty otherwise.
pub open spec fn sql_object(parts: Seq<Seq<char>>) -> Seq<char> {
    if 1 <= parts.len() <= 3 {
        parts[parts.len() - 1]
    } else {
        seq![]
    }
}

/// The schema of a two- or three-part SQL name; empty otherwise.
pub open spec fn sql_schema(parts: Seq<Seq<char>>) -> Seq<char> {
    if parts.len() == 2 {
        parts[0]
    } else if parts.len() == 3 {
        parts[1]
    } else {
        seq![]
    }
}

/// `schema.object_type.object_name.change_name`.
pub open spec fn qualified_key(
    schema: Seq<char>,
    object_type: Seq<char>,
    object_name: Seq<char>,
    change: Seq<char>,
) -> Seq<char> {
    schema + seq!['.'] + object_type + seq!['.'] + object_name + seq!['.'] + change
}

/// The qualified key of a unit whose SQL declares the name `parts`, or the
/// first disagreement: the object name first, then a schema the SQL states.
pub open spec fn conformance(
    file_name: Seq<char>,
    schema: Seq<char>,
    object_type: Seq<char>,
    change: Seq<char>,
    parts: Seq<Seq<char>>,
) -> Result<Seq<char>, (NamingMismatch, Seq<char>, Seq<char>)> {
    if file_name != sql_object(parts) {
        Err((NamingMismatch::ObjectName, file_name, sql_object(parts)))
    } else if sql_schema(parts).len() > 0 && sql_schema(parts) != schema {
        Err((NamingMismatch::SchemaName, schema, sql_schema(parts)))
    } else {
        Ok(qualified_key(schema, object_type, file_name, change))
    }
}

pub open spec fn naming_outcome(r: Result<String, NamingError>) -> Result<
    Seq<char>,
    (NamingMismatch, Seq<char>, Seq<char>),
> {
    match r {
        Ok(k) => Ok(k@),
        Err(e) => Err(naming_view(e)),
    }
}

fn key_of(schema: &String, object_type: &String, object_name: &String, change: &String) -> (r: String)
    ensures
        r@ == qualified_key(schema@, object_type@, object_name@, change@),
{
    let mut k = schema.clone();
    let dot = ".";
    proof {
        reveal_strlit(".");
    }
    k.append(dot);
    k.append(object_type.as_str());
    k.append(dot);
    k.append(object_name.as_str());
    k.append(dot);
    k.append(change.as_str());
    proof {
        assert(dot@ =~= seq!['.']);
        assert(k@ =~= qualified_key(schema@, object_type@, object_name@, change@));
    }
    k
}

/// Checks a unit's SQL-declared name `sql_name` against its file name and
/// schema directory, and forms its qualified key.
pub fn object_conformance(
    file_name: &String,
    schema_name: &String,
    object_type: &String,
    change_name: &String,
    sql_name: &Vec<String>,
) -> (r: Result<String, NamingError>)
    ensures
        naming_outcome(r) == conformance(
            file_name@,
            schema_name@,
            object_type@,
            change_name@,
            string_views(sql_name@),
        ),
{
    let ghost parts = string_views(sql_name@);
    let n = sql_name.len();
    let object = if 1 <= n && n <= 3 {
        sql_name[n - 1].clone()
    } else {
        String::new()
    };
    let schema = if n == 2 {
        sql_name[0].clone()
    } else if n == 3 {
        sql_name[1].clone()
    } else {
        String::new()
    };
    proof {
        assert(object@ == sql_object(parts));
        assert(schema@ == sql_schema(parts));
    }
    if !(*file_name == object) {
        return Err(
            NamingError {
                kind: NamingMismatch::ObjectName,
                expected: file_name.clone(),
                actual: object,
            },
        );
    }
    if !schema.as_str().is_empty() && !(schema == *schema_name) {
        return Err(
            NamingError {
                kind: NamingMismatch::SchemaName,
                expected: schema_name.clone(),
                actual: schema,
            },
        );
    }
    Ok(key_of(schema_name, object_type, file_name, change_name))
}

/// A change block after its identity has been checked: `change_name` now holds
/// its qualified key, `parsed_content` the statement its SQL parsed to.
pub struct DatabaseObject {
    pub change_name: String,
    pub value: String,
    pub dependencies: Vec<String>,
    pub properties: Vec<(String, String)>,
    pub parsed_content: Option<Statement>,
}

impl DatabaseObject {
    /// A unit whose dependencies also hold every name its `depends`
    /// attribute declares.
    pub fn new(
        change_name: String,
        value: String,
        dependencies: Vec<String>,
        properties: Vec<(String, String)>,
        parsed_content: Option<Statement>,
    ) -> (r: Self)
        ensures
            r.change_name == change_name,
            r.value == value,
            string_views(r.dependencies@) == merge(
                string_views(dependencies@),
                declared(pair_views(properties@)),
            ),
            r.properties == properties,
            r.parsed_content == parsed_content,
    {
        let deps = with_declared(dependencies, &properties);
        DatabaseObject { change_name, value, dependencies: deps, properties, parsed_content }
    }

    /// Adds a name to the dependencies unless it is there already.
    pub fn add_dependency(&mut self, dependency: String)
        ensures
            string_views(final(self).dependencies@) == add_dep(
                string_views(old(self).dependencies@),
                dependency@,
            ),
            final(self).change_name == old(self).change_name,
            final(self).value == old(self).value,
            final(self).properties == old(self).properties,
    {
        add_dependency(&mut self.dependencies, &dependency);
    }

    /// Records an attribute; it overrides any earlier one of the same key.
    pub fn add_property(&mut self, key: String, value: String)
        ensures
            final(self).properties@ == old(self).properties@.push((key, value)),
            final(self).change_name == old(self).change_name,
            final(self).value == old(self).value,
            final(self).dependencies == old(self).dependencies,
    {
        self.properties.push((key, value));
    }
}

/// Why a unit, or the whole source tree, could not be taken.
pub enum SourceError {
    /// The SQL of the unit at `key` does not parse.
    Parse { key: String, message: String },
    /// The SQL of the unit at `key` holds no statement.
    NoStatement { key: String },
    Naming(NamingError),
    /// Two units share the qualified key `key`.
    DuplicateDefinition { key: String },
    CycleDetected,
    NoObjects,
}

fn joined(parts: &Vec<&str>) -> (r: String)
    ensures
        r@ == parts@.fold_left(Seq::<char>::empty(), |acc: Seq<char>, p: &str| acc + p@),
{
    let mut out = String::new();
    for i in 0..parts.len()
        invariant
            out@ == parts@.take(i as int).fold_left(Seq::<char>::empty(), |acc: Seq<char>, p: &str| acc + p@),
    {
        out.append(parts[i]);
        proof {
            assert(parts@.take(i + 1).drop_last() =~= parts@.take(i as int));
        }
    }
    proof {
        assert(parts@.take(parts@.len() as int) =~= parts@);
    }
    out
}

impl NamingError {
    /// `Object name '<file>' in file does not match name '<sql>' in SQL`, or
    /// the schema counterpart.
    pub fn message(&self) -> (r: String)
        ensures
            self.kind == NamingMismatch::ObjectName ==> r@ == "Object name '"@ + self.expected@
                + "' in file does not match name '"@ + self.actual@ + "' in SQL"@,
            self.kind == NamingMismatch::SchemaName ==> r@ == "Schema name '"@ + self.expected@
                + "' in file does not match schema name '"@ + self.actual@ + "' in SQL"@,
    {
        let v = match self.kind {
            NamingMismatch::ObjectName => vec![
                "Object name '",
                self.expected.as_str(),
                "' in file does not match name '",
                self.actual.as_str(),
                "' in SQL",
            ],
            NamingMismatch::SchemaName => vec![
                "Schema name '",
                self.expected.as_str(),
                "' in file does not match schema name '",
                self.actual.as_str(),
                "' in SQL",
            ],
        };
        let r = joined(&v);
        proof {
            reveal_with_fuel(Seq::fold_left, 6);
            assert(v@.take(0) =~= Seq::<&str>::empty());
        }
        r
    }
}

impl SourceError {
    /// A sentence describing the error.
    pub fn message(&self) -> (r: String)
        ensures
            self matches SourceError::Naming(e) ==> (e.kind == NamingMismatch::ObjectName ==> r@
                == "Object name '"@ + e.expected@ + "' in file does not match name '"@ + e.actual@
                + "' in SQL"@),
            self matches SourceError::Naming(e) ==> (e.kind == NamingMismatch::SchemaName ==> r@
                == "Schema name '"@ + e.expected@ + "' in file does not match schema name '"@
                + e.actual@ + "' in SQL"@),
            self matches SourceError::Parse { key, message } ==> r@ == "Invalid SQL in '"@ + key@
                + "': "@ + message@,
            self matches SourceError::NoStatement { key } ==> r@
                == "No objects found in parsed content of '"@ + key@ + "'"@,
            self matches SourceError::CycleDetected ==> r@ == "Cycle detected in dependencies"@,
            self matches SourceError::NoObjects ==> r@ == "No database objects found"@,
            self matches SourceError::DuplicateDefinition { key } ==> r@ == "Duplicate definition of '"@
                + key@ + "'"@,
    {
        match self {
            SourceError::Parse { key, message } => {
                let v = vec!["Invalid SQL in '", key.as_str(), "': ", message.as_str()];
                let r = joined(&v);
                proof {
                    reveal_with_fuel(Seq::fold_left, 5);
                }
                r
            },
            SourceError::NoStatement { key } => {
                let v = vec!["No objects found in parsed content of '", key.as_str(), "'"];
                let r = joined(&v);
                proof {
                    reveal_with_fuel(Seq::fold_left, 4);
                }
                r
            },
            SourceError::Naming(e) => e.message(),
            SourceError::DuplicateDefinition { key } => {
                let v = vec!["Duplicate definition of '", key.as_str(), "'"];
                let r = joined(&v);
                proof {
                    reveal_with_fuel(Seq::fold_left, 4);
                }
                r
            },
            SourceError::CycleDetected => "Cycle detected in dependencies".to_owned(),
            SourceError::NoObjects => "No database objects found".to_owned(),
        }
    }
}

/// A `SourceError` as plain values: the parser's own message is left out.
pub enum ErrorView {
    Parse(Seq<char>),
    NoStatement(Seq<char>),
    Naming(NamingMismatch, Seq<char>, Seq<char>),
    DuplicateDefinition(Seq<char>),
    CycleDetected,
    NoObjects,
}

pub open spec fn error_view(e: SourceError) -> ErrorView {
    match e {
        SourceError::Parse { key, .. } => ErrorView::Parse(key@),
        SourceError::NoStatement { key } => ErrorView::NoStatement(key@),
        SourceError::Naming(n) => ErrorView::Naming(n.kind, n.expected@, n.actual@),
        SourceError::DuplicateDefinition { key } => ErrorView::DuplicateDefinition(key@),
        SourceError::CycleDetected => ErrorView::CycleDetected,
        SourceError::NoObjects => ErrorView::NoObjects,
    }
}

/// What checking the block `change` with SQL `value`, found in
/// `<schema>/<object_type>/<file_name>.sql`, yields: its qualified key, or
/// the error for text that does not parse, holds no statement, or creates an
/// object other than the file's.
pub open spec fn unit_result(
    schema: Seq<char>,
    object_type: Seq<char>,
    file_name: Seq<char>,
    change: Seq<char>,
    value: Seq<char>,
) -> Result<Seq<char>, ErrorView> {
    let key = qualified_key(schema, object_type, file_name, change);
    match sql_statement_count(value) {
        None => Err(ErrorView::Parse(key)),
        Some(c) => if c == 0 {
            Err(ErrorView::NoStatement(key))
        } else {
            match conformance(file_name, schema, object_type, change, created_name_parts(value)) {
                Ok(k) => Ok(k),
                Err(e) => Err(ErrorView::Naming(e.0, e.1, e.2)),
            }
        },
    }
}

pub open spec fn unit_view(r: Result<DatabaseObject, SourceError>) -> Result<Seq<char>, ErrorView> {
    match r {
        Ok(o) => Ok(o.change_name@),
        Err(e) => Err(error_view(e)),
    }
}

/// Parses the SQL of `stmt`, found in `<schema_name>/<object_type>/<file_name>.sql`,
/// and checks the name its first statement creates.
pub fn relational_object_conformance(
    schema_name: &String,
    object_type: &String,
    file_name: &String,
    stmt: Stmt,
) -> (r: Result<DatabaseObject, SourceError>)
    ensures
        unit_view(r) == unit_result(
            schema_name@,
            object_type@,
            file_name@,
            stmt.change_name@,
            stmt.value@,
        ),
        r matches Ok(o) ==> o.value == stmt.value && o.dependencies == stmt.dependencies
            && o.properties == stmt.properties && o.parsed_content is Some,
{
    match parse_sql(stmt.value.as_str()) {
        Err(e) => Err(
            SourceError::Parse {
                key: key_of(schema_name, object_type, file_name, &stmt.change_name),
                message: parser_error_text(&e),
            },
        ),
        Ok(mut statements) => {
            if statements.len() == 0 {
                return Err(
                    SourceError::NoStatement {
                        key: key_of(schema_name, object_type, file_name, &stmt.change_name),
                    },
                );
            }
            let (first, parts) = statements.remove(0);
            match object_conformance(file_name, schema_name, object_type, &stmt.change_name, &parts) {
                Err(e) => Err(SourceError::Naming(e)),
                Ok(key) => Ok(
                    DatabaseObject {
                        change_name: key,
                        value: stmt.value,
                        dependencies: stmt.dependencies,
                        properties: stmt.properties,
                        parsed_content: Some(first),
                    },
                ),
            }
        },
    }
}

} // verus!
