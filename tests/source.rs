use oxigration::graph::ExecutionPlan;
use oxigration::identity::{object_conformance, NamingMismatch, SourceError};
use oxigration::reconcile::desired_keys;
use oxigration::source::{order_source_files, SourceFile};

fn file(schema: &str, object_type: &str, object: &str, contents: &str) -> SourceFile {
    SourceFile {
        schema_name: schema.to_string(),
        object_type: object_type.to_string(),
        object_name: object.to_string(),
        contents: contents.to_string(),
    }
}

fn keys(plan: &ExecutionPlan) -> Vec<String> {
    plan.objects.iter().map(|o| o.change_name.clone()).collect()
}

fn first_error(r: Result<ExecutionPlan, Vec<SourceError>>) -> String {
    match r {
        Ok(_) => panic!("expected an error"),
        Err(es) => es[0].message(),
    }
}

#[test]
fn test_read_source_code_with_valid_directory() {
    let files = vec![file("schema1", "table", "table1", "CREATE TABLE table1 (id INT);\n")];
    let result = order_source_files(&files);
    assert!(result.is_ok());
    let object_info = result.ok().unwrap();
    assert_eq!(object_info.objects.len(), 1);
    assert!(keys(&object_info).contains(&"schema1.table.table1.root0".to_string()));
}

#[test]
fn test_read_source_code_with_multiple_files() {
    let files = vec![
        file("schema1", "table", "table1", "CREATE TABLE table1 (id INT);\n"),
        file("schema1", "view", "view1", "CREATE VIEW view1 AS SELECT * FROM table1;\n"),
    ];
    let result = order_source_files(&files);
    assert!(result.is_ok());
    let object_info = result.ok().unwrap();
    assert_eq!(object_info.objects.len(), 2);
    assert!(keys(&object_info).contains(&"schema1.table.table1.root0".to_string()));
    assert!(keys(&object_info).contains(&"schema1.view.view1.root0".to_string()));
}

#[test]
fn test_read_source_code_with_dependencies() {
    let files = vec![
        file("schema1", "table", "table1", "//// CHANGE name=change1\nCREATE TABLE table1 (id INT);\nGO\n"),
        file("schema1", "table", "table2", "//// CHANGE name=change2 depends=table1\nCREATE TABLE table2 (id INT);\nGO\n"),
        file("schema1", "table", "table3", "//// CHANGE name=change3 depends=change1\nCREATE TABLE table3 (id INT);\nGO\n"),
        file("schema1", "table", "table4", "//// CHANGE name=change4 depends=table2,change3\nCREATE TABLE table4 (id INT);\nGO\n"),
    ];
    let result = order_source_files(&files);
    assert!(result.is_ok());
    let object_info = result.ok().unwrap();
    assert_eq!(object_info.objects.len(), 4);
    let ks = keys(&object_info);
    assert!(ks.contains(&"schema1.table.table1.change1".to_string()));
    assert!(ks.contains(&"schema1.table.table2.change2".to_string()));
    assert!(ks.contains(&"schema1.table.table3.change3".to_string()));
    assert!(ks.contains(&"schema1.table.table4.change4".to_string()));

    let get = |k: &str| object_info.objects.iter().find(|o| o.change_name == k).unwrap();
    let change2 = get("schema1.table.table2.change2");
    assert!(change2.dependencies.contains(&"table1".to_string()));

    let change3 = get("schema1.table.table3.change3");
    assert!(change3.dependencies.contains(&"change1".to_string()));

    let change4 = get("schema1.table.table4.change4");
    assert!(change4.dependencies.contains(&"table2".to_string()));
    assert!(change4.dependencies.contains(&"change3".to_string()));

    let order = desired_keys(&object_info);
    let pos = |k: &str| order.iter().position(|x| x == k).unwrap();
    assert!(pos("schema1.table.table1.change1") < pos("schema1.table.table2.change2"));
    assert!(pos("schema1.table.table1.change1") < pos("schema1.table.table3.change3"));
    assert!(pos("schema1.table.table2.change2") < pos("schema1.table.table4.change4"));
    assert!(pos("schema1.table.table3.change3") < pos("schema1.table.table4.change4"));
}

#[test]
fn test_file_name_matches_object_name() {
    let files = vec![file("schema1", "table", "change1", "//// CHANGE name=table1\nCREATE TABLE table1 (id INT);\nGO\n")];
    let result = order_source_files(&files);
    assert!(result.is_err());
    let error_message = first_error(result);
    assert!(error_message.contains("Object name 'change1' in file does not match name 'table1' in SQL"));
}

#[test]
fn test_schema_name_matches_object_schema() {
    let files = vec![file("schema1", "table", "table1", "//// CHANGE name=table1\nCREATE TABLE schema2.table1 (id INT);\nGO\n")];
    let result = order_source_files(&files);
    assert!(result.is_err());
    let error_message = first_error(result);
    assert!(error_message.contains("Schema name 'schema1' in file does not match schema name 'schema2' in SQL"));
}

#[test]
fn test_circular_dependency() {
    let files = vec![
        file("schema1", "table", "table1", "//// CHANGE name=change1 depends=change2\nCREATE TABLE table1 (id INT);\nGO\n"),
        file("schema1", "table", "table2", "//// CHANGE name=change2 depends=change1\nCREATE TABLE table2 (id INT);\nGO\n"),
    ];
    let result = order_source_files(&files);
    assert!(result.is_err());
    let error_message = first_error(result);
    assert!(error_message.contains("Cycle detected in dependencies"));
}

#[test]
fn test_circular_dependency_three_objects() {
    let files = vec![
        file("schema1", "table", "table1", "//// CHANGE name=change1 depends=change3\nCREATE TABLE table1 (id INT);\nGO\n"),
        file("schema1", "table", "table2", "//// CHANGE name=change2 depends=table1\nCREATE TABLE table2 (id INT);\nGO\n"),
        file("schema1", "table", "table3", "//// CHANGE name=change3 depends=change2\nCREATE TABLE table3 (id INT);\nGO\n"),
    ];
    let result = order_source_files(&files);
    assert!(result.is_err());
    let error_message = first_error(result);
    assert!(error_message.contains("Cycle detected in dependencies"));
}

#[test]
fn declared_dependency_orders_two_files() {
    let files = vec![
        file("schema1", "table", "table2", "//// CHANGE name=change2 depends=table1\nCREATE TABLE table2 (id INT);\nGO\n"),
        file("schema1", "table", "table1", "//// CHANGE name=change1\nCREATE TABLE table1 (id INT);\nGO\n"),
    ];
    let plan = order_source_files(&files).ok().unwrap();
    assert_eq!(
        desired_keys(&plan),
        vec!["schema1.table.table1.change1".to_string(), "schema1.table.table2.change2".to_string()]
    );
}

#[test]
fn object_name_mismatch_cites_both_names() {
    let files = vec![file("schema1", "table", "table1", "CREATE TABLE othername (id INT);\n")];
    let msg = first_error(order_source_files(&files));
    assert!(msg.contains("table1"));
    assert!(msg.contains("othername"));
    assert_eq!(msg, "Object name 'table1' in file does not match name 'othername' in SQL");
}

#[test]
fn conformance_forms_qualified_key() {
    let s = |x: &str| x.to_string();
    let r = object_conformance(&s("t1"), &s("sch"), &s("table"), &s("c1"), &vec![s("db"), s("sch"), s("t1")]);
    assert_eq!(r.ok().unwrap(), "sch.table.t1.c1");
    let e = object_conformance(&s("t1"), &s("sch"), &s("table"), &s("c1"), &vec![s("other"), s("t1")]).err().unwrap();
    assert_eq!(e.kind, NamingMismatch::SchemaName);
    assert_eq!(e.expected, "sch");
    assert_eq!(e.actual, "other");
    let e = object_conformance(&s("t1"), &s("sch"), &s("table"), &s("c1"), &vec![]).err().unwrap();
    assert_eq!(e.kind, NamingMismatch::ObjectName);
    assert_eq!(e.actual, "");
}

#[test]
fn unparsable_sql_is_reported() {
    let files = vec![file("schema1", "table", "table1", "CREATE TABLE (;\n")];
    match order_source_files(&files) {
        Err(es) => assert!(matches!(es[0], SourceError::Parse { .. })),
        Ok(_) => panic!("expected a parse error"),
    }
}

#[test]
fn duplicate_keys_are_rejected() {
    let files = vec![file(
        "schema1",
        "table",
        "table1",
        "//// CHANGE name=c\nCREATE TABLE table1 (id INT);\nGO\n//// CHANGE name=c\nCREATE TABLE table1 (id INT);\nGO\n",
    )];
    match order_source_files(&files) {
        Err(es) => assert_eq!(es[0].message(), "Duplicate definition of 'schema1.table.table1.c'"),
        Ok(_) => panic!("expected a duplicate"),
    }
}

#[test]
fn empty_tree_has_no_objects() {
    assert_eq!(first_error(order_source_files(&vec![])), "No database objects found");
}

#[test]
fn unresolved_dependency_is_a_warning() {
    let files = vec![file("schema1", "table", "table1", "//// CHANGE name=c depends=elsewhere\nCREATE TABLE table1 (id INT);\nGO\n")];
    let plan = order_source_files(&files).ok().unwrap();
    assert_eq!(plan.warnings.len(), 1);
    assert_eq!(plan.warnings[0].object, "schema1.table.table1.c");
    assert_eq!(plan.warnings[0].dependency, "elsewhere");
    assert_eq!(desired_keys(&plan), vec!["schema1.table.table1.c".to_string()]);
}

#[test]
fn blocks_of_one_file_keep_their_order() {
    let files = vec![file(
        "s",
        "table",
        "t",
        "CREATE TABLE t (id INT);\nGO\nCREATE INDEX t ON t (id);\nGO\n",
    )];
    let plan = order_source_files(&files).ok().unwrap();
    assert_eq!(desired_keys(&plan), vec!["s.table.t.root0".to_string(), "s.table.t.root1".to_string()]);
}

use oxigration::identity::DatabaseObject;

#[test]
fn database_object_takes_declared_dependencies() {
    let mut o = DatabaseObject::new(
        "s.table.t.c".to_string(),
        "SELECT 1;".to_string(),
        vec!["earlier".to_string()],
        vec![("depends".to_string(), " x , earlier,y".to_string())],
        None,
    );
    assert_eq!(o.dependencies, vec!["earlier".to_string(), "x".to_string(), "y".to_string()]);
    o.add_dependency("x".to_string());
    o.add_dependency("z".to_string());
    assert_eq!(o.dependencies.len(), 4);
    assert_eq!(o.dependencies[3], "z");
    o.add_property("owner".to_string(), "me".to_string());
    assert_eq!(o.properties.last().unwrap(), &("owner".to_string(), "me".to_string()));
    assert!(o.parsed_content.is_none());
}
