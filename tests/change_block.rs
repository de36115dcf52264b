use oxigration::change_block::{parse_change_stmts, Stmt};

fn has(stmts: &[Stmt], name: &str) -> bool {
    stmts.iter().any(|s| s.change_name == name)
}

fn named<'a>(stmts: &'a [Stmt], name: &str) -> &'a Stmt {
    stmts.iter().find(|s| s.change_name == name).unwrap()
}

#[test]
fn reference_test_parse_change_stmts_with_delimiters() {
    let content = "//// CHANGE name=statement1 depends=statement2\nCREATE TABLE table1 (id INT);\nGO\n//// CHANGE name=statement2\nCREATE TABLE table2 (id INT);\nGO\n";
    let parsed_stmts = parse_change_stmts(content, "//// CHANGE", "GO", "name");
    assert_eq!(parsed_stmts.len(), 2);
    assert!(has(&parsed_stmts, "statement1"));
    assert!(has(&parsed_stmts, "statement2"));
}

#[test]
fn reference_test_parse_change_stmts_without_start_delimiter() {
    let content = "CREATE TABLE table1 (id INT);\nGO\nCREATE TABLE table2 (id INT);\nGO\n";
    let parsed_stmts = parse_change_stmts(content, "//// CHANGE", "GO", "name");
    assert_eq!(parsed_stmts.len(), 2);
    assert!(has(&parsed_stmts, "root0"));
    assert!(has(&parsed_stmts, "root1"));
}

#[test]
fn reference_test_parse_change_stmts_without_delimiters() {
    let content = "CREATE TABLE table1 (id INT);";
    let parsed_stmts = parse_change_stmts(content, "//// CHANGE", "GO", "name");
    assert_eq!(parsed_stmts.len(), 1);
    assert!(has(&parsed_stmts, "root0"));
}

#[test]
fn test_parse_change_stmts_without_end_delimiters_and_one_statements() {
    let content = "CREATE PROCEDURE sp1() LANGUAGE plpgsql AS $$ DECLARE val INTEGER; END $$; \n\nGO";
    let parsed_stmts = parse_change_stmts(content, "//// CHANGE", "GO", "name");
    assert_eq!(parsed_stmts.len(), 1);
    assert!(has(&parsed_stmts, "root0"));
}

#[test]
fn test_parse_change_stmts_without_end_delimiters_and_multiple_statements() {
    let content = "CREATE PROCEDURE sp1() LANGUAGE plpgsql AS $$ DECLARE val INTEGER; END $$; \n\nGO\nCREATE PROCEDURE sp1() LANGUAGE plpgsql AS $$ DECLARE val INTEGER; END $$; \n\nGO";
    let parsed_stmts = parse_change_stmts(content, "//// CHANGE", "GO", "name");
    assert_eq!(parsed_stmts.len(), 2);
    assert!(has(&parsed_stmts, "root0"));
    assert!(has(&parsed_stmts, "root1"));
}

#[test]
fn source_code_test_parse_change_stmts_with_delimiters() {
    let content = "//// CHANGE name=statement1 depends=statement2\nCREATE TABLE table1 (id INT);\nGO\n//// CHANGE name=statement2\nCREATE TABLE table2 (id INT);\nGO\n";
    let parsed_stmts = parse_change_stmts(content, "//// CHANGE", "GO", "name");
    assert_eq!(parsed_stmts.len(), 2);
    assert!(has(&parsed_stmts, "statement1"));
    assert!(has(&parsed_stmts, "statement2"));
}

#[test]
fn source_code_test_parse_change_stmts_without_start_delimiter() {
    let content = "CREATE TABLE table1 (id INT);\nGO\nCREATE TABLE table2 (id INT);\nGO\n";
    let parsed_stmts = parse_change_stmts(content, "//// CHANGE", "GO", "name");
    assert_eq!(parsed_stmts.len(), 2);
    assert!(has(&parsed_stmts, "root0"));
    assert!(has(&parsed_stmts, "root1"));
}

#[test]
fn source_code_test_parse_change_stmts_without_delimiters() {
    let content = "CREATE TABLE table1 (id INT);";
    let parsed_stmts = parse_change_stmts(content, "//// CHANGE", "GO", "name");
    assert_eq!(parsed_stmts.len(), 1);
    assert!(has(&parsed_stmts, "root0"));
}

#[test]
fn test_parse_change_stmts_without_start_delimiters_and_one_end_statement() {
    let content =
        "CREATE FUNCTION func1() RETURNS integer\n    LANGUAGE plpgsql\n    AS '\nBEGIN\n    -- ensure that func comment remains\n    RETURN 1;\nEND;\n';\n\n\nGO";
    let parsed_stmts = parse_change_stmts(content, "//// CHANGE", "GO", "name");
    assert_eq!(parsed_stmts.len(), 1);
    assert!(has(&parsed_stmts, "root0"));
}

#[test]
fn test_parse_change_stmts_without_start_delimiters_and_multiple_statements() {
    let content = "CREATE PROCEDURE sp1() LANGUAGE plpgsql AS $$ DECLARE val INTEGER; END $$; \n\nGO\nCREATE PROCEDURE sp1(my_param INTEGER) LANGUAGE plpgsql AS $$ DECLARE val INTEGER; END $$; \n\nGO";
    let parsed_stmts = parse_change_stmts(content, "//// CHANGE", "GO", "name");
    assert_eq!(parsed_stmts.len(), 2);
    assert!(has(&parsed_stmts, "root0"));
    assert!(has(&parsed_stmts, "root1"));
}

#[test]
fn blocks_without_depends_form_an_implicit_chain() {
    let content = "//// CHANGE name=a\nSELECT 1;\nGO\n//// CHANGE name=b\nSELECT 2;\nGO\n//// CHANGE name=c\nSELECT 3;\nGO\n";
    let parsed = parse_change_stmts(content, "//// CHANGE", "GO", "name");
    let names: Vec<&str> = parsed.iter().map(|s| s.change_name.as_str()).collect();
    assert_eq!(names, vec!["a", "b", "c"]);
    assert!(parsed[0].dependencies.is_empty());
    assert_eq!(parsed[1].dependencies, vec!["a".to_string()]);
    assert_eq!(parsed[2].dependencies, vec!["a".to_string(), "b".to_string()]);
}

#[test]
fn value_is_trimmed_block_text() {
    let content = "//// CHANGE name=a\n\n  CREATE TABLE t (id INT);\n\r\nGO\n";
    let parsed = parse_change_stmts(content, "//// CHANGE", "GO", "name");
    assert_eq!(parsed.len(), 1);
    assert_eq!(parsed[0].value, "CREATE TABLE t (id INT);");
}

#[test]
fn depends_attribute_adds_trimmed_names() {
    let content = "//// CHANGE name=x depends=p,q\nSELECT 1;\nGO\n";
    let parsed = parse_change_stmts(content, "//// CHANGE", "GO", "name");
    let x = named(&parsed, "x");
    assert_eq!(x.dependencies, vec!["p".to_string(), "q".to_string()]);
    assert_eq!(
        x.properties,
        vec![
            ("name".to_string(), "x".to_string()),
            ("depends".to_string(), "p,q".to_string())
        ]
    );
}

#[test]
fn malformed_attribute_tokens_are_skipped() {
    let content = "//// CHANGE junk name=x other a=b=c\nSELECT 1;\nGO\n";
    let parsed = parse_change_stmts(content, "//// CHANGE", "GO", "name");
    assert_eq!(parsed.len(), 1);
    assert_eq!(parsed[0].change_name, "x");
    assert_eq!(
        parsed[0].properties,
        vec![
            ("name".to_string(), "x".to_string()),
            ("a".to_string(), "b".to_string())
        ]
    );
}

#[test]
fn unnamed_block_gets_synthesized_name() {
    let content = "//// CHANGE\nSELECT 1;\nGO\n//// CHANGE\nSELECT 2;\nGO\n";
    let parsed = parse_change_stmts(content, "//// CHANGE", "GO", "name");
    let names: Vec<&str> = parsed.iter().map(|s| s.change_name.as_str()).collect();
    assert_eq!(names, vec!["root0", "root1"]);
}

#[test]
fn file_ending_mid_block_is_flushed() {
    let content = "//// CHANGE name=a\nSELECT 1;\nGO\n//// CHANGE name=b\nSELECT 2;\n";
    let parsed = parse_change_stmts(content, "//// CHANGE", "GO", "name");
    assert_eq!(parsed.len(), 2);
    assert_eq!(parsed[0].change_name, "a");
    assert_eq!(parsed[1].change_name, "root0");
    assert_eq!(parsed[1].value, "SELECT 2;");
    assert_eq!(parsed[1].dependencies, vec!["a".to_string()]);
}

#[test]
fn empty_file_has_no_blocks() {
    assert!(parse_change_stmts("", "//// CHANGE", "GO", "name").is_empty());
    assert!(parse_change_stmts("  \n\n", "//// CHANGE", "GO", "name").is_empty());
}

#[test]
fn twelve_unnamed_blocks_count_in_decimal() {
    let content = "SELECT 1;\nGO\n".repeat(12);
    let parsed = parse_change_stmts(&content, "//// CHANGE", "GO", "name");
    assert_eq!(parsed.len(), 12);
    assert_eq!(parsed[11].change_name, "root11");
    assert_eq!(parsed[11].dependencies.len(), 11);
}
