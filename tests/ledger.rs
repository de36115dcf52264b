use oxigration::ledger::{
    check_ledger_environment, environment_checks, environment_name, finish_execution,
    format_query_with_schema, may_start_run, parse_environment, parse_execution_status, Environment,
    ExecutionStatus,
    LedgerError, PreflightCheck, PreflightError, PreflightFacts, PreflightStep,
};

#[test]
fn query_gets_schema_prefix_when_supported() {
    let q = "SELECT * FROM {schema_prefix}deploy_log;";
    assert_eq!(format_query_with_schema(q, true), "SELECT * FROM oxigration.deploy_log;");
    assert_eq!(format_query_with_schema(q, false), "SELECT * FROM deploy_log;");
}

#[test]
fn every_placeholder_is_replaced() {
    let q = "{schema_prefix}a {schema_prefix}b {schema_prefix";
    assert_eq!(format_query_with_schema(q, true), "oxigration.a oxigration.b {schema_prefix");
    assert_eq!(format_query_with_schema("", true), "");
}

#[test]
fn environments_are_read_exactly() {
    assert_eq!(parse_environment("DEV"), Some(Environment::Dev));
    assert_eq!(parse_environment("TEST"), Some(Environment::Test));
    assert_eq!(parse_environment("PROD"), Some(Environment::Prod));
    assert_eq!(parse_environment("STAGE"), Some(Environment::Stage));
    assert_eq!(parse_environment("dev"), None);
    assert_eq!(parse_environment("QA"), None);
    assert_eq!(environment_name(Environment::Stage), "STAGE");
}

#[test]
fn ledger_environment_must_match() {
    assert!(check_ledger_environment("PROD", Environment::Prod).is_ok());
    match check_ledger_environment("DEV", Environment::Prod) {
        Err(LedgerError::EnvironmentMismatch { stored, declared }) => {
            assert_eq!(stored, "DEV");
            assert_eq!(declared, Environment::Prod);
        }
        _ => panic!("expected a mismatch"),
    }
}

#[test]
fn run_in_progress_blocks_a_new_run() {
    assert!(may_start_run(&vec![ExecutionStatus::Succeeded, ExecutionStatus::Failed]).is_ok());
    assert!(matches!(
        may_start_run(&vec![ExecutionStatus::Succeeded, ExecutionStatus::InProgress]),
        Err(LedgerError::RunInProgress)
    ));
}

#[test]
fn only_running_runs_finish() {
    assert_eq!(
        finish_execution(ExecutionStatus::InProgress, ExecutionStatus::Succeeded).ok(),
        Some(ExecutionStatus::Succeeded)
    );
    assert!(finish_execution(ExecutionStatus::Succeeded, ExecutionStatus::Failed).is_err());
    assert!(finish_execution(ExecutionStatus::InProgress, ExecutionStatus::InProgress).is_err());
}

fn facts() -> PreflightFacts {
    PreflightFacts {
        is_init: false,
        target_reachable: None,
        source_dir_exists: None,
        declared_environment: None,
        ledger_environment: None,
        ledger_exists: None,
    }
}

#[test]
fn preflight_asks_cheapest_probe_first() {
    let mut f = facts();
    assert!(matches!(environment_checks(&f), PreflightStep::Probe(PreflightCheck::TargetReachable)));
    f.target_reachable = Some(true);
    assert!(matches!(environment_checks(&f), PreflightStep::Probe(PreflightCheck::SourceDirExists)));
    f.source_dir_exists = Some(true);
    assert!(matches!(environment_checks(&f), PreflightStep::Probe(PreflightCheck::DeclaredEnvironment)));
    f.declared_environment = Some("TEST".to_string());
    assert!(matches!(environment_checks(&f), PreflightStep::Probe(PreflightCheck::LedgerEnvironment)));
    f.ledger_environment = Some("TEST".to_string());
    assert!(matches!(environment_checks(&f), PreflightStep::Probe(PreflightCheck::LedgerExists)));
    f.ledger_exists = Some(true);
    assert!(matches!(environment_checks(&f), PreflightStep::Done(Ok(()))));
}

#[test]
fn preflight_failures() {
    let mut f = facts();
    f.target_reachable = Some(false);
    assert!(matches!(environment_checks(&f), PreflightStep::Done(Err(PreflightError::TargetUnreachable))));
    let mut f = facts();
    f.target_reachable = Some(true);
    f.is_init = true;
    assert!(matches!(environment_checks(&f), PreflightStep::Done(Ok(()))));
    let mut f = facts();
    f.target_reachable = Some(true);
    f.source_dir_exists = Some(true);
    f.declared_environment = Some("QA".to_string());
    assert!(matches!(environment_checks(&f), PreflightStep::Done(Err(PreflightError::InvalidEnvironment { .. }))));
    f.declared_environment = Some("DEV".to_string());
    f.ledger_environment = Some("PROD".to_string());
    assert!(matches!(environment_checks(&f), PreflightStep::Done(Err(PreflightError::EnvironmentMismatch { .. }))));
    f.ledger_environment = Some("DEV".to_string());
    f.ledger_exists = Some(false);
    assert!(matches!(environment_checks(&f), PreflightStep::Done(Err(PreflightError::LedgerMissing))));
}

#[test]
fn run_statuses_are_read_exactly() {
    assert_eq!(parse_execution_status("in-progress"), Some(ExecutionStatus::InProgress));
    assert_eq!(parse_execution_status("succeeded"), Some(ExecutionStatus::Succeeded));
    assert_eq!(parse_execution_status("failed"), Some(ExecutionStatus::Failed));
    assert_eq!(parse_execution_status("FAILED"), None);
}
