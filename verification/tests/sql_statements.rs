use opensnow::error::OpenSnowError;
use opensnow::sql::{parse_one_statement, parse_select_parquet_scan, validate_statement};

#[test]
fn parses_valid_shape() {
    let parsed =
        parse_select_parquet_scan("SELECT * FROM parquet_scan('/tmp/a.parquet') LIMIT 10").unwrap();
    assert_eq!(parsed.path, "/tmp/a.parquet");
    assert_eq!(parsed.limit, 10);
}

#[test]
fn rejects_invalid_shape() {
    let err = parse_select_parquet_scan("SELECT 1").unwrap_err();
    assert!(matches!(err, OpenSnowError::InvalidStatement(_)));
}

#[test]
fn validate_accepts_select_and_ddl() {
    validate_statement("SELECT 1").unwrap();
    validate_statement("CREATE DATABASE db1").unwrap();
    validate_statement("CREATE SCHEMA s1").unwrap();
}

#[test]
fn validate_rejects_garbage() {
    assert!(validate_statement(";;;").is_err());
}

fn shape_message(sql: &str) -> String {
    match parse_select_parquet_scan(sql) {
        Err(OpenSnowError::InvalidStatement(m)) => m,
        other => panic!("unexpected {:?}", other),
    }
}

#[test]
fn scan_shape_tolerates_case_space_and_semicolons() {
    let p = parse_select_parquet_scan("  select * FROM Parquet_Scan( 'x.parquet' ) limit  7 ;; ").unwrap();
    assert_eq!(p.path, "x.parquet");
    assert_eq!(p.limit, 7);
}

#[test]
fn scan_shape_errors_name_the_problem() {
    assert_eq!(shape_message("SELECT * FROM t LIMIT 1"), "missing `parquet_scan(...)` call");
    assert_eq!(shape_message("SELECT * FROM parquet_scan('a' LIMIT 1"), "missing `)` after parquet_scan");
    assert_eq!(
        shape_message("SELECT * FROM parquet_scan(a) LIMIT 1"),
        "parquet_scan argument must be single-quoted path"
    );
    assert_eq!(shape_message("SELECT * FROM parquet_scan('') LIMIT 1"), "parquet_scan path must not be empty");
    assert_eq!(shape_message("SELECT * FROM parquet_scan('a')"), "statement must end with `LIMIT <n>`");
    assert_eq!(shape_message("SELECT * FROM parquet_scan('a') LIMIT -1"), "limit must be a positive integer");
}

#[test]
fn one_statement_rejects_empty_and_multiple() {
    assert!(parse_one_statement("SELECT 1;").is_ok());
    match parse_one_statement("SELECT 1; SELECT 2") {
        Err(OpenSnowError::InvalidStatement(m)) => assert_eq!(m, "exactly one SQL statement is supported"),
        other => panic!("unexpected {:?}", other),
    }
    assert!(parse_one_statement("SELEC 1").is_err());
}

#[test]
fn validate_rejects_blank() {
    match validate_statement("   ") {
        Err(OpenSnowError::InvalidStatement(m)) => assert_eq!(m, "empty statement"),
        other => panic!("unexpected {:?}", other),
    }
}

#[test]
fn validate_words_its_own_refusals() {
    match validate_statement("SELECT 1; SELECT 2") {
        Err(OpenSnowError::InvalidStatement(m)) => assert_eq!(m, "exactly one SQL statement is supported"),
        other => panic!("unexpected {:?}", other),
    }
    match validate_statement(";;;") {
        Err(OpenSnowError::InvalidStatement(m)) => assert_eq!(m, "empty statement"),
        other => panic!("unexpected {:?}", other),
    }
}
