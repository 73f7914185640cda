use opensnow::engine::{
    copy_columns, copy_into_existing, copy_into_files, drop_database_outcome, drop_database_target,
    route_sql, storage_failure, table_reference, SqlRoute,
};
use opensnow::error::{IntErrorKind, OpenSnowError};
use opensnow::pgwire::rows::{Cell, Row};

fn invalid(e: OpenSnowError) -> String {
    match e {
        OpenSnowError::InvalidStatement(m) => m,
        _ => panic!("expected an invalid statement"),
    }
}

#[test]
fn routes_by_statement_shape() {
    assert_eq!(invalid(route_sql("  ").err().unwrap()), "empty statement");
    match route_sql(" SELECT * FROM parquet_scan('/tmp/x.parquet') LIMIT 3 ").ok().unwrap() {
        SqlRoute::ParquetScan(s) => {
            assert_eq!(s.path, "/tmp/x.parquet");
            assert_eq!(s.limit, 3);
        }
        _ => panic!("expected a parquet scan"),
    }
    match route_sql("CREATE DATABASE db1;;").ok().unwrap() {
        SqlRoute::Statement(_, run) => assert_eq!(run, "CREATE DATABASE db1"),
        _ => panic!("expected a statement"),
    }
    assert!(matches!(route_sql("SELECT 1; SELECT 2"), Err(OpenSnowError::InvalidStatement(_))));
}

#[test]
fn table_references_resolve_with_defaults() {
    assert_eq!(
        table_reference("db.sch.t", "datafusion", "public").ok().unwrap(),
        ("db".to_string(), "sch".to_string(), "t".to_string())
    );
    assert_eq!(
        table_reference("sch.t", "datafusion", "public").ok().unwrap(),
        ("datafusion".to_string(), "sch".to_string(), "t".to_string())
    );
    assert_eq!(
        table_reference("..t.", "datafusion", "public").ok().unwrap(),
        ("datafusion".to_string(), "public".to_string(), "t".to_string())
    );
    assert_eq!(
        invalid(table_reference("a.b.c.d", "datafusion", "public").err().unwrap()),
        "invalid table reference 'a.b.c.d'; expected 1-3 dot-separated parts"
    );
    assert_eq!(
        invalid(table_reference("..", "datafusion", "public").err().unwrap()),
        "invalid table reference '..'; expected 1-3 dot-separated parts"
    );
}

#[test]
fn copy_into_needs_table_and_files() {
    assert_eq!(invalid(copy_into_files(false, None).err().unwrap()), "COPY INTO <location> is not supported yet");
    assert_eq!(
        invalid(copy_into_files(true, None).err().unwrap()),
        "COPY INTO requires FILES = ('/path/to/file.parquet') for local loads"
    );
    assert_eq!(invalid(copy_into_files(true, Some(vec![])).err().unwrap()), "FILES list must not be empty");
    assert_eq!(copy_into_files(true, Some(vec!["/a".to_string()])).ok().unwrap(), vec!["/a".to_string()]);
    assert_eq!(
        invalid(copy_into_existing("db.s.t")),
        "COPY INTO append is not implemented yet; table 'db.s.t' already exists"
    );
}

#[test]
fn copy_columns_take_sorted_keys_of_first_object() {
    let rows = vec![
        Row::NotObject,
        Row::Object(vec![
            ("name".to_string(), Cell::Text("alice".to_string())),
            ("id".to_string(), Cell::Text("1".to_string())),
        ]),
        Row::Object(vec![("id".to_string(), Cell::Other), ("extra".to_string(), Cell::Text("x".to_string()))]),
    ];
    let (names, cols) = copy_columns(&rows).ok().unwrap();
    assert_eq!(names, vec!["id".to_string(), "name".to_string()]);
    assert_eq!(cols[0], vec![None, Some("1".to_string()), None]);
    assert_eq!(cols[1], vec![None, Some("alice".to_string()), None]);
    assert_eq!(
        invalid(copy_columns(&[Row::NotObject]).err().unwrap()),
        "COPY INTO parquet file produced no rows"
    );
}

#[test]
fn drop_database_checks() {
    assert_eq!(
        invalid(drop_database_target(&[], "datafusion").err().unwrap()),
        "DROP DATABASE expects a single name"
    );
    assert_eq!(
        invalid(drop_database_target(&["datafusion".to_string()], "datafusion").err().unwrap()),
        "cannot DROP DATABASE for the default catalog"
    );
    assert_eq!(drop_database_target(&["db1".to_string()], "datafusion").ok().unwrap(), "db1");
    assert!(drop_database_outcome("db1", true, false).is_ok());
    assert!(drop_database_outcome("db1", false, true).is_ok());
    assert_eq!(invalid(drop_database_outcome("db1", false, false).err().unwrap()), "database 'db1' does not exist");
}

#[test]
fn storage_failures_keep_storage_errors() {
    match storage_failure(OpenSnowError::Storage("bad file".to_string())) {
        OpenSnowError::Storage(m) => assert_eq!(m, "bad file"),
        _ => panic!("expected a storage error"),
    }
    match storage_failure(OpenSnowError::InvalidStatement("x".to_string())) {
        OpenSnowError::Execution(m) => assert_eq!(m, "invalid statement: x"),
        _ => panic!("expected an execution error"),
    }
}

#[test]
fn error_messages_name_the_failure() {
    assert_eq!(OpenSnowError::Config("x".to_string()).to_string(), "configuration: x");
    assert_eq!(
        OpenSnowError::InvalidEnvVar { key: "K".to_string(), source: IntErrorKind::InvalidDigit }.to_string(),
        "invalid environment variable `K`: invalid digit found in string"
    );
    assert_eq!(OpenSnowError::Storage("s".to_string()).to_string(), "storage error: s");
    assert_eq!(OpenSnowError::Execution("e".to_string()).to_string(), "execution error: e");
    let io = OpenSnowError::Io(std::io::Error::new(std::io::ErrorKind::Other, "disk"));
    assert_eq!(io.to_string(), "I/O error: disk");
}
