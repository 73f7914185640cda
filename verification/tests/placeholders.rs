use opensnow::pgwire::placeholders::{
    find_placeholders, max_param_index, placeholder_select_aliases, scan_placeholders,
    substitute_params,
};

#[test]
fn find_placeholders_skips_inside_single_quotes() {
    let sql = "SELECT '$1', $2";
    let p = find_placeholders(sql);
    assert_eq!(p.len(), 1);
    assert_eq!(p[0].n, 2);
}

#[test]
fn find_placeholders_skips_line_comment() {
    let sql = "SELECT $1 -- $2\n, $3";
    let p = find_placeholders(sql);
    assert_eq!(p.len(), 2);
    assert_eq!(p[0].n, 1);
    assert_eq!(p[1].n, 3);
}

#[test]
fn substitute_leaves_dollar_inside_literal() {
    let sql = "SELECT '$1'::text, $1";
    let out = substitute_params(sql, &[Some("x".into())]).unwrap();
    assert!(out.contains("'$1'::text"));
    assert!(out.ends_with(", 'x'") || out.contains(", 'x'"));
}

#[test]
fn dollar_ten_before_dollar_one_substitution_order() {
    let sql = "SELECT $10, $1";
    let out = substitute_params(
        sql,
        &[
            Some("a".into()),
            None,
            None,
            None,
            None,
            None,
            None,
            None,
            None,
            Some("b".into()),
        ],
    )
    .unwrap();
    assert!(out.contains("'b'"));
    assert!(out.contains("'a'"));
    assert!(!out.contains("$10"));
}

#[test]
fn placeholders_skip_double_quotes_and_block_comments() {
    let p = find_placeholders("SELECT \"$1\", /* $2 */ $3, $0, $004");
    let ns: Vec<usize> = p.iter().map(|x| x.n).collect();
    assert_eq!(ns, vec![3, 4]);
}

#[test]
fn placeholder_spans_are_byte_offsets() {
    let p = find_placeholders("SELECT $12 + $3");
    assert_eq!((p[0].start, p[0].end, p[0].n), (7, 10, 12));
    assert_eq!((p[1].start, p[1].end, p[1].n), (13, 15, 3));
    let sql = "é$1 'ü$2' $3";
    let p = find_placeholders(sql);
    assert_eq!(p.len(), 2);
    assert_eq!((p[0].start, p[0].end, p[0].n), (2, 4, 1));
    assert_eq!(sql.as_bytes()[p[0].start], b'$');
    assert_eq!(&sql[p[1].start..p[1].end], "$3");
    let out = substitute_params(sql, &[Some("a".into()), None, Some("c".into())]).unwrap();
    assert_eq!(out, "é'a' 'ü$2' 'c'");
}

#[test]
fn substitute_doubles_quotes_and_writes_null() {
    let out = substitute_params("SELECT $1, $2", &[Some("it's".into()), None]).unwrap();
    assert_eq!(out, "SELECT 'it''s', NULL");
}

#[test]
fn substitute_rejects_count_mismatch() {
    let err = substitute_params("SELECT $2", &[Some("x".into())]).unwrap_err();
    assert_eq!(
        err,
        "bind parameter count 1 does not match statement placeholders (expect 2 for max index)"
    );
}

#[test]
fn substitute_without_placeholders_is_identity() {
    let sql = "SELECT 'a' -- $1";
    assert_eq!(substitute_params(sql, &[]).unwrap(), sql);
}

#[test]
fn max_param_index_reports_highest() {
    assert_eq!(max_param_index("SELECT $2, $7, $3"), 7);
    assert_eq!(max_param_index("SELECT 1"), 0);
}

#[test]
fn select_alias_found_for_placeholder_select() {
    assert_eq!(placeholder_select_aliases("  select $1 AS n  "), vec!["n".to_string()]);
    assert!(placeholder_select_aliases("SELECT 1 AS n").is_empty());
    assert!(placeholder_select_aliases("INSERT INTO t VALUES ($1)").is_empty());
}

#[test]
fn substituted_statement_has_no_placeholder_left() {
    let out = substitute_params(
        "SELECT $1, $2",
        &[Some("$1 ' $2".into()), Some("'; SELECT $1 --".into())],
    )
    .unwrap();
    assert_eq!(out, "SELECT '$1 '' $2', '''; SELECT $1 --'");
    assert!(find_placeholders(&out).is_empty());

    let out = substitute_params("'a'$1 $2", &[Some("x".into()), Some("y".into())]).unwrap();
    assert_eq!(out, "'a''x' 'y'");
    assert!(find_placeholders(&out).is_empty());

    let out = substitute_params("$1$2", &[Some("'".into()), None]).unwrap();
    assert_eq!(out, "''''NULL");
    assert!(find_placeholders(&out).is_empty());
}

#[test]
fn placeholders_by_byte_and_by_character_agree() {
    for sql in ["é$1 'ü$2' $3", "SELECT $12 -- ö $4\n, $0, $5", "/* ß $1 */ \"€$2\" $3"] {
        let chars: Vec<char> = sql.chars().collect();
        let by_char = scan_placeholders(&chars).unwrap();
        let by_byte = find_placeholders(sql);
        assert_eq!(by_char.len(), by_byte.len());
        for (c, b) in by_char.iter().zip(by_byte.iter()) {
            assert_eq!(c.n, b.n);
            let text: String = chars[c.start..c.end].iter().collect();
            assert_eq!(&sql[b.start..b.end], text);
        }
    }
}

#[test]
fn substitution_replaces_the_reported_byte_spans() {
    let sql = "SELECT 'é', $2 || 'ü', $1 -- ß $3";
    let params = [Some("ö'x".to_string()), None];
    let out = substitute_params(sql, &params).unwrap();
    let mut expected: Vec<u8> = Vec::new();
    let mut pos = 0;
    for p in find_placeholders(sql) {
        expected.extend_from_slice(&sql.as_bytes()[pos..p.start]);
        match &params[p.n - 1] {
            Some(v) => {
                expected.push(b'\'');
                expected.extend_from_slice(v.replace('\'', "''").as_bytes());
                expected.push(b'\'');
            }
            None => expected.extend_from_slice(b"NULL"),
        }
        pos = p.end;
    }
    expected.extend_from_slice(&sql.as_bytes()[pos..]);
    assert_eq!(out.as_bytes(), &expected[..]);
    assert_eq!(out, "SELECT 'é', NULL || 'ü', 'ö''x' -- ß $3");
}
