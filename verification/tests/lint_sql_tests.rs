use privatium_core::lint::sql::{arithmetic_problems, is_catalog, judge, tokens, try_tokens, write_problems, Seen, Tok};
use privatium_core::lint::Columns;

fn fill_columns() -> Columns {
    let cols: Vec<(String, String)> = vec![
        ("id".to_string(), "VARCHAR".to_string()),
        ("copay".to_string(), "DECIMAL(18,2)".to_string()),
        ("due_on".to_string(), "DATE".to_string()),
        ("n".to_string(), "BIGINT".to_string()),
    ];
    Columns::of(&cols)
}

#[test]
fn writes_and_arithmetic_are_found_in_app_sql() {
    assert!(write_problems("SELECT * FROM t").is_empty());
    assert!(write_problems("WITH x AS (SELECT 1) SELECT * FROM x").is_empty());
    assert_eq!(write_problems("UPDATE t SET a = 1").len(), 1);
    assert_eq!(write_problems("WITH x AS (SELECT 1) DELETE FROM t").len(), 1);
    assert!(write_problems("SELECT 'DELETE' FROM t").is_empty());

    let columns = fill_columns();
    assert_eq!(arithmetic_problems("SELECT SUM(copay) FROM fill", &columns).len(), 1);
    assert!(arithmetic_problems("SELECT decimal_sum(copay), SUM(n) FROM fill", &columns).is_empty());
    assert_eq!(arithmetic_problems("SELECT due_on + 30 FROM fill", &columns).len(), 1);
    assert_eq!(arithmetic_problems("SELECT 1 - due_on FROM fill", &columns).len(), 1);
    assert!(arithmetic_problems(
        "SELECT date(due_on, '+30 days') FROM fill WHERE due_on >= date('now')",
        &columns
    )
    .is_empty());
}

#[test]
fn tokens_carry_byte_offsets_and_drop_comments() {
    let toks = tokens("-- é\nSELECT 'a''b', \"Col\" /* x */ || é1.5 <> [x y]");
    let got: Vec<(usize, Tok)> = toks;
    assert_eq!(
        got,
        vec![
            (6, Tok::Word("SELECT".to_string())),
            (13, Tok::Str),
            (19, Tok::Punct(",".to_string())),
            (21, Tok::Word("Col".to_string())),
            (35, Tok::Punct("||".to_string())),
            (38, Tok::Punct("é".to_string())),
            (40, Tok::Num),
            (44, Tok::Punct("<>".to_string())),
            (47, Tok::Word("x y".to_string())),
        ]
    );
}

#[test]
fn a_write_names_the_keyword_and_its_offset() {
    let problems = write_problems("SELECT 1; insert INTO t VALUES (1); (DELETE)");
    assert_eq!(problems.len(), 1);
    assert_eq!(problems[0].offset, 10);
    assert_eq!(problems[0].message, "INSERT in app SQL — writes are appends, reads are SQL");
    assert_eq!(problems[0].fix, "pv.append / pv.delete (Lua) or pv.put / pv.del (JavaScript)");
}

#[test]
fn the_arithmetic_fix_names_the_column() {
    let columns = fill_columns();
    let p = arithmetic_problems("SELECT Sum((COPAY)) FROM fill", &columns);
    assert_eq!(p.len(), 1);
    assert_eq!(p[0].offset, 7);
    assert_eq!(p[0].message, "SUM(COPAY) over a DECIMAL column is a float");
    assert_eq!(p[0].fix, "decimal_sum(COPAY)");
    let d = arithmetic_problems("SELECT -due_on", &columns);
    assert_eq!(d[0].message, "`due_on` is a DATE; + and - treat it as an integer");
    assert_eq!(d[0].fix, "date(due_on, '+30 days') — the modifier spelling");
}

#[test]
fn a_statement_is_judged_by_what_the_engine_did() {
    assert_eq!(judge(&[Seen::Create("CREATE TABLE"), Seen::Write("INSERT into", "sqlite_master".to_string())]), None);
    assert_eq!(
        judge(&[Seen::Create("CREATE TABLE"), Seen::Write("INSERT into", "t".to_string())]),
        Some("INSERT into `t` — a schema declares tables, views and indexes; rows arrive by append".to_string())
    );
    assert_eq!(judge(&[Seen::Read]), Some("not a CREATE TABLE, CREATE VIEW or CREATE INDEX".to_string()));
    assert_eq!(
        judge(&[Seen::Other("ALTER TABLE".to_string()), Seen::Create("CREATE VIEW")]),
        Some("ALTER TABLE is not a declaration".to_string())
    );
    assert!(is_catalog("SQLite_Schema"));
    assert!(!is_catalog("sqlite_other"));
}

#[test]
fn sql_that_cannot_be_read_is_told_apart() {
    assert_eq!(try_tokens("SELECT a FROM t").map(|v| v.len()), Some(4));
    assert!(try_tokens("SELECT \u{20AC}").is_none());
}
