use grocery_list::reset::{reset_statements, RESET_INTERVAL_SECS};

#[test]
fn reset_clears_every_known_table_then_copies_it() {
    let tables = vec!["categories".to_string(), "entries".to_string()];
    let sql = reset_statements(&tables);
    assert_eq!(
        sql,
        vec![
            "DELETE FROM main.categories",
            "DELETE FROM main.entries",
            "INSERT INTO main.categories SELECT * FROM demo.categories",
            "INSERT INTO main.entries SELECT * FROM demo.entries",
        ]
    );
    assert!(reset_statements(&vec![]).is_empty());
    assert_eq!(RESET_INTERVAL_SECS, 15 * 60);
}

#[test]
fn unknown_table_names_never_reach_a_statement() {
    let listed = vec![
        "_sqlx_migrations".to_string(),
        "entries".to_string(),
        "foo".to_string(),
        "x; DROP TABLE entries".to_string(),
        "Categories".to_string(),
    ];
    assert_eq!(
        reset_statements(&listed),
        vec![
            "DELETE FROM main.entries",
            "INSERT INTO main.entries SELECT * FROM demo.entries",
        ]
    );
    assert!(reset_statements(&vec!["foo".to_string()]).is_empty());
}
