use meta_kv::view_stmt::AlterViewStmt;
use meta_kv::view_stmt::CreateViewStmt;
use meta_kv::view_stmt::DropViewStmt;
use meta_kv::view_stmt::Identifier;
use meta_kv::view_stmt::Query;

fn ident(name: &str) -> Identifier {
    Identifier { name: name.to_string() }
}

#[test]
fn create_view_renders_fully_qualified() {
    let stmt = CreateViewStmt {
        if_not_exists: true,
        catalog: Some(ident("cat")),
        database: Some(ident("db")),
        view: ident("v"),
        columns: vec![ident("a"), ident("b")],
        query: Box::new(Query { text: "SELECT 1".to_string() }),
    };
    assert_eq!(
        stmt.display(),
        "CREATE VIEW IF NOT EXISTS cat.db.v (a, b) AS SELECT 1".to_string()
    );
}

#[test]
fn create_view_renders_bare_name_without_columns() {
    let stmt = CreateViewStmt {
        if_not_exists: false,
        catalog: None,
        database: None,
        view: ident("v"),
        columns: vec![],
        query: Box::new(Query { text: "SELECT 2".to_string() }),
    };
    assert_eq!(stmt.display(), "CREATE VIEW v AS SELECT 2".to_string());
}

#[test]
fn alter_view_renders() {
    let stmt = AlterViewStmt {
        catalog: None,
        database: Some(ident("db")),
        view: ident("v"),
        columns: vec![ident("only")],
        query: Box::new(Query { text: "SELECT 3".to_string() }),
    };
    assert_eq!(stmt.display(), "ALTER VIEW db.v (only) AS SELECT 3".to_string());
}

#[test]
fn drop_view_renders() {
    let stmt = DropViewStmt {
        if_exists: true,
        catalog: None,
        database: None,
        view: ident("v"),
    };
    assert_eq!(stmt.display(), "DROP VIEW IF EXISTS v".to_string());
    let bare = DropViewStmt {
        if_exists: false,
        catalog: Some(ident("c")),
        database: Some(ident("d")),
        view: ident("v"),
    };
    assert_eq!(bare.display(), "DROP VIEW c.d.v".to_string());
}
