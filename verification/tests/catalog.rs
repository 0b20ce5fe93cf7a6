use forgedb::catalog::Catalog;
use forgedb::common::{PageId, TableId};
use forgedb::error::ForgeError;
use forgedb::schema::{Column, Schema};
use forgedb::types::DataType;

fn sample_schema() -> Schema {
    Schema::new(vec![
        Column {
            name: "id".into(),
            data_type: DataType::Integer,
            nullable: false,
            column_id: 0,
            auto_increment: false,
            default_value: None,
            is_primary_key: false,
            is_unique: false,
            check_expr: None,
            fk_ref: None,
        },
        Column {
            name: "name".into(),
            data_type: DataType::Varchar(100),
            nullable: true,
            column_id: 1,
            auto_increment: false,
            default_value: None,
            is_primary_key: false,
            is_unique: false,
            check_expr: None,
            fk_ref: None,
        },
    ])
}

#[test]
fn test_create_table() {
    let mut cat = Catalog::new("test.catalog");

    let tid = cat.create_table("Users", sample_schema(), PageId(1)).unwrap();
    assert_eq!(tid, TableId(0));

    let info = cat.get_table("users").unwrap();
    assert_eq!(info.name, "Users");
    assert_eq!(info.first_page_id, PageId(1));
    assert_eq!(info.schema.column_count(), 2);
}

#[test]
fn test_create_duplicate_table_errors() {
    let mut cat = Catalog::new("test.catalog");

    cat.create_table("Users", sample_schema(), PageId(1)).unwrap();
    let result = cat.create_table("users", sample_schema(), PageId(2));
    assert!(result.is_err());
}

#[test]
fn test_drop_table() {
    let mut cat = Catalog::new("test.catalog");

    cat.create_table("Users", sample_schema(), PageId(1)).unwrap();
    let info = cat.drop_table("USERS").unwrap();
    assert_eq!(info.name, "Users");
    assert!(cat.get_table("users").is_none());
}

#[test]
fn test_drop_nonexistent_errors() {
    let mut cat = Catalog::new("test.catalog");
    assert!(cat.drop_table("nope").is_err());
}

#[test]
fn test_get_table_case_insensitive() {
    let mut cat = Catalog::new("test.catalog");

    cat.create_table("Products", sample_schema(), PageId(5)).unwrap();
    assert!(cat.get_table("products").is_some());
    assert!(cat.get_table("PRODUCTS").is_some());
    assert!(cat.get_table("Products").is_some());
}

#[test]
fn test_get_table_by_id() {
    let mut cat = Catalog::new("test.catalog");

    let t0 = cat.create_table("A", sample_schema(), PageId(0)).unwrap();
    let t1 = cat.create_table("B", sample_schema(), PageId(1)).unwrap();

    assert_eq!(cat.get_table_by_id(t0).unwrap().name, "A");
    assert_eq!(cat.get_table_by_id(t1).unwrap().name, "B");
    assert!(cat.get_table_by_id(TableId(999)).is_none());
}

#[test]
fn test_list_tables() {
    let mut cat = Catalog::new("test.catalog");

    cat.create_table("A", sample_schema(), PageId(0)).unwrap();
    cat.create_table("B", sample_schema(), PageId(1)).unwrap();

    let mut names: Vec<&str> = cat.list_tables().iter().map(|t| t.name.as_str()).collect();
    names.sort();
    assert_eq!(names, vec!["A", "B"]);
}

#[test]
fn test_persist_and_load_round_trip() {
    // Build a catalog with several tables covering all data types.
    let file = {
        let mut cat = Catalog::new("test.catalog");

        let schema1 = Schema::new(vec![
        Column {
            name: "id".into(),
            data_type: DataType::Integer,
            nullable: false,
            column_id: 0,
            auto_increment: false,
            default_value: None,
            is_primary_key: false,
            is_unique: false,
            check_expr: None,
            fk_ref: None,
        },
        Column {
            name: "score".into(),
            data_type: DataType::Float,
            nullable: true,
            column_id: 1,
            auto_increment: false,
            default_value: None,
            is_primary_key: false,
            is_unique: false,
            check_expr: None,
            fk_ref: None,
        },
        Column {
            name: "label".into(),
            data_type: DataType::Varchar(200),
            nullable: true,
            column_id: 2,
            auto_increment: false,
            default_value: None,
            is_primary_key: false,
            is_unique: false,
            check_expr: None,
            fk_ref: None,
        },
        Column {
            name: "active".into(),
            data_type: DataType::Boolean,
            nullable: false,
            column_id: 3,
            auto_increment: false,
            default_value: None,
            is_primary_key: false,
            is_unique: false,
            check_expr: None,
            fk_ref: None,
        },
        ]);

        let schema2 = Schema::new(vec![
        Column {
            name: "key".into(),
            data_type: DataType::Integer,
            nullable: false,
            column_id: 0,
            auto_increment: false,
            default_value: None,
            is_primary_key: false,
            is_unique: false,
            check_expr: None,
            fk_ref: None,
        },
        ]);

        cat.create_table("Items", schema1, PageId(10)).unwrap();
        cat.create_table("Keys", schema2, PageId(20)).unwrap();
        cat.persist()
    };

    // Reload and verify.
    let cat = Catalog::load("test.catalog", Some(&file)).unwrap();
    assert_eq!(cat.list_tables().len(), 2);

    let items = cat.get_table("items").unwrap();
    assert_eq!(items.name, "Items");
    assert_eq!(items.table_id, TableId(0));
    assert_eq!(items.first_page_id, PageId(10));
    assert_eq!(items.schema.column_count(), 4);

    // Verify each column round-tripped correctly.
    let cols = &items.schema.columns;
    assert_eq!(cols[0].name, "id");
    assert_eq!(cols[0].data_type, DataType::Integer);
    assert!(!cols[0].nullable);
    assert_eq!(cols[0].column_id, 0);

    assert_eq!(cols[1].name, "score");
    assert_eq!(cols[1].data_type, DataType::Float);
    assert!(cols[1].nullable);

    assert_eq!(cols[2].name, "label");
    assert_eq!(cols[2].data_type, DataType::Varchar(200));

    assert_eq!(cols[3].name, "active");
    assert_eq!(cols[3].data_type, DataType::Boolean);
    assert!(!cols[3].nullable);

    let keys = cat.get_table("keys").unwrap();
    assert_eq!(keys.name, "Keys");
    assert_eq!(keys.table_id, TableId(1));
    assert_eq!(keys.first_page_id, PageId(20));
}

#[test]
fn test_load_missing_file_returns_empty() {
    let cat = Catalog::load("nonexistent.catalog", None).unwrap();
    assert!(cat.list_tables().is_empty());
}

#[test]
fn test_next_table_id_persists() {
    let file = {
        let mut cat = Catalog::new("test.catalog");
        cat.create_table("A", sample_schema(), PageId(0)).unwrap();
        cat.create_table("B", sample_schema(), PageId(1)).unwrap();
        cat.persist()
    };

    let mut cat = Catalog::load("test.catalog", Some(&file)).unwrap();
    // next_table_id should be 2, so the next table gets id 2.
    let tid = cat.create_table("C", sample_schema(), PageId(2)).unwrap();
    assert_eq!(tid, TableId(2));
}

#[test]
fn catalog_errors_name_the_table() {
    let mut cat = Catalog::new("test.catalog");
    cat.create_table("Users", sample_schema(), PageId(1)).unwrap();
    assert_eq!(
        cat.create_table("USERS", sample_schema(), PageId(2)).unwrap_err(),
        ForgeError::Catalog("table 'USERS' already exists".into())
    );
    assert_eq!(
        cat.drop_table("nope").unwrap_err(),
        ForgeError::Catalog("table 'nope' not found".into())
    );
}

#[test]
fn truncated_catalog_file_is_an_error() {
    let mut cat = Catalog::new("test.catalog");
    cat.create_table("Users", sample_schema(), PageId(1)).unwrap();
    let file = cat.persist();
    for n in 0..file.len() {
        assert!(Catalog::load("test.catalog", Some(&file[..n])).is_err());
    }
}

#[test]
fn catalog_file_with_bytes_that_are_no_text_is_an_error() {
    let mut cat = Catalog::new("test.catalog");
    cat.create_table("Users", sample_schema(), PageId(1)).unwrap();
    let mut file = cat.persist();
    let at = file.windows(5).position(|w| w == b"Users").unwrap();
    file[at] = 0xff;
    assert!(matches!(
        Catalog::load("test.catalog", Some(&file)),
        Err(ForgeError::Catalog(_))
    ));
}

#[test]
fn views_are_entered_once_and_dropped_once() {
    let mut cat = Catalog::new("test.catalog");
    cat.create_view("V", "SELECT 1", vec![]).unwrap();
    assert!(cat.has_view("v"));
    assert!(cat.create_view("v", "SELECT 2", vec![]).is_err());
    cat.drop_view("V").unwrap();
    assert!(!cat.has_view("v"));
    assert!(cat.drop_view("V").is_err());
}
