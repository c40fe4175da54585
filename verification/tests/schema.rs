use toydb::engine::{Mode, Transaction};
use toydb::error::Error;
use toydb::schema::{references_in, require_table, Catalog, Column, Table};
use toydb::types::{DataType, Expression, Row, Value};

struct TestEngine {
    tables: Vec<Table>,
    rows: Vec<Row>,
}

impl TestEngine {
    fn new() -> Self {
        TestEngine { tables: Vec::new(), rows: Vec::new() }
    }
}

impl Catalog for TestEngine {
    fn create_table(&mut self, table: Table) -> Result<(), Error> {
        self.tables.push(table);
        Ok(())
    }

    fn delete_table(&mut self, _table: &str) -> Result<(), Error> {
        Ok(())
    }

    fn read_table(&self, table: &str) -> Result<Option<Table>, Error> {
        Ok(self.tables.iter().find(|t| t.name == table).cloned())
    }

    fn scan_tables(&self) -> Result<Vec<Table>, Error> {
        Ok(self.tables.clone())
    }
}

impl Transaction for TestEngine {
    fn id(&self) -> u64 {
        1
    }

    fn mode(&self) -> Mode {
        Mode::ReadWrite
    }

    fn commit(self) -> Result<(), Error> {
        Ok(())
    }

    fn rollback(self) -> Result<(), Error> {
        Ok(())
    }

    fn create(&mut self, _table: &str, row: Row) -> Result<(), Error> {
        self.rows.push(row);
        Ok(())
    }

    fn delete(&mut self, _table: &str, _id: &Value) -> Result<(), Error> {
        Ok(())
    }

    fn read(&self, _table: &str, id: &Value) -> Result<Option<Row>, Error> {
        for row in &self.rows {
            if let Some(v) = row.first() {
                if v.value_eq(id) {
                    return Ok(Some(row.clone()));
                }
            }
        }
        Ok(None)
    }

    fn read_index(
        &self,
        _table: &str,
        _column: &str,
        _value: &Value,
    ) -> Result<Vec<Value>, Error> {
        Ok(Vec::new())
    }

    fn scan(&self, _table: &str, _filter: Option<Expression>) -> Result<Vec<Row>, Error> {
        Ok(self.rows.clone())
    }

    fn scan_index(
        &self,
        _table: &str,
        _column: &str,
    ) -> Result<Vec<(Value, Vec<Value>)>, Error> {
        Ok(Vec::new())
    }

    fn update(&mut self, _table: &str, _id: &Value, _row: Row) -> Result<(), Error> {
        Ok(())
    }
}

fn column(name: &str, datatype: DataType) -> Column {
    Column {
        name: name.to_string(),
        datatype,
        primary_key: false,
        nullable: false,
        default: None,
        unique: false,
        references: None,
        index: false,
    }
}

fn pk_column(name: &str, datatype: DataType) -> Column {
    Column { primary_key: true, unique: true, ..column(name, datatype) }
}

fn movie_table() -> Table {
    Table::new(
        "movies".to_string(),
        vec![
            pk_column("id", DataType::Integer),
            column("title", DataType::String),
            column("released", DataType::Boolean),
        ],
    )
    .unwrap()
}

#[test]
fn test_table_lookups() {
    let t = movie_table();
    assert_eq!(t.get_column("title").unwrap().name, "title");
    assert!(matches!(t.get_column("missing").unwrap_err(), Error::Value(_)));
    assert_eq!(t.get_column_index("id").unwrap(), 0);
    assert_eq!(t.get_column_index("released").unwrap(), 2);
    assert!(matches!(t.get_column_index("missing").unwrap_err(), Error::Value(_)));
    assert_eq!(t.get_primary_key().unwrap().name, "id");
    let no_pk = Table::new("x".to_string(), vec![column("a", DataType::Integer)]).unwrap();
    assert!(matches!(no_pk.get_primary_key().unwrap_err(), Error::Value(_)));
}

#[test]
fn test_get_row_key() {
    let t = movie_table();
    let row = vec![
        Value::Integer(7),
        Value::String("title".to_string()),
        Value::Boolean(true),
    ];
    assert!(t.get_row_key(&row).unwrap().value_eq(&Value::Integer(7)));
    // A row too short to hold the key position fails.
    assert!(matches!(t.get_row_key(&[]).unwrap_err(), Error::Value(_)));
    let no_pk = Table::new("x".to_string(), vec![column("a", DataType::Integer)]).unwrap();
    assert!(matches!(
        no_pk.get_row_key(&[Value::Integer(1)]).unwrap_err(),
        Error::Value(_)
    ));
}

#[test]
fn test_validate_table() {
    let mut txn = TestEngine::new();
    movie_table().validate(&mut txn).unwrap();
    // No columns.
    let empty = Table::new("t".to_string(), vec![]).unwrap();
    assert!(matches!(empty.validate(&mut txn).unwrap_err(), Error::Value(_)));
    // No primary key.
    let no_pk = Table::new("t".to_string(), vec![column("a", DataType::Integer)]).unwrap();
    assert!(matches!(no_pk.validate(&mut txn).unwrap_err(), Error::Value(_)));
    // Two primary keys.
    let two_pk = Table::new(
        "t".to_string(),
        vec![pk_column("a", DataType::Integer), pk_column("b", DataType::Integer)],
    )
    .unwrap();
    assert!(matches!(two_pk.validate(&mut txn).unwrap_err(), Error::Value(_)));
    // A nullable primary key.
    let nullable_pk = Table::new(
        "t".to_string(),
        vec![Column { nullable: true, ..pk_column("a", DataType::Integer) }],
    )
    .unwrap();
    assert!(matches!(nullable_pk.validate(&mut txn).unwrap_err(), Error::Value(_)));
    // A non-unique primary key.
    let non_unique_pk = Table::new(
        "t".to_string(),
        vec![Column { unique: false, ..pk_column("a", DataType::Integer) }],
    )
    .unwrap();
    assert!(matches!(non_unique_pk.validate(&mut txn).unwrap_err(), Error::Value(_)));
    // A nullable column without a default.
    let no_default = Table::new(
        "t".to_string(),
        vec![
            pk_column("a", DataType::Integer),
            Column { nullable: true, ..column("b", DataType::String) },
        ],
    )
    .unwrap();
    assert!(matches!(no_default.validate(&mut txn).unwrap_err(), Error::Value(_)));
    // A default of the wrong datatype.
    let bad_default = Table::new(
        "t".to_string(),
        vec![
            pk_column("a", DataType::Integer),
            Column {
                default: Some(Value::Boolean(true)),
                ..column("b", DataType::String)
            },
        ],
    )
    .unwrap();
    assert!(matches!(bad_default.validate(&mut txn).unwrap_err(), Error::Value(_)));
}

#[test]
fn test_validate_reference() {
    let mut txn = TestEngine::new();
    txn.create_table(movie_table()).unwrap();
    // A foreign key whose target primary key has the same datatype.
    let good = Table::new(
        "reviews".to_string(),
        vec![
            pk_column("id", DataType::Integer),
            Column {
                references: Some("movies".to_string()),
                ..column("movie_id", DataType::Integer)
            },
        ],
    )
    .unwrap();
    good.validate(&mut txn).unwrap();
    // A mismatched datatype.
    let mismatched = Table::new(
        "reviews".to_string(),
        vec![
            pk_column("id", DataType::Integer),
            Column {
                references: Some("movies".to_string()),
                ..column("movie_id", DataType::String)
            },
        ],
    )
    .unwrap();
    assert!(matches!(mismatched.validate(&mut txn).unwrap_err(), Error::Value(_)));
    // A missing target table.
    let dangling = Table::new(
        "reviews".to_string(),
        vec![
            pk_column("id", DataType::Integer),
            Column {
                references: Some("nowhere".to_string()),
                ..column("movie_id", DataType::Integer)
            },
        ],
    )
    .unwrap();
    assert!(matches!(dangling.validate(&mut txn).unwrap_err(), Error::Value(_)));
    // A self-reference resolves against the table itself.
    let selfref = Table::new(
        "nodes".to_string(),
        vec![
            pk_column("id", DataType::Integer),
            Column {
                references: Some("nodes".to_string()),
                ..column("parent", DataType::Integer)
            },
        ],
    )
    .unwrap();
    selfref.validate(&mut txn).unwrap();
    // check_reference itself, against an explicit target.
    let fk = Column {
        references: Some("movies".to_string()),
        ..column("movie_id", DataType::Integer)
    };
    fk.check_reference(&movie_table()).unwrap();
    let bad_fk = Column {
        references: Some("movies".to_string()),
        ..column("movie_id", DataType::Boolean)
    };
    assert!(matches!(
        bad_fk.check_reference(&movie_table()).unwrap_err(),
        Error::Value(_)
    ));
    // check_reference_lookup judges the catalog's answer: an absent table
    // is an error, a found one is checked against the primary key.
    fk.check_reference_lookup(&Some(movie_table())).unwrap();
    assert!(matches!(
        fk.check_reference_lookup(&None).unwrap_err(),
        Error::Value(_)
    ));
    assert!(matches!(
        bad_fk.check_reference_lookup(&Some(movie_table())).unwrap_err(),
        Error::Value(_)
    ));
}

#[test]
fn test_validate_value_references() {
    let mut txn = TestEngine::new();
    txn.create_table(movie_table()).unwrap();
    txn.rows.push(vec![Value::Integer(7)]);
    let t = Table::new(
        "reviews".to_string(),
        vec![
            pk_column("id", DataType::Integer),
            Column {
                references: Some("movies".to_string()),
                nullable: true,
                default: Some(Value::Null),
                ..column("movie_id", DataType::Integer)
            },
        ],
    )
    .unwrap();
    let fk = t.get_column("movie_id").unwrap().clone();
    // An existing referenced primary key passes; a missing one fails.
    fk.validate_value(&t, &Value::Integer(1), &Value::Integer(7), &mut txn).unwrap();
    assert!(matches!(
        fk.validate_value(&t, &Value::Integer(1), &Value::Integer(9), &mut txn)
            .unwrap_err(),
        Error::Value(_)
    ));
    // A null passes a nullable referencing column without any lookup.
    fk.validate_value(&t, &Value::Integer(1), &Value::Null, &mut txn).unwrap();
    // A self-reference equal to the row's own primary key passes.
    let selfref = Table::new(
        "nodes".to_string(),
        vec![
            pk_column("id", DataType::Integer),
            Column {
                references: Some("nodes".to_string()),
                ..column("parent", DataType::Integer)
            },
        ],
    )
    .unwrap();
    let parent = selfref.get_column("parent").unwrap().clone();
    parent
        .validate_value(&selfref, &Value::Integer(3), &Value::Integer(3), &mut txn)
        .unwrap();
    // check_reference_exists judges the row lookup directly.
    assert!(fk.check_reference_exists(&Some(vec![Value::Integer(7)])).is_ok());
    assert!(matches!(
        fk.check_reference_exists(&None).unwrap_err(),
        Error::Value(_)
    ));
}

#[test]
fn test_validate_row() {
    let mut txn = TestEngine::new();
    let t = movie_table();
    let ok_row = vec![
        Value::Integer(1),
        Value::String("title".to_string()),
        Value::Boolean(false),
    ];
    t.validate_row(&ok_row, &mut txn).unwrap();
    // Wrong width.
    assert!(matches!(
        t.validate_row(&[Value::Integer(1)], &mut txn).unwrap_err(),
        Error::Value(_)
    ));
    // A null in a non-nullable column.
    let null_row = vec![Value::Integer(1), Value::Null, Value::Boolean(false)];
    assert!(matches!(t.validate_row(&null_row, &mut txn).unwrap_err(), Error::Value(_)));
    // A wrong datatype.
    let wrong = vec![Value::Integer(1), Value::Integer(2), Value::Boolean(false)];
    assert!(matches!(t.validate_row(&wrong, &mut txn).unwrap_err(), Error::Value(_)));
    // A string longer than 1024 bytes.
    let long = vec![
        Value::Integer(1),
        Value::String("x".repeat(1025)),
        Value::Boolean(false),
    ];
    assert!(matches!(t.validate_row(&long, &mut txn).unwrap_err(), Error::Value(_)));
    let max = vec![
        Value::Integer(1),
        Value::String("x".repeat(1024)),
        Value::Boolean(false),
    ];
    t.validate_row(&max, &mut txn).unwrap();
}

#[test]
fn test_validate_value_unique() {
    let t = Table::new(
        "users".to_string(),
        vec![
            pk_column("id", DataType::Integer),
            Column { unique: true, ..column("email", DataType::String) },
        ],
    )
    .unwrap();
    let mut txn = TestEngine::new();
    txn.rows.push(vec![Value::Integer(1), Value::String("a@b".to_string())]);
    let email = t.get_column("email").unwrap().clone();
    // A fresh unique value passes.
    email
        .validate_value(
            &t,
            &Value::Integer(2),
            &Value::String("c@d".to_string()),
            &mut txn,
        )
        .unwrap();
    // A duplicate under a different primary key is rejected.
    assert!(matches!(
        email
            .validate_value(
                &t,
                &Value::Integer(2),
                &Value::String("a@b".to_string()),
                &mut txn,
            )
            .unwrap_err(),
        Error::Value(_)
    ));
    // The same row keeping its value passes.
    email
        .validate_value(
            &t,
            &Value::Integer(1),
            &Value::String("a@b".to_string()),
            &mut txn,
        )
        .unwrap();
    // check_unique directly, against explicit rows.
    let rows = vec![vec![Value::Integer(1), Value::String("a@b".to_string())]];
    email
        .check_unique(
            &t,
            &Value::Integer(1),
            &Value::String("a@b".to_string()),
            1,
            &rows,
        )
        .unwrap();
    assert!(matches!(
        email
            .check_unique(
                &t,
                &Value::Integer(9),
                &Value::String("a@b".to_string()),
                1,
                &rows,
            )
            .unwrap_err(),
        Error::Value(_)
    ));
}

#[test]
fn test_references_listing() {
    let mut engine = TestEngine::new();
    engine.create_table(movie_table()).unwrap();
    engine
        .create_table(
            Table::new(
                "reviews".to_string(),
                vec![
                    pk_column("id", DataType::Integer),
                    Column {
                        references: Some("movies".to_string()),
                        ..column("movie_id", DataType::Integer)
                    },
                    Column {
                        references: Some("movies".to_string()),
                        ..column("remake_of", DataType::Integer)
                    },
                ],
            )
            .unwrap(),
        )
        .unwrap();
    engine
        .create_table(
            Table::new(
                "movies_self".to_string(),
                vec![pk_column("id", DataType::Integer)],
            )
            .unwrap(),
        )
        .unwrap();
    let refs = engine.table_references("movies", false).unwrap();
    assert_eq!(refs.len(), 1);
    assert_eq!(refs[0].0, "reviews");
    assert_eq!(refs[0].1, vec!["movie_id".to_string(), "remake_of".to_string()]);
    // references_in over an explicit table list, with self-references.
    let selfref = Table::new(
        "movies".to_string(),
        vec![
            pk_column("id", DataType::Integer),
            Column {
                references: Some("movies".to_string()),
                ..column("parent", DataType::Integer)
            },
        ],
    )
    .unwrap();
    let tables = vec![selfref];
    let without = references_in(&tables, "movies", false);
    assert!(without.is_empty());
    let with = references_in(&tables, "movies", true);
    assert_eq!(with.len(), 1);
    assert_eq!(with[0].1, vec!["parent".to_string()]);
}

#[test]
fn test_must_read_table() {
    let mut engine = TestEngine::new();
    engine.create_table(movie_table()).unwrap();
    assert_eq!(engine.must_read_table("movies").unwrap().name, "movies");
    assert!(matches!(engine.must_read_table("missing").unwrap_err(), Error::Value(_)));
    // require_table judges the lookup's answer directly.
    assert_eq!(require_table(Some(movie_table())).unwrap().name, "movies");
    assert!(matches!(require_table(None).unwrap_err(), Error::Value(_)));
}

#[test]
fn test_value_basics() {
    assert_eq!(Value::Null.datatype(), None);
    assert_eq!(Value::Boolean(true).datatype(), Some(DataType::Boolean));
    assert_eq!(Value::Integer(3).datatype(), Some(DataType::Integer));
    assert_eq!(Value::String("s".to_string()).datatype(), Some(DataType::String));
    assert!(Value::Integer(3).value_eq(&Value::Integer(3)));
    assert!(!Value::Integer(3).value_eq(&Value::Integer(4)));
    assert!(!Value::Integer(3).value_eq(&Value::Null));
    assert!(Value::String("ab".to_string()).value_eq(&Value::String("ab".to_string())));
    assert!(!Value::String("ab".to_string()).value_eq(&Value::String("ac".to_string())));
    assert!(Value::Null.value_eq(&Value::Null));
    let v = Value::String("ab".to_string());
    assert!(v.clone().value_eq(&v));
}
