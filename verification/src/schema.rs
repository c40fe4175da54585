//! Table and column schemas, and the validation rules that guard them.
//!
//! The catalog stores schema information: which tables exist and how each
//! is shaped. Validation that depends only on the schema and the values at
//! hand is specified exactly; checks that consult the engine's transaction
//! (referenced tables, uniqueness scans) take the transaction's answers as
//! input and are specified exactly over those answers.

use crate::error::Error;
use crate::types::{val_eq, DataType, Row, Value};
use vstd::prelude::*;

verus! {

/// A table schema.
#[derive(Clone, Debug)]
pub struct Table {
    pub name: String,
    pub columns: Vec<Column>,
}

/// A table column schema.
#[derive(Clone, Debug)]
pub struct Column {
    /// Column name.
    pub name: String,
    /// Column datatype.
    pub datatype: DataType,
    /// Whether the column is a primary key.
    pub primary_key: bool,
    /// Whether the column allows null values.
    pub nullable: bool,
    /// The default value of the column.
    pub default: Option<Value>,
    /// Whether the column should only take unique values.
    pub unique: bool,
    /// The table which is referenced by this foreign key.
    pub references: Option<String>,
    /// Whether the column should be indexed.
    pub index: bool,
}

/// No column among the first `n` is named `name`.
pub open spec fn no_column_named(cols: Seq<Column>, name: Seq<char>, n: int) -> bool {
    forall|j: int| 0 <= j < n ==> (#[trigger] cols[j]).name@ != name
}

/// Column `i` is the first one named `name`.
pub open spec fn is_first_column(cols: Seq<Column>, name: Seq<char>, i: int) -> bool {
    0 <= i < cols.len() && cols[i].name@ == name && no_column_named(cols, name, i)
}

/// No column among the first `n` is a primary key.
pub open spec fn no_pk_before(cols: Seq<Column>, n: int) -> bool {
    forall|j: int| 0 <= j < n ==> !(#[trigger] cols[j]).primary_key
}

/// Column `i` is the first primary key column.
pub open spec fn is_first_pk(cols: Seq<Column>, i: int) -> bool {
    0 <= i < cols.len() && cols[i].primary_key && no_pk_before(cols, i)
}

/// How many primary key columns the table declares.
pub open spec fn pk_count(cols: Seq<Column>) -> int
    decreases cols.len(),
{
    if cols.len() == 0 {
        0
    } else {
        pk_count(cols.drop_last()) + if cols.last().primary_key {
            1int
        } else {
            0int
        }
    }
}

/// The column checks that depend on the column alone: a primary key is
/// neither nullable nor non-unique, and the default value agrees with the
/// datatype (a nullable column must have one, possibly null).
pub open spec fn column_local_ok(c: Column) -> bool {
    &&& !(c.primary_key && c.nullable)
    &&& !(c.primary_key && !c.unique)
    &&& default_ok(c)
}

/// The default value matches the column's datatype and nullability.
pub open spec fn default_ok(c: Column) -> bool {
    match c.default {
        Some(v) => match v.datatype_spec() {
            Some(dt) => dt == c.datatype,
            None => c.nullable,
        },
        None => !c.nullable,
    }
}

/// The referenced table's primary key has this column's datatype.
pub open spec fn reference_target_ok(c: Column, target: Table) -> bool {
    exists|i: int| is_first_pk(target.columns@, i) && target.columns@[i].datatype == c.datatype
}

/// A non-null value for the column: its datatype matches, or it is a null
/// and the column is nullable.
pub open spec fn value_matches_column(c: Column, v: Value) -> bool {
    match v.datatype_spec() {
        None => c.nullable,
        Some(dt) => dt == c.datatype,
    }
}

/// Strings cannot be longer than 1024 bytes.
pub open spec fn value_size_ok(v: Value) -> bool {
    match v {
        Value::String(s) => vstd::utf8::encode_utf8(s@).len() <= 1024,
        _ => true,
    }
}

/// The cell of a row at a position, or a null where the row is short.
pub open spec fn cell_or_null(row: Seq<Value>, i: int) -> Value {
    if 0 <= i < row.len() {
        row[i]
    } else {
        Value::Null
    }
}

/// A row does not collide with a new unique value: either its cell under
/// the unique column differs, or it is the row the value replaces (same
/// primary key).
pub open spec fn row_passes_unique(
    table: Table,
    pk: Value,
    value: Value,
    ci: int,
    row: Seq<Value>,
) -> bool {
    val_eq(cell_or_null(row, ci), value) ==> exists|p: int|
        is_first_pk(table.columns@, p) && p < row.len() && val_eq(row[p], pk)
}

/// Relies on str's `PartialEq`: two string slices are equal exactly when
/// their characters are.
#[verifier::external_body]
fn str_eq(a: &str, b: &str) -> (r: bool)
    ensures
        r == (a@ == b@),
{
    a == b
}

proof fn lemma_first_pk_unique(cols: Seq<Column>, p1: int, p2: int)
    requires
        is_first_pk(cols, p1),
        is_first_pk(cols, p2),
    ensures
        p1 == p2,
{
}

/// The catalog stores schema information.
pub trait Catalog {
    /// Creates a new table.
    fn create_table(&mut self, table: Table) -> Result<(), Error>;

    /// Deletes an existing table.
    fn delete_table(&mut self, table: &str) -> Result<(), Error>;

    /// Reads a table, if it exists.
    fn read_table(&self, table: &str) -> Result<Option<Table>, Error>;

    /// Lists all tables.
    fn scan_tables(&self) -> Result<Vec<Table>, Error>;

    /// Reads a table, and errors if it does not exist: what the lookup's
    /// answer must yield is judged exactly by `require_table`.
    fn must_read_table(&self, table: &str) -> Result<Table, Error> {
        match self.read_table(table) {
            Ok(found) => require_table(found),
            Err(e) => Err(e),
        }
    }

    /// Returns all references to a table, as table, columns pairs.
    fn table_references(&self, table: &str, with_self: bool) -> Result<
        Vec<(String, Vec<String>)>,
        Error,
    > {
        match self.scan_tables() {
            Ok(tables) => Ok(references_in(&tables, table, with_self)),
            Err(e) => Err(e),
        }
    }
}

/// Maps a catalog lookup to the table it was required to yield: an
/// absent table is a user-facing error, a found table is returned as is.
pub fn require_table(found: Option<Table>) -> (r: Result<Table, Error>)
    ensures
        match r {
            Ok(t) => found matches Some(t2) && t2 == t,
            Err(e) => found is None && e matches Error::Value(_),
        },
{
    match found {
        Some(t) => Ok(t),
        None => Err(Error::Value("table does not exist".to_owned())),
    }
}

impl Table {
    /// Creates a new table schema.
    pub fn new(name: String, columns: Vec<Column>) -> (r: Result<Table, Error>)
        ensures
            r matches Ok(t) && t.name == name && t.columns == columns,
    {
        Ok(Table { name, columns })
    }

    /// Fetches a column by name.
    pub fn get_column(&self, name: &str) -> (r: Result<&Column, Error>)
        ensures
            match r {
                Ok(c) => exists|i: int|
                    is_first_column(self.columns@, name@, i) && *c == self.columns@[i],
                Err(e) => no_column_named(self.columns@, name@, self.columns@.len() as int) && (
                e matches Error::Value(_)),
            },
    {
        let n = self.columns.len();
        for i in 0..n
            invariant
                n == self.columns@.len(),
                no_column_named(self.columns@, name@, i as int),
        {
            if str_eq(self.columns[i].name.as_str(), name) {
                return Ok(&self.columns[i]);
            }
        }
        Err(Error::Value("column not found in table".to_owned()))
    }

    /// Fetches a column index by name.
    pub fn get_column_index(&self, name: &str) -> (r: Result<usize, Error>)
        ensures
            match r {
                Ok(i) => is_first_column(self.columns@, name@, i as int),
                Err(e) => no_column_named(self.columns@, name@, self.columns@.len() as int) && (
                e matches Error::Value(_)),
            },
    {
        let n = self.columns.len();
        for i in 0..n
            invariant
                n == self.columns@.len(),
                no_column_named(self.columns@, name@, i as int),
        {
            if str_eq(self.columns[i].name.as_str(), name) {
                return Ok(i);
            }
        }
        Err(Error::Value("column not found in table".to_owned()))
    }

    /// Returns the primary key column of the table.
    pub fn get_primary_key(&self) -> (r: Result<&Column, Error>)
        ensures
            match r {
                Ok(c) => exists|i: int| is_first_pk(self.columns@, i) && *c == self.columns@[i],
                Err(e) => no_pk_before(self.columns@, self.columns@.len() as int) && (
                e matches Error::Value(_)),
            },
    {
        let n = self.columns.len();
        for i in 0..n
            invariant
                n == self.columns@.len(),
                no_pk_before(self.columns@, i as int),
        {
            if self.columns[i].primary_key {
                return Ok(&self.columns[i]);
            }
        }
        Err(Error::Value("primary key not found in table".to_owned()))
    }

    /// Returns the primary key value of a row.
    pub fn get_row_key(&self, row: &[Value]) -> (r: Result<Value, Error>)
        ensures
            match r {
                Ok(v) => exists|p: int|
                    is_first_pk(self.columns@, p) && p < row@.len() && v == row@[p],
                Err(e) => (forall|p: int|
                    is_first_pk(self.columns@, p) ==> p >= row@.len()) && (
                e matches Error::Value(_)),
            },
    {
        let n = self.columns.len();
        for i in 0..n
            invariant
                n == self.columns@.len(),
                no_pk_before(self.columns@, i as int),
        {
            if self.columns[i].primary_key {
                if i < row.len() {
                    let v = vstd::slice::slice_index_get(row, i).clone();
                    proof {
                        assert(is_first_pk(self.columns@, i as int));
                    }
                    return Ok(v);
                }
                proof {
                    assert(forall|p: int|
                        is_first_pk(self.columns@, p) ==> p == i as int) by {
                        assert forall|p: int|
                            is_first_pk(self.columns@, p) implies p == i as int by {
                            lemma_first_pk_unique(self.columns@, p, i as int);
                        }
                    }
                }
                return Err(Error::Value("primary key value not found for row".to_owned()));
            }
        }
        Err(Error::Value("primary key not found".to_owned()))
    }

    /// Validates the table schema: at least one column, exactly one
    /// primary key, and every column valid. Foreign references are read
    /// through the transaction.
    pub fn validate<T: crate::engine::Transaction>(&self, txn: &mut T) -> (r: Result<(), Error>)
        ensures
            self.columns@.len() == 0 ==> (r matches Err(e) && e matches Error::Value(_)),
            self.columns@.len() > 0 && pk_count(self.columns@) != 1 ==> (r matches Err(e)
                && e matches Error::Value(_)),
            r is Ok ==> self.columns@.len() > 0 && pk_count(self.columns@) == 1 && (forall|i: int|
                0 <= i < self.columns@.len() ==> column_local_ok(#[trigger] self.columns@[i])),
            (forall|i: int|
                0 <= i < self.columns@.len() ==> (#[trigger] self.columns@[i]).references
                    is None) ==> (r is Ok <==> self.columns@.len() > 0 && pk_count(self.columns@)
                == 1 && (forall|i: int|
                0 <= i < self.columns@.len() ==> column_local_ok(#[trigger] self.columns@[i]))),
            r is Ok ==> forall|i: int|
                0 <= i < self.columns@.len() ==> ((#[trigger] self.columns@[i]).references matches
                    Some(n) && n@ == self.name@ ==> reference_target_ok(self.columns@[i], *self)),
    {
        if self.columns.len() == 0 {
            return Err(Error::Value("table has no columns".to_owned()));
        }
        let n = self.columns.len();
        let mut count: usize = 0;
        for i in 0..n
            invariant
                n == self.columns@.len(),
                count == pk_count(self.columns@.take(i as int)),
                count <= i,
        {
            proof {
                assert(self.columns@.take(i + 1).drop_last() =~= self.columns@.take(i as int));
                assert(self.columns@.take(i + 1).last() == self.columns@[i as int]);
            }
            if self.columns[i].primary_key {
                count = count + 1;
            }
        }
        proof {
            assert(self.columns@.take(n as int) =~= self.columns@);
        }
        if count == 0 {
            return Err(Error::Value("no primary key in table".to_owned()));
        }
        if count > 1 {
            return Err(Error::Value("multiple primary keys in table".to_owned()));
        }
        for i in 0..n
            invariant
                n == self.columns@.len(),
                n > 0,
                pk_count(self.columns@) == 1,
                forall|j: int| 0 <= j < i ==> column_local_ok(#[trigger] self.columns@[j]),
                forall|j: int|
                    0 <= j < i ==> ((#[trigger] self.columns@[j]).references matches Some(n2) && n2@
                        == self.name@ ==> reference_target_ok(self.columns@[j], *self)),
        {
            match self.columns[i].validate(self, txn) {
                Ok(_) => {},
                Err(e) => {
                    return Err(e);
                },
            }
        }
        Ok(())
    }

    /// Validates a row against the schema: right width, and every value
    /// valid for its column. Reference and uniqueness checks go through
    /// the transaction.
    pub fn validate_row<T: crate::engine::Transaction>(
        &self,
        row: &[Value],
        txn: &mut T,
    ) -> (r: Result<(), Error>)
        ensures
            row@.len() != self.columns@.len() ==> (r matches Err(e) && e matches Error::Value(_)),
            r is Ok ==> row@.len() == self.columns@.len() && exists|p: int|
                is_first_pk(self.columns@, p) && p < row@.len(),
            r is Ok ==> forall|i: int|
                0 <= i < row@.len() ==> value_matches_column(#[trigger] self.columns@[i], row@[i])
                    && value_size_ok(row@[i]),
    {
        if row.len() != self.columns.len() {
            return Err(Error::Value("invalid row size for table".to_owned()));
        }
        let pk = match self.get_row_key(row) {
            Ok(v) => v,
            Err(e) => {
                return Err(e);
            },
        };
        let n = self.columns.len();
        let mut i: usize = 0;
        while i < n
            invariant
                i <= n,
                n == self.columns@.len() == row@.len(),
                exists|p: int| is_first_pk(self.columns@, p) && p < row@.len(),
                forall|j: int|
                    0 <= j < i ==> value_matches_column(#[trigger] self.columns@[j], row@[j])
                        && value_size_ok(row@[j]),
            decreases n - i,
        {
            let value = vstd::slice::slice_index_get(row, i);
            match self.columns[i].validate_value(self, &pk, value, txn) {
                Ok(_) => {
                    proof {
                        assert forall|j: int|
                            0 <= j < i + 1 implies value_matches_column(
                            #[trigger] self.columns@[j],
                            row@[j],
                        ) && value_size_ok(row@[j]) by {
                            if j == i as int {
                                assert(value_matches_column(
                                    self.columns@[i as int],
                                    row@[i as int],
                                ));
                                assert(value_size_ok(row@[i as int]));
                            }
                        }
                    }
                },
                Err(e) => {
                    return Err(e);
                },
            }
            i = i + 1;
        }
        Ok(())
    }
}

impl Column {
    /// Validates the rules that depend on the column alone.
    fn validate_local(&self) -> (r: Result<(), Error>)
        ensures
            r is Ok <==> column_local_ok(*self),
            r matches Err(e) ==> e matches Error::Value(_),
    {
        if self.primary_key && self.nullable {
            return Err(Error::Value("primary key cannot be nullable".to_owned()));
        }
        if self.primary_key && !self.unique {
            return Err(Error::Value("primary key must be unique".to_owned()));
        }
        match &self.default {
            Some(v) => match v.datatype() {
                Some(dt) => {
                    if dt != self.datatype {
                        return Err(
                            Error::Value("default value has the wrong datatype".to_owned()),
                        );
                    }
                },
                None => {
                    if !self.nullable {
                        return Err(
                            Error::Value(
                                "a null default requires a nullable column".to_owned(),
                            ),
                        );
                    }
                },
            },
            None => {
                if self.nullable {
                    return Err(
                        Error::Value("nullable column must have a default value".to_owned()),
                    );
                }
            },
        }
        Ok(())
    }

    /// Validates this foreign key column against the table its reference
    /// resolved to: the target's primary key must carry this column's
    /// datatype.
    pub fn check_reference(&self, target: &Table) -> (r: Result<(), Error>)
        ensures
            r is Ok <==> reference_target_ok(*self, *target),
            r matches Err(e) ==> e matches Error::Value(_),
    {
        match target.get_primary_key() {
            Ok(pk) => {
                if pk.datatype == self.datatype {
                    Ok(())
                } else {
                    proof {
                        let w = choose|i: int|
                            is_first_pk(target.columns@, i) && *pk == target.columns@[i];
                        assert forall|j: int|
                            is_first_pk(target.columns@, j) implies target.columns@[j].datatype
                            != self.datatype by {
                            lemma_first_pk_unique(target.columns@, j, w);
                        }
                    }
                    Err(Error::Value("reference must match primary key datatype".to_owned()))
                }
            },
            Err(_) => Err(Error::Value("referenced table has no primary key".to_owned())),
        }
    }

    /// Validates this foreign key column against what the catalog's
    /// lookup of the referenced table answered: the table must exist, and
    /// its primary key must carry this column's datatype.
    pub fn check_reference_lookup(&self, found: &Option<Table>) -> (r: Result<(), Error>)
        ensures
            r is Ok <==> (*found matches Some(t) && reference_target_ok(*self, t)),
            r matches Err(e) ==> e matches Error::Value(_),
    {
        match found {
            Some(t) => self.check_reference(t),
            None => Err(Error::Value("table referenced by column does not exist".to_owned())),
        }
    }

    /// Validates the column schema. A referenced table other than the
    /// column's own is read through the transaction, and its answer is
    /// judged exactly by `check_reference_lookup`.
    pub fn validate<T: crate::engine::Transaction>(
        &self,
        table: &Table,
        txn: &mut T,
    ) -> (r: Result<(), Error>)
        ensures
            !column_local_ok(*self) ==> (r matches Err(e) && e matches Error::Value(_)),
            r is Ok ==> column_local_ok(*self),
            self.references is None ==> (r is Ok <==> column_local_ok(*self)),
            self.references matches Some(n) && n@ == table.name@ ==> (r is Ok <==> column_local_ok(
                *self,
            ) && reference_target_ok(*self, *table)),
    {
        match self.validate_local() {
            Ok(_) => {},
            Err(e) => {
                return Err(e);
            },
        }
        match &self.references {
            None => Ok(()),
            Some(reference) => {
                if str_eq(reference.as_str(), table.name.as_str()) {
                    self.check_reference(table)
                } else {
                    match txn.read_table(reference.as_str()) {
                        Ok(found) => self.check_reference_lookup(&found),
                        Err(e) => Err(e),
                    }
                }
            },
        }
    }

    /// Checks a new unique value against the scanned rows: some other row
    /// (a row whose primary key is not `pk`) must not already hold the
    /// value in this column (at position `ci`).
    pub fn check_unique(
        &self,
        table: &Table,
        pk: &Value,
        value: &Value,
        ci: usize,
        rows: &Vec<Row>,
    ) -> (r: Result<(), Error>)
        ensures
            r is Ok <==> (forall|i: int|
                0 <= i < rows@.len() ==> row_passes_unique(
                    *table,
                    *pk,
                    *value,
                    ci as int,
                    (#[trigger] rows@[i])@,
                )),
            r matches Err(e) ==> e matches Error::Value(_),
    {
        let n = rows.len();
        for i in 0..n
            invariant
                n == rows@.len(),
                forall|j: int|
                    0 <= j < i ==> row_passes_unique(
                        *table,
                        *pk,
                        *value,
                        ci as int,
                        (#[trigger] rows@[j])@,
                    ),
        {
            let row = &rows[i];
            let cell_matches = if ci < row.len() {
                row[ci].value_eq(value)
            } else {
                let null = Value::Null;
                null.value_eq(value)
            };
            if cell_matches {
                let key = match table.get_row_key(row.as_slice()) {
                    Ok(v) => v,
                    Err(e) => {
                        proof {
                            assert(!row_passes_unique(
                                *table,
                                *pk,
                                *value,
                                ci as int,
                                rows@[i as int]@,
                            ));
                        }
                        return Err(e);
                    },
                };
                if !key.value_eq(pk) {
                    proof {
                        let w = choose|p: int|
                            is_first_pk(table.columns@, p) && p < rows@[i as int]@.len() && key
                                == rows@[i as int]@[p];
                        assert forall|p: int|
                            is_first_pk(table.columns@, p) && p < rows@[i as int]@.len()
                            implies !val_eq(rows@[i as int]@[p], *pk) by {
                            lemma_first_pk_unique(table.columns@, p, w);
                        }
                        assert(!row_passes_unique(
                            *table,
                            *pk,
                            *value,
                            ci as int,
                            rows@[i as int]@,
                        ));
                    }
                    return Err(
                        Error::Value("unique value already exists for column".to_owned()),
                    );
                }
            }
        }
        Ok(())
    }

    /// Judges what the engine's lookup of a referenced row answered: the
    /// referenced primary key must exist.
    pub fn check_reference_exists(&self, found: &Option<Row>) -> (r: Result<(), Error>)
        ensures
            r is Ok <==> *found is Some,
            r matches Err(e) ==> e matches Error::Value(_),
    {
        match found {
            Some(_) => Ok(()),
            None => Err(Error::Value("referenced primary key does not exist".to_owned())),
        }
    }

    /// Validates a column value within a row. Reference lookups and
    /// uniqueness scans go through the transaction; what their answers
    /// mean is judged exactly by `check_reference_exists` and
    /// `check_unique`.
    pub fn validate_value<T: crate::engine::Transaction>(
        &self,
        table: &Table,
        pk: &Value,
        value: &Value,
        txn: &mut T,
    ) -> (r: Result<(), Error>)
        ensures
            !value_matches_column(*self, *value) ==> (r matches Err(e) && e matches Error::Value(
                _,
            )),
            value_matches_column(*self, *value) && !value_size_ok(*value) ==> (r matches Err(e)
                && e matches Error::Value(_)),
            r is Ok ==> value_matches_column(*self, *value) && value_size_ok(*value),
            self.references is None && !(self.unique && !self.primary_key && !(
            *value matches Value::Null)) ==> (r is Ok <==> value_matches_column(*self, *value)
                && value_size_ok(*value)),
            *value matches Value::Null ==> (r is Ok <==> value_matches_column(*self, *value)),
            (self.references matches Some(n) && n@ == table.name@ && val_eq(*value, *pk) && !(
            self.unique && !self.primary_key)) ==> (r is Ok <==> value_matches_column(
                *self,
                *value,
            ) && value_size_ok(*value)),
    {
        match value.datatype() {
            None => {
                if !self.nullable {
                    return Err(Error::Value("null value not allowed for column".to_owned()));
                }
            },
            Some(dt) => {
                if dt != self.datatype {
                    return Err(Error::Value("invalid datatype for column".to_owned()));
                }
            },
        }
        if let Value::String(s) = value {
            if s.as_str().as_bytes().len() > 1024 {
                return Err(Error::Value("strings cannot be more than 1024 bytes".to_owned()));
            }
        }
        if let Some(target) = &self.references {
            let is_null = match value {
                Value::Null => true,
                _ => false,
            };
            if !is_null {
                let self_reference = str_eq(target.as_str(), table.name.as_str())
                    && value.value_eq(pk);
                if !self_reference {
                    match txn.read(target.as_str(), value) {
                        Ok(found) => {
                            match self.check_reference_exists(&found) {
                                Ok(_) => {},
                                Err(e) => {
                                    return Err(e);
                                },
                            }
                        },
                        Err(e) => {
                            return Err(e);
                        },
                    }
                }
            }
        }
        let is_null = match value {
            Value::Null => true,
            _ => false,
        };
        if self.unique && !self.primary_key && !is_null {
            let index = match table.get_column_index(self.name.as_str()) {
                Ok(i) => i,
                Err(e) => {
                    return Err(e);
                },
            };
            let rows = match txn.scan(table.name.as_str(), None) {
                Ok(rs) => rs,
                Err(e) => {
                    return Err(e);
                },
            };
            match self.check_unique(table, pk, value, index, &rows) {
                Ok(_) => {},
                Err(e) => {
                    return Err(e);
                },
            }
        }
        Ok(())
    }
}

/// A column of `c` references the table named `name`.
pub open spec fn refs_table(c: Column, name: Seq<char>) -> bool {
    c.references matches Some(r) && r@ == name
}

/// The names of the columns of a table that reference `name`, in order.
pub open spec fn ref_col_names(cols: Seq<Column>, name: Seq<char>) -> Seq<Seq<char>>
    decreases cols.len(),
{
    if cols.len() == 0 {
        Seq::<Seq<char>>::empty()
    } else {
        let rest = ref_col_names(cols.drop_last(), name);
        if refs_table(cols.last(), name) {
            rest.push(cols.last().name@)
        } else {
            rest
        }
    }
}

/// The (table name, referencing column names) pairs that listing the
/// references of `name` yields, from the given tables in order: each table
/// kept by `with_self`, with its referencing columns, where there are any.
pub open spec fn references_spec(tables: Seq<Table>, name: Seq<char>, with_self: bool) -> Seq<
    (Seq<char>, Seq<Seq<char>>),
>
    decreases tables.len(),
{
    if tables.len() == 0 {
        Seq::<(Seq<char>, Seq<Seq<char>>)>::empty()
    } else {
        let rest = references_spec(tables.drop_last(), name, with_self);
        let t = tables.last();
        if (with_self || t.name@ != name) && ref_col_names(t.columns@, name).len() > 0 {
            rest.push((t.name@, ref_col_names(t.columns@, name)))
        } else {
            rest
        }
    }
}

/// The deep view of a list of strings.
pub open spec fn strings_view(s: Seq<String>) -> Seq<Seq<char>> {
    s.map(|i: int, x: String| x@)
}

/// The deep view of a reference listing.
pub open spec fn refs_view(s: Seq<(String, Vec<String>)>) -> Seq<(Seq<char>, Seq<Seq<char>>)> {
    s.map(|i: int, p: (String, Vec<String>)| (p.0@, strings_view(p.1@)))
}

/// The names of the columns of `t` whose foreign key references `name`.
fn ref_cols(t: &Table, name: &str) -> (r: Vec<String>)
    ensures
        strings_view(r@) == ref_col_names(t.columns@, name@),
{
    let mut out: Vec<String> = Vec::new();
    let n = t.columns.len();
    for i in 0..n
        invariant
            n == t.columns@.len(),
            strings_view(out@) == ref_col_names(t.columns@.take(i as int), name@),
    {
        let ghost pre = strings_view(out@);
        match &t.columns[i].references {
            Some(refname) => {
                if str_eq(refname.as_str(), name) {
                    let cn = t.columns[i].name.clone();
                    out.push(cn);
                }
            },
            None => {},
        }
        proof {
            assert(t.columns@.take(i + 1).drop_last() =~= t.columns@.take(i as int));
            assert(t.columns@.take(i + 1).last() == t.columns@[i as int]);
            if refs_table(t.columns@[i as int], name@) {
                assert(strings_view(out@) =~= pre.push(t.columns@[i as int].name@));
            } else {
                assert(strings_view(out@) =~= pre);
            }
        }
    }
    proof {
        assert(t.columns@.take(n as int) =~= t.columns@);
    }
    out
}

/// Lists, from the given tables in order, each table that references
/// `table` through one or more foreign key columns, with those columns'
/// names as table, columns pairs; `with_self` keeps self-references.
pub fn references_in(tables: &Vec<Table>, table: &str, with_self: bool) -> (r: Vec<
    (String, Vec<String>),
>)
    ensures
        refs_view(r@) == references_spec(tables@, table@, with_self),
{
    let mut out: Vec<(String, Vec<String>)> = Vec::new();
    let n = tables.len();
    for i in 0..n
        invariant
            n == tables@.len(),
            refs_view(out@) == references_spec(tables@.take(i as int), table@, with_self),
    {
        let ghost pre = refs_view(out@);
        let t = &tables[i];
        let keep = with_self || !str_eq(t.name.as_str(), table);
        let cs = ref_cols(t, table);
        if keep && cs.len() > 0 {
            let tn = t.name.clone();
            out.push((tn, cs));
        }
        proof {
            assert(tables@.take(i + 1).drop_last() =~= tables@.take(i as int));
            assert(tables@.take(i + 1).last() == tables@[i as int]);
            let spec_t = tables@[i as int];
            if (with_self || spec_t.name@ != table@) && ref_col_names(spec_t.columns@, table@).len()
                > 0 {
                assert(refs_view(out@) =~~= pre.push(
                    (spec_t.name@, ref_col_names(spec_t.columns@, table@)),
                ));
            } else {
                assert(refs_view(out@) =~~= pre);
            }
        }
    }
    proof {
        assert(tables@.take(n as int) =~= tables@);
    }
    out
}

} // verus!
