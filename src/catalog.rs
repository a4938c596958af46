//! The catalog: tables, their attributes and keys, and the foreign keys
//! between them.

use vstd::prelude::*;

use crate::command::DataType;

verus! {

/// A column and its backend-native type name.
#[derive(Clone, Debug)]
pub struct Attribute {
    pub name: String,
    pub data_type: String,
}

/// A column of a table's primary key.
#[derive(Clone, Debug)]
pub struct PrimaryKey {
    pub schema_name: String,
    pub table_name: String,
    pub attribute_name: String,
}

/// A table with its columns in declared order.
#[derive(Clone, Debug)]
pub struct Table {
    pub schema: String,
    pub name: String,
    pub attributes: Vec<Attribute>,
    pub primary_keys: Vec<PrimaryKey>,
}

/// A column of one table that refers to a column of another.
#[derive(Clone, Debug)]
pub struct ForeignKey {
    pub schema_name: String,
    pub table_name: String,
    pub attribute_name: String,
    pub schema_name_foreign: String,
    pub table_name_foreign: String,
    pub attribute_name_foreign: String,
}

/// A snapshot of the database's schema.
#[derive(Clone, Debug)]
pub struct DbSchema {
    pub tables: Vec<Table>,
    pub foreign_keys: Vec<ForeignKey>,
}

/// What the schema graph needs of a table: its schema and name.
#[derive(Clone, Debug)]
pub struct TableSearchInfo {
    pub schema: String,
    pub name: String,
}

impl Attribute {
    pub fn new(name: String, data_type: String) -> (r: Self)
        ensures
            r.name@ == name@,
            r.data_type@ == data_type@,
    {
        Attribute { name, data_type }
    }
}

impl PrimaryKey {
    pub fn new(schema_name: String, table_name: String, attribute_name: String) -> (r: Self)
        ensures
            r.schema_name@ == schema_name@,
            r.table_name@ == table_name@,
            r.attribute_name@ == attribute_name@,
    {
        PrimaryKey { schema_name, table_name, attribute_name }
    }
}

impl Table {
    pub fn new(
        schema: String,
        name: String,
        attributes: Vec<Attribute>,
        primary_keys: Vec<PrimaryKey>,
    ) -> (r: Self)
        ensures
            r.schema@ == schema@,
            r.name@ == name@,
            r.attributes@ == attributes@,
            r.primary_keys@ == primary_keys@,
    {
        Table { schema, name, attributes, primary_keys }
    }
}

impl ForeignKey {
    pub fn new(
        schema_name: String,
        table_name: String,
        attribute_name: String,
        schema_name_foreign: String,
        table_name_foreign: String,
        attribute_name_foreign: String,
    ) -> (r: Self)
        ensures
            r.schema_name@ == schema_name@,
            r.table_name@ == table_name@,
            r.attribute_name@ == attribute_name@,
            r.schema_name_foreign@ == schema_name_foreign@,
            r.table_name_foreign@ == table_name_foreign@,
            r.attribute_name_foreign@ == attribute_name_foreign@,
    {
        ForeignKey {
            schema_name,
            table_name,
            attribute_name,
            schema_name_foreign,
            table_name_foreign,
            attribute_name_foreign,
        }
    }
}

impl DbSchema {
    pub fn new(tables: Vec<Table>, foreign_keys: Vec<ForeignKey>) -> (r: Self)
        ensures
            r.tables@ == tables@,
            r.foreign_keys@ == foreign_keys@,
    {
        DbSchema { tables, foreign_keys }
    }
}

impl TableSearchInfo {
    pub fn new(schema: String, name: String) -> (r: Self)
        ensures
            r.schema@ == schema@,
            r.name@ == name@,
    {
        TableSearchInfo { schema, name }
    }

    /// The schema and name of `table`.
    pub fn from_table(table: &Table) -> (r: Self)
        ensures
            r.schema@ == table.schema@,
            r.name@ == table.name@,
    {
        TableSearchInfo { schema: table.schema.clone(), name: table.name.clone() }
    }
}

/// The canonical identifier `schema.name` of a table.
pub open spec fn table_id(schema: Seq<char>, name: Seq<char>) -> Seq<char> {
    schema + seq!['.'] + name
}

/// Builds `schema.name`.
pub fn qualified_name(schema: &String, name: &String) -> (r: String)
    ensures
        r@ == table_id(schema@, name@),
{
    let mut r = schema.clone();
    let dot = String::from_str(".");
    proof {
        reveal_strlit(".");
    }
    r.append(dot.as_str());
    r.append(name.as_str());
    assert(r@ =~= table_id(schema@, name@));
    r
}

/// Why a native type name could not be mapped.
#[derive(PartialEq, Debug, Clone)]
pub enum TypeError {
    UnknownType(String),
}

/// The canonical kind of a backend-native type name, if it has one.
pub open spec fn native_kind(t: Seq<char>) -> Option<DataType> {
    if t == "integer"@ || t == "bigint"@ || t == "int"@ || t == "smallint"@ {
        Some(DataType::Integer)
    } else if t == "numeric"@ || t == "decimal"@ || t == "real"@ || t == "double precision"@ {
        Some(DataType::Float)
    } else if t == "character varying"@ || t == "varchar"@ || t == "text"@ || t == "character"@
        || t == "char"@ {
        Some(DataType::String)
    } else if t == "date"@ || (t.len() >= 9 && t.subrange(0, 9) == "timestamp"@) {
        Some(DataType::Date)
    } else {
        None
    }
}

fn equals_str(t: &String, lit: &str) -> (r: bool)
    ensures
        r == (t@ == lit@),
{
    let l = String::from_str(lit);
    *t == l
}

fn starts_with_timestamp(t: &String) -> (r: bool)
    ensures
        r == (t@.len() >= 9 && t@.subrange(0, 9) == "timestamp"@),
{
    let chars = crate::text::chars_of(t.as_str());
    let prefix = crate::text::chars_of("timestamp");
    if chars.len() < prefix.len() {
        proof {
            reveal_strlit("timestamp");
        }
        return false;
    }
    let mut i: usize = 0;
    proof {
        reveal_strlit("timestamp");
    }
    while i < prefix.len()
        invariant
            i <= prefix.len(),
            prefix@ == "timestamp"@,
            prefix.len() == 9,
            chars@ == t@,
            prefix.len() <= chars.len(),
            forall|j: int| 0 <= j < i ==> chars@[j] == prefix@[j],
        decreases prefix.len() - i,
    {
        if chars[i] != prefix[i] {
            assert(t@.subrange(0, 9)[i as int] != prefix@[i as int]);
            return false;
        }
        i = i + 1;
    }
    assert(t@.subrange(0, 9) =~= "timestamp"@);
    true
}

/// Maps a backend-native type name to its canonical kind.
pub fn translate_native_type(native_type: String) -> (r: Result<DataType, TypeError>)
    ensures
        match r {
            Ok(d) => native_kind(native_type@) == Some(d),
            Err(TypeError::UnknownType(t)) => native_kind(native_type@) is None && t@
                == native_type@,
        },
{
    let t = &native_type;
    if equals_str(t, "integer") || equals_str(t, "bigint") || equals_str(t, "int") || equals_str(t, "smallint") {
        Ok(DataType::Integer)
    } else if equals_str(t, "numeric") || equals_str(t, "decimal") || equals_str(t, "real") || equals_str(t, "double precision") {
        Ok(DataType::Float)
    } else if equals_str(t, "character varying") || equals_str(t, "varchar") || equals_str(t, "text") || equals_str(
        t,
        "character",
    ) || equals_str(t, "char") {
        Ok(DataType::String)
    } else if equals_str(t, "date") || starts_with_timestamp(t) {
        Ok(DataType::Date)
    } else {
        Err(TypeError::UnknownType(native_type))
    }
}

} // verus!
