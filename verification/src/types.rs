//! DuckDB logical types and their names.
use vstd::prelude::*;

use vstd::utf8::is_ascii_chars;

use crate::text::{ascii_upper, str_eq, to_uppercase, uppercase};

verus! {

/// The DuckDB logical types that Python functions use. `Other` stands for
/// every other DuckDB type.
#[derive(Debug, Clone, Copy, PartialEq, Eq, Structural)]
pub enum LogicalTypeId {
    Boolean,
    Tinyint,
    Smallint,
    Integer,
    Bigint,
    Float,
    Double,
    Varchar,
    Blob,
    Date,
    Timestamp,
    Other,
}

/// The logical type that an uppercase type name denotes; unknown names are `VARCHAR`.
pub open spec fn logical_type_upper(u: Seq<char>) -> LogicalTypeId {
    if u == "BOOLEAN"@ || u == "BOOL"@ {
        LogicalTypeId::Boolean
    } else if u == "TINYINT"@ || u == "INT8"@ {
        LogicalTypeId::Tinyint
    } else if u == "SMALLINT"@ || u == "INT16"@ {
        LogicalTypeId::Smallint
    } else if u == "INTEGER"@ || u == "INT"@ || u == "INT32"@ {
        LogicalTypeId::Integer
    } else if u == "BIGINT"@ || u == "INT64"@ {
        LogicalTypeId::Bigint
    } else if u == "FLOAT"@ || u == "FLOAT32"@ || u == "REAL"@ {
        LogicalTypeId::Float
    } else if u == "DOUBLE"@ || u == "FLOAT64"@ {
        LogicalTypeId::Double
    } else if u == "VARCHAR"@ || u == "STRING"@ || u == "TEXT"@ {
        LogicalTypeId::Varchar
    } else if u == "BLOB"@ || u == "BINARY"@ {
        LogicalTypeId::Blob
    } else if u == "DATE"@ {
        LogicalTypeId::Date
    } else if u == "TIMESTAMP"@ {
        LogicalTypeId::Timestamp
    } else {
        LogicalTypeId::Varchar
    }
}

/// The logical type that a type name (in any case) denotes.
pub open spec fn logical_type_of(type_str: Seq<char>) -> LogicalTypeId {
    logical_type_upper(uppercase(type_str))
}

/// The name of a logical type; types without a name of their own are `VARCHAR`.
pub open spec fn logical_type_name(t: LogicalTypeId) -> Seq<char> {
    match t {
        LogicalTypeId::Boolean => "BOOLEAN"@,
        LogicalTypeId::Tinyint => "TINYINT"@,
        LogicalTypeId::Smallint => "SMALLINT"@,
        LogicalTypeId::Integer => "INTEGER"@,
        LogicalTypeId::Bigint => "BIGINT"@,
        LogicalTypeId::Float => "FLOAT"@,
        LogicalTypeId::Double => "DOUBLE"@,
        LogicalTypeId::Varchar => "VARCHAR"@,
        LogicalTypeId::Blob => "BLOB"@,
        LogicalTypeId::Date => "DATE"@,
        LogicalTypeId::Timestamp => "TIMESTAMP"@,
        LogicalTypeId::Other => "VARCHAR"@,
    }
}

/// The logical type that an uppercase type name denotes.
pub fn logical_type_of_upper(u: &str) -> (r: LogicalTypeId)
    ensures
        r == logical_type_upper(u@),
        r != LogicalTypeId::Other,
{
    if str_eq(u, "BOOLEAN") || str_eq(u, "BOOL") {
        LogicalTypeId::Boolean
    } else if str_eq(u, "TINYINT") || str_eq(u, "INT8") {
        LogicalTypeId::Tinyint
    } else if str_eq(u, "SMALLINT") || str_eq(u, "INT16") {
        LogicalTypeId::Smallint
    } else if str_eq(u, "INTEGER") || str_eq(u, "INT") || str_eq(u, "INT32") {
        LogicalTypeId::Integer
    } else if str_eq(u, "BIGINT") || str_eq(u, "INT64") {
        LogicalTypeId::Bigint
    } else if str_eq(u, "FLOAT") || str_eq(u, "FLOAT32") || str_eq(u, "REAL") {
        LogicalTypeId::Float
    } else if str_eq(u, "DOUBLE") || str_eq(u, "FLOAT64") {
        LogicalTypeId::Double
    } else if str_eq(u, "VARCHAR") || str_eq(u, "STRING") || str_eq(u, "TEXT") {
        LogicalTypeId::Varchar
    } else if str_eq(u, "BLOB") || str_eq(u, "BINARY") {
        LogicalTypeId::Blob
    } else if str_eq(u, "DATE") {
        LogicalTypeId::Date
    } else if str_eq(u, "TIMESTAMP") {
        LogicalTypeId::Timestamp
    } else {
        LogicalTypeId::Varchar
    }
}

/// Converts a DuckDB type string to its logical type.
pub fn string_to_logical_type(type_str: &str) -> (r: LogicalTypeId)
    ensures
        r == logical_type_of(type_str@),
        r != LogicalTypeId::Other,
        is_ascii_chars(type_str@) ==> r == logical_type_upper(ascii_upper(type_str@)),
{
    let up = to_uppercase(type_str);
    logical_type_of_upper(up.as_str())
}

/// The string representation of a logical type.
pub fn logical_type_to_string(type_id: LogicalTypeId) -> (r: &'static str)
    ensures
        r@ == logical_type_name(type_id),
{
    match type_id {
        LogicalTypeId::Boolean => "BOOLEAN",
        LogicalTypeId::Tinyint => "TINYINT",
        LogicalTypeId::Smallint => "SMALLINT",
        LogicalTypeId::Integer => "INTEGER",
        LogicalTypeId::Bigint => "BIGINT",
        LogicalTypeId::Float => "FLOAT",
        LogicalTypeId::Double => "DOUBLE",
        LogicalTypeId::Varchar => "VARCHAR",
        LogicalTypeId::Blob => "BLOB",
        LogicalTypeId::Date => "DATE",
        LogicalTypeId::Timestamp => "TIMESTAMP",
        LogicalTypeId::Other => "VARCHAR",
    }
}

} // verus!
