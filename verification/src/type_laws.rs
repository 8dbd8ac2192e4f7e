//! What type names mean to the operations that read them: the width at
//! which arguments are read, the kind of result asked of Python, and the
//! type that normalizing a name keeps.
use vstd::prelude::*;
use vstd::utf8::is_ascii_chars;

use crate::create_function_vtab::decimal;
use crate::executor::{result_kind_upper, DuckDBValue, ResultKind};
use crate::laws::{law_integer_text_round_trip, lemma_name_untrimmed};
use crate::parser::normalized_upper;
use crate::text::{ascii_upper, trim_chars};
use crate::types::{logical_type_name, logical_type_upper, LogicalTypeId};
use crate::values::{value_kind_upper, value_matches, IntErrorKind, ValueKind};

verus! {

/// The characters of the type names that the operations know.
proof fn lemma_type_name_chars()
    ensures
        "BOOLEAN"@ =~= seq!['B', 'O', 'O', 'L', 'E', 'A', 'N'],
        "BOOL"@ =~= seq!['B', 'O', 'O', 'L'],
        "TINYINT"@ =~= seq!['T', 'I', 'N', 'Y', 'I', 'N', 'T'],
        "INT8"@ =~= seq!['I', 'N', 'T', '8'],
        "SMALLINT"@ =~= seq!['S', 'M', 'A', 'L', 'L', 'I', 'N', 'T'],
        "INT16"@ =~= seq!['I', 'N', 'T', '1', '6'],
        "INTEGER"@ =~= seq!['I', 'N', 'T', 'E', 'G', 'E', 'R'],
        "INT"@ =~= seq!['I', 'N', 'T'],
        "INT32"@ =~= seq!['I', 'N', 'T', '3', '2'],
        "BIGINT"@ =~= seq!['B', 'I', 'G', 'I', 'N', 'T'],
        "INT64"@ =~= seq!['I', 'N', 'T', '6', '4'],
        "FLOAT"@ =~= seq!['F', 'L', 'O', 'A', 'T'],
        "FLOAT32"@ =~= seq!['F', 'L', 'O', 'A', 'T', '3', '2'],
        "REAL"@ =~= seq!['R', 'E', 'A', 'L'],
        "DOUBLE"@ =~= seq!['D', 'O', 'U', 'B', 'L', 'E'],
        "FLOAT64"@ =~= seq!['F', 'L', 'O', 'A', 'T', '6', '4'],
        "VARCHAR"@ =~= seq!['V', 'A', 'R', 'C', 'H', 'A', 'R'],
        "STRING"@ =~= seq!['S', 'T', 'R', 'I', 'N', 'G'],
        "TEXT"@ =~= seq!['T', 'E', 'X', 'T'],
        "BLOB"@ =~= seq!['B', 'L', 'O', 'B'],
        "BINARY"@ =~= seq!['B', 'I', 'N', 'A', 'R', 'Y'],
        "DATE"@ =~= seq!['D', 'A', 'T', 'E'],
        "TIMESTAMP"@ =~= seq!['T', 'I', 'M', 'E', 'S', 'T', 'A', 'M', 'P'],
        "CHAR"@ =~= seq!['C', 'H', 'A', 'R'],
        "CHARACTER"@ =~= seq!['C', 'H', 'A', 'R', 'A', 'C', 'T', 'E', 'R'],
        "LONG"@ =~= seq!['L', 'O', 'N', 'G'],
        "SHORT"@ =~= seq!['S', 'H', 'O', 'R', 'T'],
        "BYTE"@ =~= seq!['B', 'Y', 'T', 'E'],
        "DATETIME"@ =~= seq!['D', 'A', 'T', 'E', 'T', 'I', 'M', 'E'],
        "BYTES"@ =~= seq!['B', 'Y', 'T', 'E', 'S'],
{
    reveal_strlit("BOOLEAN");
    reveal_strlit("BOOL");
    reveal_strlit("TINYINT");
    reveal_strlit("INT8");
    reveal_strlit("SMALLINT");
    reveal_strlit("INT16");
    reveal_strlit("INTEGER");
    reveal_strlit("INT");
    reveal_strlit("INT32");
    reveal_strlit("BIGINT");
    reveal_strlit("INT64");
    reveal_strlit("FLOAT");
    reveal_strlit("FLOAT32");
    reveal_strlit("REAL");
    reveal_strlit("DOUBLE");
    reveal_strlit("FLOAT64");
    reveal_strlit("VARCHAR");
    reveal_strlit("STRING");
    reveal_strlit("TEXT");
    reveal_strlit("BLOB");
    reveal_strlit("BINARY");
    reveal_strlit("DATE");
    reveal_strlit("TIMESTAMP");
    reveal_strlit("CHAR");
    reveal_strlit("CHARACTER");
    reveal_strlit("LONG");
    reveal_strlit("SHORT");
    reveal_strlit("BYTE");
    reveal_strlit("DATETIME");
    reveal_strlit("BYTES");
}

/// True for the integer logical types.
pub open spec fn is_int_type(k: LogicalTypeId) -> bool {
    k == LogicalTypeId::Tinyint || k == LogicalTypeId::Smallint || k == LogicalTypeId::Integer
        || k == LogicalTypeId::Bigint
}

/// The smallest and the largest value of an integer logical type.
pub open spec fn int_range(k: LogicalTypeId) -> (int, int) {
    match k {
        LogicalTypeId::Tinyint => (-128, 127),
        LogicalTypeId::Smallint => (-32768, 32767),
        LogicalTypeId::Integer => (-2147483648, 2147483647),
        LogicalTypeId::Bigint => (-9223372036854775808, 9223372036854775807),
        _ => (0, 0),
    }
}

/// The value `n` as a value of the integer logical type `k`.
pub open spec fn int_value(k: LogicalTypeId, n: int) -> DuckDBValue {
    match k {
        LogicalTypeId::Tinyint => DuckDBValue::TinyInt(n as i8),
        LogicalTypeId::Smallint => DuckDBValue::SmallInt(n as i16),
        LogicalTypeId::Integer => DuckDBValue::Integer(n as i32),
        _ => DuckDBValue::BigInt(n as i64),
    }
}

/// An argument of a parameter whose declared type (in any ASCII case, by
/// any of its names) is an integer type is read at that type's width: the
/// decimal text of every integer in the type's range is read as that very
/// integer of that type. So `5000000000` for a `BIGINT` parameter is
/// `BigInt(5000000000)`, and `1000` for an `INT16` one is `SmallInt(1000)`.
pub proof fn law_arguments_read_at_declared_width(
    t: Seq<char>,
    n: int,
    r: Result<Option<DuckDBValue>, IntErrorKind>,
)
    requires
        is_ascii_chars(t),
        is_int_type(logical_type_upper(ascii_upper(t))),
        int_range(logical_type_upper(ascii_upper(t))).0 <= n <= int_range(
            logical_type_upper(ascii_upper(t)),
        ).1,
        value_matches(decimal(n), value_kind_upper(ascii_upper(t)), r),
    ensures
        r == Ok::<Option<DuckDBValue>, IntErrorKind>(
            Some(int_value(logical_type_upper(ascii_upper(t)), n)),
        ),
{
    lemma_type_name_chars();
    let k = logical_type_upper(ascii_upper(t));
    law_integer_text_round_trip(n, int_range(k).0, int_range(k).1);
}

/// The logical type that a result kind reads a Python result as; `Other`
/// where the type is read from the Python value.
pub open spec fn result_kind_type(k: ResultKind) -> LogicalTypeId {
    match k {
        ResultKind::Boolean => LogicalTypeId::Boolean,
        ResultKind::TinyInt => LogicalTypeId::Tinyint,
        ResultKind::SmallInt => LogicalTypeId::Smallint,
        ResultKind::Integer => LogicalTypeId::Integer,
        ResultKind::BigInt => LogicalTypeId::Bigint,
        ResultKind::Float => LogicalTypeId::Float,
        ResultKind::Double => LogicalTypeId::Double,
        ResultKind::Varchar => LogicalTypeId::Varchar,
        ResultKind::Blob => LogicalTypeId::Blob,
        ResultKind::Inferred => LogicalTypeId::Other,
    }
}

/// A function whose declared return type is the canonical name of a type
/// that Python results are read as (in any ASCII case), or one of the
/// aliases `STRING`, `TEXT`, `INT`, `REAL`, `BINARY`, has its result read as a value of that very type: a `VARCHAR`
/// function's result as text, a `BLOB` function's as bytes, a `BIGINT`
/// function's as a 64-bit integer.
pub proof fn law_results_read_as_declared_type(t: Seq<char>, k: LogicalTypeId)
    requires
        is_ascii_chars(t),
        k != LogicalTypeId::Date && k != LogicalTypeId::Timestamp && k != LogicalTypeId::Other,
        ascii_upper(t) == logical_type_name(k) || (k == LogicalTypeId::Varchar && (ascii_upper(t)
            == "STRING"@ || ascii_upper(t) == "TEXT"@)) || (k == LogicalTypeId::Integer
            && ascii_upper(t) == "INT"@) || (k == LogicalTypeId::Float && ascii_upper(t)
            == "REAL"@) || (k == LogicalTypeId::Blob && ascii_upper(t) == "BINARY"@),
    ensures
        result_kind_type(result_kind_upper(ascii_upper(t))) == k,
{
    lemma_type_name_chars();
}

/// The names that denote a logical type of their own: those of the
/// non-text types and `VARCHAR`, `STRING`, `TEXT`.
pub open spec fn denotes_type(u: Seq<char>) -> bool {
    logical_type_upper(u) != LogicalTypeId::Varchar || u == "VARCHAR"@ || u == "STRING"@ || u
        == "TEXT"@
}

/// Normalizing a type name keeps the type it denotes: for every ASCII name
/// (in any case) that denotes a type, `normalize_sql_type` gives the
/// canonical name of that type, which denotes the same type (`INT16` and `SMALLINT`
/// both `SMALLINT`, `INT8` and `TINYINT` both `TINYINT`, `FLOAT64` `DOUBLE`).
#[verifier::rlimit(60)]
pub proof fn law_normalizing_keeps_the_type(t: Seq<char>)
    requires
        is_ascii_chars(t),
        denotes_type(ascii_upper(t)),
    ensures
        logical_type_upper(normalized_upper(ascii_upper(t))) == logical_type_upper(ascii_upper(t)),
        normalized_upper(ascii_upper(t)) == logical_type_name(logical_type_upper(ascii_upper(t))),
{
    lemma_type_name_chars();
    let u = ascii_upper(t);
    if u == "BOOLEAN"@ {
        lemma_name_untrimmed("BOOLEAN"@);
    } else if u == "BOOL"@ {
        lemma_name_untrimmed("BOOL"@);
    } else if u == "TINYINT"@ {
        lemma_name_untrimmed("TINYINT"@);
    } else if u == "INT8"@ {
        lemma_name_untrimmed("INT8"@);
    } else if u == "SMALLINT"@ {
        lemma_name_untrimmed("SMALLINT"@);
    } else if u == "INT16"@ {
        lemma_name_untrimmed("INT16"@);
    } else if u == "INTEGER"@ {
        lemma_name_untrimmed("INTEGER"@);
    } else if u == "INT"@ {
        lemma_name_untrimmed("INT"@);
    } else if u == "INT32"@ {
        lemma_name_untrimmed("INT32"@);
    } else if u == "BIGINT"@ {
        lemma_name_untrimmed("BIGINT"@);
    } else if u == "INT64"@ {
        lemma_name_untrimmed("INT64"@);
    } else if u == "FLOAT"@ {
        lemma_name_untrimmed("FLOAT"@);
    } else if u == "FLOAT32"@ {
        lemma_name_untrimmed("FLOAT32"@);
    } else if u == "REAL"@ {
        lemma_name_untrimmed("REAL"@);
    } else if u == "DOUBLE"@ {
        lemma_name_untrimmed("DOUBLE"@);
    } else if u == "FLOAT64"@ {
        lemma_name_untrimmed("FLOAT64"@);
    } else if u == "VARCHAR"@ {
        lemma_name_untrimmed("VARCHAR"@);
    } else if u == "STRING"@ {
        lemma_name_untrimmed("STRING"@);
    } else if u == "TEXT"@ {
        lemma_name_untrimmed("TEXT"@);
    } else if u == "BLOB"@ {
        lemma_name_untrimmed("BLOB"@);
    } else if u == "BINARY"@ {
        lemma_name_untrimmed("BINARY"@);
    } else if u == "DATE"@ {
        lemma_name_untrimmed("DATE"@);
    } else if u == "TIMESTAMP"@ {
        lemma_name_untrimmed("TIMESTAMP"@);
    }
    assert(trim_chars(u) == u);
}

/// The aliases that only normalizing knows name the types they stand for:
/// `CHAR` and `CHARACTER` are `VARCHAR`, `LONG` is `BIGINT`, `SHORT` is
/// `SMALLINT`, `BYTE` is `TINYINT`, `DATETIME` is `TIMESTAMP`, `BYTES` is
/// `BLOB` (in any ASCII case).
pub proof fn law_normalizing_more_aliases(t: Seq<char>)
    requires
        is_ascii_chars(t),
    ensures
        ascii_upper(t) == "CHAR"@ || ascii_upper(t) == "CHARACTER"@ ==> normalized_upper(
            ascii_upper(t),
        ) == logical_type_name(LogicalTypeId::Varchar),
        ascii_upper(t) == "LONG"@ ==> normalized_upper(ascii_upper(t)) == logical_type_name(
            LogicalTypeId::Bigint,
        ),
        ascii_upper(t) == "SHORT"@ ==> normalized_upper(ascii_upper(t)) == logical_type_name(
            LogicalTypeId::Smallint,
        ),
        ascii_upper(t) == "BYTE"@ ==> normalized_upper(ascii_upper(t)) == logical_type_name(
            LogicalTypeId::Tinyint,
        ),
        ascii_upper(t) == "DATETIME"@ ==> normalized_upper(ascii_upper(t)) == logical_type_name(
            LogicalTypeId::Timestamp,
        ),
        ascii_upper(t) == "BYTES"@ ==> normalized_upper(ascii_upper(t)) == logical_type_name(
            LogicalTypeId::Blob,
        ),
{
    lemma_type_name_chars();
    let u = ascii_upper(t);
    if u == "CHAR"@ {
        lemma_name_untrimmed("CHAR"@);
    } else if u == "CHARACTER"@ {
        lemma_name_untrimmed("CHARACTER"@);
    } else if u == "LONG"@ {
        lemma_name_untrimmed("LONG"@);
    } else if u == "SHORT"@ {
        lemma_name_untrimmed("SHORT"@);
    } else if u == "BYTE"@ {
        lemma_name_untrimmed("BYTE"@);
    } else if u == "DATETIME"@ {
        lemma_name_untrimmed("DATETIME"@);
    } else if u == "BYTES"@ {
        lemma_name_untrimmed("BYTES"@);
    }
}

/// How an argument of a parameter of logical type `k` is read: booleans,
/// integers and floating-point numbers at their own type, everything else
/// as text.
pub open spec fn argument_kind_for(k: LogicalTypeId) -> ValueKind {
    match k {
        LogicalTypeId::Boolean => ValueKind::Boolean,
        LogicalTypeId::Tinyint => ValueKind::TinyInt,
        LogicalTypeId::Smallint => ValueKind::SmallInt,
        LogicalTypeId::Integer => ValueKind::Integer,
        LogicalTypeId::Bigint => ValueKind::BigInt,
        LogicalTypeId::Float => ValueKind::Float,
        LogicalTypeId::Double => ValueKind::Double,
        _ => ValueKind::Varchar,
    }
}

/// The kind that the law below expects for the name `u`.
spec fn kind_expected(u: Seq<char>) -> ValueKind {
    if u == "FLOAT32"@ || u == "FLOAT64"@ {
        ValueKind::Varchar
    } else {
        argument_kind_for(logical_type_upper(u))
    }
}

/// An argument is read as a value of the type that its parameter's type
/// name (in any ASCII case) denotes, for every name that denotes a type;
/// only `FLOAT32` and `FLOAT64` arguments are read as text.
#[verifier::spinoff_prover]
pub proof fn law_argument_kinds_follow_types(t: Seq<char>)
    requires
        is_ascii_chars(t),
        denotes_type(ascii_upper(t)),
    ensures
        value_kind_upper(ascii_upper(t)) == (if ascii_upper(t) == "FLOAT32"@ || ascii_upper(t)
            == "FLOAT64"@ {
            ValueKind::Varchar
        } else {
            argument_kind_for(logical_type_upper(ascii_upper(t)))
        }),
{
    lemma_type_name_chars();
    let u = ascii_upper(t);
    if u == "BOOLEAN"@ {
        assert(value_kind_upper(u) == ValueKind::Boolean);
        assert(logical_type_upper(u) == LogicalTypeId::Boolean);
        assert(value_kind_upper(u) == kind_expected(u));
    } else if u == "BOOL"@ {
        assert(value_kind_upper(u) == ValueKind::Boolean);
        assert(logical_type_upper(u) == LogicalTypeId::Boolean);
        assert(value_kind_upper(u) == kind_expected(u));
    } else if u == "TINYINT"@ {
        assert(value_kind_upper(u) == ValueKind::TinyInt);
        assert(logical_type_upper(u) == LogicalTypeId::Tinyint);
        assert(value_kind_upper(u) == kind_expected(u));
    } else if u == "INT8"@ {
        assert(value_kind_upper(u) == ValueKind::TinyInt);
        assert(logical_type_upper(u) == LogicalTypeId::Tinyint);
        assert(value_kind_upper(u) == kind_expected(u));
    } else if u == "SMALLINT"@ {
        assert(value_kind_upper(u) == ValueKind::SmallInt);
        assert(logical_type_upper(u) == LogicalTypeId::Smallint);
        assert(value_kind_upper(u) == kind_expected(u));
    } else if u == "INT16"@ {
        assert(value_kind_upper(u) == ValueKind::SmallInt);
        assert(logical_type_upper(u) == LogicalTypeId::Smallint);
        assert(value_kind_upper(u) == kind_expected(u));
    } else if u == "INTEGER"@ {
        assert(value_kind_upper(u) == ValueKind::Integer);
        assert(logical_type_upper(u) == LogicalTypeId::Integer);
        assert(value_kind_upper(u) == kind_expected(u));
    } else if u == "INT"@ {
        assert(value_kind_upper(u) == ValueKind::Integer);
        assert(logical_type_upper(u) == LogicalTypeId::Integer);
        assert(value_kind_upper(u) == kind_expected(u));
    } else if u == "INT32"@ {
        assert(value_kind_upper(u) == ValueKind::Integer);
        assert(logical_type_upper(u) == LogicalTypeId::Integer);
        assert(value_kind_upper(u) == kind_expected(u));
    } else if u == "BIGINT"@ {
        assert(value_kind_upper(u) == ValueKind::BigInt);
        assert(logical_type_upper(u) == LogicalTypeId::Bigint);
        assert(value_kind_upper(u) == kind_expected(u));
    } else if u == "INT64"@ {
        assert(value_kind_upper(u) == ValueKind::BigInt);
        assert(logical_type_upper(u) == LogicalTypeId::Bigint);
        assert(value_kind_upper(u) == kind_expected(u));
    } else if u == "FLOAT"@ {
        assert(value_kind_upper(u) == ValueKind::Float);
        assert(logical_type_upper(u) == LogicalTypeId::Float);
        assert(u.len() == 5);
        assert(u != "FLOAT32"@ && u != "FLOAT64"@);
        assert(value_kind_upper(u) == kind_expected(u));
    } else if u == "FLOAT32"@ {
        assert(value_kind_upper(u) == ValueKind::Varchar);
        assert(logical_type_upper(u) == LogicalTypeId::Float);
        assert(value_kind_upper(u) == kind_expected(u));
    } else if u == "REAL"@ {
        assert(value_kind_upper(u) == ValueKind::Float);
        assert(logical_type_upper(u) == LogicalTypeId::Float);
        assert(value_kind_upper(u) == kind_expected(u));
    } else if u == "DOUBLE"@ {
        assert(value_kind_upper(u) == ValueKind::Double);
        assert(logical_type_upper(u) == LogicalTypeId::Double);
        assert(value_kind_upper(u) == kind_expected(u));
    } else if u == "FLOAT64"@ {
        assert(value_kind_upper(u) == ValueKind::Varchar);
        assert(logical_type_upper(u) == LogicalTypeId::Double);
        assert(value_kind_upper(u) == kind_expected(u));
    } else if u == "VARCHAR"@ {
        assert(value_kind_upper(u) == ValueKind::Varchar);
        assert(logical_type_upper(u) == LogicalTypeId::Varchar);
        assert(value_kind_upper(u) == kind_expected(u));
    } else if u == "STRING"@ {
        assert(value_kind_upper(u) == ValueKind::Varchar);
        assert(logical_type_upper(u) == LogicalTypeId::Varchar);
        assert(value_kind_upper(u) == kind_expected(u));
    } else if u == "TEXT"@ {
        assert(value_kind_upper(u) == ValueKind::Varchar);
        assert(logical_type_upper(u) == LogicalTypeId::Varchar);
        assert(value_kind_upper(u) == kind_expected(u));
    } else if u == "BLOB"@ {
        assert(value_kind_upper(u) == ValueKind::Varchar);
        assert(logical_type_upper(u) == LogicalTypeId::Blob);
        assert(value_kind_upper(u) == kind_expected(u));
    } else if u == "BINARY"@ {
        assert(value_kind_upper(u) == ValueKind::Varchar);
        assert(logical_type_upper(u) == LogicalTypeId::Blob);
        assert(value_kind_upper(u) == kind_expected(u));
    } else if u == "DATE"@ {
        assert(value_kind_upper(u) == ValueKind::Varchar);
        assert(logical_type_upper(u) == LogicalTypeId::Date);
        assert(value_kind_upper(u) == kind_expected(u));
    } else if u == "TIMESTAMP"@ {
        assert(value_kind_upper(u) == ValueKind::Varchar);
        assert(logical_type_upper(u) == LogicalTypeId::Timestamp);
        assert(value_kind_upper(u) == kind_expected(u));
    } else {
        assert(logical_type_upper(u) == LogicalTypeId::Varchar);
        assert(value_kind_upper(u) == kind_expected(u));
    }
}

/// Whenever a declared return type asks for a result of a type of its own
/// (in any ASCII case), that type is the one the name denotes.
#[verifier::spinoff_prover]
pub proof fn law_result_kinds_denote_types(t: Seq<char>)
    requires
        is_ascii_chars(t),
        result_kind_upper(ascii_upper(t)) != ResultKind::Inferred,
    ensures
        result_kind_type(result_kind_upper(ascii_upper(t))) == logical_type_upper(ascii_upper(t)),
{
    lemma_type_name_chars();
    let u = ascii_upper(t);
    if u == "BOOLEAN"@ {
        assert(result_kind_upper(u) == ResultKind::Boolean);
        assert(logical_type_upper(u) == LogicalTypeId::Boolean);
    } else if u == "TINYINT"@ {
        assert(result_kind_upper(u) == ResultKind::TinyInt);
        assert(logical_type_upper(u) == LogicalTypeId::Tinyint);
    } else if u == "SMALLINT"@ {
        assert(result_kind_upper(u) == ResultKind::SmallInt);
        assert(logical_type_upper(u) == LogicalTypeId::Smallint);
    } else if u == "INTEGER"@ {
        assert(result_kind_upper(u) == ResultKind::Integer);
        assert(logical_type_upper(u) == LogicalTypeId::Integer);
    } else if u == "INT"@ {
        assert(result_kind_upper(u) == ResultKind::Integer);
        assert(u.len() == 3);
        assert(u != "INT8"@ && u != "INT16"@ && u != "INTEGER"@);
        assert(logical_type_upper(u) == LogicalTypeId::Integer);
    } else if u == "BIGINT"@ {
        assert(result_kind_upper(u) == ResultKind::BigInt);
        assert(logical_type_upper(u) == LogicalTypeId::Bigint);
    } else if u == "FLOAT"@ {
        assert(result_kind_upper(u) == ResultKind::Float);
        assert(logical_type_upper(u) == LogicalTypeId::Float);
    } else if u == "REAL"@ {
        assert(result_kind_upper(u) == ResultKind::Float);
        assert(logical_type_upper(u) == LogicalTypeId::Float);
    } else if u == "DOUBLE"@ {
        assert(result_kind_upper(u) == ResultKind::Double);
        assert(logical_type_upper(u) == LogicalTypeId::Double);
    } else if u == "VARCHAR"@ {
        assert(result_kind_upper(u) == ResultKind::Varchar);
        assert(logical_type_upper(u) == LogicalTypeId::Varchar);
    } else if u == "STRING"@ {
        assert(result_kind_upper(u) == ResultKind::Varchar);
        assert(logical_type_upper(u) == LogicalTypeId::Varchar);
    } else if u == "TEXT"@ {
        assert(result_kind_upper(u) == ResultKind::Varchar);
        assert(logical_type_upper(u) == LogicalTypeId::Varchar);
    } else if u == "BLOB"@ {
        assert(result_kind_upper(u) == ResultKind::Blob);
        assert(logical_type_upper(u) == LogicalTypeId::Blob);
    } else if u == "BINARY"@ {
        assert(result_kind_upper(u) == ResultKind::Blob);
        assert(logical_type_upper(u) == LogicalTypeId::Blob);
    } else {
        assert(result_kind_upper(u) == ResultKind::Inferred);
    }
}

} // verus!
