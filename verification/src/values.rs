//! Reading call arguments, given as text, as values of a parameter's type.
use vstd::prelude::*;
use vstd::string::StringSliceAdditionalSpecFns;
use vstd::utf8::{encode_utf8, is_ascii_chars};

use crate::executor::DuckDBValue;
use crate::text::{ascii_upper, lowercase, str_eq, to_lowercase, to_uppercase, uppercase};

verus! {

broadcast use vstd::seq::group_seq_axioms, vstd::seq_lib::group_seq_properties;

/// How an argument is read for a parameter type.
#[derive(Debug, Clone, Copy, PartialEq, Eq)]
pub enum ValueKind {
    Boolean,
    TinyInt,
    SmallInt,
    Integer,
    BigInt,
    Float,
    Double,
    Varchar,
}

/// The kind of value that an uppercase parameter type name asks for;
/// unknown names are read as text.
pub open spec fn value_kind_upper(u: Seq<char>) -> ValueKind {
    if u == "BOOLEAN"@ || u == "BOOL"@ {
        ValueKind::Boolean
    } else if u == "TINYINT"@ || u == "INT8"@ {
        ValueKind::TinyInt
    } else if u == "SMALLINT"@ || u == "INT16"@ {
        ValueKind::SmallInt
    } else if u == "INTEGER"@ || u == "INT"@ || u == "INT32"@ {
        ValueKind::Integer
    } else if u == "BIGINT"@ || u == "INT64"@ {
        ValueKind::BigInt
    } else if u == "FLOAT"@ || u == "REAL"@ {
        ValueKind::Float
    } else if u == "DOUBLE"@ {
        ValueKind::Double
    } else {
        ValueKind::Varchar
    }
}

/// The kind of value that a parameter type name (in any case) asks for.
pub open spec fn value_kind_of(param_type: Seq<char>) -> ValueKind {
    value_kind_upper(uppercase(param_type))
}

/// The kind of value that an uppercase parameter type name asks for.
pub fn value_kind_of_upper(u: &str) -> (r: ValueKind)
    ensures
        r == value_kind_upper(u@),
{
    if str_eq(u, "BOOLEAN") || str_eq(u, "BOOL") {
        ValueKind::Boolean
    } else if str_eq(u, "TINYINT") || str_eq(u, "INT8") {
        ValueKind::TinyInt
    } else if str_eq(u, "SMALLINT") || str_eq(u, "INT16") {
        ValueKind::SmallInt
    } else if str_eq(u, "INTEGER") || str_eq(u, "INT") || str_eq(u, "INT32") {
        ValueKind::Integer
    } else if str_eq(u, "BIGINT") || str_eq(u, "INT64") {
        ValueKind::BigInt
    } else if str_eq(u, "FLOAT") || str_eq(u, "REAL") {
        ValueKind::Float
    } else if str_eq(u, "DOUBLE") {
        ValueKind::Double
    } else {
        ValueKind::Varchar
    }
}

/// The kind of value that a parameter type asks for.
pub fn value_kind(param_type: &str) -> (r: ValueKind)
    ensures
        r == value_kind_of(param_type@),
        is_ascii_chars(param_type@) ==> r == value_kind_upper(ascii_upper(param_type@)),
{
    let up = to_uppercase(param_type);
    value_kind_of_upper(up.as_str())
}

/// True for the lowercase texts that read as a true boolean.
pub open spec fn truthy(l: Seq<char>) -> bool {
    l == "true"@ || l == "1"@ || l == "yes"@
}

/// Whether a lowercase argument text reads as a true boolean.
pub fn is_truthy(l: &str) -> (r: bool)
    ensures
        r == truthy(l@),
{
    str_eq(l, "true") || str_eq(l, "1") || str_eq(l, "yes")
}

/// Why a text is not an integer of a given type (as `core::num::IntErrorKind`).
#[derive(Debug, Clone, Copy, PartialEq, Eq)]
pub enum IntErrorKind {
    Empty,
    InvalidDigit,
    PosOverflow,
    NegOverflow,
}

impl IntErrorKind {
    /// The message that `ParseIntError` displays for this kind.
    pub fn message(&self) -> (r: &'static str)
        ensures
            r@ == match self {
                IntErrorKind::Empty => "cannot parse integer from empty string"@,
                IntErrorKind::InvalidDigit => "invalid digit found in string"@,
                IntErrorKind::PosOverflow => "number too large to fit in target type"@,
                IntErrorKind::NegOverflow => "number too small to fit in target type"@,
            },
    {
        match self {
            IntErrorKind::Empty => "cannot parse integer from empty string",
            IntErrorKind::InvalidDigit => "invalid digit found in string",
            IntErrorKind::PosOverflow => "number too large to fit in target type",
            IntErrorKind::NegOverflow => "number too small to fit in target type",
        }
    }
}

pub open spec fn is_digit(c: u8) -> bool {
    0x30 <= c <= 0x39
}

/// Reads decimal digits onto `acc`, left to right, stopping at the first
/// non-digit or at the first step out of `[min, max]`.
pub open spec fn accumulate(b: Seq<u8>, acc: int, min: int, max: int, negative: bool) -> Result<
    int,
    IntErrorKind,
>
    decreases b.len(),
{
    if b.len() == 0 {
        Ok(acc)
    } else if !is_digit(b[0]) {
        Err(IntErrorKind::InvalidDigit)
    } else {
        let d = b[0] - 0x30;
        let v = if negative {
            acc * 10 - d
        } else {
            acc * 10 + d
        };
        if negative && v < min {
            Err(IntErrorKind::NegOverflow)
        } else if !negative && v > max {
            Err(IntErrorKind::PosOverflow)
        } else {
            accumulate(b.subrange(1, b.len() as int), v, min, max, negative)
        }
    }
}

/// `str::parse` of a signed integer type with range `[min, max]`: an
/// optional `+` or `-` sign followed by decimal digits.
pub open spec fn parsed_int(b: Seq<u8>, min: int, max: int) -> Result<int, IntErrorKind> {
    if b.len() == 0 {
        Err(IntErrorKind::Empty)
    } else if (b[0] == 0x2b || b[0] == 0x2d) && b.len() == 1 {
        Err(IntErrorKind::InvalidDigit)
    } else if b[0] == 0x2b {
        accumulate(b.subrange(1, b.len() as int), 0, min, max, false)
    } else if b[0] == 0x2d {
        accumulate(b.subrange(1, b.len() as int), 0, min, max, true)
    } else {
        accumulate(b, 0, min, max, false)
    }
}

/// Parses a signed integer in `[min, max]` as `str::parse` does.
fn parse_int(s: &str, min: i64, max: i64) -> (r: Result<i64, IntErrorKind>)
    requires
        min < 0 < max,
    ensures
        match parsed_int(s.spec_bytes(), min as int, max as int) {
            Ok(v) => r == Ok::<i64, IntErrorKind>(v as i64) && min <= v <= max,
            Err(e) => r == Err::<i64, IntErrorKind>(e),
        },
{
    let b = s.as_bytes();
    let n = b.len();
    if n == 0 {
        return Err(IntErrorKind::Empty);
    }
    if (b[0] == 0x2b || b[0] == 0x2d) && n == 1 {
        return Err(IntErrorKind::InvalidDigit);
    }
    let negative = b[0] == 0x2d;
    let start: usize = if b[0] == 0x2b || b[0] == 0x2d {
        1
    } else {
        0
    };
    let ghost digits = b@.subrange(start as int, n as int);
    proof {
        if start == 0 {
            assert(digits =~= b@);
        }
        assert(parsed_int(b@, min as int, max as int) == accumulate(
            digits,
            0,
            min as int,
            max as int,
            negative,
        ));
    }
    let mut acc: i128 = 0;
    let mut i = start;
    while i < n
        invariant
            b@ == s.spec_bytes(),
            n == b@.len(),
            start <= i <= n,
            digits == b@.subrange(start as int, n as int),
            parsed_int(b@, min as int, max as int) == accumulate(
                digits,
                0,
                min as int,
                max as int,
                negative,
            ),
            min < 0 < max,
            min as int <= acc <= max as int,
            negative ==> acc <= 0,
            !negative ==> acc >= 0,
            accumulate(digits, 0, min as int, max as int, negative) == accumulate(
                b@.subrange(i as int, n as int),
                acc as int,
                min as int,
                max as int,
                negative,
            ),
        decreases n - i,
    {
        let c = b[i];
        let ghost rest = b@.subrange(i as int, n as int);
        assert(rest[0] == c);
        if c < 0x30 || c > 0x39 {
            assert(accumulate(rest, acc as int, min as int, max as int, negative) == Err::<
                int,
                IntErrorKind,
            >(IntErrorKind::InvalidDigit));
            return Err(IntErrorKind::InvalidDigit);
        }
        let d = (c - 0x30) as i128;
        let v: i128 = if negative {
            acc * 10 - d
        } else {
            acc * 10 + d
        };
        if negative && v < min as i128 {
            assert(accumulate(rest, acc as int, min as int, max as int, negative) == Err::<
                int,
                IntErrorKind,
            >(IntErrorKind::NegOverflow));
            return Err(IntErrorKind::NegOverflow);
        }
        if !negative && v > max as i128 {
            assert(accumulate(rest, acc as int, min as int, max as int, negative) == Err::<
                int,
                IntErrorKind,
            >(IntErrorKind::PosOverflow));
            return Err(IntErrorKind::PosOverflow);
        }
        proof {
            assert(rest.subrange(1, rest.len() as int) =~= b@.subrange(i + 1, n as int));
        }
        acc = v;
        i = i + 1;
    }
    proof {
        assert(b@.subrange(i as int, n as int).len() == 0);
    }
    Ok(acc as i64)
}

/// The value that an argument text denotes for a parameter kind; `None`
/// for `Float` and `Double`, whose text the caller reads.
pub open spec fn value_matches(
    s: Seq<char>,
    kind: ValueKind,
    r: Result<Option<DuckDBValue>, IntErrorKind>,
) -> bool {
    match kind {
        ValueKind::Boolean => r == Ok::<Option<DuckDBValue>, IntErrorKind>(
            Some(DuckDBValue::Boolean(truthy(lowercase(s)))),
        ),
        ValueKind::TinyInt => match parsed_int(encode_utf8(s), -128, 127) {
            Ok(v) => r == Ok::<Option<DuckDBValue>, IntErrorKind>(
                Some(DuckDBValue::TinyInt(v as i8)),
            ),
            Err(e) => r == Err::<Option<DuckDBValue>, IntErrorKind>(e),
        },
        ValueKind::SmallInt => match parsed_int(encode_utf8(s), -32768, 32767) {
            Ok(v) => r == Ok::<Option<DuckDBValue>, IntErrorKind>(
                Some(DuckDBValue::SmallInt(v as i16)),
            ),
            Err(e) => r == Err::<Option<DuckDBValue>, IntErrorKind>(e),
        },
        ValueKind::Integer => match parsed_int(encode_utf8(s), i32::MIN as int, i32::MAX as int) {
            Ok(v) => r == Ok::<Option<DuckDBValue>, IntErrorKind>(
                Some(DuckDBValue::Integer(v as i32)),
            ),
            Err(e) => r == Err::<Option<DuckDBValue>, IntErrorKind>(e),
        },
        ValueKind::BigInt => match parsed_int(encode_utf8(s), i64::MIN as int, i64::MAX as int) {
            Ok(v) => r == Ok::<Option<DuckDBValue>, IntErrorKind>(
                Some(DuckDBValue::BigInt(v as i64)),
            ),
            Err(e) => r == Err::<Option<DuckDBValue>, IntErrorKind>(e),
        },
        ValueKind::Float | ValueKind::Double => r == Ok::<Option<DuckDBValue>, IntErrorKind>(
            None,
        ),
        ValueKind::Varchar => r matches Ok(Some(DuckDBValue::Varchar(t))) && t@ == s,
    }
}

/// Reads an argument text as a value of the parameter's kind. Reading a
/// floating-point number is the caller's part: for `Float` and `Double`
/// the result is `Ok(None)`.
pub fn parse_string_to_value(s: &str, kind: ValueKind) -> (r: Result<
    Option<DuckDBValue>,
    IntErrorKind,
>)
    ensures
        value_matches(s@, kind, r),
{
    match kind {
        ValueKind::Boolean => {
            let lower = to_lowercase(s);
            Ok(Some(DuckDBValue::Boolean(is_truthy(lower.as_str()))))
        },
        ValueKind::TinyInt => match parse_int(s, -128, 127) {
            Ok(v) => Ok(Some(DuckDBValue::TinyInt(v as i8))),
            Err(e) => Err(e),
        },
        ValueKind::SmallInt => match parse_int(s, -32768, 32767) {
            Ok(v) => Ok(Some(DuckDBValue::SmallInt(v as i16))),
            Err(e) => Err(e),
        },
        ValueKind::Integer => match parse_int(s, i32::MIN as i64, i32::MAX as i64) {
            Ok(v) => Ok(Some(DuckDBValue::Integer(v as i32))),
            Err(e) => Err(e),
        },
        ValueKind::BigInt => match parse_int(s, i64::MIN, i64::MAX) {
            Ok(v) => Ok(Some(DuckDBValue::BigInt(v))),
            Err(e) => Err(e),
        },
        ValueKind::Float | ValueKind::Double => Ok(None),
        ValueKind::Varchar => Ok(Some(DuckDBValue::Varchar(s.to_owned()))),
    }
}

} // verus!
