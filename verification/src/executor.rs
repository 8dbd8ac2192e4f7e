//! Values exchanged with Python, and the Python source that runs a function body.
use vstd::prelude::*;
use vstd::string::StringExecFns;
use vstd::string::StringSliceAdditionalSpecFns;
use vstd::utf8::*;

use crate::parser::{
    FunctionDefinition, FunctionParameter,
};
use crate::text::{
    ascii_upper, index_of_byte, index_of_byte_from, lemma_ascii_boundary, lemma_boundary_at,
    lemma_encode_valid, lemma_index_of_byte, str_eq, substr, to_uppercase, uppercase,
};

verus! {

broadcast use vstd::seq::group_seq_axioms, vstd::seq_lib::group_seq_properties;

/// A value passed between DuckDB and Python.
///
/// `Float` and `Double` hold the IEEE 754 bit pattern of the number.
#[derive(Debug, Clone, PartialEq)]
pub enum DuckDBValue {
    Null,
    Boolean(bool),
    TinyInt(i8),
    SmallInt(i16),
    Integer(i32),
    BigInt(i64),
    Float(u32),
    Double(u64),
    Varchar(String),
    Blob(Vec<u8>),
}

impl DuckDBValue {
    /// The DuckDB type name of this value.
    pub fn value_type_name(&self) -> (r: &'static str)
        ensures
            r@ == match self {
                DuckDBValue::Null => "NULL"@,
                DuckDBValue::Boolean(_) => "BOOLEAN"@,
                DuckDBValue::TinyInt(_) => "TINYINT"@,
                DuckDBValue::SmallInt(_) => "SMALLINT"@,
                DuckDBValue::Integer(_) => "INTEGER"@,
                DuckDBValue::BigInt(_) => "BIGINT"@,
                DuckDBValue::Float(_) => "FLOAT"@,
                DuckDBValue::Double(_) => "DOUBLE"@,
                DuckDBValue::Varchar(_) => "VARCHAR"@,
                DuckDBValue::Blob(_) => "BLOB"@,
            },
    {
        match self {
            DuckDBValue::Null => "NULL",
            DuckDBValue::Boolean(_) => "BOOLEAN",
            DuckDBValue::TinyInt(_) => "TINYINT",
            DuckDBValue::SmallInt(_) => "SMALLINT",
            DuckDBValue::Integer(_) => "INTEGER",
            DuckDBValue::BigInt(_) => "BIGINT",
            DuckDBValue::Float(_) => "FLOAT",
            DuckDBValue::Double(_) => "DOUBLE",
            DuckDBValue::Varchar(_) => "VARCHAR",
            DuckDBValue::Blob(_) => "BLOB",
        }
    }
}

/// How a Python result is read for an expected DuckDB type.
#[derive(Debug, Clone, Copy, PartialEq, Eq)]
pub enum ResultKind {
    Boolean,
    TinyInt,
    SmallInt,
    Integer,
    BigInt,
    Float,
    Double,
    Varchar,
    Blob,
    /// The type is read from the Python value itself.
    Inferred,
}

/// The kind of result that an uppercase expected type name asks for.
pub open spec fn result_kind_upper(u: Seq<char>) -> ResultKind {
    if u == "BOOLEAN"@ {
        ResultKind::Boolean
    } else if u == "TINYINT"@ {
        ResultKind::TinyInt
    } else if u == "SMALLINT"@ {
        ResultKind::SmallInt
    } else if u == "INTEGER"@ || u == "INT"@ {
        ResultKind::Integer
    } else if u == "BIGINT"@ {
        ResultKind::BigInt
    } else if u == "FLOAT"@ || u == "REAL"@ {
        ResultKind::Float
    } else if u == "DOUBLE"@ {
        ResultKind::Double
    } else if u == "VARCHAR"@ || u == "STRING"@ || u == "TEXT"@ {
        ResultKind::Varchar
    } else if u == "BLOB"@ || u == "BINARY"@ {
        ResultKind::Blob
    } else {
        ResultKind::Inferred
    }
}

/// The kind of result that an expected type name (in any case) asks for.
pub open spec fn result_kind_of(expected_type: Seq<char>) -> ResultKind {
    result_kind_upper(uppercase(expected_type))
}

/// The kind of result that an uppercase return type asks Python for.
pub fn result_kind_of_upper(u: &str) -> (r: ResultKind)
    ensures
        r == result_kind_upper(u@),
{
    if str_eq(u, "BOOLEAN") {
        ResultKind::Boolean
    } else if str_eq(u, "TINYINT") {
        ResultKind::TinyInt
    } else if str_eq(u, "SMALLINT") {
        ResultKind::SmallInt
    } else if str_eq(u, "INTEGER") || str_eq(u, "INT") {
        ResultKind::Integer
    } else if str_eq(u, "BIGINT") {
        ResultKind::BigInt
    } else if str_eq(u, "FLOAT") || str_eq(u, "REAL") {
        ResultKind::Float
    } else if str_eq(u, "DOUBLE") {
        ResultKind::Double
    } else if str_eq(u, "VARCHAR") || str_eq(u, "STRING") || str_eq(u, "TEXT") {
        ResultKind::Varchar
    } else if str_eq(u, "BLOB") || str_eq(u, "BINARY") {
        ResultKind::Blob
    } else {
        ResultKind::Inferred
    }
}

/// The kind of result that the function's return type asks Python for.
pub fn result_kind(expected_type: &str) -> (r: ResultKind)
    ensures
        r == result_kind_of(expected_type@),
        is_ascii_chars(expected_type@) ==> r == result_kind_upper(ascii_upper(expected_type@)),
{
    let up = to_uppercase(expected_type);
    result_kind_of_upper(up.as_str())
}

/// A Python integer of inferred type: `INTEGER` where it fits in 32 bits,
/// else `BIGINT`.
pub fn integer_value(v: i64) -> (r: DuckDBValue)
    ensures
        i32::MIN <= v <= i32::MAX ==> r == DuckDBValue::Integer(v as i32),
        !(i32::MIN <= v <= i32::MAX) ==> r == DuckDBValue::BigInt(v),
{
    if v >= i32::MIN as i64 && v <= i32::MAX as i64 {
        DuckDBValue::Integer(v as i32)
    } else {
        DuckDBValue::BigInt(v)
    }
}

// ---------------------------------------------------------------------------
// The Python wrapper around a function body
// ---------------------------------------------------------------------------
/// `str::lines`: the text split at `\n`, each line without its `\n` and
/// without a `\r` just before it; a final line ending adds no empty line.
pub open spec fn lines(b: Seq<u8>) -> Seq<Seq<u8>>
    decreases b.len(),
{
    let i = index_of_byte(b, 0x0a) as int;
    proof {
        lemma_index_of_byte(b, 0x0a);
    }
    if b.len() == 0 {
        seq![]
    } else if i >= b.len() {
        seq![b]
    } else {
        let line = b.subrange(0, i);
        let line = if line.len() > 0 && line.last() == 0x0d {
            line.drop_last()
        } else {
            line
        };
        seq![line] + lines(b.subrange(i + 1, b.len() as int))
    }
}

/// The lines, each indented by four spaces, joined by `\n`.
pub open spec fn indented(ls: Seq<Seq<u8>>) -> Seq<char>
    decreases ls.len(),
{
    if ls.len() == 0 {
        seq![]
    } else if ls.len() == 1 {
        "    "@ + decode_utf8(ls[0])
    } else {
        indented(ls.drop_last()) + "\n"@ + "    "@ + decode_utf8(ls.last())
    }
}

/// Names joined by `, `.
pub open spec fn comma_joined(ns: Seq<Seq<char>>) -> Seq<char>
    decreases ns.len(),
{
    if ns.len() == 0 {
        seq![]
    } else if ns.len() == 1 {
        ns[0]
    } else {
        comma_joined(ns.drop_last()) + ", "@ + ns.last()
    }
}

/// The Python source that defines the body as a function of the parameters
/// and stores the result of calling it.
pub open spec fn wrapper_code(names: Seq<Seq<char>>, body: Seq<char>) -> Seq<char> {
    let params = comma_joined(names);
    "def __pyfunc_wrapper__("@ + params + "):\n"@ + indented(lines(encode_utf8(body)))
        + "\n\n__pyfunc_result__ = __pyfunc_wrapper__("@ + params + ")\n"@
}

/// The parameter names of a definition.
pub open spec fn param_names(ps: Seq<FunctionParameter>) -> Seq<Seq<char>> {
    ps.map_values(|p: FunctionParameter| p.name@)
}

/// `names.join(", ")`.
fn join_param_names(ps: &Vec<FunctionParameter>) -> (r: String)
    ensures
        r@ == comma_joined(param_names(ps@)),
{
    let mut r = String::new();
    let mut i: usize = 0;
    while i < ps.len()
        invariant
            i <= ps@.len(),
            r@ == comma_joined(param_names(ps@.subrange(0, i as int))),
        decreases ps@.len() - i,
    {
        proof {
            let next = param_names(ps@.subrange(0, i + 1));
            assert(next.drop_last() =~= param_names(ps@.subrange(0, i as int)));
            assert(next.last() == ps@[i as int].name@);
        }
        if i > 0 {
            r.append(", ");
        }
        r.append(ps[i].name.as_str());
        i = i + 1;
    }
    assert(ps@.subrange(0, i as int) =~= ps@);
    r
}

/// The body's lines, each indented by four spaces, joined by `\n`.
fn indent_lines(body: &str) -> (r: String)
    ensures
        r@ == indented(lines(body.spec_bytes())),
{
    let ghost bs = body.spec_bytes();
    let n = body.as_bytes().len();
    let b = body.as_bytes();
    proof {
        lemma_encode_valid(body@);
        is_char_boundary_start_end_of_seq(bs);
        assert(bs.subrange(0, n as int) =~= bs);
    }
    let mut r = String::new();
    let mut first = true;
    let mut p: usize = 0;
    let ghost mut done: Seq<Seq<u8>> = seq![];
    while p < n
        invariant
            bs == body.spec_bytes(),
            b@ == bs,
            valid_utf8(bs),
            n == bs.len(),
            p <= n,
            is_char_boundary(bs, p as int),
            lines(bs) == done + lines(bs.subrange(p as int, n as int)),
            r@ == indented(done),
            first == (done.len() == 0),
        decreases n - p,
    {
        let ghost rest = bs.subrange(p as int, n as int);
        let nl = index_of_byte_from(body, p, 0x0a);
        proof {
            lemma_index_of_byte(rest, 0x0a);
            if nl < n {
                lemma_ascii_boundary(bs, nl as int);
            } else {
                lemma_boundary_at(bs, nl as int);
            }
        }
        let mut end = nl;
        if nl < n && end > p && b[end - 1] == 0x0d {
            proof {
                lemma_ascii_boundary(bs, end - 1);
            }
            end = end - 1;
        }
        let line = substr(body, p, end);
        proof {
            lemma_encode_valid(line@);
            assert(rest.subrange(0, (nl - p) as int) =~= bs.subrange(p as int, nl as int));
            let l0 = bs.subrange(p as int, nl as int);
            if nl < n && nl > p && bs[nl - 1] == 0x0d {
                assert(l0.drop_last() =~= bs.subrange(p as int, end as int));
            } else {
                assert(l0 =~= bs.subrange(p as int, end as int));
            }
            if nl < n {
                assert(rest.subrange((nl - p) + 1, rest.len() as int) =~= bs.subrange(
                    nl + 1,
                    n as int,
                ));
            }
        }
        if !first {
            r.append("\n");
        }
        r.append("    ");
        r.append(line);
        proof {
            let nd = done.push(line.spec_bytes());
            assert(nd.drop_last() =~= done);
            assert(nd.last() == line.spec_bytes());
            assert(decode_utf8(line.spec_bytes()) == line@);
            if nl < n {
                assert(lines(rest) == seq![line.spec_bytes()] + lines(
                    bs.subrange(nl + 1, n as int),
                ));
                assert(done + lines(rest) =~= nd + lines(bs.subrange(nl + 1, n as int)));
            } else {
                assert(lines(rest) == seq![line.spec_bytes()]);
                assert(lines(bs.subrange(n as int, n as int)) == Seq::<Seq<u8>>::empty());
                assert(done + lines(rest) =~= nd + lines(bs.subrange(n as int, n as int)));
            }
            done = nd;
        }
        first = false;
        p = if nl < n { nl + 1 } else { n };
    }
    proof {
        assert(lines(bs.subrange(p as int, n as int)) == Seq::<Seq<u8>>::empty());
        assert(done + Seq::<Seq<u8>>::empty() =~= done);
    }
    r
}

/// Runs function bodies as Python code.
pub struct PythonExecutor;

impl PythonExecutor {
    /// Python code that wraps the user's function body: it defines the body as
    /// `__pyfunc_wrapper__(params)` and stores its result in `__pyfunc_result__`.
    pub fn create_wrapper_code(func_def: &FunctionDefinition) -> (r: String)
        ensures
            r@ == wrapper_code(param_names(func_def.parameters@), func_def.body@),
    {
        let params = join_param_names(&func_def.parameters);
        let body = indent_lines(func_def.body.as_str());
        let mut r = String::new();
        r.append("def __pyfunc_wrapper__(");
        r.append(params.as_str());
        r.append("):\n");
        r.append(body.as_str());
        r.append("\n\n__pyfunc_result__ = __pyfunc_wrapper__(");
        r.append(params.as_str());
        r.append(")\n");
        r
    }
}

} // verus!
