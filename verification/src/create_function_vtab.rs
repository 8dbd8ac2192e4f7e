//! The table functions `create_py_function`, `py_call` and
//! `list_py_functions`: their bind data, their state and what each step
//! decides. Reading arguments from DuckDB and writing rows back is the
//! caller's part.
use vstd::prelude::*;
use vstd::string::StringExecFns;
use vstd::utf8::encode_utf8;

use crate::executor::DuckDBValue;
use crate::parser::{
    normalize_sql_type, normalized_type, parameters_of, parse_params_string, DefinitionView,
    FunctionDefinition, ParameterView,
};
use crate::registry::{get_function, register_function, registry_key, FunctionRegistry};
use crate::types::{logical_type_of, string_to_logical_type, LogicalTypeId};
use crate::values::{
    parse_string_to_value, value_kind, value_kind_of, value_matches, IntErrorKind, ValueKind,
};

verus! {

broadcast use vstd::seq::group_seq_axioms, vstd::seq_lib::group_seq_properties;

/// The message that `create_py_function` answers with.
pub open spec fn created_message(name: Seq<char>) -> Seq<char> {
    "Function '"@ + name + "' created successfully"@
}

/// The error for a call of a function that is not registered.
pub open spec fn not_found_message(name: Seq<char>) -> Seq<char> {
    "Function '"@ + name + "' not found"@
}

/// The definition that `create_py_function` makes from its four arguments
/// and the parsed parameters.
pub open spec fn defined_function(
    name: Seq<char>,
    params: Seq<ParameterView>,
    return_type: Seq<char>,
    body: Seq<char>,
) -> DefinitionView {
    DefinitionView {
        name,
        parameters: params,
        return_type: normalized_type(return_type),
        language: "PYTHON"@,
        body,
    }
}

fn quoted_message(before: &str, name: &str, after: &str) -> (r: String)
    ensures
        r@ == before@ + name@ + after@,
{
    let mut r = String::new();
    r.append(before);
    r.append(name);
    r.append(after);
    r
}

/// Bind data for `create_py_function`.
pub struct CreateFunctionBindData {
    pub func_name: String,
    pub params_str: String,
    pub return_type: String,
    pub body: String,
    pub message: String,
}

/// Init data for `create_py_function`: whether its row was produced.
pub struct CreateFunctionInitData {
    pub done: bool,
}

/// The table function `create_py_function(name, params, return_type, body)`.
pub struct CreateFunctionVTab;

impl CreateFunctionVTab {
    /// Parses the parameters, registers the function and keeps the message to show.
    pub fn bind(
        registry: &mut FunctionRegistry,
        func_name: String,
        params_str: String,
        return_type: String,
        body: String,
    ) -> (r: Result<CreateFunctionBindData, String>)
        ensures
            match parameters_of(encode_utf8(params_str@), true) {
                Err(m) => r matches Err(e) && e@ == m && final(registry)@ == old(registry)@
                    && final(registry).names() == old(registry).names(),
                Ok(ps) => r matches Ok(d) && d.message@ == created_message(func_name@)
                    && d.func_name@ == func_name@ && d.params_str@ == params_str@
                    && d.return_type@ == return_type@ && d.body@ == body@
                    && final(registry)@ == old(registry)@.insert(
                    registry_key(func_name@),
                    defined_function(func_name@, ps, return_type@, body@),
                ) && final(registry).names() == if old(registry).names().contains(
                    registry_key(func_name@),
                ) {
                    old(registry).names()
                } else {
                    old(registry).names().push(registry_key(func_name@))
                },
            },
    {
        let parameters = match parse_params_string(params_str.as_str()) {
            Ok(ps) => ps,
            Err(e) => return Err(e),
        };
        let func_def = FunctionDefinition {
            name: func_name.clone(),
            parameters,
            return_type: normalize_sql_type(return_type.as_str()),
            language: "PYTHON".to_owned(),
            body: body.clone(),
        };
        let _ = register_function(registry, func_def);
        let message = quoted_message("Function '", func_name.as_str(), "' created successfully");
        Ok(CreateFunctionBindData { func_name, params_str, return_type, body, message })
    }

    /// The state before any row was produced.
    pub fn init() -> (r: CreateFunctionInitData)
        ensures
            !r.done,
    {
        CreateFunctionInitData { done: false }
    }

    /// The next row: the message the first time, then no more rows.
    pub fn func(init: &mut CreateFunctionInitData, bind: &CreateFunctionBindData) -> (r: Option<
        String,
    >)
        ensures
            final(init).done,
            old(init).done ==> r is None,
            !old(init).done ==> (r matches Some(m) && m@ == bind.message@),
    {
        if init.done {
            None
        } else {
            init.done = true;
            Some(bind.message.clone())
        }
    }

    /// The parameters it takes: name, parameters, return type and body, all text.
    pub fn parameters() -> (r: Vec<LogicalTypeId>)
        ensures
            r@ == seq![
                LogicalTypeId::Varchar,
                LogicalTypeId::Varchar,
                LogicalTypeId::Varchar,
                LogicalTypeId::Varchar,
            ],
    {
        vec![
            LogicalTypeId::Varchar,
            LogicalTypeId::Varchar,
            LogicalTypeId::Varchar,
            LogicalTypeId::Varchar,
        ]
    }
}

/// `py_call(name, ...)` at bind time: the registered function and the
/// logical type of its result.
pub fn resolve_call(registry: &FunctionRegistry, func_name: &str) -> (r: Result<
    (FunctionDefinition, LogicalTypeId),
    String,
>)
    ensures
        registry@.contains_key(registry_key(func_name@)) ==> (r matches Ok((d, t)) && d@
            == registry@[registry_key(func_name@)] && t == logical_type_of(d.return_type@)),
        !registry@.contains_key(registry_key(func_name@)) ==> (r matches Err(e) && e@
            == not_found_message(func_name@)),
{
    match get_function(registry, func_name) {
        Some(d) => {
            let t = string_to_logical_type(d.return_type.as_str());
            Ok((d, t))
        },
        None => Err(quoted_message("Function '", func_name, "' not found")),
    }
}

/// Bind data for `py_call`: the function, its arguments as text, and the
/// type of the result column that bind declared.
pub struct PyCallBindData {
    pub func_name: String,
    pub args: Vec<String>,
    pub result_type: LogicalTypeId,
}

/// Init data for `py_call`: whether its row was produced.
pub struct PyCallInitData {
    pub done: bool,
}

/// The table function `py_call(name, args := [...])`.
pub struct PyCallVTab;

impl PyCallVTab {
    /// Looks the function up and gives the bind data and the type of the
    /// result column.
    pub fn bind(registry: &FunctionRegistry, func_name: String, args: Vec<String>) -> (r: Result<
        (PyCallBindData, LogicalTypeId),
        String,
    >)
        ensures
            registry@.contains_key(registry_key(func_name@)) ==> (r matches Ok((d, t))
                && d.func_name@ == func_name@ && d.args@ == args@ && t == logical_type_of(
                registry@[registry_key(func_name@)].return_type,
            ) && d.result_type == t),
            !registry@.contains_key(registry_key(func_name@)) ==> (r matches Err(e) && e@
                == not_found_message(func_name@)),
    {
        match resolve_call(registry, func_name.as_str()) {
            Ok((_, t)) => Ok((PyCallBindData { func_name, args, result_type: t }, t)),
            Err(e) => Err(e),
        }
    }

    /// The state before any row was produced.
    pub fn init() -> (r: PyCallInitData)
        ensures
            !r.done,
    {
        PyCallInitData { done: false }
    }

    /// The first step of producing rows: `None` once the row was produced,
    /// else the function to run (looked up again, as it may have changed).
    pub fn start_call(
        init: &mut PyCallInitData,
        registry: &FunctionRegistry,
        bind: &PyCallBindData,
    ) -> (r: Result<Option<FunctionDefinition>, String>)
        ensures
            final(init).done,
            old(init).done ==> r matches Ok(None),
            !old(init).done && registry@.contains_key(registry_key(bind.func_name@)) ==> (r matches Ok(
                Some(d),
            ) && d@ == registry@[registry_key(bind.func_name@)]),
            !old(init).done && !registry@.contains_key(registry_key(bind.func_name@)) ==> (
            r matches Err(e) && e@ == not_found_message(bind.func_name@)),
    {
        if init.done {
            return Ok(None);
        }
        init.done = true;
        match resolve_call(registry, bind.func_name.as_str()) {
            Ok((d, _)) => Ok(Some(d)),
            Err(e) => Err(e),
        }
    }

    /// The positional parameters it takes: the function name, as text.
    /// DuckDB's table functions take no variable number of positional
    /// arguments, so the call's arguments come as a list of text in the
    /// named parameter `arguments_parameter()`:
    /// `py_call('add', args := ['1', '2'])`.
    pub fn parameters() -> (r: Vec<LogicalTypeId>)
        ensures
            r@ == seq![LogicalTypeId::Varchar],
    {
        vec![LogicalTypeId::Varchar]
    }

    /// The name of the named parameter that holds the call's arguments, a
    /// list of text.
    pub fn arguments_parameter() -> (r: &'static str)
        ensures
            r@ == "args"@,
    {
        proof {
            reveal_strlit("args");
        }
        "args"
    }
}

/// How the argument at `index` of a call is read: by its parameter's type,
/// or as text where the function has fewer parameters.
pub open spec fn argument_kind_of(params: Seq<ParameterView>, index: int) -> ValueKind {
    if index < params.len() {
        value_kind_of(params[index].data_type)
    } else {
        ValueKind::Varchar
    }
}

/// How the argument at `index` of a call is read.
pub fn argument_kind(func_def: &FunctionDefinition, index: usize) -> (r: ValueKind)
    ensures
        r == argument_kind_of(func_def@.parameters, index as int),
{
    if index < func_def.parameters.len() {
        value_kind(func_def.parameters[index].data_type.as_str())
    } else {
        ValueKind::Varchar
    }
}

/// Reads each argument of a call with its parameter's kind, in order. An
/// `Ok(None)` stands for a `FLOAT` or `DOUBLE` argument, whose text the
/// caller reads; the first argument that cannot be read is the call's error.
pub fn read_arguments(func_def: &FunctionDefinition, args: &Vec<String>) -> (r: Vec<
    Result<Option<DuckDBValue>, IntErrorKind>,
>)
    ensures
        r@.len() == args@.len(),
        forall|i: int|
            0 <= i < args@.len() ==> value_matches(
                #[trigger] args@[i]@,
                argument_kind_of(func_def@.parameters, i),
                r@[i],
            ),
{
    let mut r: Vec<Result<Option<DuckDBValue>, IntErrorKind>> = Vec::new();
    let mut i: usize = 0;
    while i < args.len()
        invariant
            i <= args@.len(),
            r@.len() == i,
            forall|k: int|
                0 <= k < i ==> value_matches(
                    #[trigger] args@[k]@,
                    argument_kind_of(func_def@.parameters, k),
                    r@[k],
                ),
        decreases args@.len() - i,
    {
        let kind = argument_kind(func_def, i);
        r.push(parse_string_to_value(args[i].as_str(), kind));
        i = i + 1;
    }
    r
}

/// True when the argument at `j` is the first that could not be read, with
/// the error `e`.
pub open spec fn fails_first(read: Seq<Result<DuckDBValue, String>>, j: int, e: String) -> bool {
    &&& 0 <= j < read.len()
    &&& read[j] == Err::<DuckDBValue, String>(e)
    &&& forall|i: int| 0 <= i < j ==> (#[trigger] read[i]) is Ok
}

/// The values a call runs with: the read argument values in order, or the
/// error of the first argument that could not be read, which fails the call.
pub fn call_arguments(read: Vec<Result<DuckDBValue, String>>) -> (r: Result<
    Vec<DuckDBValue>,
    String,
>)
    ensures
        r matches Ok(vs) ==> vs@.len() == read@.len() && forall|i: int|
            0 <= i < read@.len() ==> read@[i] == Ok::<DuckDBValue, String>(#[trigger] vs@[i]),
        r matches Err(e) ==> exists|j: int| #[trigger] fails_first(read@, j, e),
{
    let ghost all = read@;
    let mut rest = read;
    let mut vs: Vec<DuckDBValue> = Vec::new();
    let mut failed: Option<String> = None;
    while rest.len() > 0
        invariant_except_break
            failed is None,
            vs@.len() + rest@.len() == all.len(),
            rest@ == all.subrange(vs@.len() as int, all.len() as int),
        invariant
            vs@.len() <= all.len(),
            forall|i: int|
                0 <= i < vs@.len() ==> all[i] == Ok::<DuckDBValue, String>(#[trigger] vs@[i]),
        ensures
            failed matches Some(e) ==> fails_first(all, vs@.len() as int, e),
            failed is None ==> vs@.len() == all.len(),
        decreases rest@.len(),
    {
        let k = vs.len();
        let next = rest.remove(0);
        assert(next == all[k as int]);
        match next {
            Ok(v) => {
                vs.push(v);
                assert(rest@ =~= all.subrange(vs@.len() as int, all.len() as int));
            },
            Err(e) => {
                assert forall|i: int| 0 <= i < k implies (#[trigger] all[i]) is Ok by {
                    assert(all[i] == Ok::<DuckDBValue, String>(vs@[i]));
                }
                failed = Some(e);
                break;
            },
        }
    }
    match failed {
        Some(e) => {
            assert(fails_first(read@, vs@.len() as int, e));
            let res: Result<Vec<DuckDBValue>, String> = Err(e);
            assert(res matches Err(e2) && fails_first(read@, vs@.len() as int, e2));
            assert(res matches Err(e2) ==> exists|j: int| #[trigger] fails_first(read@, j, e2));
            res
        },
        None => Ok(vs),
    }
}

// ---------------------------------------------------------------------------
// Results as text
// ---------------------------------------------------------------------------
/// The decimal digit `d` as a character.
pub open spec fn digit_char(d: int) -> char {
    if d == 0 {
        '0'
    } else if d == 1 {
        '1'
    } else if d == 2 {
        '2'
    } else if d == 3 {
        '3'
    } else if d == 4 {
        '4'
    } else if d == 5 {
        '5'
    } else if d == 6 {
        '6'
    } else if d == 7 {
        '7'
    } else if d == 8 {
        '8'
    } else {
        '9'
    }
}

/// The decimal digits of a natural number, most significant first.
pub open spec fn digits(m: nat) -> Seq<char>
    decreases m,
{
    if m < 10 {
        seq![digit_char(m as int)]
    } else {
        digits(m / 10) + seq![digit_char((m % 10) as int)]
    }
}

/// An integer in decimal, as `to_string` writes it.
pub open spec fn decimal(n: int) -> Seq<char> {
    if n < 0 {
        seq!['-'] + digits((-n) as nat)
    } else {
        digits(n as nat)
    }
}

fn digit_str(d: u64) -> (r: &'static str)
    requires
        d < 10,
    ensures
        r@ == seq![digit_char(d as int)],
{
    if d == 0 {
        proof { reveal_strlit("0"); }
        "0"
    } else if d == 1 {
        proof { reveal_strlit("1"); }
        "1"
    } else if d == 2 {
        proof { reveal_strlit("2"); }
        "2"
    } else if d == 3 {
        proof { reveal_strlit("3"); }
        "3"
    } else if d == 4 {
        proof { reveal_strlit("4"); }
        "4"
    } else if d == 5 {
        proof { reveal_strlit("5"); }
        "5"
    } else if d == 6 {
        proof { reveal_strlit("6"); }
        "6"
    } else if d == 7 {
        proof { reveal_strlit("7"); }
        "7"
    } else if d == 8 {
        proof { reveal_strlit("8"); }
        "8"
    } else {
        proof { reveal_strlit("9"); }
        "9"
    }
}

fn append_digits(r: &mut String, m: u64)
    ensures
        final(r)@ == old(r)@ + digits(m as nat),
    decreases m,
{
    if m >= 10 {
        append_digits(r, m / 10);
    }
    r.append(digit_str(m % 10));
}

/// An integer in decimal.
pub fn integer_text(n: i64) -> (r: String)
    ensures
        r@ == decimal(n as int),
{
    let mut r = String::new();
    if n < 0 {
        proof {
            reveal_strlit("-");
        }
        r.append("-");
        let m: u64 = (-(n as i128)) as u64;
        append_digits(&mut r, m);
    } else {
        append_digits(&mut r, n as u64);
    }
    r
}

/// The row that `py_call` produces for a result.
#[derive(Debug, PartialEq)]
pub enum ResultRow {
    /// No row: the result is `NULL`.
    NoRow,
    Boolean(bool),
    TinyInt(i8),
    SmallInt(i16),
    Integer(i32),
    BigInt(i64),
    /// A `FLOAT`, by its bit pattern.
    Float(u32),
    /// A `DOUBLE`, by its bit pattern.
    Double(u64),
    Blob(Vec<u8>),
    /// Text, written into the result column whatever its type.
    Text(String),
    /// Text that the caller writes from the bit pattern of a `DOUBLE`.
    DoubleText(u64),
}

/// The message written for a result that has no text form.
pub open spec fn unsupported_message() -> Seq<char> {
    "Unsupported return type"@
}

/// The text that is written for a result whose type is not the result
/// column's: text as it is, integers in decimal, booleans as `true` or
/// `false`, a `DOUBLE` as the caller writes it, and for other values the
/// message `Unsupported return type`.
pub open spec fn text_row(value: DuckDBValue, r: ResultRow) -> bool {
    match value {
        DuckDBValue::Null => r is NoRow,
        DuckDBValue::Varchar(s) => r matches ResultRow::Text(t) && t@ == s@,
        DuckDBValue::Integer(v) => r matches ResultRow::Text(t) && t@ == decimal(v as int),
        DuckDBValue::BigInt(v) => r matches ResultRow::Text(t) && t@ == decimal(v as int),
        DuckDBValue::Double(bits) => r == ResultRow::DoubleText(bits),
        DuckDBValue::Boolean(b) => r matches ResultRow::Text(t) && t@ == (if b {
            "true"@
        } else {
            "false"@
        }),
        _ => r matches ResultRow::Text(t) && t@ == unsupported_message(),
    }
}

/// The row for `value` in a result column of type `column`: the value
/// itself where its type is the column's, and its text otherwise.
pub open spec fn row_of(value: DuckDBValue, column: LogicalTypeId, r: ResultRow) -> bool {
    match value {
        DuckDBValue::Boolean(b) if column == LogicalTypeId::Boolean => r == ResultRow::Boolean(
            b,
        ),
        DuckDBValue::TinyInt(v) if column == LogicalTypeId::Tinyint => r == ResultRow::TinyInt(v),
        DuckDBValue::SmallInt(v) if column == LogicalTypeId::Smallint => r == ResultRow::SmallInt(
            v,
        ),
        DuckDBValue::Integer(v) if column == LogicalTypeId::Integer => r == ResultRow::Integer(v),
        DuckDBValue::BigInt(v) if column == LogicalTypeId::Bigint => r == ResultRow::BigInt(v),
        DuckDBValue::Float(bits) if column == LogicalTypeId::Float => r == ResultRow::Float(bits),
        DuckDBValue::Double(bits) if column == LogicalTypeId::Double => r == ResultRow::Double(
            bits,
        ),
        DuckDBValue::Blob(bytes) if column == LogicalTypeId::Blob => r matches ResultRow::Blob(w)
            && w@ == bytes@,
        _ => text_row(value, r),
    }
}

fn boolean_text(b: bool) -> (r: String)
    ensures
        r@ == (if b {
            "true"@
        } else {
            "false"@
        }),
{
    if b {
        "true".to_owned()
    } else {
        "false".to_owned()
    }
}

fn copy_bytes(bytes: &Vec<u8>) -> (r: Vec<u8>)
    ensures
        r@ == bytes@,
{
    let mut w: Vec<u8> = Vec::new();
    let mut i: usize = 0;
    while i < bytes.len()
        invariant
            i <= bytes@.len(),
            w@ == bytes@.subrange(0, i as int),
        decreases bytes@.len() - i,
    {
        w.push(bytes[i]);
        i = i + 1;
    }
    assert(bytes@.subrange(0, i as int) =~= bytes@);
    w
}

/// The text row for a result, as `text_row` describes it.
fn render_text(value: &DuckDBValue) -> (r: ResultRow)
    ensures
        text_row(*value, r),
{
    match value {
        DuckDBValue::Null => ResultRow::NoRow,
        DuckDBValue::Varchar(s) => ResultRow::Text(s.clone()),
        DuckDBValue::Integer(v) => ResultRow::Text(integer_text(*v as i64)),
        DuckDBValue::BigInt(v) => ResultRow::Text(integer_text(*v)),
        DuckDBValue::Double(bits) => ResultRow::DoubleText(*bits),
        DuckDBValue::Boolean(b) => ResultRow::Text(boolean_text(*b)),
        _ => ResultRow::Text("Unsupported return type".to_owned()),
    }
}

/// The row that `py_call` writes for a result into its result column of
/// type `column` (the logical type of the function's return type).
pub fn render_result(value: &DuckDBValue, column: LogicalTypeId) -> (r: ResultRow)
    ensures
        row_of(*value, column, r),
{
    match value {
        DuckDBValue::Boolean(b) if column == LogicalTypeId::Boolean => ResultRow::Boolean(*b),
        DuckDBValue::TinyInt(v) if column == LogicalTypeId::Tinyint => ResultRow::TinyInt(*v),
        DuckDBValue::SmallInt(v) if column == LogicalTypeId::Smallint => ResultRow::SmallInt(*v),
        DuckDBValue::Integer(v) if column == LogicalTypeId::Integer => ResultRow::Integer(*v),
        DuckDBValue::BigInt(v) if column == LogicalTypeId::Bigint => ResultRow::BigInt(*v),
        DuckDBValue::Float(bits) if column == LogicalTypeId::Float => ResultRow::Float(*bits),
        DuckDBValue::Double(bits) if column == LogicalTypeId::Double => ResultRow::Double(*bits),
        DuckDBValue::Blob(bytes) if column == LogicalTypeId::Blob => ResultRow::Blob(
            copy_bytes(bytes),
        ),
        _ => render_text(value),
    }
}

// ---------------------------------------------------------------------------
// Listing
// ---------------------------------------------------------------------------
/// Parameters written as `name TYPE`, joined by `, `.
pub open spec fn params_listing(ps: Seq<ParameterView>) -> Seq<char>
    decreases ps.len(),
{
    if ps.len() == 0 {
        seq![]
    } else if ps.len() == 1 {
        ps[0].name + " "@ + ps[0].data_type
    } else {
        params_listing(ps.drop_last()) + ", "@ + ps.last().name + " "@ + ps.last().data_type
    }
}

fn list_params(def: &FunctionDefinition) -> (r: String)
    ensures
        r@ == params_listing(def@.parameters),
{
    let ghost ps = def@.parameters;
    let mut r = String::new();
    let mut i: usize = 0;
    while i < def.parameters.len()
        invariant
            ps == def@.parameters,
            ps.len() == def.parameters@.len(),
            i <= ps.len(),
            r@ == params_listing(ps.subrange(0, i as int)),
        decreases ps.len() - i,
    {
        proof {
            let next = ps.subrange(0, i + 1);
            assert(next.drop_last() =~= ps.subrange(0, i as int));
            assert(next.last() == def.parameters@[i as int]@);
        }
        if i > 0 {
            r.append(", ");
        }
        r.append(def.parameters[i].name.as_str());
        r.append(" ");
        r.append(def.parameters[i].data_type.as_str());
        i = i + 1;
    }
    assert(ps.subrange(0, i as int) =~= ps);
    r
}

/// `list_py_functions()`: for each registered function, its name, its
/// parameters as text and its return type.
fn function_listing(registry: &FunctionRegistry) -> (r: Vec<(String, String, String)>)
    ensures
        r@.len() == registry.names().len(),
        forall|i: int|
            0 <= i < r@.len() ==> {
                &&& #[trigger] r@[i].0@ == registry.names()[i]
                &&& registry@.contains_key(r@[i].0@)
                &&& r@[i].1@ == params_listing(registry@[r@[i].0@].parameters)
                &&& r@[i].2@ == registry@[r@[i].0@].return_type
            },
        forall|i: int, j: int|
            0 <= i < r@.len() && 0 <= j < r@.len() && i != j ==> #[trigger] r@[i].0@
                != #[trigger] r@[j].0@,
        forall|k: Seq<char>|
            #[trigger] registry@.contains_key(k) ==> exists|i: int|
                0 <= i < r@.len() && #[trigger] r@[i].0@ == k,
{
    let mut r: Vec<(String, String, String)> = Vec::new();
    let n = registry.len();
    let mut i: usize = 0;
    while i < n
        invariant
            n == registry.names().len(),
            i <= n,
            r@.len() == i,
            forall|j: int|
                0 <= j < i ==> {
                    &&& #[trigger] r@[j].0@ == registry.names()[j]
                    &&& registry@.contains_key(r@[j].0@)
                    &&& r@[j].1@ == params_listing(registry@[r@[j].0@].parameters)
                    &&& r@[j].2@ == registry@[r@[j].0@].return_type
                },
        decreases n - i,
    {
        let (name, def) = registry.entry(i);
        let row = (name.clone(), list_params(def), def.return_type.clone());
        r.push(row);
        i = i + 1;
    }
    assert forall|k: Seq<char>| #[trigger] registry@.contains_key(k) implies exists|i: int|
        0 <= i < r@.len() && #[trigger] r@[i].0@ == k by {
        assert(registry.names().to_set().contains(k));
        let i = choose|i: int| 0 <= i < registry.names().len() && registry.names()[i] == k;
        assert(r@[i].0@ == k);
    }
    r
}

/// A listing row as text: name, parameters and return type.
pub type RowView = (Seq<char>, Seq<char>, Seq<char>);

/// The text of listing rows.
pub open spec fn rows_view(rows: Seq<(String, String, String)>) -> Seq<RowView> {
    rows.map_values(|row: (String, String, String)| (row.0@, row.1@, row.2@))
}

/// The text of a row that a listing step produced, if any.
pub open spec fn row_view(r: Option<(String, String, String)>) -> Option<RowView> {
    match r {
        Some(row) => Some((row.0@, row.1@, row.2@)),
        None => None,
    }
}

/// The row that a listing step at index `idx` produces: the row there, or
/// none past the last.
pub open spec fn listing_row(rows: Seq<RowView>, idx: usize) -> Option<RowView> {
    if idx < rows.len() {
        Some(rows[idx as int])
    } else {
        None
    }
}

/// The index after a listing step: one more, wrapping at `usize::MAX`.
pub open spec fn next_index(idx: usize) -> usize {
    if idx == usize::MAX {
        0
    } else {
        (idx + 1) as usize
    }
}

/// The index of a fresh listing after `calls` steps.
pub open spec fn index_after(calls: nat) -> usize
    decreases calls,
{
    if calls == 0 {
        0
    } else {
        next_index(index_after((calls - 1) as nat))
    }
}

/// Bind data for `list_py_functions`: (name, parameters, return type) rows.
pub struct ListFunctionsBindData {
    pub functions: Vec<(String, String, String)>,
}

/// Init data for `list_py_functions`: the index of the next row.
pub struct ListFunctionsInitData {
    pub current_index: usize,
}

/// The table function `list_py_functions()`.
pub struct ListFunctionsVTab;

impl ListFunctionsVTab {
    /// One row per registered function: its name, its parameters as text
    /// and its return type.
    pub fn bind(registry: &FunctionRegistry) -> (r: ListFunctionsBindData)
        ensures
            r.functions@.len() == registry.names().len(),
            forall|i: int|
                0 <= i < r.functions@.len() ==> {
                    &&& #[trigger] r.functions@[i].0@ == registry.names()[i]
                    &&& registry@.contains_key(r.functions@[i].0@)
                    &&& r.functions@[i].1@ == params_listing(registry@[r.functions@[i].0@].parameters)
                    &&& r.functions@[i].2@ == registry@[r.functions@[i].0@].return_type
                },
            forall|i: int, j: int|
                0 <= i < r.functions@.len() && 0 <= j < r.functions@.len() && i != j
                    ==> #[trigger] r.functions@[i].0@ != #[trigger] r.functions@[j].0@,
            forall|k: Seq<char>|
                #[trigger] registry@.contains_key(k) ==> exists|i: int|
                    0 <= i < r.functions@.len() && #[trigger] r.functions@[i].0@ == k,
    {
        let functions = function_listing(registry);
        assert forall|k: Seq<char>| #[trigger] registry@.contains_key(k) implies exists|i: int|
            0 <= i < functions@.len() && #[trigger] functions@[i].0@ == k by {
            let i = choose|i: int| 0 <= i < functions@.len() && #[trigger] functions@[i].0@ == k;
            assert(functions@[i].0@ == k);
        }
        ListFunctionsBindData { functions }
    }

    /// The state before any row was produced.
    pub fn init() -> (r: ListFunctionsInitData)
        ensures
            r.current_index == 0,
    {
        ListFunctionsInitData { current_index: 0 }
    }

    /// The next row, or `None` after the last; each call moves to the next index.
    pub fn func(init: &mut ListFunctionsInitData, bind: &ListFunctionsBindData) -> (r: Option<
        (String, String, String),
    >)
        ensures
            final(init).current_index == next_index(old(init).current_index),
            row_view(r) == listing_row(rows_view(bind.functions@), old(init).current_index),
    {
        let idx = init.current_index;
        init.current_index = if idx == usize::MAX {
            0
        } else {
            idx + 1
        };
        if idx >= bind.functions.len() {
            return None;
        }
        let row = &bind.functions[idx];
        Some((row.0.clone(), row.1.clone(), row.2.clone()))
    }

    /// It takes no parameters.
    pub fn parameters() -> (r: Vec<LogicalTypeId>)
        ensures
            r@ == Seq::<LogicalTypeId>::empty(),
    {
        Vec::new()
    }
}

} // verus!
