//! Function definitions and the parser of `CREATE FUNCTION` statements.
//!
//! Syntax:
//! ```sql
//! CREATE [OR REPLACE] FUNCTION function_name(param1 TYPE1, param2 TYPE2, ...)
//! RETURNS return_type
//! LANGUAGE PYTHON
//! AS $$ python_code_here $$
//! ```
use vstd::prelude::*;
use vstd::string::StringExecFns;
use vstd::string::StringSliceAdditionalSpecFns;
use vstd::utf8::*;

use crate::text::{
    upper_text,
    ascii_upper, find, find_str, index_of_byte, index_of_byte_from, lemma_ascii_boundary,
    lemma_boundary_at, lemma_encode_valid, lemma_find_from_of, lemma_index_of_byte,
    lemma_lead_ws_bound_of, prefix, prefix_str, range, range_str, skip_ws, split_words,
    starts_with, starts_with_str, str_eq, substr, suffix, suffix_str, to_uppercase, trim,
    trim_chars, trim_start, trim_start_str, trim_str, trimmed_suffix, uppercase, words,
};

verus! {

broadcast use vstd::seq::group_seq_axioms, vstd::seq_lib::group_seq_properties;

/// A parameter in a function definition.
#[derive(Debug, Clone)]
pub struct FunctionParameter {
    pub name: String,
    pub data_type: String,
}

/// A complete function definition.
#[derive(Debug, Clone)]
pub struct FunctionDefinition {
    pub name: String,
    pub parameters: Vec<FunctionParameter>,
    pub return_type: String,
    pub language: String,
    pub body: String,
}

/// The text of a parameter.
pub struct ParameterView {
    pub name: Seq<char>,
    pub data_type: Seq<char>,
}

/// The text of a function definition.
pub struct DefinitionView {
    pub name: Seq<char>,
    pub parameters: Seq<ParameterView>,
    pub return_type: Seq<char>,
    pub language: Seq<char>,
    pub body: Seq<char>,
}

impl View for FunctionParameter {
    type V = ParameterView;

    open spec fn view(&self) -> ParameterView {
        ParameterView { name: self.name@, data_type: self.data_type@ }
    }
}

impl View for FunctionDefinition {
    type V = DefinitionView;

    open spec fn view(&self) -> DefinitionView {
        DefinitionView {
            name: self.name@,
            parameters: params_view(self.parameters@),
            return_type: self.return_type@,
            language: self.language@,
            body: self.body@,
        }
    }
}

/// The views of a list of parameters.
pub open spec fn params_view(ps: Seq<FunctionParameter>) -> Seq<ParameterView> {
    ps.map_values(|p: FunctionParameter| p@)
}

impl FunctionParameter {
    /// A copy with the same text.
    pub fn copy(&self) -> (r: FunctionParameter)
        ensures
            r@ == self@,
    {
        FunctionParameter { name: self.name.clone(), data_type: self.data_type.clone() }
    }
}

impl FunctionDefinition {
    /// A copy with the same text.
    pub fn copy(&self) -> (r: FunctionDefinition)
        ensures
            r@ == self@,
    {
        let mut parameters: Vec<FunctionParameter> = Vec::new();
        let mut i: usize = 0;
        while i < self.parameters.len()
            invariant
                i <= self.parameters@.len(),
                parameters@.len() == i,
                params_view(parameters@) =~= params_view(self.parameters@.subrange(0, i as int)),
            decreases self.parameters@.len() - i,
        {
            let c = self.parameters[i].copy();
            let ghost before = parameters@;
            parameters.push(c);
            proof {
                let a = params_view(parameters@);
                let b = params_view(self.parameters@.subrange(0, i + 1));
                assert(parameters@ == before.push(c));
                assert forall|j: int| 0 <= j < a.len() implies a[j] == b[j] by {
                    assert(a[j] == parameters@[j]@);
                    assert(b[j] == self.parameters@.subrange(0, i + 1)[j]@);
                    if j < i {
                        assert(parameters@[j] == before[j]);
                        assert(params_view(before)[j] == before[j]@);
                        assert(params_view(self.parameters@.subrange(0, i as int))[j]
                            == self.parameters@.subrange(0, i as int)[j]@);
                    } else {
                        assert(parameters@[j] == c);
                    }
                }
                assert(a =~= b);
            }
            i = i + 1;
        }
        assert(self.parameters@.subrange(0, i as int) =~= self.parameters@);
        FunctionDefinition {
            name: self.name.clone(),
            parameters,
            return_type: self.return_type.clone(),
            language: self.language.clone(),
            body: self.body.clone(),
        }
    }
}

// ---------------------------------------------------------------------------
// SQL type names
// ---------------------------------------------------------------------------
/// The canonical DuckDB name of an uppercase SQL type name: the trimmed
/// text, with its aliases folded into one name.
pub open spec fn normalized_upper(up: Seq<char>) -> Seq<char> {
    let u = trim_chars(up);
    if u == "STRING"@ || u == "TEXT"@ || u == "CHAR"@ || u == "CHARACTER"@ {
        "VARCHAR"@
    } else if u == "INT"@ || u == "INTEGER"@ || u == "INT32"@ {
        "INTEGER"@
    } else if u == "BIGINT"@ || u == "INT64"@ || u == "LONG"@ {
        "BIGINT"@
    } else if u == "SMALLINT"@ || u == "INT16"@ || u == "SHORT"@ {
        "SMALLINT"@
    } else if u == "TINYINT"@ || u == "INT8"@ || u == "BYTE"@ {
        "TINYINT"@
    } else if u == "FLOAT"@ || u == "FLOAT32"@ || u == "REAL"@ {
        "FLOAT"@
    } else if u == "DOUBLE"@ || u == "FLOAT64"@ {
        "DOUBLE"@
    } else if u == "BOOL"@ || u == "BOOLEAN"@ {
        "BOOLEAN"@
    } else if u == "DATE"@ {
        "DATE"@
    } else if u == "TIMESTAMP"@ || u == "DATETIME"@ {
        "TIMESTAMP"@
    } else if u == "BLOB"@ || u == "BINARY"@ || u == "BYTES"@ {
        "BLOB"@
    } else {
        u
    }
}

/// The canonical DuckDB name of a SQL type (in any case).
pub open spec fn normalized_type(sql_type: Seq<char>) -> Seq<char> {
    normalized_upper(uppercase(sql_type))
}

/// The characters of the trimmed version of a string.
proof fn lemma_trimmed_view(s: &str, t: &str)
    requires
        t.spec_bytes() == trim(s.spec_bytes()),
    ensures
        t@ == trim_chars(s@),
{
    lemma_encode_valid(t@);
}

/// The canonical DuckDB name of an uppercase SQL type name.
pub fn normalize_upper_type(us: &str) -> (r: String)
    ensures
        r@ == normalized_upper(us@),
{
    let t = trim_str(us);
    proof {
        lemma_trimmed_view(us, t);
    }
    if str_eq(t, "STRING") || str_eq(t, "TEXT") || str_eq(t, "CHAR") || str_eq(t, "CHARACTER") {
        "VARCHAR".to_owned()
    } else if str_eq(t, "INT") || str_eq(t, "INTEGER") || str_eq(t, "INT32") {
        "INTEGER".to_owned()
    } else if str_eq(t, "BIGINT") || str_eq(t, "INT64") || str_eq(t, "LONG") {
        "BIGINT".to_owned()
    } else if str_eq(t, "SMALLINT") || str_eq(t, "INT16") || str_eq(t, "SHORT") {
        "SMALLINT".to_owned()
    } else if str_eq(t, "TINYINT") || str_eq(t, "INT8") || str_eq(t, "BYTE") {
        "TINYINT".to_owned()
    } else if str_eq(t, "FLOAT") || str_eq(t, "FLOAT32") || str_eq(t, "REAL") {
        "FLOAT".to_owned()
    } else if str_eq(t, "DOUBLE") || str_eq(t, "FLOAT64") {
        "DOUBLE".to_owned()
    } else if str_eq(t, "BOOL") || str_eq(t, "BOOLEAN") {
        "BOOLEAN".to_owned()
    } else if str_eq(t, "DATE") {
        "DATE".to_owned()
    } else if str_eq(t, "TIMESTAMP") || str_eq(t, "DATETIME") {
        "TIMESTAMP".to_owned()
    } else if str_eq(t, "BLOB") || str_eq(t, "BINARY") || str_eq(t, "BYTES") {
        "BLOB".to_owned()
    } else {
        t.to_owned()
    }
}

/// SQL type to DuckDB type mapping.
pub fn normalize_sql_type(sql_type: &str) -> (r: String)
    ensures
        r@ == normalized_type(sql_type@),
        is_ascii_chars(sql_type@) ==> r@ == normalized_upper(ascii_upper(sql_type@)),
{
    let up = to_uppercase(sql_type);
    normalize_upper_type(up.as_str())
}

// ---------------------------------------------------------------------------
// Parameter lists
// ---------------------------------------------------------------------------
/// Words joined by single spaces (`[&str]::join(" ")`).
pub open spec fn join_words(ws: Seq<Seq<u8>>) -> Seq<char>
    decreases ws.len(),
{
    if ws.len() == 0 {
        seq![]
    } else if ws.len() == 1 {
        decode_utf8(ws[0])
    } else {
        join_words(ws.drop_last()) + seq![' '] + decode_utf8(ws.last())
    }
}

/// The parameter that the words `name TYPE...` declare.
pub open spec fn param_of_words(ws: Seq<Seq<u8>>) -> ParameterView {
    ParameterView {
        name: decode_utf8(ws[0]),
        data_type: normalized_type(join_words(ws.subrange(1, ws.len() as int))),
    }
}

/// The error for a parameter that lacks a type; `detailed` adds the hint
/// that the table function `create_py_function` gives.
pub open spec fn invalid_parameter_message(piece: Seq<char>, detailed: bool) -> Seq<char> {
    if detailed {
        "Invalid parameter definition: '"@ + piece + "'. Expected 'name TYPE'"@
    } else {
        "Invalid parameter definition: '"@ + piece + "'"@
    }
}

/// One comma-separated piece: skipped when blank, else a parameter or an error.
pub open spec fn parse_piece(piece: Seq<u8>, detailed: bool) -> Option<
    Result<ParameterView, Seq<char>>,
> {
    let p = trim(piece);
    if p.len() == 0 {
        None
    } else if words(p).len() < 2 {
        Some(Err(invalid_parameter_message(decode_utf8(p), detailed)))
    } else {
        Some(Ok(param_of_words(words(p))))
    }
}

/// The parameters declared by comma-separated pieces, or the error of the first bad piece.
pub open spec fn parameter_pieces(rest: Seq<u8>, detailed: bool) -> Result<
    Seq<ParameterView>,
    Seq<char>,
>
    decreases rest.len(),
{
    let cut = index_of_byte(rest, 0x2c);
    proof {
        lemma_index_of_byte(rest, 0x2c);
    }
    let tail = if cut < rest.len() {
        parameter_pieces(rest.subrange(cut + 1int, rest.len() as int), detailed)
    } else {
        Ok(seq![])
    };
    match parse_piece(rest.subrange(0, cut as int), detailed) {
        None => tail,
        Some(Err(m)) => Err(m),
        Some(Ok(p)) => match tail {
            Ok(ps) => Ok(seq![p] + ps),
            Err(m) => Err(m),
        },
    }
}

/// The parameters declared by a list like `name1 TYPE1, name2 TYPE2`.
pub open spec fn parameters_of(text: Seq<u8>, detailed: bool) -> Result<
    Seq<ParameterView>,
    Seq<char>,
> {
    let t = trim(text);
    if t.len() == 0 {
        Ok(seq![])
    } else {
        parameter_pieces(t, detailed)
    }
}

/// Prepends parameters to a parse result.
pub open spec fn prepend_params(
    acc: Seq<ParameterView>,
    r: Result<Seq<ParameterView>, Seq<char>>,
) -> Result<Seq<ParameterView>, Seq<char>> {
    match r {
        Ok(ps) => Ok(acc + ps),
        Err(m) => Err(m),
    }
}

/// Concatenation of three strings.
pub fn concat3(a: &str, b: &str, c: &str) -> (r: String)
    ensures
        r@ == a@ + b@ + c@,
{
    let mut r = String::new();
    r.append(a);
    r.append(b);
    r.append(c);
    r
}

/// `words.join(" ")`.
fn join_with_spaces(ws: &Vec<&str>, from: usize) -> (r: String)
    requires
        from <= ws@.len(),
    ensures
        r@ == join_words(Seq::new(ws@.len(), |i: int| ws@[i].spec_bytes()).subrange(
            from as int,
            ws@.len() as int,
        )),
{
    let ghost all = Seq::new(ws@.len(), |i: int| ws@[i].spec_bytes());
    let mut r = String::new();
    let mut i = from;
    assert(all.subrange(from as int, from as int).len() == 0);
    while i < ws.len()
        invariant
            all == Seq::new(ws@.len(), |i: int| ws@[i].spec_bytes()),
            from <= i <= ws@.len(),
            r@ == join_words(all.subrange(from as int, i as int)),
        decreases ws@.len() - i,
    {
        proof {
            lemma_encode_valid(ws@[i as int]@);
            let next = all.subrange(from as int, i + 1);
            assert(next.drop_last() =~= all.subrange(from as int, i as int));
            assert(next.last() == ws@[i as int].spec_bytes());
        }
        if i > from {
            r.append(" ");
        }
        r.append(ws[i]);
        proof {
            reveal_strlit(" ");
        }
        i = i + 1;
    }
    r
}

/// Parses a parameter list; `detailed` selects the error text of `create_py_function`.
fn parse_parameter_list(params_str: &str, detailed: bool) -> (r: Result<
    Vec<FunctionParameter>,
    String,
>)
    ensures
        match r {
            Ok(ps) => parameters_of(params_str.spec_bytes(), detailed) == Ok::<
                Seq<ParameterView>,
                Seq<char>,
            >(params_view(ps@)),
            Err(e) => parameters_of(params_str.spec_bytes(), detailed) == Err::<
                Seq<ParameterView>,
                Seq<char>,
            >(e@),
        },
{
    let t = trim_str(params_str);
    let n = t.as_bytes().len();
    let ghost tb = t.spec_bytes();
    let mut parameters: Vec<FunctionParameter> = Vec::new();
    if n == 0 {
        return Ok(parameters);
    }
    proof {
        lemma_encode_valid(t@);
        is_char_boundary_start_end_of_seq(tb);
        assert(tb.subrange(0, n as int) =~= tb);
    }
    let mut p: usize = 0;
    loop
        invariant
            tb == t.spec_bytes(),
            tb == trim(params_str.spec_bytes()),
            valid_utf8(tb),
            n == tb.len(),
            n > 0,
            p <= n,
            is_char_boundary(tb, p as int),
            parameter_pieces(tb, detailed) == prepend_params(
                params_view(parameters@),
                parameter_pieces(tb.subrange(p as int, n as int), detailed),
            ),
        decreases n - p,
    {
        let ghost rest = tb.subrange(p as int, n as int);
        let cut = index_of_byte_from(t, p, 0x2c);
        proof {
            lemma_index_of_byte(rest, 0x2c);
            if cut < n {
                lemma_ascii_boundary(tb, cut as int);
            } else {
                lemma_boundary_at(tb, cut as int);
            }
            assert(rest.subrange(0, (cut - p) as int) =~= tb.subrange(p as int, cut as int));
            if cut < n {
                assert(rest.subrange((cut - p) + 1, rest.len() as int) =~= tb.subrange(
                    cut + 1,
                    n as int,
                ));
            }
        }
        let piece = substr(t, p, cut);
        let trimmed = trim_str(piece);
        let ghost acc0 = params_view(parameters@);
        let ghost mut added: Seq<ParameterView> = Seq::empty();
        if trimmed.as_bytes().len() != 0 {
            let parts = split_words(trimmed);
            if parts.len() < 2 {
                proof {
                    lemma_trimmed_view(piece, trimmed);
                    lemma_encode_valid(trimmed@);
                }
                let msg = if detailed {
                    concat3(
                        "Invalid parameter definition: '",
                        trimmed,
                        "'. Expected 'name TYPE'",
                    )
                } else {
                    concat3("Invalid parameter definition: '", trimmed, "'")
                };
                return Err(msg);
            }
            proof {
                lemma_encode_valid(parts@[0]@);
            }
            let name = parts[0].to_owned();
            let type_text = join_with_spaces(&parts, 1);
            let data_type = normalize_sql_type(type_text.as_str());
            let param = FunctionParameter { name, data_type };
            proof {
                let ws = words(trimmed.spec_bytes());
                assert(Seq::new(parts@.len(), |i: int| parts@[i].spec_bytes()) =~= ws);
                assert(param@ == param_of_words(ws));
            }
            let ghost before = params_view(parameters@);
            parameters.push(param);
            proof {
                assert(params_view(parameters@) =~= before.push(param@));
                assert(before.push(param@) =~= before + seq![param@]);
                added = seq![param@];
            }
        }
        proof {
            let next = if cut < n {
                parameter_pieces(tb.subrange(cut + 1, n as int), detailed)
            } else {
                Ok(seq![])
            };
            assert(params_view(parameters@) == acc0 + added);
            assert(parameter_pieces(rest, detailed) == prepend_params(added, next)) by {
                if added.len() == 0 {
                    assert(parse_piece(piece.spec_bytes(), detailed) is None);
                }
            }
            match next {
                Ok(ps) => {
                    assert(acc0 + (added + ps) =~= (acc0 + added) + ps);
                },
                Err(m) => {},
            }
            assert(parameter_pieces(tb, detailed) == prepend_params(
                params_view(parameters@),
                next,
            ));
        }
        if cut == n {
            proof {
                assert(params_view(parameters@) =~= params_view(parameters@) + Seq::<
                    ParameterView,
                >::empty());
            }
            return Ok(parameters);
        }
        p = cut + 1;
    }
}

/// A parameter list with one pair of parentheses around it taken off: the
/// trimmed text, and what stands inside where it starts with `(` and ends
/// with `)`.
pub open spec fn unwrapped_list(text: Seq<u8>) -> Seq<u8> {
    let t = trim(text);
    if t.len() >= 2 && t[0] == 0x28 && t[t.len() - 1] == 0x29 {
        t.subrange(1, t.len() - 1)
    } else {
        t
    }
}

/// Parses a parameter list like `(name1 TYPE1, name2 TYPE2)`; the
/// parentheses may be left out.
pub fn parse_parameters(params_str: &str) -> (r: Result<Vec<FunctionParameter>, String>)
    ensures
        match r {
            Ok(ps) => parameters_of(unwrapped_list(params_str.spec_bytes()), false) == Ok::<
                Seq<ParameterView>,
                Seq<char>,
            >(params_view(ps@)),
            Err(e) => parameters_of(unwrapped_list(params_str.spec_bytes()), false) == Err::<
                Seq<ParameterView>,
                Seq<char>,
            >(e@),
        },
{
    let t = trim_str(params_str);
    let b = t.as_bytes();
    let n = b.len();
    proof {
        lemma_encode_valid(t@);
    }
    if n >= 2 && b[0] == 0x28 && b[n - 1] == 0x29 {
        proof {
            lemma_ascii_boundary(t.spec_bytes(), 0);
            lemma_ascii_boundary(t.spec_bytes(), n - 1);
        }
        let inner = substr(t, 1, n - 1);
        parse_parameter_list(inner, false)
    } else {
        parse_parameter_list(t, false)
    }
}

/// Parses the parameter string of `create_py_function`, like `name1 TYPE1, name2 TYPE2`.
pub fn parse_params_string(params_str: &str) -> (r: Result<Vec<FunctionParameter>, String>)
    ensures
        match r {
            Ok(ps) => parameters_of(params_str.spec_bytes(), true) == Ok::<
                Seq<ParameterView>,
                Seq<char>,
            >(params_view(ps@)),
            Err(e) => parameters_of(params_str.spec_bytes(), true) == Err::<
                Seq<ParameterView>,
                Seq<char>,
            >(e@),
        },
{
    parse_parameter_list(params_str, true)
}

// ---------------------------------------------------------------------------
// Function bodies
// ---------------------------------------------------------------------------
/// What scanning a quoted body gives: the body with each doubled quote
/// read as one quote, and the number of bytes up to and including the
/// closing quote; `None` when no closing quote comes.
pub open spec fn quoted_body(b: Seq<u8>) -> Option<(Seq<char>, int)>
    decreases b.len(),
{
    let q = index_of_byte(b, 0x27) as int;
    proof {
        lemma_index_of_byte(b, 0x27);
    }
    if q >= b.len() {
        None
    } else if q + 1 < b.len() && b[q + 1] == 0x27 {
        match quoted_body(b.subrange(q + 2, b.len() as int)) {
            None => None,
            Some((rest, n)) => Some((decode_utf8(b.subrange(0, q)) + seq!['\''] + rest, q + 2 + n)),
        }
    } else {
        Some((decode_utf8(b.subrange(0, q)), q + 1))
    }
}

/// What extracting a function body gives.
pub enum BodyOutcome {
    /// A slice of the statement would panic.
    Panics,
    /// The body is missing or unclosed; the error text.
    Failed(Seq<char>),
    /// The body and the position just after it.
    Found(Seq<char>, int),
}

/// The body that follows position `start` of `sql`: enclosed in `$$` or in
/// single quotes, after optional whitespace.
pub open spec fn body_outcome(sql: Seq<u8>, start: int) -> BodyOutcome {
    match suffix(sql, start) {
        None => BodyOutcome::Panics,
        Some(rem) => {
            let t = trim_start(rem);
            let offset = rem.len() - t.len();
            if starts_with(t, encode_utf8("$$"@)) {
                match suffix(t, 2) {
                    None => BodyOutcome::Panics,
                    Some(a) => match find(a, encode_utf8("$$"@)) {
                        None => BodyOutcome::Failed("Unclosed $$ delimiter"@),
                        Some(e) => match range(t, 2, 2 + e) {
                            None => BodyOutcome::Panics,
                            Some(body) => BodyOutcome::Found(
                                decode_utf8(body),
                                start + offset + 2 + e + 2,
                            ),
                        },
                    },
                }
            } else if starts_with(t, encode_utf8("'"@)) {
                match suffix(t, 1) {
                    None => BodyOutcome::Panics,
                    Some(a) => match quoted_body(a) {
                        None => BodyOutcome::Failed("Unclosed single quote"@),
                        Some((body, n)) => BodyOutcome::Found(body, start + offset + 1 + n),
                    },
                }
            } else {
                BodyOutcome::Failed("Function body must be enclosed in $$ or single quotes"@)
            }
        },
    }
}

proof fn lemma_quoted_bound(b: Seq<u8>)
    ensures
        quoted_body(b) matches Some((_, n)) ==> 0 < n <= b.len(),
    decreases b.len(),
{
    lemma_index_of_byte(b, 0x27);
    let q = index_of_byte(b, 0x27) as int;
    if q < b.len() && q + 1 < b.len() && b[q + 1] == 0x27 {
        lemma_quoted_bound(b.subrange(q + 2, b.len() as int));
    }
}

proof fn lemma_dollars_len()
    ensures
        encode_utf8("$$"@).len() == 2,
{
    reveal_strlit("$$");
    let c = "$$"@;
    assert(c.len() == 2);
    assert(c[0] == '$' && c[1] == '$');
    assert(encode_scalar(c[0] as u32).len() == 1);
    assert(encode_scalar(c[1] as u32).len() == 1);
    assert(c.drop_first().drop_first().len() == 0);
    reveal_with_fuel(encode_utf8, 3);
}

/// Reads a quoted body that starts after the opening quote.
fn scan_quoted(s: &str) -> (r: Option<(String, usize)>)
    ensures
        match r {
            None => quoted_body(s.spec_bytes()) is None,
            Some((body, n)) => quoted_body(s.spec_bytes()) == Some((body@, n as int)),
        },
{
    let ghost sb = s.spec_bytes();
    let b = s.as_bytes();
    let n = b.len();
    proof {
        lemma_encode_valid(s@);
        is_char_boundary_start_end_of_seq(sb);
        assert(sb.subrange(0, n as int) =~= sb);
    }
    let mut body = String::new();
    let mut c: usize = 0;
    loop
        invariant
            sb == s.spec_bytes(),
            b@ == sb,
            valid_utf8(sb),
            n == sb.len(),
            c <= n,
            is_char_boundary(sb, c as int),
            quoted_body(sb) == match quoted_body(sb.subrange(c as int, n as int)) {
                None => None,
                Some((rest, m)) => Some((body@ + rest, c + m)),
            },
        decreases n - c,
    {
        let ghost sub = sb.subrange(c as int, n as int);
        let q = index_of_byte_from(s, c, 0x27);
        proof {
            lemma_index_of_byte(sub, 0x27);
            lemma_quoted_bound(sub);
        }
        if q == n {
            return None;
        }
        proof {
            lemma_ascii_boundary(sb, q as int);
            assert(sub.subrange(0, (q - c) as int) =~= sb.subrange(c as int, q as int));
        }
        let seg = substr(s, c, q);
        proof {
            lemma_encode_valid(seg@);
        }
        body.append(seg);
        if q + 1 < n && b[q + 1] == 0x27 {
            proof {
                reveal_strlit("'");
                lemma_ascii_boundary(sb, (q + 1) as int);
                assert(sub.subrange((q - c) + 2, sub.len() as int) =~= sb.subrange(
                    q + 2,
                    n as int,
                ));
                let rest = quoted_body(sb.subrange(q + 2, n as int));
                if let Some((r2, m2)) = rest {
                    assert(decode_utf8(sub.subrange(0, (q - c) as int)) + seq!['\''] + r2
                        =~= seg@ + "'"@ + r2);
                }
            }
            body.append("'");
            c = q + 2;
        } else {
            return Some((body, q + 1));
        }
    }
}

/// What `extract_body` would do, `None` where it would panic.
fn scan_body(sql: &str, start_pos: usize) -> (r: Option<Result<(String, usize), String>>)
    ensures
        match r {
            None => body_outcome(sql.spec_bytes(), start_pos as int) is Panics,
            Some(Ok((body, end))) => body_outcome(sql.spec_bytes(), start_pos as int)
                == BodyOutcome::Found(body@, end as int),
            Some(Err(e)) => body_outcome(sql.spec_bytes(), start_pos as int)
                == BodyOutcome::Failed(e@),
        },
{
    let total = sql.as_bytes().len();
    let remaining = match suffix_str(sql, start_pos) {
        None => return None,
        Some(r) => r,
    };
    assert(remaining.spec_bytes().len() == total - start_pos);
    let trimmed = trim_start_str(remaining);
    proof {
        lemma_lead_ws_bound_of(remaining.spec_bytes());
    }
    let offset = remaining.as_bytes().len() - trimmed.as_bytes().len();
    if starts_with_str(trimmed, "$$") {
        let after = match suffix_str(trimmed, 2) {
            None => return None,
            Some(a) => a,
        };
        match find_str(after, "$$") {
            Some(end_pos) => {
                proof {
                    lemma_find_from_of(after.spec_bytes(), "$$".spec_bytes());
                    assert(after.spec_bytes().len() == trimmed.spec_bytes().len() - 2);
                    lemma_dollars_len();
                    assert(end_pos + "$$".spec_bytes().len() <= after.spec_bytes().len());
                    assert(trimmed.spec_bytes().len() == remaining.spec_bytes().len() - offset);
                }
                match range_str(trimmed, 2, 2 + end_pos) {
                    None => None,
                    Some(body) => {
                        proof {
                            lemma_encode_valid(body@);
                        }
                        Some(Ok((body.to_owned(), start_pos + offset + 2 + end_pos + 2)))
                    },
                }
            },
            None => Some(Err("Unclosed $$ delimiter".to_owned())),
        }
    } else if starts_with_str(trimmed, "'") {
        let after = match suffix_str(trimmed, 1) {
            None => return None,
            Some(a) => a,
        };
        match scan_quoted(after) {
            None => Some(Err("Unclosed single quote".to_owned())),
            Some((body, n)) => {
                proof {
                    lemma_quoted_bound(after.spec_bytes());
                    assert(after.spec_bytes().len() == trimmed.spec_bytes().len() - 1);
                    assert(trimmed.spec_bytes().len() == remaining.spec_bytes().len() - offset);
                }
                Some(Ok((body, start_pos + offset + 1 + n)))
            },
        }
    } else {
        Some(Err("Function body must be enclosed in $$ or single quotes".to_owned()))
    }
}

/// Extracts the function body that follows byte position `start_pos` of
/// `sql`, enclosed in `$$` or in single quotes (where `''` stands for one
/// quote), and the position just after it.
pub fn extract_body(sql: &str, start_pos: usize) -> (r: Result<(String, usize), String>)
    requires
        !(body_outcome(sql.spec_bytes(), start_pos as int) is Panics),
    ensures
        match r {
            Ok((body, end)) => body_outcome(sql.spec_bytes(), start_pos as int)
                == BodyOutcome::Found(body@, end as int),
            Err(e) => body_outcome(sql.spec_bytes(), start_pos as int) == BodyOutcome::Failed(
                e@,
            ),
        },
{
    match scan_body(sql, start_pos) {
        Some(r) => r,
        None => {
            proof {
                assert(false);
            }
            Err(String::new())
        },
    }
}

// ---------------------------------------------------------------------------
// CREATE FUNCTION statements
// ---------------------------------------------------------------------------
/// What parsing a `CREATE FUNCTION` statement gives.
pub enum CreateOutcome {
    /// A slice of the statement would panic.
    Panics,
    /// The statement is refused; the error text.
    Failed(Seq<char>),
    /// The definition that the statement makes.
    Defined(DefinitionView),
}

/// The statement after `CREATE` (which the uppercase text `up` starts with).
/// `sql` is the trimmed statement; positions are byte offsets into both.
pub open spec fn after_create(sql: Seq<u8>, up: Seq<u8>) -> CreateOutcome {
    match (suffix(up, 6), suffix(sql, 6)) {
        (Some(u), Some(_)) => {
            let pos = skip_ws(sql, 6);
            if starts_with(trim_start(u), encode_utf8("OR REPLACE"@)) {
                match suffix(sql, pos + 10) {
                    None => CreateOutcome::Panics,
                    Some(_) => at_function(sql, up, skip_ws(sql, pos + 10)),
                }
            } else {
                at_function(sql, up, pos)
            }
        },
        _ => CreateOutcome::Panics,
    }
}

/// The statement from the expected `FUNCTION` keyword on.
pub open spec fn at_function(sql: Seq<u8>, up: Seq<u8>, pos: int) -> CreateOutcome {
    match (suffix(up, pos), suffix(sql, pos)) {
        (Some(u), Some(_)) => if !starts_with(trim_start(u), encode_utf8("FUNCTION"@)) {
            CreateOutcome::Failed("Expected FUNCTION keyword"@)
        } else {
            at_name(sql, up, skip_ws(sql, pos) + 8)
        },
        _ => CreateOutcome::Panics,
    }
}

/// The statement from the function name on.
pub open spec fn at_name(sql: Seq<u8>, up: Seq<u8>, pos: int) -> CreateOutcome {
    match suffix(sql, pos) {
        None => CreateOutcome::Panics,
        Some(r0) => {
            let pos = skip_ws(sql, pos);
            let rem = trim_start(r0);
            match find(rem, encode_utf8("("@)) {
                None => CreateOutcome::Failed("Expected '(' after function name"@),
                Some(ne) => match prefix(rem, ne) {
                    None => CreateOutcome::Panics,
                    Some(nm) => at_params(sql, up, pos + ne + 1, decode_utf8(trim(nm))),
                },
            }
        },
    }
}

/// The statement from the parameter list on.
pub open spec fn at_params(sql: Seq<u8>, up: Seq<u8>, pos: int, name: Seq<char>) -> CreateOutcome {
    match suffix(sql, pos) {
        None => CreateOutcome::Panics,
        Some(rem) => match find(rem, encode_utf8(")"@)) {
            None => CreateOutcome::Failed("Expected ')' after parameters"@),
            Some(pe) => match prefix(rem, pe) {
                None => CreateOutcome::Panics,
                Some(ps) => match parameters_of(unwrapped_list(ps), false) {
                    Err(m) => CreateOutcome::Failed(m),
                    Ok(params) => at_returns(sql, up, pos + pe + 1, name, params),
                },
            },
        },
    }
}

/// The statement from the expected `RETURNS` keyword on.
pub open spec fn at_returns(
    sql: Seq<u8>,
    up: Seq<u8>,
    pos: int,
    name: Seq<char>,
    params: Seq<ParameterView>,
) -> CreateOutcome {
    match (suffix(up, pos), suffix(sql, pos)) {
        (Some(u), Some(_)) => if !starts_with(trim_start(u), encode_utf8("RETURNS"@)) {
            CreateOutcome::Failed("Expected RETURNS keyword"@)
        } else {
            at_return_type(sql, up, skip_ws(sql, pos) + 7, name, params)
        },
        _ => CreateOutcome::Panics,
    }
}

/// The statement from the return type on.
pub open spec fn at_return_type(
    sql: Seq<u8>,
    up: Seq<u8>,
    pos: int,
    name: Seq<char>,
    params: Seq<ParameterView>,
) -> CreateOutcome {
    match suffix(sql, pos) {
        None => CreateOutcome::Panics,
        Some(r0) => {
            let pos = skip_ws(sql, pos);
            let rem = trim_start(r0);
            match suffix(up, pos) {
                None => CreateOutcome::Panics,
                Some(u) => match find(trim_start(u), encode_utf8("LANGUAGE"@)) {
                    None => CreateOutcome::Failed("Expected LANGUAGE keyword"@),
                    Some(lp) => match prefix(rem, lp) {
                        None => CreateOutcome::Panics,
                        Some(rt) => at_language(
                            sql,
                            up,
                            pos + lp + 8,
                            name,
                            params,
                            normalized_type(decode_utf8(trim(rt))),
                        ),
                    },
                },
            }
        },
    }
}

/// The first of ` AS`, `\nAS`, `\tAS` that occurs, tried in that order.
pub open spec fn find_as(t: Seq<u8>) -> Option<int> {
    match find(t, encode_utf8(" AS"@)) {
        Some(i) => Some(i),
        None => match find(t, encode_utf8("\nAS"@)) {
            Some(i) => Some(i),
            None => find(t, encode_utf8("\tAS"@)),
        },
    }
}

/// The error for a language other than Python.
pub open spec fn unsupported_language_message(language: Seq<char>) -> Seq<char> {
    "Unsupported language: "@ + language + ". Only PYTHON is supported."@
}

/// The statement from the language on. `AS` follows a space, a newline or
/// a tab, and the body follows `AS`.
pub open spec fn at_language(
    sql: Seq<u8>,
    up: Seq<u8>,
    pos: int,
    name: Seq<char>,
    params: Seq<ParameterView>,
    return_type: Seq<char>,
) -> CreateOutcome {
    match suffix(sql, pos) {
        None => CreateOutcome::Panics,
        Some(r0) => {
            let pos = skip_ws(sql, pos);
            let rem = trim_start(r0);
            match suffix(up, pos) {
                None => CreateOutcome::Panics,
                Some(u) => match find_as(trim_start(u)) {
                    None => CreateOutcome::Failed("Expected AS keyword"@),
                    Some(ap) => match prefix(rem, ap) {
                        None => CreateOutcome::Panics,
                        Some(lg) => {
                            let language = upper_text(decode_utf8(trim(lg)));
                            if language != "PYTHON"@ {
                                CreateOutcome::Failed(unsupported_language_message(language))
                            } else {
                                match body_outcome(sql, pos + ap + 3) {
                                    BodyOutcome::Panics => CreateOutcome::Panics,
                                    BodyOutcome::Failed(m) => CreateOutcome::Failed(m),
                                    BodyOutcome::Found(body, _) => CreateOutcome::Defined(
                                        DefinitionView {
                                            name,
                                            parameters: params,
                                            return_type,
                                            language,
                                            body,
                                        },
                                    ),
                                }
                            }
                        },
                    },
                },
            }
        },
    }
}

/// What parsing the statement `text` gives. The statement is trimmed, and
/// keywords are looked for in its uppercase text at the same byte offsets.
pub open spec fn create_outcome(text: Seq<char>) -> CreateOutcome {
    let sql = trim(encode_utf8(text));
    statement_outcome(sql, encode_utf8(upper_text(decode_utf8(sql))))
}

/// What parsing the trimmed statement `sql` gives, where `up` is its
/// uppercase text, in which the keywords are looked for.
pub open spec fn statement_outcome(sql: Seq<u8>, up: Seq<u8>) -> CreateOutcome {
    if !starts_with(up, encode_utf8("CREATE"@)) {
        CreateOutcome::Failed("Expected CREATE keyword"@)
    } else {
        after_create(sql, up)
    }
}

/// True when the result `r` of a parsing stage agrees with the outcome `o`.
pub open spec fn agrees(r: Option<Result<FunctionDefinition, String>>, o: CreateOutcome) -> bool {
    match r {
        None => o is Panics,
        Some(Ok(d)) => o == CreateOutcome::Defined(d@),
        Some(Err(e)) => o == CreateOutcome::Failed(e@),
    }
}

fn failure(msg: &str) -> (r: Option<Result<FunctionDefinition, String>>)
    ensures
        r matches Some(Err(e)) && e@ == msg@,
{
    Some(Err(msg.to_owned()))
}

fn stage_create(sql: &str, up: &str) -> (r: Option<Result<FunctionDefinition, String>>)
    ensures
        agrees(r, after_create(sql.spec_bytes(), up.spec_bytes())),
{
    let total = sql.as_bytes().len();
    let u = match trimmed_suffix(up, 6) {
        None => return None,
        Some((_, u)) => u,
    };
    let pos = match trimmed_suffix(sql, 6) {
        None => return None,
        Some((p, _)) => p,
    };
    if starts_with_str(u, "OR REPLACE") {
        let p10 = match pos.checked_add(10) {
            None => return None,
            Some(v) => v,
        };
        match trimmed_suffix(sql, p10) {
            None => None,
            Some((p, _)) => stage_function(sql, up, p),
        }
    } else {
        stage_function(sql, up, pos)
    }
}

fn stage_function(sql: &str, up: &str, pos: usize) -> (r: Option<Result<FunctionDefinition, String>>)
    ensures
        agrees(r, at_function(sql.spec_bytes(), up.spec_bytes(), pos as int)),
{
    let total = sql.as_bytes().len();
    let u = match trimmed_suffix(up, pos) {
        None => return None,
        Some((_, u)) => u,
    };
    let p = match trimmed_suffix(sql, pos) {
        None => return None,
        Some((p, _)) => p,
    };
    if !starts_with_str(u, "FUNCTION") {
        return failure("Expected FUNCTION keyword");
    }
    match p.checked_add(8) {
        None => None,
        Some(p8) => stage_name(sql, up, p8),
    }
}

fn stage_name(sql: &str, up: &str, pos: usize) -> (r: Option<Result<FunctionDefinition, String>>)
    ensures
        agrees(r, at_name(sql.spec_bytes(), up.spec_bytes(), pos as int)),
{
    let total = sql.as_bytes().len();
    let (p, remaining) = match trimmed_suffix(sql, pos) {
        None => return None,
        Some(x) => x,
    };
    let name_end = match find_str(remaining, "(") {
        None => return failure("Expected '(' after function name"),
        Some(i) => i,
    };
    let name_text = match prefix_str(remaining, name_end) {
        None => return None,
        Some(t) => t,
    };
    let name_trimmed = trim_str(name_text);
    proof {
        lemma_encode_valid(name_trimmed@);
        assert(name_text.spec_bytes().len() == name_end);
        assert(remaining.spec_bytes().len() == sql.spec_bytes().len() - p);
    }
    let name = name_trimmed.to_owned();
    match (p + name_end).checked_add(1) {
        None => None,
        Some(next) => stage_params(sql, up, next, name),
    }
}

fn stage_params(sql: &str, up: &str, pos: usize, name: String) -> (r: Option<
    Result<FunctionDefinition, String>,
>)
    ensures
        agrees(r, at_params(sql.spec_bytes(), up.spec_bytes(), pos as int, name@)),
{
    let total = sql.as_bytes().len();
    let remaining = match suffix_str(sql, pos) {
        None => return None,
        Some(t) => t,
    };
    let params_end = match find_str(remaining, ")") {
        None => return failure("Expected ')' after parameters"),
        Some(i) => i,
    };
    let params_str = match prefix_str(remaining, params_end) {
        None => return None,
        Some(t) => t,
    };
    let parameters = match parse_parameters(params_str) {
        Err(e) => return Some(Err(e)),
        Ok(ps) => ps,
    };
    proof {
        assert(params_str.spec_bytes().len() == params_end);
        assert(remaining.spec_bytes().len() == sql.spec_bytes().len() - pos);
    }
    match (pos + params_end).checked_add(1) {
        None => None,
        Some(next) => stage_returns(sql, up, next, name, parameters),
    }
}

fn stage_returns(
    sql: &str,
    up: &str,
    pos: usize,
    name: String,
    parameters: Vec<FunctionParameter>,
) -> (r: Option<Result<FunctionDefinition, String>>)
    ensures
        agrees(
            r,
            at_returns(sql.spec_bytes(), up.spec_bytes(), pos as int, name@, params_view(parameters@)),
        ),
{
    let total = sql.as_bytes().len();
    let u = match trimmed_suffix(up, pos) {
        None => return None,
        Some((_, u)) => u,
    };
    let p = match trimmed_suffix(sql, pos) {
        None => return None,
        Some((p, _)) => p,
    };
    if !starts_with_str(u, "RETURNS") {
        return failure("Expected RETURNS keyword");
    }
    match p.checked_add(7) {
        None => None,
        Some(p7) => stage_return_type(sql, up, p7, name, parameters),
    }
}

fn stage_return_type(
    sql: &str,
    up: &str,
    pos: usize,
    name: String,
    parameters: Vec<FunctionParameter>,
) -> (r: Option<Result<FunctionDefinition, String>>)
    ensures
        agrees(
            r,
            at_return_type(
                sql.spec_bytes(),
                up.spec_bytes(),
                pos as int,
                name@,
                params_view(parameters@),
            ),
        ),
{
    let total = sql.as_bytes().len();
    let (p, remaining) = match trimmed_suffix(sql, pos) {
        None => return None,
        Some(x) => x,
    };
    let u = match suffix_str(up, p) {
        None => return None,
        Some(u) => u,
    };
    let remaining_upper = trim_start_str(u);
    let lang_pos = match find_str(remaining_upper, "LANGUAGE") {
        None => return failure("Expected LANGUAGE keyword"),
        Some(i) => i,
    };
    let type_text = match prefix_str(remaining, lang_pos) {
        None => return None,
        Some(t) => t,
    };
    let type_trimmed = trim_str(type_text);
    proof {
        lemma_encode_valid(type_trimmed@);
        assert(type_text.spec_bytes().len() == lang_pos);
        assert(remaining.spec_bytes().len() == sql.spec_bytes().len() - p);
    }
    let return_type = normalize_sql_type(type_trimmed);
    match (p + lang_pos).checked_add(8) {
        None => None,
        Some(next) => stage_language(sql, up, next, name, parameters, return_type),
    }
}

fn stage_language(
    sql: &str,
    up: &str,
    pos: usize,
    name: String,
    parameters: Vec<FunctionParameter>,
    return_type: String,
) -> (r: Option<Result<FunctionDefinition, String>>)
    ensures
        agrees(
            r,
            at_language(
                sql.spec_bytes(),
                up.spec_bytes(),
                pos as int,
                name@,
                params_view(parameters@),
                return_type@,
            ),
        ),
{
    let total = sql.as_bytes().len();
    let (p, remaining) = match trimmed_suffix(sql, pos) {
        None => return None,
        Some(x) => x,
    };
    let u = match suffix_str(up, p) {
        None => return None,
        Some(u) => u,
    };
    let remaining_upper = trim_start_str(u);
    let as_pos = match find_str(remaining_upper, " AS") {
        Some(i) => i,
        None => match find_str(remaining_upper, "\nAS") {
            Some(i) => i,
            None => match find_str(remaining_upper, "\tAS") {
                Some(i) => i,
                None => return failure("Expected AS keyword"),
            },
        },
    };
    let language_text = match prefix_str(remaining, as_pos) {
        None => return None,
        Some(t) => t,
    };
    let language_trimmed = trim_str(language_text);
    proof {
        lemma_encode_valid(language_trimmed@);
        assert(language_text.spec_bytes().len() == as_pos);
        assert(remaining.spec_bytes().len() == sql.spec_bytes().len() - p);
    }
    let language = to_uppercase(language_trimmed);
    if !str_eq(language.as_str(), "PYTHON") {
        let msg = concat3("Unsupported language: ", language.as_str(), ". Only PYTHON is supported.");
        return Some(Err(msg));
    }
    let body_start = match (p + as_pos).checked_add(3) {
        None => return None,
        Some(v) => v,
    };
    match scan_body(sql, body_start) {
        None => None,
        Some(Err(e)) => Some(Err(e)),
        Some(Ok((body, _))) => Some(
            Ok(FunctionDefinition { name, parameters, return_type, language, body }),
        ),
    }
}

/// Parses the trimmed statement `sql` whose uppercase text is `up`: the
/// keywords are looked for in `up`, the names, types and body are read
/// from `sql` at the same byte offsets; `None` where an offset is not a
/// character boundary.
pub fn parse_with_uppercase(sql: &str, up: &str) -> (r: Option<Result<FunctionDefinition, String>>)
    ensures
        agrees(r, statement_outcome(sql.spec_bytes(), up.spec_bytes())),
{
    if !starts_with_str(up, "CREATE") {
        return failure("Expected CREATE keyword");
    }
    stage_create(sql, up)
}

/// What `parse_create_function` would do, `None` where it would panic.
fn parse_statement(text: &str) -> (r: Option<Result<FunctionDefinition, String>>)
    ensures
        agrees(r, create_outcome(text@)),
{
    let sql = trim_str(text);
    let upper = to_uppercase(sql);
    proof {
        lemma_encode_valid(sql@);
    }
    parse_with_uppercase(sql, upper.as_str())
}

/// True when parsing the statement would slice it at a byte offset that is
/// not a character boundary (which only non-ASCII text whose uppercase
/// has another length can cause).
pub open spec fn create_function_panics(sql: Seq<char>) -> bool {
    create_outcome(sql) is Panics
}

/// Parses a `CREATE [OR REPLACE] FUNCTION name(params) RETURNS type
/// LANGUAGE PYTHON AS $$ body $$` statement.
pub fn parse_create_function(sql: &str) -> (r: Result<FunctionDefinition, String>)
    requires
        !create_function_panics(sql@),
    ensures
        match r {
            Ok(d) => create_outcome(sql@) == CreateOutcome::Defined(d@),
            Err(e) => create_outcome(sql@) == CreateOutcome::Failed(e@),
        },
{
    match parse_statement(sql) {
        Some(r) => r,
        None => {
            proof {
                assert(false);
            }
            Err(String::new())
        },
    }
}

/// `parse_create_function` where it does not panic, and `None` where it would.
pub fn try_parse_create_function(sql: &str) -> (r: Option<Result<FunctionDefinition, String>>)
    ensures
        r is None <==> create_function_panics(sql@),
        r matches Some(Ok(d)) ==> create_outcome(sql@) == CreateOutcome::Defined(d@),
        r matches Some(Err(e)) ==> create_outcome(sql@) == CreateOutcome::Failed(e@),
{
    match parse_statement(sql) {
        None => None,
        Some(_) => Some(parse_create_function(sql)),
    }
}

} // verus!
