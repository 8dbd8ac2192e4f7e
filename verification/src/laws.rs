//! Properties that relate several operations of the library.
use vstd::prelude::*;
use vstd::utf8::*;

use crate::parser::{
    at_language, at_name, at_params, at_return_type, at_returns, after_create, at_function,
    statement_outcome, CreateOutcome,
    body_outcome, create_outcome, invalid_parameter_message, normalized_type, normalized_upper, parameter_pieces,
    parameters_of, quoted_body, unwrapped_list, BodyOutcome, DefinitionView, ParameterView,
};
use crate::create_function_vtab::{
    decimal, defined_function, digit_char, digits, index_after, listing_row, RowView,
};
use crate::registry::registry_key;
use crate::types::{logical_type_name, logical_type_upper, LogicalTypeId};
use crate::text::{
    ascii_lower, ascii_lower_char, ascii_upper, ascii_upper_char, find, find_from, index_of_byte,
    lead_ws, lemma_boundary_at, lemma_encode_valid, lemma_index_of_byte, lemma_lead_ws_bound,
    lemma_ws_len_bounds,
    lemma_trail_ws_bound, lowercase, range, starts_with, suffix, trail_ws, trim, trim_chars,
    trim_end, trim_start, ws_len, ws_len_end,
};
use crate::text::{can_slice, prefix, skip_ws, upper_text};
use vstd::utf8::is_ascii_chars_concat;
use crate::values::{accumulate, parsed_int, IntErrorKind};

verus! {

broadcast use vstd::seq::group_seq_axioms;

// ---------------------------------------------------------------------------
// The registry
// ---------------------------------------------------------------------------
/// After a function is registered, looking it up by any name with the same
/// lowercase form gives that function, and every other name gives what it
/// gave before.
pub proof fn law_lookup_after_register(
    before: Map<Seq<char>, DefinitionView>,
    def: DefinitionView,
    name: Seq<char>,
)
    ensures
        ({
            let after = before.insert(registry_key(def.name), def);
            &&& lowercase(name) == lowercase(def.name) ==> after.contains_key(registry_key(name))
                && after[registry_key(name)] == def
            &&& lowercase(name) != lowercase(def.name) ==> (after.contains_key(registry_key(name))
                == before.contains_key(registry_key(name)) && (before.contains_key(
                registry_key(name),
            ) ==> after[registry_key(name)] == before[registry_key(name)]))
        }),
{
}

/// Registering under a name that lowercases alike replaces the earlier
/// function: only the last one stays.
pub proof fn law_register_replaces(
    before: Map<Seq<char>, DefinitionView>,
    first: DefinitionView,
    second: DefinitionView,
)
    requires
        lowercase(first.name) == lowercase(second.name),
    ensures
        before.insert(registry_key(first.name), first).insert(registry_key(second.name), second)
            == before.insert(registry_key(second.name), second),
{
    assert(before.insert(registry_key(first.name), first).insert(registry_key(second.name), second)
        =~= before.insert(registry_key(second.name), second));
}

/// Unregistering a function that was just registered under a new name
/// gives back the registry as it was.
pub proof fn law_unregister_undoes_register(
    before: Map<Seq<char>, DefinitionView>,
    def: DefinitionView,
)
    requires
        !before.contains_key(registry_key(def.name)),
    ensures
        before.insert(registry_key(def.name), def).remove(registry_key(def.name)) == before,
{
    assert(before.insert(registry_key(def.name), def).remove(registry_key(def.name)) =~= before);
}

/// After unregistering, no name with the same lowercase form finds a function.
pub proof fn law_unregistered_not_found(
    before: Map<Seq<char>, DefinitionView>,
    removed: Seq<char>,
    name: Seq<char>,
)
    requires
        lowercase(name) == lowercase(removed),
    ensures
        !before.remove(registry_key(removed)).contains_key(registry_key(name)),
{
}

/// A function that `create_py_function` defined is found by `py_call` under
/// its name, as a Python function with the normalized return type.
pub proof fn law_created_function_is_callable(
    before: Map<Seq<char>, DefinitionView>,
    name: Seq<char>,
    params: Seq<ParameterView>,
    return_type: Seq<char>,
    body: Seq<char>,
)
    ensures
        ({
            let after = before.insert(
                registry_key(name),
                defined_function(name, params, return_type, body),
            );
            &&& after.contains_key(registry_key(name))
            &&& after[registry_key(name)].name == name
            &&& after[registry_key(name)].parameters == params
            &&& after[registry_key(name)].return_type == normalized_type(return_type)
            &&& after[registry_key(name)].language == "PYTHON"@
            &&& after[registry_key(name)].body == body
        }),
{
}

// ---------------------------------------------------------------------------
// Integers as text
// ---------------------------------------------------------------------------
/// The ASCII bytes of the decimal digits of `m`.
pub open spec fn digit_bytes(m: nat) -> Seq<u8>
    decreases m,
{
    if m < 10 {
        seq![(0x30 + m) as u8]
    } else {
        digit_bytes(m / 10) + seq![(0x30 + m % 10) as u8]
    }
}

proof fn lemma_encode_concat(a: Seq<char>, b: Seq<char>)
    ensures
        encode_utf8(a + b) == encode_utf8(a) + encode_utf8(b),
    decreases a.len(),
{
    if a.len() == 0 {
        assert(a + b =~= b);
    } else {
        assert((a + b).drop_first() =~= a.drop_first() + b);
        lemma_encode_concat(a.drop_first(), b);
        assert((a + b)[0] == a[0]);
    }
}

proof fn lemma_encode_ascii_char(c: char)
    requires
        (c as u32) < 0x80,
    ensures
        encode_utf8(seq![c]) == seq![(c as u32) as u8],
{
    let v = c as u32;
    assert((v & 0x7F) == v) by (bit_vector)
        requires
            v < 0x80,
    ;
    assert(seq![c].drop_first() =~= Seq::<char>::empty());
    assert(encode_scalar(v) =~= seq![v as u8]);
    reveal_with_fuel(encode_utf8, 2);
    assert(encode_utf8(seq![c]) =~= encode_scalar(v) + encode_utf8(Seq::<char>::empty()));
}

proof fn lemma_digit_char(d: int)
    requires
        0 <= d < 10,
    ensures
        (digit_char(d) as u32) == 0x30 + d,
        encode_utf8(seq![digit_char(d)]) == seq![(0x30 + d) as u8],
{
    lemma_encode_ascii_char(digit_char(d));
}

proof fn lemma_encode_digits(m: nat)
    ensures
        encode_utf8(digits(m)) == digit_bytes(m),
    decreases m,
{
    if m < 10 {
        lemma_digit_char(m as int);
    } else {
        lemma_encode_digits(m / 10);
        lemma_digit_char((m % 10) as int);
        lemma_encode_concat(digits(m / 10), seq![digit_char((m % 10) as int)]);
    }
}

proof fn lemma_accumulate_concat(
    b1: Seq<u8>,
    b2: Seq<u8>,
    acc: int,
    min: int,
    max: int,
    negative: bool,
)
    ensures
        accumulate(b1 + b2, acc, min, max, negative) == match accumulate(
            b1,
            acc,
            min,
            max,
            negative,
        ) {
            Ok(a) => accumulate(b2, a, min, max, negative),
            Err(e) => Err(e),
        },
    decreases b1.len(),
{
    if b1.len() == 0 {
        assert(b1 + b2 =~= b2);
    } else {
        assert((b1 + b2)[0] == b1[0]);
        assert((b1 + b2).subrange(1, (b1 + b2).len() as int) =~= b1.subrange(1, b1.len() as int)
            + b2);
        let d = b1[0] - 0x30;
        let v = if negative {
            acc * 10 - d
        } else {
            acc * 10 + d
        };
        lemma_accumulate_concat(b1.subrange(1, b1.len() as int), b2, v, min, max, negative);
    }
}

proof fn lemma_accumulate_digits(m: nat, min: int, max: int, negative: bool)
    requires
        min <= 0 <= max,
        !negative ==> m <= max,
        negative ==> -m >= min,
    ensures
        accumulate(digit_bytes(m), 0, min, max, negative) == Ok::<int, IntErrorKind>(
            if negative {
                -m
            } else {
                m as int
            },
        ),
        digit_bytes(m).len() > 0,
        0x30 <= digit_bytes(m)[0] <= 0x39,
    decreases m,
{
    if m < 10 {
        let b = digit_bytes(m);
        assert(b[0] == 0x30 + m);
        assert(b.subrange(1, b.len() as int) =~= Seq::<u8>::empty());
        reveal_with_fuel(accumulate, 2);
    } else {
        let q = m / 10;
        let d = m % 10;
        lemma_accumulate_digits(q, min, max, negative);
        let tail = seq![(0x30 + d) as u8];
        assert(tail[0] == 0x30 + d);
        lemma_accumulate_concat(digit_bytes(q), tail, 0, min, max, negative);
        assert(tail.subrange(1, tail.len() as int) =~= Seq::<u8>::empty());
        reveal_with_fuel(accumulate, 2);
        assert(q * 10 + d == m);
        assert((digit_bytes(q) + tail)[0] == digit_bytes(q)[0]);
    }
}

/// Writing an integer in decimal (as `py_call` shows results) and reading
/// the text back as an integer of a type that holds it (as `py_call` reads
/// arguments) gives the integer.
pub proof fn law_integer_text_round_trip(n: int, min: int, max: int)
    requires
        min < 0 < max,
        min <= n <= max,
    ensures
        parsed_int(encode_utf8(decimal(n)), min, max) == Ok::<int, IntErrorKind>(n),
{
    if n < 0 {
        let m = (-n) as nat;
        lemma_encode_concat(seq!['-'], digits(m));
        lemma_encode_ascii_char('-');
        lemma_encode_digits(m);
        lemma_accumulate_digits(m, min, max, true);
        let b = encode_utf8(decimal(n));
        assert(b == seq![0x2du8] + digit_bytes(m));
        assert(b.subrange(1, b.len() as int) =~= digit_bytes(m));
    } else {
        lemma_encode_digits(n as nat);
        lemma_accumulate_digits(n as nat, min, max, false);
    }
}

// ---------------------------------------------------------------------------
// Function bodies
// ---------------------------------------------------------------------------
/// True when `b` holds no `$$` and does not end with `$`: a body that a
/// closing `$$` ends right after.
pub open spec fn dollar_free(b: Seq<char>) -> bool {
    forall|i: int| 0 <= i < b.len() && #[trigger] b[i] == '$' ==> i + 1 < b.len() && b[i + 1] != '$'
}

/// The bytes of one character: only the ASCII character `m` itself gives
/// the byte `m`, and the first byte is never a continuation byte.
pub(crate) proof fn lemma_scalar_bytes(c: char, m: char)
    requires
        (m as u32) < 0x80,
    ensures
        encode_scalar(c as u32).len() >= 1,
        !is_continuation_byte(encode_scalar(c as u32)[0]),
        c == m ==> encode_scalar(c as u32) == seq![(m as u32) as u8],
        c != m ==> forall|k: int|
            0 <= k < encode_scalar(c as u32).len() ==> #[trigger] encode_scalar(c as u32)[k]
                != (m as u32) as u8,
{
    let v = c as u32;
    let w = m as u32;
    assert(is_scalar(v));
    if has_width_1_encoding(v) {
        assert((v & 0x7F) as u8 == v as u8 && (v as u8) < 0x80 && (v == w <==> v as u8 == w as u8))
            by (bit_vector)
            requires
                v <= 0x7F,
                w < 0x80,
        ;
        assert(v == w ==> c == m) by {
            if v == w {
                assert((v as char) == c);
                assert((w as char) == m);
            }
        }
    } else if has_width_2_encoding(v) {
        assert(leading_byte_width_2(v) >= 0xC0 && last_continuation_byte(v) >= 0x80)
            by (bit_vector);
    } else if has_width_3_encoding(v) {
        assert(leading_byte_width_3(v) >= 0xC0 && second_last_continuation_byte(v) >= 0x80
            && last_continuation_byte(v) >= 0x80) by (bit_vector);
    } else {
        assert(leading_byte_width_4(v) >= 0xC0 && third_last_continuation_byte(v) >= 0x80
            && second_last_continuation_byte(v) >= 0x80 && last_continuation_byte(v) >= 0x80)
            by (bit_vector);
    }
}

/// In the bytes of a `dollar_free` text followed by anything, no `$$`
/// starts inside the text.
proof fn lemma_no_dollar_pair(b: Seq<char>, tail: Seq<u8>)
    requires
        dollar_free(b),
        tail.len() > 0,
    ensures
        forall|i: int|
            0 <= i < encode_utf8(b).len() ==> !(#[trigger] (encode_utf8(b) + tail)[i] == 0x24 && (
            encode_utf8(b) + tail)[i + 1] == 0x24),
    decreases b.len(),
{
    if b.len() > 0 {
        let c = b[0];
        let r = b.drop_first();
        let e = encode_scalar(c as u32);
        let x = encode_utf8(b) + tail;
        assert(encode_utf8(b) == e + encode_utf8(r));
        assert(dollar_free(r)) by {
            assert forall|i: int| 0 <= i < r.len() && #[trigger] r[i] == '$' implies i + 1 < r.len() && r[i
                + 1] != '$' by {
                assert(b[i + 1] == r[i]);
            }
        }
        lemma_no_dollar_pair(r, tail);
        lemma_scalar_bytes(c, '$');
        assert(x =~= e + (encode_utf8(r) + tail));
        assert forall|i: int|
            0 <= i < encode_utf8(b).len() implies !(#[trigger] x[i] == 0x24 && x[i + 1] == 0x24) by {
            if i >= e.len() {
                assert(x[i] == (encode_utf8(r) + tail)[i - e.len()]);
                assert(x[i + 1] == (encode_utf8(r) + tail)[i + 1 - e.len()]);
            } else if c == '$' {
                assert(0 + 1 < b.len() && b[1] != '$');
                lemma_scalar_bytes(r[0], '$');
                encode_utf8_first_scalar(r);
                assert(encode_utf8(r) =~= encode_scalar(r[0] as u32) + encode_utf8(r.drop_first()));
                assert(x[1] == encode_scalar(r[0] as u32)[0]);
            } else {
                assert(x[i] == e[i]);
            }
        }
    }
}

/// Searching for `$$` in the bytes of a `dollar_free` text followed by `$$`
/// finds the one right after the text.
proof fn lemma_find_closing(bb: Seq<u8>, a: Seq<u8>, d: Seq<u8>, i: int)
    requires
        d == seq![0x24u8, 0x24u8],
        0 <= i <= bb.len(),
        a.len() >= bb.len() + 2,
        a.subrange(0, bb.len() as int) == bb,
        a[bb.len() as int] == 0x24,
        a[bb.len() as int + 1] == 0x24,
        forall|j: int| 0 <= j < bb.len() ==> !(#[trigger] a[j] == 0x24 && a[j + 1] == 0x24),
    ensures
        find_from(a, d, i) == Some(bb.len() as int),
    decreases bb.len() - i,
{
    if i < bb.len() {
        assert(a.subrange(i, i + 2) != d) by {
            if a.subrange(i, i + 2) == d {
                assert(a[i] == a.subrange(i, i + 2)[0]);
                assert(a[i + 1] == a.subrange(i, i + 2)[1]);
            }
        }
        lemma_find_from_step(a, d, i);
        lemma_find_closing(bb, a, d, i + 1);
    } else {
        assert(a.subrange(i, i + 2) =~= d);
    }
}

proof fn lemma_find_from_step(a: Seq<u8>, d: Seq<u8>, i: int)
    requires
        d.len() == 2,
        0 <= i,
        i + 2 <= a.len(),
        a.subrange(i, i + 2) != d,
    ensures
        find_from(a, d, i) == find_from(a, d, i + 1),
{
}

proof fn lemma_dollar_pair()
    ensures
        encode_utf8("$$"@) == seq![0x24u8, 0x24u8],
{
    reveal_strlit("$$");
    let c = "$$"@;
    assert(c =~= seq!['$'] + seq!['$']);
    lemma_encode_ascii_char('$');
    lemma_encode_concat(seq!['$'], seq!['$']);
}

/// A body written between `$$` delimiters is read back exactly, with the
/// position just after the closing `$$`, whatever stands before and after.
#[verifier::spinoff_prover]
#[verifier::rlimit(40)]
pub proof fn law_dollar_body_read_back(pre: Seq<char>, b: Seq<char>, post: Seq<char>)
    requires
        dollar_free(b),
    ensures
        body_outcome(encode_utf8(pre + "$$"@ + b + "$$"@ + post), encode_utf8(pre).len() as int)
            == BodyOutcome::Found(b, encode_utf8(pre).len() as int + encode_utf8(b).len() + 4),
{
    let dd = "$$"@;
    lemma_dollar_pair();
    let d = encode_utf8(dd);
    let p = encode_utf8(pre);
    let bb = encode_utf8(b);
    let q = encode_utf8(post);
    let t4 = dd + post;
    let t3 = b + t4;
    let t2 = dd + t3;
    assert(pre + "$$"@ + b + "$$"@ + post =~= pre + t2);
    lemma_encode_concat(pre, t2);
    lemma_encode_concat(dd, t3);
    lemma_encode_concat(b, t4);
    lemma_encode_concat(dd, post);
    let sql = encode_utf8(pre + t2);
    let rem = encode_utf8(t2);
    assert(rem =~= d + (bb + (d + q)));
    assert(sql =~= p + rem);
    lemma_encode_valid(pre + t2);
    lemma_encode_valid(t2);
    let start = p.len() as int;
    assert(sql.subrange(start, sql.len() as int) =~= rem);
    assert(sql[start] == 0x24);
    lemma_boundary_at(sql, start);
    assert(suffix(sql, start) == Some(rem));
    // no leading whitespace
    assert(ws_len(rem) == 0);
    assert(lead_ws(rem) == 0);
    assert(trim_start(rem) =~= rem);
    assert(starts_with(rem, d)) by {
        assert(rem.subrange(0, 2) =~= d);
    }
    // the body starts after the opening delimiter
    let a = bb + (d + q);
    assert(rem.subrange(2, rem.len() as int) =~= a);
    if bb.len() > 0 {
        encode_utf8_first_scalar(b);
        lemma_scalar_bytes(b[0], '$');
        assert(bb =~= encode_scalar(b[0] as u32) + encode_utf8(b.drop_first()));
        assert(rem[2] == bb[0]);
    } else {
        assert(rem[2] == 0x24);
    }
    lemma_boundary_at(rem, 2);
    assert(suffix(rem, 2) == Some(a));
    // the closing delimiter is the first `$$` in what follows
    lemma_no_dollar_pair(b, d + q);
    assert(a.subrange(0, bb.len() as int) =~= bb);
    assert(a[bb.len() as int] == 0x24);
    assert(a[bb.len() as int + 1] == 0x24);
    lemma_find_closing(bb, a, d, 0);
    assert(find(a, d) == Some(bb.len() as int));
    // the body itself
    assert(rem[2 + bb.len() as int] == 0x24);
    lemma_boundary_at(rem, 2 + bb.len() as int);
    assert(rem.subrange(2, 2 + bb.len() as int) =~= bb);
    assert(range(rem, 2, 2 + bb.len() as int) == Some(bb));
    lemma_encode_valid(b);
}

/// `b` with each single quote doubled, as a body in single quotes is written.
pub open spec fn escape_quotes(b: Seq<char>) -> Seq<char>
    decreases b.len(),
{
    if b.len() == 0 {
        seq![]
    } else if b[0] == '\'' {
        seq!['\'', '\''] + escape_quotes(b.drop_first())
    } else {
        seq![b[0]] + escape_quotes(b.drop_first())
    }
}

/// A text without the ASCII character `m` has no byte `m`.
proof fn lemma_no_byte(u: Seq<char>, m: char)
    requires
        (m as u32) < 0x80,
        forall|i: int| 0 <= i < u.len() ==> u[i] != m,
    ensures
        forall|k: int| 0 <= k < encode_utf8(u).len() ==> #[trigger] encode_utf8(u)[k] != (
        m as u32) as u8,
    decreases u.len(),
{
    if u.len() > 0 {
        let e = encode_scalar(u[0] as u32);
        let r = u.drop_first();
        lemma_scalar_bytes(u[0], m);
        lemma_no_byte(r, m);
        assert(encode_utf8(u) == e + encode_utf8(r));
        assert forall|k: int| 0 <= k < encode_utf8(u).len() implies #[trigger] encode_utf8(u)[k]
            != (m as u32) as u8 by {
            if k < e.len() {
                assert(encode_utf8(u)[k] == e[k]);
            } else {
                assert(encode_utf8(u)[k] == encode_utf8(r)[k - e.len()]);
            }
        }
    }
}

/// The first `c` in `x + y`, where `x` holds none, is the first in `y`.
proof fn lemma_index_after(x: Seq<u8>, y: Seq<u8>, c: u8)
    requires
        forall|k: int| 0 <= k < x.len() ==> x[k] != c,
    ensures
        index_of_byte(x + y, c) == x.len() + index_of_byte(y, c),
    decreases x.len(),
{
    if x.len() == 0 {
        assert(x + y =~= y);
    } else {
        let xy = x + y;
        assert(xy[0] == x[0]);
        assert(xy.subrange(1, xy.len() as int) =~= x.subrange(1, x.len() as int) + y);
        lemma_index_after(x.subrange(1, x.len() as int), y, c);
    }
}

proof fn lemma_quote_byte()
    ensures
        encode_utf8("'"@) == seq![0x27u8],
        encode_utf8(seq!['\'', '\'']) == seq![0x27u8, 0x27u8],
{
    reveal_strlit("'");
    assert("'"@ =~= seq!['\'']);
    lemma_encode_ascii_char('\'');
    assert(seq!['\'', '\''] =~= seq!['\''] + seq!['\'']);
    lemma_encode_concat(seq!['\''], seq!['\'']);
}

/// The closing quote right after a quote-free `u` ends the body.
proof fn lemma_quoted_end(u: Seq<char>, t: Seq<u8>)
    requires
        forall|i: int| 0 <= i < u.len() ==> u[i] != '\'',
        t.len() == 0 || t[0] != 0x27,
    ensures
        quoted_body(encode_utf8(u) + (seq![0x27u8] + t)) == Some(
            (u, encode_utf8(u).len() as int + 1),
        ),
{
    let eu = encode_utf8(u);
    let a = eu + (seq![0x27u8] + t);
    lemma_no_byte(u, '\'');
    lemma_encode_valid(u);
    lemma_index_after(eu, seq![0x27u8] + t, 0x27);
    assert(a.subrange(0, eu.len() as int) =~= eu);
}

/// A doubled quote right after a quote-free `u` stands for one quote, and
/// reading goes on after it.
proof fn lemma_quoted_doubled(u: Seq<char>, rest: Seq<u8>, r: Seq<char>, n: int)
    requires
        forall|i: int| 0 <= i < u.len() ==> u[i] != '\'',
        quoted_body(rest) == Some((r, n)),
    ensures
        quoted_body(encode_utf8(u) + (seq![0x27u8, 0x27u8] + rest)) == Some(
            (u + seq!['\''] + r, encode_utf8(u).len() + 2 + n),
        ),
{
    let eu = encode_utf8(u);
    let a = eu + (seq![0x27u8, 0x27u8] + rest);
    lemma_no_byte(u, '\'');
    lemma_encode_valid(u);
    lemma_index_after(eu, seq![0x27u8, 0x27u8] + rest, 0x27);
    let q = eu.len() as int;
    assert(a[q + 1] == 0x27);
    assert(a.subrange(q + 2, a.len() as int) =~= rest);
    assert(a.subrange(0, q) =~= eu);
}

/// Reading a quoted body from after a quote-free `u`: the text that
/// `escape_quotes` wrote is read back, up to the closing quote.
#[verifier::spinoff_prover]
#[verifier::rlimit(40)]
proof fn lemma_quoted_read(u: Seq<char>, b: Seq<char>, t: Seq<u8>)
    requires
        forall|i: int| 0 <= i < u.len() ==> u[i] != '\'',
        t.len() == 0 || t[0] != 0x27,
    ensures
        quoted_body(encode_utf8(u) + (encode_utf8(escape_quotes(b)) + (seq![0x27u8] + t)))
            == Some((u + b, encode_utf8(u).len() as int + encode_utf8(escape_quotes(b)).len() + 1)),
    decreases b.len(),
{
    let eu = encode_utf8(u);
    if b.len() == 0 {
        assert(escape_quotes(b) =~= Seq::<char>::empty());
        assert(eu + (encode_utf8(escape_quotes(b)) + (seq![0x27u8] + t)) =~= eu + (seq![0x27u8]
            + t));
        lemma_quoted_end(u, t);
        assert(u + b =~= u);
    } else if b[0] == '\'' {
        let r = b.drop_first();
        let er = encode_utf8(escape_quotes(r));
        lemma_quote_byte();
        lemma_encode_concat(seq!['\'', '\''], escape_quotes(r));
        lemma_quoted_read(Seq::<char>::empty(), r, t);
        let rest = er + (seq![0x27u8] + t);
        assert(encode_utf8(Seq::<char>::empty()) + rest =~= rest);
        assert(Seq::<char>::empty() + r =~= r);
        lemma_quoted_doubled(u, rest, r, er.len() as int + 1);
        assert(eu + (encode_utf8(escape_quotes(b)) + (seq![0x27u8] + t)) =~= eu + (seq![
            0x27u8,
            0x27u8,
        ] + rest));
        assert(u + seq!['\''] + r =~= u + b);
    } else {
        let r = b.drop_first();
        let c = seq![b[0]];
        let u2 = u + c;
        let er = encode_utf8(escape_quotes(r));
        lemma_encode_concat(c, escape_quotes(r));
        lemma_encode_concat(u, c);
        assert forall|i: int| 0 <= i < u2.len() implies u2[i] != '\'' by {
            if i < u.len() {
                assert(u2[i] == u[i]);
            }
        }
        lemma_quoted_read(u2, r, t);
        assert(encode_utf8(u2) + (er + (seq![0x27u8] + t)) =~= eu + (encode_utf8(escape_quotes(b))
            + (seq![0x27u8] + t)));
        assert(u2 + r =~= u + b);
    }
}

/// A body written between single quotes, with each quote in it doubled, is
/// read back exactly, with the position just after the closing quote;
/// what follows must not start with a quote, which would read as one more
/// doubled quote.
#[verifier::spinoff_prover]
#[verifier::rlimit(40)]
pub proof fn law_quoted_body_read_back(pre: Seq<char>, b: Seq<char>, post: Seq<char>)
    requires
        post.len() == 0 || post[0] != '\'',
    ensures
        body_outcome(
            encode_utf8(pre + "'"@ + escape_quotes(b) + "'"@ + post),
            encode_utf8(pre).len() as int,
        ) == BodyOutcome::Found(
            b,
            encode_utf8(pre).len() as int + encode_utf8(escape_quotes(b)).len() + 2,
        ),
{
    let qq = "'"@;
    lemma_quote_byte();
    lemma_dollar_pair();
    let p = encode_utf8(pre);
    let e = encode_utf8(escape_quotes(b));
    let q = encode_utf8(post);
    let t4 = qq + post;
    let t3 = escape_quotes(b) + t4;
    let t2 = qq + t3;
    assert(pre + "'"@ + escape_quotes(b) + "'"@ + post =~= pre + t2);
    lemma_encode_concat(pre, t2);
    lemma_encode_concat(qq, t3);
    lemma_encode_concat(escape_quotes(b), t4);
    lemma_encode_concat(qq, post);
    let sql = encode_utf8(pre + t2);
    let rem = encode_utf8(t2);
    let d1 = seq![0x27u8];
    assert(rem =~= d1 + (e + (d1 + q)));
    assert(sql =~= p + rem);
    lemma_encode_valid(pre + t2);
    lemma_encode_valid(t2);
    let start = p.len() as int;
    assert(sql.subrange(start, sql.len() as int) =~= rem);
    assert(sql[start] == 0x27);
    lemma_boundary_at(sql, start);
    assert(suffix(sql, start) == Some(rem));
    assert(ws_len(rem) == 0);
    assert(lead_ws(rem) == 0);
    assert(trim_start(rem) =~= rem);
    assert(!starts_with(rem, encode_utf8("$$"@))) by {
        if starts_with(rem, encode_utf8("$$"@)) {
            assert(rem[0] == rem.subrange(0, 2)[0]);
        }
    }
    assert(starts_with(rem, encode_utf8("'"@))) by {
        assert(rem.subrange(0, 1) =~= d1);
    }
    let a = e + (d1 + q);
    assert(rem.subrange(1, rem.len() as int) =~= a);
    if e.len() > 0 {
        encode_utf8_first_scalar(escape_quotes(b));
        lemma_scalar_bytes(escape_quotes(b)[0], '\'');
        assert(e =~= encode_scalar(escape_quotes(b)[0] as u32) + encode_utf8(
            escape_quotes(b).drop_first(),
        ));
        assert(rem[1] == e[0]);
    } else {
        assert(rem[1] == 0x27);
    }
    lemma_boundary_at(rem, 1);
    assert(suffix(rem, 1) == Some(a));
    if post.len() > 0 {
        encode_utf8_first_scalar(post);
        lemma_scalar_bytes(post[0], '\'');
        assert(q =~= encode_scalar(post[0] as u32) + encode_utf8(post.drop_first()));
        assert(q[0] != 0x27);
    } else {
        assert(q =~= Seq::<u8>::empty());
    }
    lemma_quoted_read(Seq::<char>::empty(), b, q);
    assert(encode_utf8(Seq::<char>::empty()) + (e + (d1 + q)) =~= a);
    assert(Seq::<char>::empty() + b =~= b);
}

// ---------------------------------------------------------------------------
// Parameter lists
// ---------------------------------------------------------------------------
/// True when two parameter-list results agree: both the same parameters,
/// or both the error for the same bad piece, the second with the hint of
/// `create_py_function`.
pub open spec fn same_outcome(
    a: Result<Seq<ParameterView>, Seq<char>>,
    b: Result<Seq<ParameterView>, Seq<char>>,
) -> bool {
    match (a, b) {
        (Ok(x), Ok(y)) => x == y,
        (Err(m), Err(n)) => exists|piece: Seq<char>|
            m == invalid_parameter_message(piece, false) && n == invalid_parameter_message(
                piece,
                true,
            ),
        _ => false,
    }
}

proof fn lemma_pieces_agree(rest: Seq<u8>)
    ensures
        same_outcome(parameter_pieces(rest, false), parameter_pieces(rest, true)),
    decreases rest.len(),
{
    let cut = index_of_byte(rest, 0x2c);
    lemma_index_of_byte(rest, 0x2c);
    if cut < rest.len() {
        lemma_pieces_agree(rest.subrange(cut + 1int, rest.len() as int));
    }
    let p = trim(rest.subrange(0, cut as int));
    let piece = decode_utf8(p);
    assert(invalid_parameter_message(piece, false) == invalid_parameter_message(piece, false));
    assert(invalid_parameter_message(piece, true) == invalid_parameter_message(piece, true));
}

/// `parse_parameters` (once it has taken off parentheses around the list)
/// and `parse_params_string` (the parser of `create_py_function`) accept the
/// same parameter lists and read the same parameters from them; on a list
/// they refuse, both name the same bad piece, and only the second adds the
/// hint `Expected 'name TYPE'`.
pub proof fn law_parameter_parsers_agree(text: Seq<u8>)
    ensures
        same_outcome(parameters_of(text, false), parameters_of(text, true)),
{
    if trim(text).len() > 0 {
        lemma_pieces_agree(trim(text));
    }
}

/// Bytes that do not start with whitespace have no prefix that does.
proof fn lemma_ws_len_prefix(x: Seq<u8>, k: int)
    requires
        0 <= k <= x.len(),
        ws_len(x) == 0,
    ensures
        ws_len(x.subrange(0, k)) == 0,
{
    let y = x.subrange(0, k);
    if y.len() >= 1 {
        assert(y[0] == x[0]);
    }
    if y.len() >= 2 {
        assert(y[1] == x[1]);
    }
    if y.len() >= 3 {
        assert(y[2] == x[2]);
    }
}

/// What `trim_start` leaves starts with no whitespace.
proof fn lemma_trim_start_bare(b: Seq<u8>)
    ensures
        ws_len(trim_start(b)) == 0,
    decreases b.len(),
{
    lemma_ws_len_bounds(b);
    if ws_len(b) > 0 {
        let r = b.subrange(ws_len(b), b.len() as int);
        lemma_lead_ws_bound(r);
        assert(trim_start(b) =~= trim_start(r));
        lemma_trim_start_bare(r);
    } else {
        assert(trim_start(b) =~= b);
    }
}

/// What `trim_end` leaves ends with no whitespace.
proof fn lemma_trim_end_bare(b: Seq<u8>)
    ensures
        trail_ws(trim_end(b)) == 0,
    decreases b.len(),
{
    let w = ws_len_end(b);
    assert(0 <= w <= b.len());
    if w > 0 {
        let c = b.subrange(0, b.len() - w);
        lemma_trail_ws_bound(c);
        assert(trim_end(b) =~= trim_end(c));
        lemma_trim_end_bare(c);
    } else {
        assert(trim_end(b) =~= b);
    }
}

/// Trimming twice is trimming once.
proof fn lemma_trim_twice(b: Seq<u8>)
    ensures
        trim(trim(b)) == trim(b),
{
    let st = trim_start(b);
    lemma_trim_start_bare(b);
    lemma_trail_ws_bound(st);
    let e = trim_end(st);
    lemma_ws_len_prefix(st, e.len() as int);
    assert(e =~= st.subrange(0, e.len() as int));
    assert(lead_ws(e) == 0);
    assert(trim_start(e) =~= e);
    lemma_trim_end_bare(st);
    assert(trim_end(e) =~= e);
}

/// `parse_parameters` and `parse_params_string` (the parser of
/// `create_py_function`) give alike results for the same text wherever no
/// pair of parentheses wraps the whole list: both the same parameters, or
/// both the error for the same bad piece, the second with the hint
/// `Expected 'name TYPE'`.
pub proof fn law_parameter_texts_agree(text: Seq<u8>)
    requires
        !(trim(text).len() >= 2 && trim(text)[0] == 0x28 && trim(text)[trim(text).len() - 1]
            == 0x29),
    ensures
        same_outcome(parameters_of(unwrapped_list(text), false), parameters_of(text, true)),
{
    lemma_trim_twice(text);
    assert(unwrapped_list(text) == trim(text));
    assert(parameters_of(trim(text), false) == parameters_of(text, false));
    law_parameter_parsers_agree(text);
}

// ---------------------------------------------------------------------------
// Runs of calls
// ---------------------------------------------------------------------------
/// A fresh `list_py_functions` listing gives its rows once each, in order:
/// the step after `i` earlier steps (while `i` is at most `usize::MAX`)
/// produces row `i` while there is one, and no row after the last.
pub proof fn law_listing_run(rows: Seq<RowView>, i: nat)
    requires
        i <= usize::MAX,
    ensures
        index_after(i) == i,
        listing_row(rows, index_after(i)) == (if i < rows.len() {
            Some(rows[i as int])
        } else {
            None::<RowView>
        }),
    decreases i,
{
    if i > 0 {
        law_listing_run(rows, (i - 1) as nat);
    }
}

/// One registry operation: registering a definition, or unregistering a name.
pub enum RegistryOp {
    Register(DefinitionView),
    Unregister(Seq<char>),
}

/// The registry after a history of operations on an empty registry, as
/// `register_function` and `unregister_function` change it.
pub open spec fn replay(ops: Seq<RegistryOp>) -> Map<Seq<char>, DefinitionView>
    decreases ops.len(),
{
    if ops.len() == 0 {
        Map::empty()
    } else {
        let before = replay(ops.drop_last());
        match ops.last() {
            RegistryOp::Register(d) => before.insert(registry_key(d.name), d),
            RegistryOp::Unregister(n) => before.remove(registry_key(n)),
        }
    }
}

/// The definition of the latest registration under `key` that no later
/// unregistration of `key` undid.
pub open spec fn latest(ops: Seq<RegistryOp>, key: Seq<char>) -> Option<DefinitionView>
    decreases ops.len(),
{
    if ops.len() == 0 {
        None
    } else {
        match ops.last() {
            RegistryOp::Register(d) => if registry_key(d.name) == key {
                Some(d)
            } else {
                latest(ops.drop_last(), key)
            },
            RegistryOp::Unregister(n) => if registry_key(n) == key {
                None
            } else {
                latest(ops.drop_last(), key)
            },
        }
    }
}

/// After any history of registrations and unregistrations, looking a name
/// up gives the latest registration under its key that was not undone
/// since, with all its fields as registered, and nothing where there is none.
pub proof fn law_lookup_after_history(ops: Seq<RegistryOp>, name: Seq<char>)
    ensures
        match latest(ops, registry_key(name)) {
            Some(d) => replay(ops).contains_key(registry_key(name)) && replay(ops)[registry_key(
                name,
            )] == d,
            None => !replay(ops).contains_key(registry_key(name)),
        },
    decreases ops.len(),
{
    if ops.len() > 0 {
        law_lookup_after_history(ops.drop_last(), name);
    }
}

// ---------------------------------------------------------------------------
// Whitespace around a statement
// ---------------------------------------------------------------------------
/// True when `c` is a whitespace character (`char::is_whitespace`): its
/// UTF-8 bytes are one of the whitespace encodings.
pub open spec fn is_space(c: char) -> bool {
    ws_len(encode_scalar(c as u32)) == encode_scalar(c as u32).len()
}

/// True when every character of `s` is whitespace.
pub open spec fn all_space(s: Seq<char>) -> bool {
    forall|i: int| 0 <= i < s.len() ==> is_space(#[trigger] s[i])
}

/// The leading byte of a character tells its width, and the other bytes
/// are continuation bytes.
proof fn lemma_scalar_shape(c: char)
    ensures
        1 <= encode_scalar(c as u32).len() <= 4,
        encode_scalar(c as u32).len() == 1 ==> encode_scalar(c as u32)[0] < 0x80,
        encode_scalar(c as u32).len() == 2 ==> 0xc0 <= encode_scalar(c as u32)[0] <= 0xdf,
        encode_scalar(c as u32).len() == 3 ==> 0xe0 <= encode_scalar(c as u32)[0] <= 0xef,
        encode_scalar(c as u32).len() == 4 ==> 0xf0 <= encode_scalar(c as u32)[0],
        forall|k: int|
            1 <= k < encode_scalar(c as u32).len() ==> is_continuation_byte(
                #[trigger] encode_scalar(c as u32)[k],
            ),
{
    let v = c as u32;
    assert(is_scalar(v));
    if has_width_1_encoding(v) {
        assert((v & 0x7F) as u8 == v as u8 && (v as u8) < 0x80) by (bit_vector)
            requires
                v <= 0x7F,
        ;
    } else if has_width_2_encoding(v) {
        assert(0xc0 <= leading_byte_width_2(v) <= 0xdf && 0x80 <= last_continuation_byte(v)
            <= 0xbf) by (bit_vector);
    } else if has_width_3_encoding(v) {
        assert(0xe0 <= leading_byte_width_3(v) <= 0xef && 0x80 <= second_last_continuation_byte(v)
            <= 0xbf && 0x80 <= last_continuation_byte(v) <= 0xbf) by (bit_vector);
    } else {
        assert(0xf0 <= leading_byte_width_4(v) && 0x80 <= third_last_continuation_byte(v) <= 0xbf
            && 0x80 <= second_last_continuation_byte(v) <= 0xbf && 0x80
            <= last_continuation_byte(v) <= 0xbf) by (bit_vector);
    }
}

/// Whether a whitespace character starts a text depends on that
/// character's bytes alone.
proof fn lemma_ws_len_char(c: char, rest: Seq<u8>)
    ensures
        ws_len(encode_scalar(c as u32) + rest) == ws_len(encode_scalar(c as u32)),
        ws_len(encode_scalar(c as u32)) == 0 || is_space(c),
{
    let e = encode_scalar(c as u32);
    let b = e + rest;
    lemma_scalar_shape(c);
    assert(b[0] == e[0]);
    if e.len() >= 2 {
        assert(b[1] == e[1]);
    }
    if e.len() >= 3 {
        assert(b[2] == e[2]);
    }
}

/// A whitespace character at the end of a text is what `ws_len_end` finds.
proof fn lemma_ws_len_end_char(c: char, front: Seq<u8>)
    requires
        is_space(c),
    ensures
        ws_len_end(front + encode_scalar(c as u32)) == encode_scalar(c as u32).len(),
{
    let e = encode_scalar(c as u32);
    let b = front + e;
    let n = b.len() as int;
    lemma_scalar_shape(c);
    lemma_ws_len_char(c, Seq::<u8>::empty());
    assert(e + Seq::<u8>::empty() =~= e);
    assert(b.subrange(n - 1, n) =~= e.subrange(e.len() - 1, e.len() as int));
    if e.len() >= 2 {
        assert(b.subrange(n - 2, n) =~= e.subrange(e.len() - 2, e.len() as int));
        assert(is_continuation_byte(e[e.len() - 1]));
    }
    if e.len() >= 3 {
        assert(b.subrange(n - 3, n) =~= e);
        assert(is_continuation_byte(e[e.len() - 2]));
    }
    if e.len() == 2 {
        assert(b.subrange(n - 2, n) =~= e);
    }
    if e.len() == 1 {
        assert(b.subrange(n - 1, n) =~= e);
    }
}

/// Leading whitespace characters are all skipped.
proof fn lemma_lead_spaces(ws: Seq<char>, x: Seq<u8>)
    requires
        all_space(ws),
    ensures
        lead_ws(encode_utf8(ws) + x) == encode_utf8(ws).len() + lead_ws(x),
    decreases ws.len(),
{
    if ws.len() == 0 {
        assert(encode_utf8(ws) + x =~= x);
    } else {
        let c = ws[0];
        let r = ws.drop_first();
        let e = encode_scalar(c as u32);
        assert(is_space(c));
        assert(all_space(r)) by {
            assert forall|i: int| 0 <= i < r.len() implies is_space(#[trigger] r[i]) by {
                assert(r[i] == ws[i + 1]);
            }
        }
        lemma_scalar_shape(c);
        let b = encode_utf8(ws) + x;
        assert(b =~= e + (encode_utf8(r) + x));
        lemma_ws_len_char(c, encode_utf8(r) + x);
        assert(b.subrange(e.len() as int, b.len() as int) =~= encode_utf8(r) + x);
        lemma_lead_spaces(r, x);
    }
}

/// The leading whitespace of a text followed by `q`: that of the text where
/// the text holds something else, else all of the text and then `q`'s.
proof fn lemma_lead_text(text: Seq<char>, q: Seq<u8>)
    ensures
        all_space(text) ==> lead_ws(encode_utf8(text) + q) == encode_utf8(text).len() + lead_ws(
            q,
        ),
        !all_space(text) ==> lead_ws(encode_utf8(text) + q) == lead_ws(encode_utf8(text))
            && lead_ws(encode_utf8(text)) < encode_utf8(text).len(),
    decreases text.len(),
{
    if all_space(text) {
        lemma_lead_spaces(text, q);
    } else {
        let c = text[0];
        let r = text.drop_first();
        let e = encode_scalar(c as u32);
        lemma_scalar_shape(c);
        let t = encode_utf8(text);
        assert(t =~= e + encode_utf8(r));
        assert(t + q =~= e + (encode_utf8(r) + q));
        lemma_ws_len_char(c, encode_utf8(r) + q);
        lemma_ws_len_char(c, encode_utf8(r));
        if is_space(c) {
            assert(!all_space(r)) by {
                if all_space(r) {
                    assert forall|i: int| 0 <= i < text.len() implies is_space(#[trigger] text[i]) by {
                        if i > 0 {
                            assert(text[i] == r[i - 1]);
                        }
                    }
                }
            }
            lemma_lead_text(r, q);
            assert((t + q).subrange(e.len() as int, (t + q).len() as int) =~= encode_utf8(r) + q);
            assert(t.subrange(e.len() as int, t.len() as int) =~= encode_utf8(r));
        } else {
            assert(e.len() > 0);
        }
    }
}

/// Trailing whitespace characters are all trimmed.
proof fn lemma_trail_spaces(z: Seq<u8>, ws: Seq<char>)
    requires
        all_space(ws),
    ensures
        trail_ws(z + encode_utf8(ws)) == encode_utf8(ws).len() + trail_ws(z),
    decreases ws.len(),
{
    if ws.len() == 0 {
        assert(z + encode_utf8(ws) =~= z);
    } else {
        let c = ws.last();
        let r = ws.drop_last();
        let e = encode_scalar(c as u32);
        assert(is_space(ws[ws.len() - 1]));
        assert(all_space(r)) by {
            assert forall|i: int| 0 <= i < r.len() implies is_space(#[trigger] r[i]) by {
                assert(r[i] == ws[i]);
            }
        }
        assert(ws =~= r + seq![c]);
        lemma_encode_concat(r, seq![c]);
        assert(encode_utf8(seq![c]) =~= e) by {
            reveal_with_fuel(encode_utf8, 2);
            assert(seq![c].drop_first() =~= Seq::<char>::empty());
        }
        let b = z + encode_utf8(ws);
        assert(b =~= (z + encode_utf8(r)) + e);
        lemma_ws_len_end_char(c, z + encode_utf8(r));
        lemma_scalar_shape(c);
        assert(b.subrange(0, b.len() - e.len()) =~= z + encode_utf8(r));
        lemma_trail_spaces(z, r);
    }
}

/// Whitespace around a text goes when the text is trimmed.
proof fn lemma_trim_padded(ws: Seq<char>, text: Seq<char>, ws2: Seq<char>)
    requires
        all_space(ws),
        all_space(ws2),
    ensures
        trim(encode_utf8(ws + text + ws2)) == trim(encode_utf8(text)),
{
    let p = encode_utf8(ws);
    let t = encode_utf8(text);
    let q = encode_utf8(ws2);
    lemma_encode_concat(ws, text + ws2);
    lemma_encode_concat(text, ws2);
    assert(ws + text + ws2 =~= ws + (text + ws2));
    let b = encode_utf8(ws + text + ws2);
    assert(b =~= p + (t + q));
    lemma_lead_spaces(ws, t + q);
    lemma_lead_text(text, q);
    lemma_lead_spaces(ws2, Seq::<u8>::empty());
    assert(q + Seq::<u8>::empty() =~= q);
    lemma_lead_ws_bound(t + q);
    lemma_lead_ws_bound(t);
    assert(trim_start(b) =~= trim_start(t + q));
    if all_space(text) {
        lemma_lead_spaces(text, Seq::<u8>::empty());
        assert(t + Seq::<u8>::empty() =~= t);
        assert(trim_start(t + q).len() == 0);
        assert(trim_start(t).len() == 0);
        assert(trim_start(t + q) =~= trim_start(t));
    } else {
        let z = trim_start(t);
        assert(trim_start(t + q) =~= z + q);
        lemma_trail_spaces(z, ws2);
        lemma_trail_ws_bound(z);
        assert(trim_end(z + q) =~= trim_end(z));
    }
}

/// Whitespace before and after a `CREATE FUNCTION` statement changes
/// nothing: the outcome, a panic included, is that of the bare statement.
pub proof fn law_padding_changes_nothing(ws: Seq<char>, text: Seq<char>, ws2: Seq<char>)
    requires
        all_space(ws),
        all_space(ws2),
    ensures
        create_outcome(ws + text + ws2) == create_outcome(text),
{
    lemma_trim_padded(ws, text, ws2);
}

// ---------------------------------------------------------------------------
// Type names
// ---------------------------------------------------------------------------
/// A text of uppercase ASCII letters and digits is its own ASCII uppercase,
/// and the ASCII uppercase of its ASCII lowercase.
proof fn lemma_upper_name(n: Seq<char>)
    requires
        forall|i: int|
            0 <= i < n.len() ==> ('A' <= #[trigger] n[i] && n[i] <= 'Z') || ('0' <= n[i] && n[i]
                <= '9'),
    ensures
        is_ascii_chars(n),
        ascii_upper(n) == n,
        ascii_upper(ascii_lower(n)) == n,
        is_ascii_chars(ascii_lower(n)),
{
    assert(ascii_upper(n) =~= n);
    assert(ascii_upper(ascii_lower(n)) =~= n) by {
        assert forall|i: int| 0 <= i < n.len() implies ascii_upper_char(
            ascii_lower_char(#[trigger] n[i]),
        ) == n[i] by {
            let c = n[i];
            if 'A' <= c && c <= 'Z' {
                let l = ((c as u32) + 32) as char;
                assert((l as u32) == (c as u32) + 32);
                assert(((l as u32) - 32) as char == c);
            }
        }
    }
    assert forall|i: int| 0 <= i < n.len() implies '\0' <= #[trigger] ascii_lower(n)[i] <= '\u{7f}' by {
        let c = n[i];
        if 'A' <= c && c <= 'Z' {
            assert((((c as u32) + 32) as char as u32) == (c as u32) + 32);
        }
    }
}

/// The name of each logical type, in uppercase or in lowercase, is read
/// back by `string_to_logical_type` as that type; and `logical_type_to_string`
/// of what a canonical name reads as gives the name back.
pub proof fn law_type_names_round_trip(t: LogicalTypeId)
    requires
        t != LogicalTypeId::Other,
    ensures
        is_ascii_chars(logical_type_name(t)),
        logical_type_upper(ascii_upper(logical_type_name(t))) == t,
        is_ascii_chars(ascii_lower(logical_type_name(t))),
        logical_type_upper(ascii_upper(ascii_lower(logical_type_name(t)))) == t,
        logical_type_name(logical_type_upper(ascii_upper(logical_type_name(t))))
            == logical_type_name(t),
{
    reveal_strlit("BOOLEAN");
    assert("BOOLEAN"@ =~= seq!['B', 'O', 'O', 'L', 'E', 'A', 'N']);
    reveal_strlit("TINYINT");
    assert("TINYINT"@ =~= seq!['T', 'I', 'N', 'Y', 'I', 'N', 'T']);
    reveal_strlit("SMALLINT");
    assert("SMALLINT"@ =~= seq!['S', 'M', 'A', 'L', 'L', 'I', 'N', 'T']);
    reveal_strlit("INTEGER");
    assert("INTEGER"@ =~= seq!['I', 'N', 'T', 'E', 'G', 'E', 'R']);
    reveal_strlit("BIGINT");
    assert("BIGINT"@ =~= seq!['B', 'I', 'G', 'I', 'N', 'T']);
    reveal_strlit("FLOAT");
    assert("FLOAT"@ =~= seq!['F', 'L', 'O', 'A', 'T']);
    reveal_strlit("DOUBLE");
    assert("DOUBLE"@ =~= seq!['D', 'O', 'U', 'B', 'L', 'E']);
    reveal_strlit("VARCHAR");
    assert("VARCHAR"@ =~= seq!['V', 'A', 'R', 'C', 'H', 'A', 'R']);
    reveal_strlit("BLOB");
    assert("BLOB"@ =~= seq!['B', 'L', 'O', 'B']);
    reveal_strlit("DATE");
    assert("DATE"@ =~= seq!['D', 'A', 'T', 'E']);
    reveal_strlit("TIMESTAMP");
    assert("TIMESTAMP"@ =~= seq!['T', 'I', 'M', 'E', 'S', 'T', 'A', 'M', 'P']);
    reveal_strlit("BOOL");
    assert("BOOL"@ =~= seq!['B', 'O', 'O', 'L']);
    reveal_strlit("INT8");
    assert("INT8"@ =~= seq!['I', 'N', 'T', '8']);
    reveal_strlit("INT16");
    assert("INT16"@ =~= seq!['I', 'N', 'T', '1', '6']);
    reveal_strlit("INT");
    assert("INT"@ =~= seq!['I', 'N', 'T']);
    reveal_strlit("INT32");
    assert("INT32"@ =~= seq!['I', 'N', 'T', '3', '2']);
    reveal_strlit("INT64");
    assert("INT64"@ =~= seq!['I', 'N', 'T', '6', '4']);
    reveal_strlit("FLOAT32");
    assert("FLOAT32"@ =~= seq!['F', 'L', 'O', 'A', 'T', '3', '2']);
    reveal_strlit("REAL");
    assert("REAL"@ =~= seq!['R', 'E', 'A', 'L']);
    reveal_strlit("FLOAT64");
    assert("FLOAT64"@ =~= seq!['F', 'L', 'O', 'A', 'T', '6', '4']);
    reveal_strlit("STRING");
    assert("STRING"@ =~= seq!['S', 'T', 'R', 'I', 'N', 'G']);
    reveal_strlit("TEXT");
    assert("TEXT"@ =~= seq!['T', 'E', 'X', 'T']);
    reveal_strlit("BINARY");
    assert("BINARY"@ =~= seq!['B', 'I', 'N', 'A', 'R', 'Y']);
    lemma_upper_name(logical_type_name(t));
}

// ---------------------------------------------------------------------------
// Normalizing type names
// ---------------------------------------------------------------------------
/// An ASCII whitespace byte.
pub open spec fn is_ws_byte(c: u8) -> bool {
    (0x09 <= c && c <= 0x0d) || c == 0x20
}

/// True when every byte is ASCII.
pub open spec fn ascii_bytes(b: Seq<u8>) -> bool {
    forall|i: int| 0 <= i < b.len() ==> #[trigger] b[i] < 0x80
}

proof fn lemma_ascii_ws_len(b: Seq<u8>)
    requires
        ascii_bytes(b),
    ensures
        ws_len(b) == (if b.len() > 0 && is_ws_byte(b[0]) {
            1int
        } else {
            0int
        }),
{
    if b.len() > 0 {
        assert(b[0] < 0x80);
    }
}

proof fn lemma_ascii_lead(b: Seq<u8>)
    requires
        ascii_bytes(b),
    ensures
        lead_ws(b) <= b.len(),
        forall|i: int| 0 <= i < lead_ws(b) ==> is_ws_byte(#[trigger] b[i]),
        lead_ws(b) < b.len() ==> !is_ws_byte(b[lead_ws(b) as int]),
    decreases b.len(),
{
    lemma_ascii_ws_len(b);
    if ws_len(b) > 0 {
        let r = b.subrange(1, b.len() as int);
        assert(ascii_bytes(r)) by {
            assert forall|i: int| 0 <= i < r.len() implies #[trigger] r[i] < 0x80 by {
                assert(r[i] == b[i + 1]);
            }
        }
        lemma_ascii_lead(r);
        assert forall|i: int| 0 <= i < lead_ws(b) implies is_ws_byte(#[trigger] b[i]) by {
            if i > 0 {
                assert(b[i] == r[i - 1]);
            }
        }
        if lead_ws(b) < b.len() {
            assert(b[lead_ws(b) as int] == r[lead_ws(r) as int]);
        }
    }
}

proof fn lemma_ascii_ws_len_end(b: Seq<u8>)
    requires
        ascii_bytes(b),
    ensures
        ws_len_end(b) == (if b.len() > 0 && is_ws_byte(b[b.len() - 1]) {
            1int
        } else {
            0int
        }),
{
    let n = b.len() as int;
    if n >= 1 {
        let l1 = b.subrange(n - 1, n);
        assert(ascii_bytes(l1)) by {
            assert(l1[0] == b[n - 1]);
        }
        lemma_ascii_ws_len(l1);
    }
    if n >= 2 {
        let l2 = b.subrange(n - 2, n);
        assert(ascii_bytes(l2)) by {
            assert forall|i: int| 0 <= i < l2.len() implies #[trigger] l2[i] < 0x80 by {
                assert(l2[i] == b[n - 2 + i]);
            }
        }
        lemma_ascii_ws_len(l2);
    }
    if n >= 3 {
        let l3 = b.subrange(n - 3, n);
        assert(ascii_bytes(l3)) by {
            assert forall|i: int| 0 <= i < l3.len() implies #[trigger] l3[i] < 0x80 by {
                assert(l3[i] == b[n - 3 + i]);
            }
        }
        lemma_ascii_ws_len(l3);
    }
}

proof fn lemma_ascii_trail(b: Seq<u8>)
    requires
        ascii_bytes(b),
    ensures
        trail_ws(b) <= b.len(),
        trail_ws(b) < b.len() ==> !is_ws_byte(b[b.len() - trail_ws(b) - 1]),
    decreases b.len(),
{
    lemma_ascii_ws_len_end(b);
    if ws_len_end(b) > 0 {
        let r = b.subrange(0, b.len() - 1);
        assert(ascii_bytes(r)) by {
            assert forall|i: int| 0 <= i < r.len() implies #[trigger] r[i] < 0x80 by {
                assert(r[i] == b[i]);
            }
        }
        lemma_ascii_trail(r);
        if trail_ws(b) < b.len() {
            assert(b[b.len() - trail_ws(b) - 1] == r[r.len() - trail_ws(r) - 1]);
        }
    }
}

/// Trimming ASCII bytes twice is trimming them once, and keeps them ASCII.
proof fn lemma_ascii_trim_twice(b: Seq<u8>)
    requires
        ascii_bytes(b),
    ensures
        ascii_bytes(trim(b)),
        trim(trim(b)) == trim(b),
{
    lemma_ascii_lead(b);
    let st = trim_start(b);
    assert(ascii_bytes(st)) by {
        assert forall|i: int| 0 <= i < st.len() implies #[trigger] st[i] < 0x80 by {
            assert(st[i] == b[i + lead_ws(b)]);
        }
    }
    lemma_ascii_trail(st);
    let t = trim(b);
    assert(t == st.subrange(0, st.len() - trail_ws(st)));
    assert(ascii_bytes(t)) by {
        assert forall|i: int| 0 <= i < t.len() implies #[trigger] t[i] < 0x80 by {
            assert(t[i] == st[i]);
        }
    }
    lemma_ascii_ws_len(t);
    if t.len() > 0 {
        assert(t[0] == st[0]);
        assert(st[0] == b[lead_ws(b) as int]);
        assert(t[t.len() - 1] == st[st.len() - trail_ws(st) - 1]);
    }
    assert(lead_ws(t) == 0);
    assert(trim_start(t) =~= t);
    lemma_ascii_ws_len_end(t);
    assert(trail_ws(t) == 0);
    assert(trim_end(t) =~= t);
}

/// Trimming ASCII text keeps a piece of it, still ASCII, that trimming
/// leaves as it is.
proof fn lemma_ascii_trim_chars(x: Seq<char>)
    requires
        is_ascii_chars(x),
    ensures
        exists|a: int, c: int| 0 <= a <= c <= x.len() && trim_chars(x) == x.subrange(a, c),
        is_ascii_chars(trim_chars(x)),
        trim_chars(trim_chars(x)) == trim_chars(x),
{
    let b = encode_utf8(x);
    is_ascii_chars_encode_utf8(x);
    assert(ascii_bytes(b)) by {
        assert forall|i: int| 0 <= i < b.len() implies #[trigger] b[i] < 0x80 by {
            assert(x[i] as u8 == b[i]);
        }
    }
    lemma_ascii_trim_twice(b);
    lemma_ascii_lead(b);
    let a = lead_ws(b) as int;
    let st = trim_start(b);
    lemma_trail_ws_bound(st);
    let c = a + st.len() - trail_ws(st);
    let y = x.subrange(a, c);
    assert(trim(b) =~= b.subrange(a, c));
    assert(is_ascii_chars(y));
    is_ascii_chars_encode_utf8(y);
    assert(encode_utf8(y) =~= b.subrange(a, c)) by {
        assert forall|i: int| 0 <= i < y.len() implies #[trigger] encode_utf8(y)[i] == b.subrange(
            a,
            c,
        )[i] by {
            assert(y[i] == x[a + i]);
            assert(x[a + i] as u8 == b[a + i]);
        }
    }
    lemma_encode_valid(y);
    assert(trim_chars(x) == y);
    assert(trim_chars(y) == decode_utf8(trim(encode_utf8(y))));
}

/// `ascii_upper` of a piece of an ASCII-uppercased text is that piece.
proof fn lemma_upper_piece(s: Seq<char>, a: int, c: int)
    requires
        0 <= a <= c <= s.len(),
    ensures
        ascii_upper(ascii_upper(s).subrange(a, c)) == ascii_upper(s).subrange(a, c),
{
    let p = ascii_upper(s).subrange(a, c);
    assert forall|i: int| 0 <= i < p.len() implies #[trigger] ascii_upper_char(p[i]) == p[i] by {
        let ch = s[a + i];
        if 'a' <= ch && ch <= 'z' {
            let u = ((ch as u32) - 32) as char;
            assert((u as u32) == (ch as u32) - 32);
        }
    }
    assert(ascii_upper(p) =~= p);
}

/// A name of uppercase letters and digits is left as it is by trimming.
pub(crate) proof fn lemma_name_untrimmed(n: Seq<char>)
    requires
        n.len() > 0,
        forall|i: int|
            0 <= i < n.len() ==> ('A' <= #[trigger] n[i] && n[i] <= 'Z') || ('0' <= n[i] && n[i]
                <= '9'),
    ensures
        is_ascii_chars(n),
        ascii_upper(n) == n,
        trim_chars(n) == n,
{
    lemma_upper_name(n);
    let b = encode_utf8(n);
    is_ascii_chars_encode_utf8(n);
    assert(ascii_bytes(b)) by {
        assert forall|i: int| 0 <= i < b.len() implies #[trigger] b[i] < 0x80 by {
            assert(n[i] as u8 == b[i]);
        }
    }
    lemma_ascii_ws_len(b);
    assert(!is_ws_byte(b[0])) by {
        assert(n[0] as u8 == b[0]);
    }
    assert(lead_ws(b) == 0);
    assert(trim_start(b) =~= b);
    lemma_ascii_ws_len_end(b);
    assert(!is_ws_byte(b[b.len() - 1])) by {
        assert(n[n.len() - 1] as u8 == b[b.len() - 1]);
    }
    assert(trail_ws(b) == 0);
    assert(trim(b) =~= b);
    lemma_encode_valid(n);
    assert(trim_chars(n) == n);
}

/// The canonical names are left as they are by `normalize_sql_type`.
#[verifier::spinoff_prover]
#[verifier::rlimit(60)]
proof fn lemma_canonical_fixed(n: Seq<char>)
    requires
        n == "VARCHAR"@ || n == "INTEGER"@ || n == "BIGINT"@ || n == "SMALLINT"@ || n
            == "TINYINT"@ || n == "FLOAT"@ || n == "DOUBLE"@ || n == "BOOLEAN"@ || n == "DATE"@
            || n == "TIMESTAMP"@ || n == "BLOB"@,
    ensures
        is_ascii_chars(n),
        ascii_upper(n) == n,
        normalized_upper(n) == n,
{
    reveal_strlit("STRING");
    assert("STRING"@ =~= seq!['S', 'T', 'R', 'I', 'N', 'G']);
    reveal_strlit("TEXT");
    assert("TEXT"@ =~= seq!['T', 'E', 'X', 'T']);
    reveal_strlit("CHAR");
    assert("CHAR"@ =~= seq!['C', 'H', 'A', 'R']);
    reveal_strlit("CHARACTER");
    assert("CHARACTER"@ =~= seq!['C', 'H', 'A', 'R', 'A', 'C', 'T', 'E', 'R']);
    reveal_strlit("INT");
    assert("INT"@ =~= seq!['I', 'N', 'T']);
    reveal_strlit("INTEGER");
    assert("INTEGER"@ =~= seq!['I', 'N', 'T', 'E', 'G', 'E', 'R']);
    reveal_strlit("INT32");
    assert("INT32"@ =~= seq!['I', 'N', 'T', '3', '2']);
    reveal_strlit("BIGINT");
    assert("BIGINT"@ =~= seq!['B', 'I', 'G', 'I', 'N', 'T']);
    reveal_strlit("INT64");
    assert("INT64"@ =~= seq!['I', 'N', 'T', '6', '4']);
    reveal_strlit("LONG");
    assert("LONG"@ =~= seq!['L', 'O', 'N', 'G']);
    reveal_strlit("SMALLINT");
    assert("SMALLINT"@ =~= seq!['S', 'M', 'A', 'L', 'L', 'I', 'N', 'T']);
    reveal_strlit("INT16");
    assert("INT16"@ =~= seq!['I', 'N', 'T', '1', '6']);
    reveal_strlit("SHORT");
    assert("SHORT"@ =~= seq!['S', 'H', 'O', 'R', 'T']);
    reveal_strlit("TINYINT");
    assert("TINYINT"@ =~= seq!['T', 'I', 'N', 'Y', 'I', 'N', 'T']);
    reveal_strlit("INT8");
    assert("INT8"@ =~= seq!['I', 'N', 'T', '8']);
    reveal_strlit("BYTE");
    assert("BYTE"@ =~= seq!['B', 'Y', 'T', 'E']);
    reveal_strlit("FLOAT");
    assert("FLOAT"@ =~= seq!['F', 'L', 'O', 'A', 'T']);
    reveal_strlit("FLOAT32");
    assert("FLOAT32"@ =~= seq!['F', 'L', 'O', 'A', 'T', '3', '2']);
    reveal_strlit("REAL");
    assert("REAL"@ =~= seq!['R', 'E', 'A', 'L']);
    reveal_strlit("DOUBLE");
    assert("DOUBLE"@ =~= seq!['D', 'O', 'U', 'B', 'L', 'E']);
    reveal_strlit("FLOAT64");
    assert("FLOAT64"@ =~= seq!['F', 'L', 'O', 'A', 'T', '6', '4']);
    reveal_strlit("BOOL");
    assert("BOOL"@ =~= seq!['B', 'O', 'O', 'L']);
    reveal_strlit("BOOLEAN");
    assert("BOOLEAN"@ =~= seq!['B', 'O', 'O', 'L', 'E', 'A', 'N']);
    reveal_strlit("DATE");
    assert("DATE"@ =~= seq!['D', 'A', 'T', 'E']);
    reveal_strlit("TIMESTAMP");
    assert("TIMESTAMP"@ =~= seq!['T', 'I', 'M', 'E', 'S', 'T', 'A', 'M', 'P']);
    reveal_strlit("DATETIME");
    assert("DATETIME"@ =~= seq!['D', 'A', 'T', 'E', 'T', 'I', 'M', 'E']);
    reveal_strlit("BLOB");
    assert("BLOB"@ =~= seq!['B', 'L', 'O', 'B']);
    reveal_strlit("BINARY");
    assert("BINARY"@ =~= seq!['B', 'I', 'N', 'A', 'R', 'Y']);
    reveal_strlit("BYTES");
    assert("BYTES"@ =~= seq!['B', 'Y', 'T', 'E', 'S']);
    reveal_strlit("VARCHAR");
    assert("VARCHAR"@ =~= seq!['V', 'A', 'R', 'C', 'H', 'A', 'R']);
    lemma_name_untrimmed(n);
}

/// `normalize_sql_type` is idempotent on ASCII type names: normalizing
/// what it gave gives the same again.
pub proof fn law_normalize_idempotent(s: Seq<char>)
    requires
        is_ascii_chars(s),
    ensures
        is_ascii_chars(normalized_upper(ascii_upper(s))),
        normalized_upper(ascii_upper(normalized_upper(ascii_upper(s)))) == normalized_upper(
            ascii_upper(s),
        ),
{
    let x = ascii_upper(s);
    assert(is_ascii_chars(x)) by {
        assert forall|i: int| 0 <= i < x.len() implies '\0' <= #[trigger] x[i] <= '\u{7f}' by {
            let ch = s[i];
            if 'a' <= ch && ch <= 'z' {
                assert((((ch as u32) - 32) as char as u32) == (ch as u32) - 32);
            }
        }
    }
    lemma_ascii_trim_chars(x);
    let u = trim_chars(x);
    let (a, c) = choose|a: int, c: int| 0 <= a <= c <= x.len() && trim_chars(x) == x.subrange(a, c);
    lemma_upper_piece(s, a, c);
    let r = normalized_upper(x);
    if r == u {
        assert(ascii_upper(u) == u);
        assert(normalized_upper(u) == r);
    } else {
    reveal_strlit("STRING");
    assert("STRING"@ =~= seq!['S', 'T', 'R', 'I', 'N', 'G']);
    reveal_strlit("TEXT");
    assert("TEXT"@ =~= seq!['T', 'E', 'X', 'T']);
    reveal_strlit("CHAR");
    assert("CHAR"@ =~= seq!['C', 'H', 'A', 'R']);
    reveal_strlit("CHARACTER");
    assert("CHARACTER"@ =~= seq!['C', 'H', 'A', 'R', 'A', 'C', 'T', 'E', 'R']);
    reveal_strlit("INT");
    assert("INT"@ =~= seq!['I', 'N', 'T']);
    reveal_strlit("INTEGER");
    assert("INTEGER"@ =~= seq!['I', 'N', 'T', 'E', 'G', 'E', 'R']);
    reveal_strlit("INT32");
    assert("INT32"@ =~= seq!['I', 'N', 'T', '3', '2']);
    reveal_strlit("BIGINT");
    assert("BIGINT"@ =~= seq!['B', 'I', 'G', 'I', 'N', 'T']);
    reveal_strlit("INT64");
    assert("INT64"@ =~= seq!['I', 'N', 'T', '6', '4']);
    reveal_strlit("LONG");
    assert("LONG"@ =~= seq!['L', 'O', 'N', 'G']);
    reveal_strlit("SMALLINT");
    assert("SMALLINT"@ =~= seq!['S', 'M', 'A', 'L', 'L', 'I', 'N', 'T']);
    reveal_strlit("INT16");
    assert("INT16"@ =~= seq!['I', 'N', 'T', '1', '6']);
    reveal_strlit("SHORT");
    assert("SHORT"@ =~= seq!['S', 'H', 'O', 'R', 'T']);
    reveal_strlit("TINYINT");
    assert("TINYINT"@ =~= seq!['T', 'I', 'N', 'Y', 'I', 'N', 'T']);
    reveal_strlit("INT8");
    assert("INT8"@ =~= seq!['I', 'N', 'T', '8']);
    reveal_strlit("BYTE");
    assert("BYTE"@ =~= seq!['B', 'Y', 'T', 'E']);
    reveal_strlit("FLOAT");
    assert("FLOAT"@ =~= seq!['F', 'L', 'O', 'A', 'T']);
    reveal_strlit("FLOAT32");
    assert("FLOAT32"@ =~= seq!['F', 'L', 'O', 'A', 'T', '3', '2']);
    reveal_strlit("REAL");
    assert("REAL"@ =~= seq!['R', 'E', 'A', 'L']);
    reveal_strlit("DOUBLE");
    assert("DOUBLE"@ =~= seq!['D', 'O', 'U', 'B', 'L', 'E']);
    reveal_strlit("FLOAT64");
    assert("FLOAT64"@ =~= seq!['F', 'L', 'O', 'A', 'T', '6', '4']);
    reveal_strlit("BOOL");
    assert("BOOL"@ =~= seq!['B', 'O', 'O', 'L']);
    reveal_strlit("BOOLEAN");
    assert("BOOLEAN"@ =~= seq!['B', 'O', 'O', 'L', 'E', 'A', 'N']);
    reveal_strlit("DATE");
    assert("DATE"@ =~= seq!['D', 'A', 'T', 'E']);
    reveal_strlit("TIMESTAMP");
    assert("TIMESTAMP"@ =~= seq!['T', 'I', 'M', 'E', 'S', 'T', 'A', 'M', 'P']);
    reveal_strlit("DATETIME");
    assert("DATETIME"@ =~= seq!['D', 'A', 'T', 'E', 'T', 'I', 'M', 'E']);
    reveal_strlit("BLOB");
    assert("BLOB"@ =~= seq!['B', 'L', 'O', 'B']);
    reveal_strlit("BINARY");
    assert("BINARY"@ =~= seq!['B', 'I', 'N', 'A', 'R', 'Y']);
    reveal_strlit("BYTES");
    assert("BYTES"@ =~= seq!['B', 'Y', 'T', 'E', 'S']);
    reveal_strlit("VARCHAR");
    assert("VARCHAR"@ =~= seq!['V', 'A', 'R', 'C', 'H', 'A', 'R']);
        assert(r == "VARCHAR"@ || r == "INTEGER"@ || r == "BIGINT"@ || r == "SMALLINT"@ || r
            == "TINYINT"@ || r == "FLOAT"@ || r == "DOUBLE"@ || r == "BOOLEAN"@ || r == "DATE"@
            || r == "TIMESTAMP"@ || r == "BLOB"@);
        lemma_canonical_fixed(r);
    }
}

/// The ASCII lowercase of a text is its own ASCII lowercase.
proof fn lemma_lower_twice(n: Seq<char>)
    ensures
        ascii_lower(ascii_lower(n)) == ascii_lower(n),
{
    assert forall|i: int| 0 <= i < n.len() implies #[trigger] ascii_lower_char(
        ascii_lower(n)[i],
    ) == ascii_lower(n)[i] by {
        let c = n[i];
        if 'A' <= c && c <= 'Z' {
            let l = ((c as u32) + 32) as char;
            assert((l as u32) == (c as u32) + 32);
        }
    }
    assert(ascii_lower(ascii_lower(n)) =~= ascii_lower(n));
}

/// After a history in which every registered name is ASCII (so that its key
/// is its ASCII lowercase, as `register_function` states), every listed key
/// is its own lowercase, and looking it up finds a function whose name
/// lowercases to it.
pub proof fn law_listed_keys_are_lowercase(ops: Seq<RegistryOp>, k: Seq<char>)
    requires
        forall|i: int|
            0 <= i < ops.len() ==> (#[trigger] ops[i] matches RegistryOp::Register(d)
                ==> registry_key(d.name) == ascii_lower(d.name)),
        replay(ops).contains_key(k),
    ensures
        ascii_lower(k) == k,
        registry_key(replay(ops)[k].name) == k,
    decreases ops.len(),
{
    let init = ops.drop_last();
    assert forall|i: int|
        0 <= i < init.len() implies (#[trigger] init[i] matches RegistryOp::Register(d)
        ==> registry_key(d.name) == ascii_lower(d.name)) by {
        assert(init[i] == ops[i]);
    }
    assert(ops.last() == ops[ops.len() - 1]);
    match ops.last() {
        RegistryOp::Register(d) => {
            if registry_key(d.name) == k {
                lemma_lower_twice(d.name);
            } else {
                law_listed_keys_are_lowercase(init, k);
            }
        },
        RegistryOp::Unregister(n) => {
            law_listed_keys_are_lowercase(init, k);
        },
    }
}

// ---------------------------------------------------------------------------
// Whole statements
// ---------------------------------------------------------------------------
/// The bytes of an ASCII text, one per character.
pub open spec fn bytes_of(s: Seq<char>) -> Seq<u8> {
    s.map_values(|c: char| c as u8)
}

proof fn lemma_ascii_encode(s: Seq<char>)
    requires
        is_ascii_chars(s),
    ensures
        encode_utf8(s) == bytes_of(s),
        ascii_bytes(bytes_of(s)),
        valid_utf8(bytes_of(s)),
        decode_utf8(bytes_of(s)) == s,
{
    is_ascii_chars_encode_utf8(s);
    assert(encode_utf8(s) =~= bytes_of(s));
    lemma_encode_valid(s);
    assert forall|i: int| 0 <= i < bytes_of(s).len() implies #[trigger] bytes_of(s)[i] < 0x80 by {
        assert(bytes_of(s)[i] == encode_utf8(s)[i]);
    }
}

proof fn lemma_ascii_upper_ascii(s: Seq<char>)
    requires
        is_ascii_chars(s),
    ensures
        is_ascii_chars(ascii_upper(s)),
{
    assert forall|i: int| 0 <= i < ascii_upper(s).len() implies '\0' <= #[trigger] ascii_upper(
        s,
    )[i] <= '\u{7f}' by {
        let ch = s[i];
        if 'a' <= ch && ch <= 'z' {
            assert((((ch as u32) - 32) as char as u32) == (ch as u32) - 32);
        }
    }
}

/// Every position of ASCII bytes is one at which they may be sliced.
proof fn lemma_ascii_slice(b: Seq<u8>, i: int)
    requires
        valid_utf8(b),
        ascii_bytes(b),
        0 <= i <= b.len(),
    ensures
        can_slice(b, i),
{
    if i < b.len() {
        assert(b[i] < 0x80);
    }
    lemma_boundary_at(b, i);
}

/// The first occurrence of `p` in `h` is at `k` when it occurs there and
/// nowhere before.
proof fn lemma_find_first(h: Seq<u8>, p: Seq<u8>, k: int, i: int)
    requires
        p.len() > 0,
        0 <= i <= k,
        k + p.len() <= h.len(),
        h.subrange(k, k + p.len()) == p,
        forall|j: int| i <= j < k ==> #[trigger] h.subrange(j, j + p.len()) != p,
    ensures
        find_from(h, p, i) == Some(k),
    decreases k - i,
{
    if i < k {
        assert(h.subrange(i, i + p.len()) != p);
        lemma_find_first(h, p, k, i + 1);
    }
}

/// No window of `h` that holds the byte at `q` equals `p`, where `p` does
/// not hold that byte.
proof fn lemma_window_differs(h: Seq<u8>, p: Seq<u8>, j: int, q: int)
    requires
        0 <= j <= q < j + p.len(),
        j + p.len() <= h.len(),
        forall|k: int| 0 <= k < p.len() ==> #[trigger] p[k] != h[q],
    ensures
        h.subrange(j, j + p.len()) != p,
{
    assert(h.subrange(j, j + p.len())[q - j] == h[q]);
}

/// A letter, a digit or `_`.
pub open spec fn is_word_char(c: char) -> bool {
    ('a' <= c && c <= 'z') || ('A' <= c && c <= 'Z') || ('0' <= c && c <= '9') || c == '_'
}

/// A non-empty run of letters, digits and `_`.
pub open spec fn is_word(s: Seq<char>) -> bool {
    s.len() > 0 && forall|i: int| 0 <= i < s.len() ==> is_word_char(#[trigger] s[i])
}

/// The statement `CREATE FUNCTION name(params) RETURNS rt LANGUAGE PYTHON
/// AS $$body$$`, with single spaces.
pub open spec fn create_statement(
    name: Seq<char>,
    params: Seq<char>,
    rt: Seq<char>,
    body: Seq<char>,
) -> Seq<char> {
    "CREATE FUNCTION "@ + name + "("@ + params + ") RETURNS "@ + rt + " LANGUAGE PYTHON AS $$"@
        + body + "$$"@
}

/// What a statement needs to be read back: an ASCII name and return type
/// made of letters, digits and `_`, the return type without `LANGUAGE` in
/// it, ASCII parameters without `)`, and an ASCII body that a closing `$$`
/// ends.
pub open spec fn statement_parts_ok(
    name: Seq<char>,
    params: Seq<char>,
    rt: Seq<char>,
    body: Seq<char>,
) -> bool {
    &&& is_word(name)
    &&& is_word(rt)
    &&& forall|j: int|
        0 <= j && j + 8 <= rt.len() ==> #[trigger] ascii_upper(rt).subrange(j, j + 8)
            != "LANGUAGE"@
    &&& is_ascii_chars(params)
    &&& forall|i: int| 0 <= i < params.len() ==> #[trigger] params[i] != ')'
    &&& is_ascii_chars(body)
    &&& dollar_free(body)
}

/// The characters of the fixed parts of a statement.
proof fn lemma_statement_literals()
    ensures
        "CREATE FUNCTION "@ =~= seq![
            'C', 'R', 'E', 'A', 'T', 'E', ' ', 'F', 'U', 'N', 'C', 'T', 'I', 'O', 'N', ' ',
        ],
        "("@ =~= seq!['('],
        ") RETURNS "@ =~= seq![')', ' ', 'R', 'E', 'T', 'U', 'R', 'N', 'S', ' '],
        " LANGUAGE PYTHON AS $$"@ =~= seq![
            ' ', 'L', 'A', 'N', 'G', 'U', 'A', 'G', 'E', ' ', 'P', 'Y', 'T', 'H', 'O', 'N', ' ',
            'A', 'S', ' ', '$', '$',
        ],
        "$$"@ =~= seq!['$', '$'],
{
    reveal_strlit("CREATE FUNCTION ");
    reveal_strlit("(");
    reveal_strlit(") RETURNS ");
    reveal_strlit(" LANGUAGE PYTHON AS $$");
    reveal_strlit("$$");
}

/// The bytes of the keywords that reading a statement looks for.
proof fn lemma_keyword_bytes()
    ensures
        encode_utf8("CREATE"@) == seq![0x43u8, 0x52, 0x45, 0x41, 0x54, 0x45],
        encode_utf8("OR REPLACE"@).len() > 0 && encode_utf8("OR REPLACE"@)[0] == 0x4f,
        encode_utf8("FUNCTION"@) == seq![0x46u8, 0x55, 0x4e, 0x43, 0x54, 0x49, 0x4f, 0x4e],
        encode_utf8("("@) == seq![0x28u8],
        encode_utf8(")"@) == seq![0x29u8],
        encode_utf8("RETURNS"@) == seq![0x52u8, 0x45, 0x54, 0x55, 0x52, 0x4e, 0x53],
        encode_utf8("LANGUAGE"@) == seq![0x4cu8, 0x41, 0x4e, 0x47, 0x55, 0x41, 0x47, 0x45],
        encode_utf8(" AS"@) == seq![0x20u8, 0x41, 0x53],
        "LANGUAGE"@ =~= seq!['L', 'A', 'N', 'G', 'U', 'A', 'G', 'E'],
        "PYTHON"@ =~= seq!['P', 'Y', 'T', 'H', 'O', 'N'],
{
    reveal_strlit("CREATE");
    reveal_strlit("OR REPLACE");
    reveal_strlit("FUNCTION");
    reveal_strlit("(");
    reveal_strlit(")");
    reveal_strlit("RETURNS");
    reveal_strlit("LANGUAGE");
    reveal_strlit(" AS");
    reveal_strlit("PYTHON");
    assert("CREATE"@ =~= seq!['C', 'R', 'E', 'A', 'T', 'E']);
    assert("OR REPLACE"@ =~= seq!['O', 'R', ' ', 'R', 'E', 'P', 'L', 'A', 'C', 'E']);
    assert("FUNCTION"@ =~= seq!['F', 'U', 'N', 'C', 'T', 'I', 'O', 'N']);
    assert("("@ =~= seq!['(']);
    assert(")"@ =~= seq![')']);
    assert("RETURNS"@ =~= seq!['R', 'E', 'T', 'U', 'R', 'N', 'S']);
    assert(" AS"@ =~= seq![' ', 'A', 'S']);
    lemma_ascii_encode("CREATE"@);
    lemma_ascii_encode("OR REPLACE"@);
    lemma_ascii_encode("FUNCTION"@);
    lemma_ascii_encode("("@);
    lemma_ascii_encode(")"@);
    lemma_ascii_encode("RETURNS"@);
    lemma_ascii_encode("LANGUAGE"@);
    lemma_ascii_encode(" AS"@);
    assert(bytes_of("CREATE"@) =~= seq![0x43u8, 0x52, 0x45, 0x41, 0x54, 0x45]);
    assert(bytes_of("FUNCTION"@) =~= seq![0x46u8, 0x55, 0x4e, 0x43, 0x54, 0x49, 0x4f, 0x4e]);
    assert(bytes_of("("@) =~= seq![0x28u8]);
    assert(bytes_of(")"@) =~= seq![0x29u8]);
    assert(bytes_of("RETURNS"@) =~= seq![0x52u8, 0x45, 0x54, 0x55, 0x52, 0x4e, 0x53]);
    assert(bytes_of("LANGUAGE"@) =~= seq![0x4cu8, 0x41, 0x4e, 0x47, 0x55, 0x41, 0x47, 0x45]);
    assert(bytes_of(" AS"@) =~= seq![0x20u8, 0x41, 0x53]);
}


proof fn lemma_word_ascii(s: Seq<char>)
    requires
        is_word(s),
    ensures
        is_ascii_chars(s),
{
    assert forall|i: int| 0 <= i < s.len() implies '\0' <= #[trigger] s[i] <= '\u{7f}' by {
        assert(is_word_char(s[i]));
    }
}

proof fn lemma_concat_ascii(a: Seq<char>, b: Seq<char>)
    requires
        is_ascii_chars(a),
        is_ascii_chars(b),
    ensures
        is_ascii_chars(a + b),
{
    is_ascii_chars_concat(a + b, a, b);
}

/// A statement whose parts are as `statement_parts_ok` asks is ASCII.
proof fn lemma_statement_ascii(name: Seq<char>, params: Seq<char>, rt: Seq<char>, body: Seq<char>)
    requires
        statement_parts_ok(name, params, rt, body),
    ensures
        is_ascii_chars(create_statement(name, params, rt, body)),
        create_statement(name, params, rt, body).len() == 51 + name.len() + params.len()
            + rt.len() + body.len(),
{
    lemma_statement_literals();
    lemma_word_ascii(name);
    lemma_word_ascii(rt);
    let l1 = "CREATE FUNCTION "@;
    let l2 = "("@;
    let l3 = ") RETURNS "@;
    let l4 = " LANGUAGE PYTHON AS $$"@;
    let l5 = "$$"@;
    assert(is_ascii_chars(l1));
    assert(is_ascii_chars(l2));
    assert(is_ascii_chars(l3));
    assert(is_ascii_chars(l4));
    assert(is_ascii_chars(l5));
    lemma_concat_ascii(l1, name);
    lemma_concat_ascii(l1 + name, l2);
    lemma_concat_ascii(l1 + name + l2, params);
    lemma_concat_ascii(l1 + name + l2 + params, l3);
    lemma_concat_ascii(l1 + name + l2 + params + l3, rt);
    lemma_concat_ascii(l1 + name + l2 + params + l3 + rt, l4);
    lemma_concat_ascii(l1 + name + l2 + params + l3 + rt + l4, body);
    lemma_concat_ascii(l1 + name + l2 + params + l3 + rt + l4 + body, l5);
}

/// A statement whose parts are as `statement_parts_ok` asks is parsed from
/// its bytes and the bytes of its ASCII uppercase.
#[verifier::spinoff_prover]
proof fn lemma_statement_layout(name: Seq<char>, params: Seq<char>, rt: Seq<char>, body: Seq<char>)
    requires
        statement_parts_ok(name, params, rt, body),
    ensures
        ({
            let t = create_statement(name, params, rt, body);
            &&& is_ascii_chars(t)
            &&& ascii_bytes(bytes_of(t))
            &&& valid_utf8(bytes_of(t))
            &&& ascii_bytes(bytes_of(ascii_upper(t)))
            &&& valid_utf8(bytes_of(ascii_upper(t)))
            &&& create_outcome(t) == statement_outcome(bytes_of(t), bytes_of(ascii_upper(t)))
        }),
{
    let t = create_statement(name, params, rt, body);
    lemma_statement_ascii(name, params, rt, body);
    lemma_statement_literals();
    lemma_ascii_encode(t);
    lemma_ascii_upper_ascii(t);
    lemma_ascii_encode(ascii_upper(t));
    let bb = bytes_of(t);
    lemma_ascii_ws_len(bb);
    assert(t[0] == 'C');
    assert(bb[0] == 0x43);
    assert(lead_ws(bb) == 0);
    assert(trim_start(bb) =~= bb);
    lemma_ascii_ws_len_end(bb);
    assert(t[t.len() - 1] == '$');
    assert(bb[bb.len() - 1] == 0x24);
    assert(trail_ws(bb) == 0);
    assert(trim(bb) =~= bb);
}

/// `ascii_upper` of a concatenation is the concatenation of the parts' `ascii_upper`.
proof fn lemma_upper_concat(x: Seq<char>, y: Seq<char>)
    ensures
        ascii_upper(x + y) == ascii_upper(x) + ascii_upper(y),
{
    assert(ascii_upper(x + y) =~= ascii_upper(x) + ascii_upper(y));
}

/// The uppercase of a statement is the statement of its parts' uppercase.
proof fn lemma_upper_statement(name: Seq<char>, params: Seq<char>, rt: Seq<char>, body: Seq<char>)
    ensures
        ascii_upper(create_statement(name, params, rt, body)) == create_statement(
            ascii_upper(name),
            ascii_upper(params),
            ascii_upper(rt),
            ascii_upper(body),
        ),
{
    lemma_statement_literals();
    let l1 = "CREATE FUNCTION "@;
    let l2 = "("@;
    let l3 = ") RETURNS "@;
    let l4 = " LANGUAGE PYTHON AS $$"@;
    let l5 = "$$"@;
    assert(ascii_upper(l1) =~= l1);
    assert(ascii_upper(l2) =~= l2);
    assert(ascii_upper(l3) =~= l3);
    assert(ascii_upper(l4) =~= l4);
    assert(ascii_upper(l5) =~= l5);
    lemma_upper_concat(l1, name);
    lemma_upper_concat(l1 + name, l2);
    lemma_upper_concat(l1 + name + l2, params);
    lemma_upper_concat(l1 + name + l2 + params, l3);
    lemma_upper_concat(l1 + name + l2 + params + l3, rt);
    lemma_upper_concat(l1 + name + l2 + params + l3 + rt, l4);
    lemma_upper_concat(l1 + name + l2 + params + l3 + rt + l4, body);
    lemma_upper_concat(l1 + name + l2 + params + l3 + rt + l4 + body, l5);
}

/// Where each part of a statement stands in its bytes.
#[verifier::spinoff_prover]
#[verifier::rlimit(60)]
proof fn lemma_statement_places(x1: Seq<char>, x2: Seq<char>, x3: Seq<char>, x4: Seq<char>)
    ensures
        ({
            let s = bytes_of(create_statement(x1, x2, x3, x4));
            let n = x1.len() as int;
            let p = x2.len() as int;
            let a = 27 + n + p + x3.len();
            &&& placed(s, n, p, x3.len() as int, x4.len() as int)
            &&& s.subrange(16, 16 + n) == bytes_of(x1)
            &&& s.subrange(17 + n, 17 + n + p) == bytes_of(x2)
            &&& s.subrange(27 + n + p, a) == bytes_of(x3)
        }),
{
    lemma_statement_literals();
    let t = create_statement(x1, x2, x3, x4);
    let s = bytes_of(t);
    let n = x1.len() as int;
    let p = x2.len() as int;
    let a = 27 + n + p + x3.len();
    let l1 = "CREATE FUNCTION "@;
    let l3 = ") RETURNS "@;
    let l4 = " LANGUAGE PYTHON AS $$"@;
    let p1 = l1 + x1;
    let p2 = p1 + "("@;
    let p3 = p2 + x2;
    let p4 = p3 + l3;
    let p5 = p4 + x3;
    let p6 = p5 + l4;
    assert(t == p6 + x4 + "$$"@);
    assert(t.subrange(0, a + 22) =~= p6);
    assert(p6.subrange(0, a) =~= p5);
    assert(p6.subrange(a, a + 22) =~= l4);
    assert(p5.subrange(0, 27 + n + p) =~= p4);
    assert(p5.subrange(27 + n + p, a) =~= x3);
    assert(p4.subrange(0, 17 + n + p) =~= p3);
    assert(p4.subrange(17 + n + p, 27 + n + p) =~= l3);
    assert(p3.subrange(0, 17 + n) =~= p2);
    assert(p3.subrange(17 + n, 17 + n + p) =~= x2);
    assert(p2.subrange(0, 16 + n) =~= p1);
    assert(p2[16 + n] == '(');
    assert(p1.subrange(0, 16) =~= l1);
    assert(p1.subrange(16, 16 + n) =~= x1);
    assert forall|i: int| 0 <= i < a + 22 implies #[trigger] s[i] == (p6[i] as u8) by {
        assert(t[i] == p6[i]);
    }
    assert forall|i: int| 0 <= i < a implies #[trigger] p6[i] == p5[i] by {
        assert(p6.subrange(0, a)[i] == p5[i]);
    }
    assert forall|i: int| 0 <= i < 27 + n + p implies #[trigger] p5[i] == p4[i] by {
        assert(p5.subrange(0, 27 + n + p)[i] == p4[i]);
    }
    assert forall|i: int| 0 <= i < 17 + n + p implies #[trigger] p4[i] == p3[i] by {
        assert(p4.subrange(0, 17 + n + p)[i] == p3[i]);
    }
    assert forall|i: int| 0 <= i < 17 + n implies #[trigger] p3[i] == p2[i] by {
        assert(p3.subrange(0, 17 + n)[i] == p2[i]);
    }
    assert forall|i: int| 0 <= i < 16 + n implies #[trigger] p2[i] == p1[i] by {
        assert(p2.subrange(0, 16 + n)[i] == p1[i]);
    }
    assert(s.subrange(0, 6) =~= seq![0x43u8, 0x52, 0x45, 0x41, 0x54, 0x45]);
    assert(s.subrange(7, 15) =~= seq![0x46u8, 0x55, 0x4e, 0x43, 0x54, 0x49, 0x4f, 0x4e]);
    assert(s.subrange(16, 16 + n) =~= bytes_of(x1));
    assert(s.subrange(17 + n, 17 + n + p) =~= bytes_of(x2));
    assert(s.subrange(19 + n + p, 26 + n + p) =~= seq![0x52u8, 0x45, 0x54, 0x55, 0x52, 0x4e, 0x53]);
    assert(s.subrange(27 + n + p, a) =~= bytes_of(x3));
    assert(s.subrange(a + 1, a + 9) =~= seq![0x4cu8, 0x41, 0x4e, 0x47, 0x55, 0x41, 0x47, 0x45]);
    assert(s.subrange(a + 10, a + 16) =~= seq![0x50u8, 0x59, 0x54, 0x48, 0x4f, 0x4e]);
}

/// A byte of a letter, a digit or `_`.
pub open spec fn is_word_byte(c: u8) -> bool {
    (0x30 <= c && c <= 0x39) || (0x41 <= c && c <= 0x5a) || (0x61 <= c && c <= 0x7a) || c == 0x5f
}

/// The bytes of a word are word bytes, and trimming leaves them as they are.
proof fn lemma_word_bytes(w: Seq<char>)
    requires
        is_word(w),
    ensures
        is_ascii_chars(w),
        encode_utf8(w) == bytes_of(w),
        decode_utf8(bytes_of(w)) == w,
        ascii_bytes(bytes_of(w)),
        forall|i: int| 0 <= i < w.len() ==> is_word_byte(#[trigger] bytes_of(w)[i]),
        lead_ws(bytes_of(w)) == 0,
        trail_ws(bytes_of(w)) == 0,
        trim(bytes_of(w)) == bytes_of(w),
{
    lemma_word_ascii(w);
    lemma_ascii_encode(w);
    let b = bytes_of(w);
    assert forall|i: int| 0 <= i < w.len() implies is_word_byte(#[trigger] b[i]) by {
        assert(is_word_char(w[i]));
    }
    lemma_ascii_ws_len(b);
    assert(b[0] == w[0] as u8);
    assert(lead_ws(b) == 0);
    assert(trim_start(b) =~= b);
    lemma_ascii_ws_len_end(b);
    assert(b[b.len() - 1] == w[w.len() - 1] as u8);
    assert(trail_ws(b) == 0);
    assert(trim_end(b) =~= b);
}

/// The uppercase of a word is a word.
proof fn lemma_upper_word(w: Seq<char>)
    requires
        is_word(w),
    ensures
        is_word(ascii_upper(w)),
{
    assert forall|i: int| 0 <= i < ascii_upper(w).len() implies is_word_char(
        #[trigger] ascii_upper(w)[i],
    ) by {
        let ch = w[i];
        assert(is_word_char(ch));
        if 'a' <= ch && ch <= 'z' {
            assert((((ch as u32) - 32) as char as u32) == (ch as u32) - 32);
        }
    }
}

/// ASCII texts with the same bytes are the same text.
proof fn lemma_bytes_inj(x: Seq<char>, y: Seq<char>)
    requires
        is_ascii_chars(x),
        is_ascii_chars(y),
        bytes_of(x) == bytes_of(y),
    ensures
        x == y,
{
    assert(x.len() == bytes_of(x).len());
    assert forall|i: int| 0 <= i < x.len() implies x[i] == y[i] by {
        assert(bytes_of(x)[i] == x[i] as u8);
        assert(bytes_of(y)[i] == y[i] as u8);
        assert(bytes_of(x)[i] == bytes_of(y)[i]);
    }
    assert(x =~= y);
}

/// A piece of the bytes of an ASCII text is the bytes of that piece of the
/// text: valid UTF-8, ASCII, and sliceable everywhere.
proof fn lemma_ascii_piece(t: Seq<char>, i: int, j: int)
    requires
        is_ascii_chars(t),
        0 <= i <= j <= t.len(),
    ensures
        bytes_of(t).subrange(i, j) == bytes_of(t.subrange(i, j)),
        valid_utf8(bytes_of(t).subrange(i, j)),
        ascii_bytes(bytes_of(t).subrange(i, j)),
        forall|k: int| 0 <= k <= j - i ==> #[trigger] can_slice(bytes_of(t).subrange(i, j), k),
{
    let x = t.subrange(i, j);
    assert(bytes_of(t).subrange(i, j) =~= bytes_of(x));
    assert(is_ascii_chars(x));
    lemma_ascii_encode(x);
    assert forall|k: int| 0 <= k <= j - i implies #[trigger] can_slice(bytes_of(t).subrange(i, j), k) by {
        lemma_ascii_slice(bytes_of(x), k);
    }
}

/// ASCII bytes that start with one whitespace byte and then another byte
/// lose exactly that one byte to `trim_start`.
proof fn lemma_lead_one(b: Seq<u8>)
    requires
        ascii_bytes(b),
        b.len() >= 2,
        is_ws_byte(b[0]),
        !is_ws_byte(b[1]),
    ensures
        lead_ws(b) == 1,
        trim_start(b) == b.subrange(1, b.len() as int),
{
    lemma_ascii_ws_len(b);
    let r = b.subrange(1, b.len() as int);
    assert(ascii_bytes(r)) by {
        assert forall|i: int| 0 <= i < r.len() implies #[trigger] r[i] < 0x80 by {
            assert(r[i] == b[i + 1]);
        }
    }
    lemma_ascii_ws_len(r);
    assert(lead_ws(r) == 0);
}

/// ASCII bytes that start with a byte other than whitespace are left as
/// they are by `trim_start`.
proof fn lemma_lead_none(b: Seq<u8>)
    requires
        ascii_bytes(b),
        b.len() >= 1,
        !is_ws_byte(b[0]),
    ensures
        lead_ws(b) == 0,
        trim_start(b) == b,
{
    lemma_ascii_ws_len(b);
    assert(trim_start(b) =~= b);
}

/// A body that follows a space is the body that follows the position after it.
proof fn lemma_body_after_space(sql: Seq<u8>, s: int)
    requires
        valid_utf8(sql),
        ascii_bytes(sql),
        0 <= s,
        s + 1 < sql.len(),
        sql[s] == 0x20,
    ensures
        body_outcome(sql, s) == body_outcome(sql, s + 1),
{
    lemma_ascii_slice(sql, s);
    lemma_ascii_slice(sql, s + 1);
    let rem = sql.subrange(s, sql.len() as int);
    let rem1 = sql.subrange(s + 1, sql.len() as int);
    assert(ascii_bytes(rem)) by {
        assert forall|i: int| 0 <= i < rem.len() implies #[trigger] rem[i] < 0x80 by {
            assert(rem[i] == sql[s + i]);
        }
    }
    lemma_ascii_ws_len(rem);
    assert(rem.subrange(1, rem.len() as int) =~= rem1);
    assert(lead_ws(rem) == 1 + lead_ws(rem1));
    lemma_lead_ws_bound(rem1);
    assert(trim_start(rem) =~= trim_start(rem1));
}

/// The bytes of a statement with single spaces, in the layout that
/// `create_statement` gives them.
pub open spec fn placed(s: Seq<u8>, n: int, p: int, r: int, d: int) -> bool {
    let a = 27 + n + p + r;
    &&& s.len() == a + 24 + d
    &&& s.subrange(0, 6) == seq![0x43u8, 0x52, 0x45, 0x41, 0x54, 0x45]
    &&& s[6] == 0x20
    &&& s.subrange(7, 15) == seq![0x46u8, 0x55, 0x4e, 0x43, 0x54, 0x49, 0x4f, 0x4e]
    &&& s[15] == 0x20
    &&& s[16 + n] == 0x28
    &&& s[17 + n + p] == 0x29
    &&& s[18 + n + p] == 0x20
    &&& s.subrange(19 + n + p, 26 + n + p) == seq![0x52u8, 0x45, 0x54, 0x55, 0x52, 0x4e, 0x53]
    &&& s[26 + n + p] == 0x20
    &&& s[a] == 0x20
    &&& s.subrange(a + 1, a + 9) == seq![0x4cu8, 0x41, 0x4e, 0x47, 0x55, 0x41, 0x47, 0x45]
    &&& s[a + 9] == 0x20
    &&& s.subrange(a + 10, a + 16) == seq![0x50u8, 0x59, 0x54, 0x48, 0x4f, 0x4e]
    &&& s[a + 16] == 0x20
    &&& s[a + 17] == 0x41
    &&& s[a + 18] == 0x53
    &&& s[a + 19] == 0x20
    &&& s[a + 20] == 0x24
}

/// The statement is the text up to its body's opening `$$`, then `$$`, the
/// body and `$$`.
proof fn lemma_statement_tail(x1: Seq<char>, x2: Seq<char>, x3: Seq<char>, x4: Seq<char>)
    ensures
        ({
            let t = create_statement(x1, x2, x3, x4);
            let a = 27 + x1.len() + x2.len() + x3.len() as int;
            t == t.subrange(0, a + 20) + "$$"@ + x4 + "$$"@ + Seq::<char>::empty()
        }),
{
    lemma_statement_literals();
    let t = create_statement(x1, x2, x3, x4);
    let a = 27 + x1.len() + x2.len() + x3.len() as int;
    let p6 = "CREATE FUNCTION "@ + x1 + "("@ + x2 + ") RETURNS "@ + x3
        + " LANGUAGE PYTHON AS $$"@;
    assert(t == p6 + x4 + "$$"@);
    assert(p6 =~= p6.subrange(0, a + 20) + "$$"@);
    assert(t.subrange(0, a + 20) =~= p6.subrange(0, a + 20));
    assert(t =~= t.subrange(0, a + 20) + "$$"@ + x4 + "$$"@ + Seq::<char>::empty());
}

/// What the steps of reading a statement see: its bytes and those of its
/// uppercase, both ASCII and in the layout of `placed`.
#[verifier::spinoff_prover]
proof fn lemma_statement_facts(name: Seq<char>, params: Seq<char>, rt: Seq<char>, body: Seq<char>)
    requires
        statement_parts_ok(name, params, rt, body),
    ensures
        ({
            let t = create_statement(name, params, rt, body);
            let bb = bytes_of(t);
            let up = bytes_of(ascii_upper(t));
            let n = name.len() as int;
            let p = params.len() as int;
            let r = rt.len() as int;
            let a = 27 + n + p + r;
            &&& is_ascii_chars(t)
            &&& is_ascii_chars(ascii_upper(t))
            &&& encode_utf8(t) == bb
            &&& valid_utf8(bb)
            &&& valid_utf8(up)
            &&& ascii_bytes(bb)
            &&& ascii_bytes(up)
            &&& placed(bb, n, p, r, body.len() as int)
            &&& placed(up, n, p, r, body.len() as int)
            &&& bb.subrange(16, 16 + n) == bytes_of(name)
            &&& bb.subrange(17 + n, 17 + n + p) == bytes_of(params)
            &&& bb.subrange(27 + n + p, a) == bytes_of(rt)
            &&& up.subrange(27 + n + p, a) == bytes_of(ascii_upper(rt))
        }),
{
    let t = create_statement(name, params, rt, body);
    lemma_statement_ascii(name, params, rt, body);
    lemma_ascii_encode(t);
    lemma_ascii_upper_ascii(t);
    lemma_ascii_encode(ascii_upper(t));
    lemma_statement_places(name, params, rt, body);
    lemma_upper_statement(name, params, rt, body);
    lemma_statement_places(ascii_upper(name), ascii_upper(params), ascii_upper(rt), ascii_upper(body));
    lemma_ascii_upper_ascii(t);
}

/// The bytes of a statement.
spec fn stmt_bytes(name: Seq<char>, params: Seq<char>, rt: Seq<char>, body: Seq<char>) -> Seq<u8> {
    bytes_of(create_statement(name, params, rt, body))
}

/// The bytes of a statement's uppercase.
spec fn stmt_upper(name: Seq<char>, params: Seq<char>, rt: Seq<char>, body: Seq<char>) -> Seq<u8> {
    bytes_of(ascii_upper(create_statement(name, params, rt, body)))
}

/// ASCII bytes in valid UTF-8 may be cut anywhere; what follows the cut is
/// valid ASCII again.
proof fn lemma_ascii_suffix(b: Seq<u8>, i: int)
    requires
        valid_utf8(b),
        ascii_bytes(b),
        0 <= i <= b.len(),
    ensures
        can_slice(b, i),
        valid_utf8(b.subrange(i, b.len() as int)),
        ascii_bytes(b.subrange(i, b.len() as int)),
        forall|k: int| 0 <= k <= b.len() - i ==> #[trigger] can_slice(b.subrange(i, b.len() as int), k),
{
    lemma_ascii_slice(b, i);
    valid_utf8_split(b, i);
    let r = b.subrange(i, b.len() as int);
    assert forall|k: int| 0 <= k < r.len() implies #[trigger] r[k] < 0x80 by {
        assert(r[k] == b[i + k]);
    }
    assert forall|k: int| 0 <= k <= r.len() implies #[trigger] can_slice(r, k) by {
        lemma_ascii_slice(r, k);
    }
}

/// `CREATE` and the space after it.
#[verifier::spinoff_prover]
#[verifier::rlimit(100)]
proof fn lemma_read_create(sql: Seq<u8>, up: Seq<u8>, n: int, p: int, r: int, d: int)
    requires
        valid_utf8(sql),
        valid_utf8(up),
        ascii_bytes(sql),
        ascii_bytes(up),
        n >= 0 && p >= 0 && r >= 0 && d >= 0,
        placed(sql, n, p, r, d),
        placed(up, n, p, r, d),
    ensures
        statement_outcome(sql, up) == at_function(sql, up, 7),
{
    lemma_keyword_bytes();
    let len = sql.len() as int;
    assert(up.subrange(0, 6) == encode_utf8("CREATE"@));
    assert(starts_with(up, encode_utf8("CREATE"@)));
    lemma_ascii_suffix(sql, 6);
    lemma_ascii_suffix(up, 6);
    let b6 = sql.subrange(6, len);
    let u6 = up.subrange(6, len);
    assert(sql[7] == sql.subrange(7, 15)[0]);
    assert(up[7] == up.subrange(7, 15)[0]);
    assert(b6[0] == sql[6] && b6[1] == sql[7]);
    assert(u6[0] == up[6] && u6[1] == up[7]);
    lemma_lead_one(b6);
    lemma_lead_one(u6);
    let u7 = trim_start(u6);
    assert(u7[0] == 0x46);
    assert(!starts_with(u7, encode_utf8("OR REPLACE"@))) by {
        if starts_with(u7, encode_utf8("OR REPLACE"@)) {
            assert(u7.subrange(0, 10)[0] == u7[0]);
        }
    }
    assert(skip_ws(sql, 6) == 7);
}

/// `FUNCTION` and the space after it.
#[verifier::spinoff_prover]
proof fn lemma_read_function(sql: Seq<u8>, up: Seq<u8>, n: int, p: int, r: int, d: int)
    requires
        valid_utf8(sql),
        valid_utf8(up),
        ascii_bytes(sql),
        ascii_bytes(up),
        n >= 0 && p >= 0 && r >= 0 && d >= 0,
        placed(sql, n, p, r, d),
        placed(up, n, p, r, d),
    ensures
        at_function(sql, up, 7) == at_name(sql, up, 15),
{
    lemma_keyword_bytes();
    let len = sql.len() as int;
    lemma_ascii_suffix(sql, 7);
    lemma_ascii_suffix(up, 7);
    let b7 = sql.subrange(7, len);
    let u7 = up.subrange(7, len);
    assert(b7[0] == sql.subrange(7, 15)[0]);
    assert(u7[0] == up.subrange(7, 15)[0]);
    lemma_lead_none(b7);
    lemma_lead_none(u7);
    assert(u7.subrange(0, 8) =~= up.subrange(7, 15));
    assert(starts_with(u7, encode_utf8("FUNCTION"@)));
    assert(skip_ws(sql, 7) == 7);
}

/// The name, up to `(`.
#[verifier::spinoff_prover]
#[verifier::rlimit(40)]
proof fn lemma_read_name(name: Seq<char>, params: Seq<char>, rt: Seq<char>, body: Seq<char>)
    requires
        statement_parts_ok(name, params, rt, body),
    ensures
        ({
            let bb = stmt_bytes(name, params, rt, body);
            let up = stmt_upper(name, params, rt, body);
            at_name(bb, up, 15) == at_params(bb, up, 17 + name.len() as int, name)
        }),
{
    lemma_statement_facts(name, params, rt, body);
    lemma_keyword_bytes();
    lemma_word_bytes(name);
    let t = create_statement(name, params, rt, body);
    let bb = bytes_of(t);
    let len = bb.len() as int;
    let n = name.len() as int;
    let nb = bytes_of(name);
    lemma_ascii_slice(bb, 15);
    lemma_ascii_piece(t, 15, len);
    lemma_ascii_piece(t, 16, len);
    let r0 = bb.subrange(15, len);
    assert(r0[1] == nb[0]) by {
        assert(bb.subrange(16, 16 + n)[0] == bb[16]);
    }
    lemma_lead_one(r0);
    let rem = bb.subrange(16, len);
    assert(trim_start(r0) =~= rem);
    assert(skip_ws(bb, 15) == 16);
    let op = seq![0x28u8];
    assert(rem.subrange(n, n + 1) =~= op);
    assert forall|j: int| 0 <= j < n implies #[trigger] rem.subrange(j, j + 1) != op by {
        assert(rem.subrange(j, j + 1)[0] == rem[j]);
        assert(bb.subrange(16, 16 + n)[j] == bb[16 + j]);
        assert(is_word_byte(nb[j]));
    }
    lemma_find_first(rem, op, n, 0);
    assert(can_slice(rem, n));
    assert(rem.subrange(0, n) =~= nb);
}

/// The parameter list, up to `)`.
#[verifier::spinoff_prover]
#[verifier::rlimit(40)]
proof fn lemma_read_params(name: Seq<char>, params: Seq<char>, rt: Seq<char>, body: Seq<char>)
    requires
        statement_parts_ok(name, params, rt, body),
    ensures
        ({
            let bb = stmt_bytes(name, params, rt, body);
            let up = stmt_upper(name, params, rt, body);
            let n = name.len() as int;
            let p = params.len() as int;
            at_params(bb, up, 17 + n, name) == match parameters_of(
                unwrapped_list(encode_utf8(params)),
                false,
            ) {
                Err(m) => CreateOutcome::Failed(m),
                Ok(ps) => at_returns(bb, up, 18 + n + p, name, ps),
            }
        }),
{
    lemma_statement_facts(name, params, rt, body);
    lemma_keyword_bytes();
    lemma_ascii_encode(params);
    let t = create_statement(name, params, rt, body);
    let bb = bytes_of(t);
    let len = bb.len() as int;
    let n = name.len() as int;
    let p = params.len() as int;
    let pb = bytes_of(params);
    lemma_ascii_slice(bb, 17 + n);
    lemma_ascii_piece(t, 17 + n, len);
    let rem = bb.subrange(17 + n, len);
    let cp = seq![0x29u8];
    assert(rem.subrange(p, p + 1) =~= cp);
    assert forall|j: int| 0 <= j < p implies #[trigger] rem.subrange(j, j + 1) != cp by {
        assert(rem.subrange(j, j + 1)[0] == rem[j]);
        assert(bb.subrange(17 + n, 17 + n + p)[j] == bb[17 + n + j]);
        assert(pb[j] == params[j] as u8);
        assert(params[j] != ')');
    }
    lemma_find_first(rem, cp, p, 0);
    assert(can_slice(rem, p));
    assert(rem.subrange(0, p) =~= pb);
}

/// `RETURNS` and the space after it.
#[verifier::spinoff_prover]
proof fn lemma_read_returns(
    sql: Seq<u8>,
    up: Seq<u8>,
    n: int,
    p: int,
    r: int,
    d: int,
    name: Seq<char>,
    ps: Seq<ParameterView>,
)
    requires
        valid_utf8(sql),
        valid_utf8(up),
        ascii_bytes(sql),
        ascii_bytes(up),
        n >= 0 && p >= 0 && r >= 0 && d >= 0,
        placed(sql, n, p, r, d),
        placed(up, n, p, r, d),
    ensures
        at_returns(sql, up, 18 + n + p, name, ps) == at_return_type(sql, up, 26 + n + p, name, ps),
{
    lemma_keyword_bytes();
    let len = sql.len() as int;
    let k = 18 + n + p;
    lemma_ascii_suffix(sql, k);
    lemma_ascii_suffix(up, k);
    let bk = sql.subrange(k, len);
    let uk = up.subrange(k, len);
    assert(sql[k + 1] == sql.subrange(k + 1, k + 8)[0]);
    assert(up[k + 1] == up.subrange(k + 1, k + 8)[0]);
    assert(bk[0] == sql[k] && bk[1] == sql[k + 1]);
    assert(uk[0] == up[k] && uk[1] == up[k + 1]);
    lemma_lead_one(bk);
    lemma_lead_one(uk);
    assert(trim_start(uk).subrange(0, 7) =~= up.subrange(k + 1, k + 8));
    assert(starts_with(trim_start(uk), encode_utf8("RETURNS"@)));
    assert(skip_ws(sql, k) == k + 1);
}

/// The return type, up to `LANGUAGE`.
#[verifier::spinoff_prover]
#[verifier::rlimit(60)]
proof fn lemma_read_return_type(
    sql: Seq<u8>,
    up: Seq<u8>,
    n: int,
    p: int,
    d: int,
    rt: Seq<char>,
    name: Seq<char>,
    ps: Seq<ParameterView>,
)
    requires
        valid_utf8(sql),
        valid_utf8(up),
        ascii_bytes(sql),
        ascii_bytes(up),
        n >= 0 && p >= 0 && d >= 0,
        is_word(rt),
        forall|j: int|
            0 <= j && j + 8 <= rt.len() ==> #[trigger] ascii_upper(rt).subrange(j, j + 8)
                != "LANGUAGE"@,
        placed(sql, n, p, rt.len() as int, d),
        placed(up, n, p, rt.len() as int, d),
        sql.subrange(27 + n + p, 27 + n + p + rt.len()) == bytes_of(rt),
        up.subrange(27 + n + p, 27 + n + p + rt.len()) == bytes_of(ascii_upper(rt)),
    ensures
        at_return_type(sql, up, 26 + n + p, name, ps) == at_language(
            sql,
            up,
            36 + n + p + rt.len(),
            name,
            ps,
            normalized_type(rt),
        ),
{
    lemma_keyword_bytes();
    lemma_word_bytes(rt);
    lemma_upper_word(rt);
    lemma_word_bytes(ascii_upper(rt));
    let len = sql.len() as int;
    let r = rt.len() as int;
    let k = 27 + n + p;
    let a = k + r;
    let rb = bytes_of(rt);
    let urb = bytes_of(ascii_upper(rt));
    lemma_ascii_suffix(sql, k - 1);
    lemma_ascii_suffix(sql, k);
    lemma_ascii_suffix(up, k);
    let r0 = sql.subrange(k - 1, len);
    assert(r0[1] == rb[0]) by {
        assert(sql.subrange(k, a)[0] == sql[k]);
    }
    lemma_lead_one(r0);
    let rem = sql.subrange(k, len);
    assert(trim_start(r0) =~= rem);
    assert(skip_ws(sql, k - 1) == k);
    let u = up.subrange(k, len);
    assert(u[0] == urb[0]) by {
        assert(up.subrange(k, a)[0] == up[k]);
    }
    lemma_lead_none(u);
    let lang = seq![0x4cu8, 0x41, 0x4e, 0x47, 0x55, 0x41, 0x47, 0x45];
    assert(u.subrange(r + 1, r + 9) =~= up.subrange(a + 1, a + 9));
    assert(bytes_of("LANGUAGE"@) =~= lang);
    lemma_word_ascii(ascii_upper(rt));
    assert forall|j: int| 0 <= j < r + 1 implies #[trigger] u.subrange(j, j + 8) != lang by {
        if j + 8 <= r {
            let w = ascii_upper(rt).subrange(j, j + 8);
            assert(u.subrange(j, j + 8) =~= bytes_of(w)) by {
                assert forall|i: int| 0 <= i < 8 implies u.subrange(j, j + 8)[i] == bytes_of(w)[i] by {
                    assert(up.subrange(k, a)[j + i] == up[k + j + i]);
                    assert(urb[j + i] == ascii_upper(rt)[j + i] as u8);
                }
            }
            if u.subrange(j, j + 8) == lang {
                assert(is_ascii_chars(w));
                lemma_bytes_inj(w, "LANGUAGE"@);
            }
        } else {
            assert(u[r] == up[a]);
            lemma_window_differs(u, lang, j, r);
        }
    }
    lemma_find_first(u, lang, r + 1, 0);
    let rtb = rem.subrange(0, r + 1);
    assert(can_slice(rem, r + 1));
    assert(rtb.subrange(0, r) =~= rb);
    assert(rtb[0] == rb[0]);
    assert(rtb[r] == sql[a]);
    assert(ascii_bytes(rtb)) by {
        assert forall|i: int| 0 <= i < rtb.len() implies #[trigger] rtb[i] < 0x80 by {
            assert(rtb[i] == sql[k + i]);
        }
    }
    lemma_lead_none(rtb);
    lemma_ascii_ws_len_end(rtb);
    assert(rtb.subrange(0, rtb.len() - 1) =~= rb);
    assert(trail_ws(rtb) == 1);
    assert(trim(rtb) =~= rb);
}

/// The language, `AS` and the body.
#[verifier::spinoff_prover]
#[verifier::rlimit(60)]
proof fn lemma_read_language(
    sql: Seq<u8>,
    up: Seq<u8>,
    n: int,
    p: int,
    r: int,
    pre: Seq<char>,
    body: Seq<char>,
    name: Seq<char>,
    ps: Seq<ParameterView>,
    rtn: Seq<char>,
)
    requires
        valid_utf8(sql),
        valid_utf8(up),
        ascii_bytes(sql),
        ascii_bytes(up),
        n >= 0 && p >= 0 && r >= 0,
        placed(sql, n, p, r, body.len() as int),
        placed(up, n, p, r, body.len() as int),
        dollar_free(body),
        sql == encode_utf8(pre + "$$"@ + body + "$$"@ + Seq::<char>::empty()),
        encode_utf8(pre).len() == 47 + n + p + r,
    ensures
        at_language(sql, up, 36 + n + p + r, name, ps, rtn) == CreateOutcome::Defined(
            DefinitionView { name, parameters: ps, return_type: rtn, language: "PYTHON"@, body },
        ),
{
    lemma_keyword_bytes();
    let len = sql.len() as int;
    let a = 27 + n + p + r;
    lemma_ascii_suffix(sql, a + 9);
    lemma_ascii_suffix(sql, a + 10);
    lemma_ascii_suffix(up, a + 10);
    let r0 = sql.subrange(a + 9, len);
    assert(r0[1] == sql.subrange(a + 10, a + 16)[0]);
    lemma_lead_one(r0);
    let rem = sql.subrange(a + 10, len);
    assert(trim_start(r0) =~= rem);
    assert(skip_ws(sql, a + 9) == a + 10);
    let u = up.subrange(a + 10, len);
    assert(u[0] == up.subrange(a + 10, a + 16)[0]);
    lemma_lead_none(u);
    let kw = seq![0x20u8, 0x41, 0x53];
    assert(u.subrange(6, 9) =~= kw);
    assert forall|j: int| 0 <= j < 6 implies #[trigger] u.subrange(j, j + 3) != kw by {
        assert(u[j] == up.subrange(a + 10, a + 16)[j]);
        lemma_window_differs(u, kw, j, j);
    }
    lemma_find_first(u, kw, 6, 0);
    let py = seq![0x50u8, 0x59, 0x54, 0x48, 0x4f, 0x4e];
    assert(can_slice(rem, 6));
    let lg = rem.subrange(0, 6);
    assert(lg =~= py);
    assert(ascii_bytes(lg));
    lemma_lead_none(lg);
    lemma_ascii_ws_len_end(lg);
    assert(trim(lg) =~= lg);
    lemma_ascii_encode("PYTHON"@);
    assert(bytes_of("PYTHON"@) =~= py);
    assert(ascii_upper("PYTHON"@) =~= "PYTHON"@);
    assert(upper_text(decode_utf8(trim(lg))) == "PYTHON"@);
    lemma_body_after_space(sql, a + 19);
    law_dollar_body_read_back(pre, body, Seq::<char>::empty());
}

/// A `CREATE FUNCTION` statement written with single spaces is read back:
/// the definition has the statement's name, the parameters that its list
/// gives (after one pair of outer parentheses is taken off), the canonical
/// name of its return type, the language `PYTHON` and the body between
/// `$$`; a parameter list that is refused gives its error instead.
#[verifier::spinoff_prover]
#[verifier::rlimit(60)]
pub proof fn law_statement_read_back(
    name: Seq<char>,
    params: Seq<char>,
    rt: Seq<char>,
    body: Seq<char>,
)
    requires
        statement_parts_ok(name, params, rt, body),
    ensures
        create_outcome(create_statement(name, params, rt, body)) == match parameters_of(
            unwrapped_list(encode_utf8(params)),
            false,
        ) {
            Ok(ps) => CreateOutcome::Defined(
                DefinitionView {
                    name,
                    parameters: ps,
                    return_type: normalized_type(rt),
                    language: "PYTHON"@,
                    body,
                },
            ),
            Err(m) => CreateOutcome::Failed(m),
        },
{
    let t = create_statement(name, params, rt, body);
    let bb = bytes_of(t);
    let up = bytes_of(ascii_upper(t));
    let n = name.len() as int;
    let p = params.len() as int;
    let r = rt.len() as int;
    let d = body.len() as int;
    lemma_statement_layout(name, params, rt, body);
    lemma_statement_facts(name, params, rt, body);
    lemma_read_create(bb, up, n, p, r, d);
    lemma_read_function(bb, up, n, p, r, d);
    lemma_read_name(name, params, rt, body);
    lemma_read_params(name, params, rt, body);
    match parameters_of(unwrapped_list(encode_utf8(params)), false) {
        Err(m) => {},
        Ok(ps) => {
            lemma_read_returns(bb, up, n, p, r, d, name, ps);
            lemma_read_return_type(bb, up, n, p, d, rt, name, ps);
            lemma_statement_tail(name, params, rt, body);
            let pre = t.subrange(0, 47 + n + p + r);
            assert(is_ascii_chars(pre));
            lemma_ascii_encode(pre);
            lemma_read_language(bb, up, n, p, r, pre, body, name, ps, normalized_type(rt));
        },
    }
}

} // verus!
