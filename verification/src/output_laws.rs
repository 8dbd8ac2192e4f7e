//! What the library writes out for others to read: the listing of a
//! function's parameters, and the Python code that wraps a function body.
use vstd::prelude::*;
use vstd::utf8::*;

use crate::create_function_vtab::params_listing;
use crate::executor::{comma_joined, indented, lines, wrapper_code};
use crate::laws::lemma_scalar_bytes;
use crate::parser::ParameterView;
use crate::text::{index_of_byte, lemma_ascii_boundary, lemma_index_of_byte};

verus! {

broadcast use vstd::seq::group_seq_axioms, vstd::seq_lib::group_seq_properties;

// ---------------------------------------------------------------------------
// The listing of parameters
// ---------------------------------------------------------------------------
/// The listing of one parameter is its name, a space and its type; the
/// listing of two non-empty runs of parameters one after the other is their
/// listings joined by `, `. Together: every parameter is listed, in order,
/// as `name TYPE`, separated by `, `.
pub proof fn law_listing_joins(a: Seq<ParameterView>, b: Seq<ParameterView>, p: ParameterView)
    requires
        a.len() > 0,
        b.len() > 0,
    ensures
        params_listing(seq![p]) == p.name + " "@ + p.data_type,
        params_listing(a + b) == params_listing(a) + ", "@ + params_listing(b),
    decreases b.len(),
{
    let ab = a + b;
    assert(ab.drop_last() =~= a + b.drop_last());
    assert(ab.last() == b.last());
    if b.len() == 1 {
        assert(ab.drop_last() =~= a);
        assert(params_listing(ab) =~= params_listing(a) + ", "@ + params_listing(b));
    } else {
        law_listing_joins(a, b.drop_last(), p);
        assert(params_listing(ab) =~= params_listing(a) + ", "@ + params_listing(b));
    }
}

// ---------------------------------------------------------------------------
// Lines of text
// ---------------------------------------------------------------------------
/// The pieces of a text between its `\n` characters (one piece more than
/// there are `\n`).
pub open spec fn split_nl(s: Seq<char>) -> Seq<Seq<char>>
    decreases s.len(),
{
    if s.len() == 0 {
        seq![Seq::<char>::empty()]
    } else {
        let rest = split_nl(s.drop_first());
        if s[0] == '\n' {
            seq![Seq::<char>::empty()] + rest
        } else {
            rest.update(0, seq![s[0]] + rest[0])
        }
    }
}

/// True when a text holds no `\n`.
pub open spec fn one_line(s: Seq<char>) -> bool {
    forall|i: int| 0 <= i < s.len() ==> #[trigger] s[i] != '\n'
}

proof fn lemma_split_len(s: Seq<char>)
    ensures
        split_nl(s).len() >= 1,
    decreases s.len(),
{
    if s.len() > 0 {
        lemma_split_len(s.drop_first());
    }
}

/// A text without `\n` is a single piece.
proof fn lemma_split_one(s: Seq<char>)
    requires
        one_line(s),
    ensures
        split_nl(s) == seq![s],
    decreases s.len(),
{
    if s.len() > 0 {
        let r = s.drop_first();
        assert(one_line(r)) by {
            assert forall|i: int| 0 <= i < r.len() implies #[trigger] r[i] != '\n' by {
                assert(r[i] == s[i + 1]);
            }
        }
        lemma_split_one(r);
        assert(seq![s[0]] + r =~= s);
        assert(split_nl(s) =~= seq![s]);
    }
}

/// Splitting two texts joined by `\n` gives the pieces of the first and then
/// those of the second.
proof fn lemma_split_join(a: Seq<char>, b: Seq<char>)
    ensures
        split_nl(a + seq!['\n'] + b) == split_nl(a) + split_nl(b),
    decreases a.len(),
{
    let s = a + seq!['\n'] + b;
    if a.len() == 0 {
        assert(s.drop_first() =~= b);
        assert(s[0] == '\n');
        assert(split_nl(s) =~= split_nl(a) + split_nl(b));
    } else {
        let a1 = a.drop_first();
        assert(s.drop_first() =~= a1 + seq!['\n'] + b);
        assert(s[0] == a[0]);
        lemma_split_join(a1, b);
        lemma_split_len(a1);
        assert(split_nl(s) =~= split_nl(a) + split_nl(b));
    }
}

/// A text with `\n` at position `j` has a `\n` byte in its UTF-8 encoding.
proof fn lemma_newline_byte(u: Seq<char>, j: int)
    requires
        0 <= j < u.len(),
        u[j] == '\n',
    ensures
        exists|k: int| 0 <= k < encode_utf8(u).len() && encode_utf8(u)[k] == 0x0a,
    decreases u.len(),
{
    let e = encode_scalar(u[0] as u32);
    let r = u.drop_first();
    assert(encode_utf8(u) == e + encode_utf8(r));
    lemma_scalar_bytes(u[0], '\n');
    if j == 0 {
        assert(encode_utf8(u)[0] == 0x0a);
    } else {
        assert(r[j - 1] == '\n');
        lemma_newline_byte(r, j - 1);
        let k = choose|k: int| 0 <= k < encode_utf8(r).len() && encode_utf8(r)[k] == 0x0a;
        assert(encode_utf8(u)[e.len() + k] == 0x0a);
    }
}

/// Valid UTF-8 without a `\n` byte decodes to a text without `\n`.
proof fn lemma_decode_one_line(l: Seq<u8>)
    requires
        valid_utf8(l),
        forall|k: int| 0 <= k < l.len() ==> #[trigger] l[k] != 0x0a,
    ensures
        one_line(decode_utf8(l)),
{
    let u = decode_utf8(l);
    decode_utf8_encode_utf8(l);
    assert forall|j: int| 0 <= j < u.len() implies #[trigger] u[j] != '\n' by {
        if u[j] == '\n' {
            lemma_newline_byte(u, j);
        }
    }
}

/// The lines of valid UTF-8 text are valid UTF-8 and hold no `\n`.
proof fn lemma_lines_clean(b: Seq<u8>)
    requires
        valid_utf8(b),
    ensures
        forall|i: int| 0 <= i < lines(b).len() ==> valid_utf8(#[trigger] lines(b)[i]),
        forall|i: int, k: int|
            0 <= i < lines(b).len() && 0 <= k < lines(b)[i].len() ==> #[trigger] lines(b)[i][k]
                != 0x0a,
    decreases b.len(),
{
    let i = index_of_byte(b, 0x0a) as int;
    lemma_index_of_byte(b, 0x0a);
    if b.len() == 0 {
    } else if i >= b.len() {
        assert(lines(b) == seq![b]);
    } else {
        lemma_ascii_boundary(b, i);
        valid_utf8_split(b, i);
        valid_utf8_split(b, i + 1);
        let line0 = b.subrange(0, i);
        let rest = b.subrange(i + 1, b.len() as int);
        lemma_lines_clean(rest);
        let line = if line0.len() > 0 && line0.last() == 0x0d {
            line0.drop_last()
        } else {
            line0
        };
        if line0.len() > 0 && line0.last() == 0x0d {
            lemma_ascii_boundary(line0, i - 1);
            valid_utf8_split(line0, i - 1);
            assert(line0.subrange(0, i - 1) =~= line);
        }
        assert(lines(b) == seq![line] + lines(rest));
        assert forall|j: int| 0 <= j < lines(b).len() implies valid_utf8(#[trigger] lines(b)[j]) by {
            if j > 0 {
                assert(lines(b)[j] == lines(rest)[j - 1]);
            }
        }
        assert forall|j: int, k: int|
            0 <= j < lines(b).len() && 0 <= k < lines(b)[j].len() implies #[trigger] lines(
            b,
        )[j][k] != 0x0a by {
            if j > 0 {
                assert(lines(b)[j] == lines(rest)[j - 1]);
            } else {
                assert(line[k] == b[k]);
            }
        }
    }
}

/// Each line, indented by four spaces.
spec fn each_indented(ls: Seq<Seq<u8>>) -> Seq<Seq<char>> {
    ls.map_values(|l: Seq<u8>| "    "@ + decode_utf8(l))
}

proof fn lemma_spaces()
    ensures
        "    "@ =~= seq![' ', ' ', ' ', ' '],
        "\n"@ =~= seq!['\n'],
{
    reveal_strlit("    ");
    reveal_strlit("\n");
}

/// The pieces of indented lines without `\n` are the lines, each indented.
proof fn lemma_split_indented(ls: Seq<Seq<u8>>)
    requires
        ls.len() > 0,
        forall|i: int| 0 <= i < ls.len() ==> one_line(decode_utf8(#[trigger] ls[i])),
    ensures
        split_nl(indented(ls)) == each_indented(ls),
    decreases ls.len(),
{
    lemma_spaces();
    let last = "    "@ + decode_utf8(ls.last());
    assert(one_line(last)) by {
        assert(one_line(decode_utf8(ls[ls.len() - 1])));
        assert forall|i: int| 0 <= i < last.len() implies #[trigger] last[i] != '\n' by {
            if i >= 4 {
                assert(last[i] == decode_utf8(ls.last())[i - 4]);
            }
        }
    }
    lemma_split_one(last);
    if ls.len() == 1 {
        assert(each_indented(ls) =~= seq![last]);
    } else {
        let init = ls.drop_last();
        assert forall|i: int| 0 <= i < init.len() implies one_line(decode_utf8(#[trigger] init[i])) by {
            assert(init[i] == ls[i]);
        }
        lemma_split_indented(init);
        assert(indented(ls) =~= indented(init) + seq!['\n'] + last);
        lemma_split_join(indented(init), last);
        assert(each_indented(ls) =~= each_indented(init) + seq![last]);
    }
}

// ---------------------------------------------------------------------------
// The Python wrapper
// ---------------------------------------------------------------------------
/// Names joined by `, ` hold no `\n` where the names hold none.
proof fn lemma_joined_one_line(ns: Seq<Seq<char>>)
    requires
        forall|i: int| 0 <= i < ns.len() ==> one_line(#[trigger] ns[i]),
    ensures
        one_line(comma_joined(ns)),
    decreases ns.len(),
{
    reveal_strlit(", ");
    assert(", "@ =~= seq![',', ' ']);
    if ns.len() > 1 {
        let init = ns.drop_last();
        assert forall|i: int| 0 <= i < init.len() implies one_line(#[trigger] init[i]) by {
            assert(init[i] == ns[i]);
        }
        lemma_joined_one_line(init);
        let c = comma_joined(ns);
        let x = comma_joined(init);
        assert(one_line(ns[ns.len() - 1]));
        assert forall|i: int| 0 <= i < c.len() implies #[trigger] c[i] != '\n' by {
            if i >= x.len() + 2 {
                assert(c[i] == ns.last()[i - x.len() - 2]);
            } else if i >= x.len() {
            } else {
                assert(c[i] == x[i]);
            }
        }
    } else if ns.len() == 1 {
        assert(one_line(ns[0]));
    }
}

/// The Python code that wraps a body is, line by line: the `def` line with
/// the parameter names, then each line of the body (as `str::lines` gives
/// them) unchanged behind four spaces, then an empty line, the line that
/// calls the function, and the empty rest after the final line ending.
/// (Where a parameter name held `\n`, the lines would differ.)
#[verifier::rlimit(60)]
pub proof fn law_wrapper_keeps_each_line(names: Seq<Seq<char>>, body: Seq<char>)
    requires
        forall|i: int| 0 <= i < names.len() ==> one_line(#[trigger] names[i]),
    ensures
        lines(encode_utf8(body)).len() > 0 ==> split_nl(wrapper_code(names, body)) == seq![
            "def __pyfunc_wrapper__("@ + comma_joined(names) + "):"@,
        ] + lines(encode_utf8(body)).map_values(|l: Seq<u8>| "    "@ + decode_utf8(l)) + seq![
            Seq::<char>::empty(),
            "__pyfunc_result__ = __pyfunc_wrapper__("@ + comma_joined(names) + ")"@,
            Seq::<char>::empty(),
        ],
{
    let ls = lines(encode_utf8(body));
    if ls.len() > 0 {
        reveal_strlit("def __pyfunc_wrapper__(");
        reveal_strlit("):");
        reveal_strlit("):\n");
        reveal_strlit("\n\n__pyfunc_result__ = __pyfunc_wrapper__(");
        reveal_strlit("__pyfunc_result__ = __pyfunc_wrapper__(");
        reveal_strlit(")");
        reveal_strlit(")\n");
        let params = comma_joined(names);
        lemma_joined_one_line(names);
        let h = "def __pyfunc_wrapper__("@ + params + "):"@;
        let f = "__pyfunc_result__ = __pyfunc_wrapper__("@ + params + ")"@;
        let e = Seq::<char>::empty();
        let ind = indented(ls);
        assert(one_line(h)) by {
            assert forall|i: int| 0 <= i < h.len() implies #[trigger] h[i] != '\n' by {
                if 23 <= i < 23 + params.len() {
                    assert(h[i] == params[i - 23]);
                }
            }
        }
        assert(one_line(f)) by {
            assert forall|i: int| 0 <= i < f.len() implies #[trigger] f[i] != '\n' by {
                if 39 <= i < 39 + params.len() {
                    assert(f[i] == params[i - 39]);
                }
            }
        }
        lemma_encode_valid_body(body);
        lemma_lines_clean(encode_utf8(body));
        assert forall|i: int| 0 <= i < ls.len() implies one_line(decode_utf8(#[trigger] ls[i])) by {
            lemma_decode_one_line(ls[i]);
        }
        lemma_split_indented(ls);
        let nl = seq!['\n'];
        let r3 = f + nl + e;
        let r2 = e + nl + r3;
        let r1 = ind + nl + r2;
        let d = "def __pyfunc_wrapper__("@;
        let g = "__pyfunc_result__ = __pyfunc_wrapper__("@;
        assert("):\n"@ =~= "):"@ + nl);
        assert(")\n"@ =~= ")"@ + nl);
        assert("\n\n__pyfunc_result__ = __pyfunc_wrapper__("@ =~= nl + nl + g);
        assert(wrapper_code(names, body) == d + params + "):\n"@ + ind
            + "\n\n__pyfunc_result__ = __pyfunc_wrapper__("@ + params + ")\n"@);
        let w = wrapper_code(names, body);
        assert(w == d + params + ("):"@ + nl) + ind + (nl + nl + g) + params + (")"@ + nl));
        let tail = nl + nl + g + params + (")"@ + nl);
        assert(tail =~= nl + nl + f + nl);
        assert(w =~= h + nl + ind + tail);
        assert(r3 =~= f + nl);
        assert(r2 =~= nl + f + nl);
        assert(r1 =~= ind + nl + (nl + f + nl));
        assert(tail =~= nl + (nl + f + nl));
        assert(w =~= h + nl + r1);
        lemma_split_join(h, r1);
        lemma_split_join(ind, r2);
        lemma_split_join(e, r3);
        lemma_split_join(f, e);
        lemma_split_one(h);
        lemma_split_one(f);
        lemma_split_one(e);
        assert(split_nl(wrapper_code(names, body)) =~= seq![h] + each_indented(ls) + seq![e, f, e]);
    }
}

proof fn lemma_encode_valid_body(body: Seq<char>)
    ensures
        valid_utf8(encode_utf8(body)),
{
    encode_utf8_valid_utf8(body);
}

} // verus!
