//! The scalar JSON values of the configuration grammar: how a raw
//! value text reads as a scalar, a parser for that reading, and a
//! renderer for the canonical text.

use vstd::prelude::*;

use crate::errors::Error;
use crate::text::{
    dec_of, digit_char, esc_char, escape_of, has_at, lemma_scan_str_bounds,
    lemma_uint_spec_none, lemma_uint_spec_some, quoted, scan_str_spec, scan_string, scan_u64,
    scan_uint_spec, skip_ws, ws_end,
};

verus! {

/// A JSON-typed scalar: the forms a configuration field may hold and a
/// raw `set` argument may take.
#[derive(Debug)]
pub enum JsonValue {
    Null,
    Bool(bool),
    UInt(u64),
    Str(String),
}

/// A scalar as specifications read it, with string contents as
/// character sequences.
pub enum JsonModel {
    MNull,
    MBool(bool),
    MUInt(u64),
    MStr(Seq<char>),
}

/// The spec-level reading of a parsed value.
pub open spec fn model_of(v: JsonValue) -> JsonModel {
    match v {
        JsonValue::Null => JsonModel::MNull,
        JsonValue::Bool(b) => JsonModel::MBool(b),
        JsonValue::UInt(m) => JsonModel::MUInt(m),
        JsonValue::Str(s) => JsonModel::MStr(s@),
    }
}

/// Does `lit` stand in `s` exactly at position `i`?
pub open spec fn lit_at(s: Seq<char>, i: int, lit: Seq<char>) -> bool {
    0 <= i && i + lit.len() <= s.len() && s.subrange(i, i + lit.len() as int) == lit
}

/// Reading one scalar at position `i`: the denoted value and the
/// position after it — the null or boolean literals, an unsigned
/// decimal integer without a leading zero, or a quoted string with
/// JSON's escapes.
pub open spec fn scan_value_spec(s: Seq<char>, i: int) -> Option<(JsonModel, int)> {
    if lit_at(s, i, "null"@) {
        Some((JsonModel::MNull, i + "null"@.len()))
    } else if lit_at(s, i, "true"@) {
        Some((JsonModel::MBool(true), i + "true"@.len()))
    } else if lit_at(s, i, "false"@) {
        Some((JsonModel::MBool(false), i + "false"@.len()))
    } else if 0 <= i < s.len() && s[i] == '"' {
        match scan_str_spec(s, i + 1) {
            None => None,
            Some(p) => Some((JsonModel::MStr(p.0), p.1)),
        }
    } else {
        match scan_uint_spec(s, i) {
            None => None,
            Some(p) => Some((JsonModel::MUInt(p.0), p.1)),
        }
    }
}

/// Reading a whole raw value: one scalar, surrounded by JSON
/// whitespace and nothing else.
pub open spec fn parse_scalar(s: Seq<char>) -> Option<JsonModel> {
    match scan_value_spec(s, ws_end(s, 0)) {
        None => None,
        Some(p) => if ws_end(s, p.1) == s.len() {
            Some(p.0)
        } else {
            None
        },
    }
}

/// The canonical text of a value: what the renderer writes.
pub open spec fn value_text(v: JsonValue) -> Seq<char> {
    match v {
        JsonValue::Null => "null"@,
        JsonValue::Bool(b) => if b {
            "true"@
        } else {
            "false"@
        },
        JsonValue::UInt(m) => dec_of(m as nat),
        JsonValue::Str(s) => quoted(escape_of(s@)),
    }
}

/// Parse a raw value text as one scalar.
///
/// Returns the scalar the text denotes, and a syntax error exactly
/// when it denotes none.
pub fn parse_value(s: &str) -> (r: Result<JsonValue, Error>)
    ensures
        match r {
            Ok(v) => parse_scalar(s@) == Some(model_of(v)),
            Err(e) => e == Error::JsonSyntax && (parse_scalar(s@) is None),
        },
{
    let n = s.unicode_len();
    let i = skip_ws(s, n, 0);
    let lit_null = "null";
    let l_null = lit_null.unicode_len();
    let lit_true = "true";
    let l_true = lit_true.unicode_len();
    let lit_false = "false";
    let l_false = lit_false.unicode_len();
    if has_at(s, n, i, lit_null, l_null) {
        let j = skip_ws(s, n, i + l_null);
        if j == n {
            return Ok(JsonValue::Null);
        }
        return Err(Error::JsonSyntax);
    }
    if has_at(s, n, i, lit_true, l_true) {
        let j = skip_ws(s, n, i + l_true);
        if j == n {
            return Ok(JsonValue::Bool(true));
        }
        return Err(Error::JsonSyntax);
    }
    if has_at(s, n, i, lit_false, l_false) {
        let j = skip_ws(s, n, i + l_false);
        if j == n {
            return Ok(JsonValue::Bool(false));
        }
        return Err(Error::JsonSyntax);
    }
    if i < n && s.get_char(i) == '"' {
        match scan_string(s, n, i + 1) {
            Some((name, j)) => {
                proof {
                    lemma_scan_str_bounds(s@, i + 1);
                }
                let k = skip_ws(s, n, j);
                if k == n {
                    return Ok(JsonValue::Str(name));
                }
                return Err(Error::JsonSyntax);
            },
            None => {
                return Err(Error::JsonSyntax);
            },
        }
    }
    match scan_u64(s, n, i) {
        Some((v, j)) => {
            proof {
                lemma_uint_spec_some(s@, i as int, v, j as int);
            }
            let k = skip_ws(s, n, j);
            if k == n {
                return Ok(JsonValue::UInt(v));
            }
            Err(Error::JsonSyntax)
        },
        None => {
            proof {
                lemma_uint_spec_none(s@, i as int);
            }
            Err(Error::JsonSyntax)
        },
    }
}

/// The digit character of a value below ten, as a string slice.
fn digit_str(d: u64) -> (r: &'static str)
    requires
        d < 10,
    ensures
        r@ == seq![digit_char(d as int)],
{
    if d == 0 {
        proof {
            reveal_strlit("0");
            assert("0"@ =~= seq!['0']);
        }
        "0"
    } else if d == 1 {
        proof {
            reveal_strlit("1");
            assert("1"@ =~= seq!['1']);
        }
        "1"
    } else if d == 2 {
        proof {
            reveal_strlit("2");
            assert("2"@ =~= seq!['2']);
        }
        "2"
    } else if d == 3 {
        proof {
            reveal_strlit("3");
            assert("3"@ =~= seq!['3']);
        }
        "3"
    } else if d == 4 {
        proof {
            reveal_strlit("4");
            assert("4"@ =~= seq!['4']);
        }
        "4"
    } else if d == 5 {
        proof {
            reveal_strlit("5");
            assert("5"@ =~= seq!['5']);
        }
        "5"
    } else if d == 6 {
        proof {
            reveal_strlit("6");
            assert("6"@ =~= seq!['6']);
        }
        "6"
    } else if d == 7 {
        proof {
            reveal_strlit("7");
            assert("7"@ =~= seq!['7']);
        }
        "7"
    } else if d == 8 {
        proof {
            reveal_strlit("8");
            assert("8"@ =~= seq!['8']);
        }
        "8"
    } else {
        proof {
            reveal_strlit("9");
            assert("9"@ =~= seq!['9']);
        }
        "9"
    }
}

/// Append the canonical decimal numeral of `m` to `out`.
pub fn append_dec(out: &mut String, m: u64)
    ensures
        final(out)@ == old(out)@ + dec_of(m as nat),
    decreases m,
{
    if m < 10 {
        out.append(digit_str(m));
        proof {
            assert(dec_of(m as nat) == seq![digit_char(m as int)]);
        }
    } else {
        append_dec(out, m / 10);
        proof {
            assert(0 <= m % 10 < 10) by (nonlinear_arith);
        }
        out.append(digit_str(m % 10));
        proof {
            assert(dec_of(m as nat) == dec_of((m as nat) / 10).push(digit_char(((m as nat) % 10) as int)));
            assert(old(out)@ + dec_of((m as nat) / 10) + seq![digit_char((m % 10) as int)] =~= old(
                out,
            )@ + dec_of(m as nat));
        }
    }
}

/// The lower-case hexadecimal digit character of a value below
/// sixteen, as a string slice.
fn hex_str(d: u64) -> (r: &'static str)
    requires
        d < 16,
    ensures
        r@ == seq![crate::text::hex_char(d as int)],
{
    if d < 10 {
        digit_str(d)
    } else if d == 10 {
        proof {
            reveal_strlit("a");
            assert("a"@ =~= seq!['a']);
        }
        "a"
    } else if d == 11 {
        proof {
            reveal_strlit("b");
            assert("b"@ =~= seq!['b']);
        }
        "b"
    } else if d == 12 {
        proof {
            reveal_strlit("c");
            assert("c"@ =~= seq!['c']);
        }
        "c"
    } else if d == 13 {
        proof {
            reveal_strlit("d");
            assert("d"@ =~= seq!['d']);
        }
        "d"
    } else if d == 14 {
        proof {
            reveal_strlit("e");
            assert("e"@ =~= seq!['e']);
        }
        "e"
    } else {
        proof {
            reveal_strlit("f");
            assert("f"@ =~= seq!['f']);
        }
        "f"
    }
}

/// Append the escaped form of `x` to `out`: named escapes for the
/// quote, the backslash and five controls, hex escapes for the other
/// controls, every other character as itself.
pub fn append_escaped(out: &mut String, x: &str)
    ensures
        final(out)@ == old(out)@ + escape_of(x@),
{
    let n = x.unicode_len();
    let mut i: usize = 0;
    let mut run_start: usize = 0;
    proof {
        assert(escape_of(x@.take(0)) =~= Seq::<char>::empty());
        assert(out@ + x@.subrange(0, 0) =~= out@);
    }
    while i < n
        invariant
            n == x@.len(),
            run_start <= i <= n,
            forall|m: int| run_start <= m < i ==> esc_char(#[trigger] x@[m]) == seq![x@[m]],
            out@ + x@.subrange(run_start as int, i as int) == old(out)@ + escape_of(
                x@.take(i as int),
            ),
        decreases n - i,
    {
        let c = x.get_char(i);
        let u = c as u32;
        let escaped = c == '"' || c == '\\' || u < 32;
        proof {
            assert(x@.take(i + 1).drop_last() =~= x@.take(i as int));
            assert(x@.take(i + 1).last() == x@[i as int]);
        }
        if escaped {
            let ghost entry = out@;
            let piece = x.substring_char(run_start, i);
            out.append(piece);
            if c == '"' || c == '\\' || c == '\n' || c == '\r' || c == '\t'
                || c == '\u{0008}' || c == '\u{000C}' {
                let esc: &'static str = if c == '"' {
                    "\\\""
                } else if c == '\\' {
                    "\\\\"
                } else if c == '\n' {
                    "\\n"
                } else if c == '\r' {
                    "\\r"
                } else if c == '\t' {
                    "\\t"
                } else if c == '\u{0008}' {
                    "\\b"
                } else {
                    "\\f"
                };
                proof {
                    reveal_strlit("\\\"");
                    reveal_strlit("\\\\");
                    reveal_strlit("\\n");
                    reveal_strlit("\\r");
                    reveal_strlit("\\t");
                    reveal_strlit("\\b");
                    reveal_strlit("\\f");
                    if c == '"' {
                        assert(esc@ =~= seq!['\\', '"']);
                    } else if c == '\\' {
                        assert(esc@ =~= seq!['\\', '\\']);
                    } else if c == '\n' {
                        assert(esc@ =~= seq!['\\', 'n']);
                    } else if c == '\r' {
                        assert(esc@ =~= seq!['\\', 'r']);
                    } else if c == '\t' {
                        assert(esc@ =~= seq!['\\', 't']);
                    } else if c == '\u{0008}' {
                        assert(esc@ =~= seq!['\\', 'b']);
                    } else {
                        assert(esc@ =~= seq!['\\', 'f']);
                    }
                    assert(esc@ == esc_char(x@[i as int]));
                }
                out.append(esc);
            } else {
                proof {
                    assert(0 <= u / 16 < 16 && 0 <= u % 16 < 16 && u == (u / 16) * 16 + u
                        % 16) by (nonlinear_arith)
                        requires 0 <= u < 32;
                }
                out.append("\\u00");
                out.append(hex_str((u / 16) as u64));
                out.append(hex_str((u % 16) as u64));
                proof {
                    reveal_strlit("\\u00");
                    assert("\\u00"@ =~= seq!['\\', 'u', '0', '0']);
                    assert(esc_char(x@[i as int]) =~= seq!['\\', 'u', '0', '0'] + seq![
                        crate::text::hex_char((u / 16) as int),
                    ] + seq![crate::text::hex_char((u % 16) as int)]);
                }
            }
            proof {
                assert(out@ =~= entry + x@.subrange(run_start as int, i as int) + esc_char(
                    x@[i as int],
                ));
                assert(out@ + x@.subrange(i + 1, i + 1) =~= out@);
                assert(old(out)@ + escape_of(x@.take(i as int)) + esc_char(x@[i as int]) =~= old(
                    out,
                )@ + escape_of(x@.take(i + 1)));
            }
            run_start = i + 1;
            i += 1;
        } else {
            proof {
                assert(esc_char(x@[i as int]) == seq![x@[i as int]]);
                assert(out@ + x@.subrange(run_start as int, i + 1) =~= out@ + x@.subrange(
                    run_start as int,
                    i as int,
                ) + seq![x@[i as int]]);
                assert(old(out)@ + escape_of(x@.take(i as int)) + seq![x@[i as int]] =~= old(
                    out,
                )@ + escape_of(x@.take(i + 1)));
            }
            i += 1;
        }
    }
    let piece = x.substring_char(run_start, n);
    out.append(piece);
    proof {
        assert(x@.take(n as int) =~= x@);
    }
}

/// Render one scalar value as its canonical text.
pub fn render_value(v: &JsonValue) -> (r: String)
    ensures
        r@ == value_text(*v),
{
    match v {
        JsonValue::Null => "null".to_owned(),
        JsonValue::Bool(b) => {
            if *b {
                "true".to_owned()
            } else {
                "false".to_owned()
            }
        },
        JsonValue::UInt(m) => {
            let mut out = String::new();
            append_dec(&mut out, *m);
            out
        },
        JsonValue::Str(x) => {
            let mut out = "\"".to_owned();
            append_escaped(&mut out, x.as_str());
            out.append("\"");
            proof {
                reveal_strlit("\"");
                assert("\""@ =~= seq!['"']);
                assert(out@ =~= quoted(escape_of(x@)));
            }
            out
        },
    }
}

} // verus!
