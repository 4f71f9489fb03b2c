//! Character-level building blocks shared by the configuration codec:
//! decimal numerals, name characters, and scanners over `&str`.

use vstd::prelude::*;

verus! {

/// Is `c` one of the ten decimal digit characters?
pub open spec fn is_digit(c: char) -> bool {
    48 <= (c as u32) <= 57
}

/// Numeric value of a digit character.
pub open spec fn digit_val(c: char) -> int {
    (c as u32) - 48
}

/// The digit character for a value below ten.
pub open spec fn digit_char(d: int) -> char {
    if d == 0 {
        '0'
    } else if d == 1 {
        '1'
    } else if d == 2 {
        '2'
    } else if d == 3 {
        '3'
    } else if d == 4 {
        '4'
    } else if d == 5 {
        '5'
    } else if d == 6 {
        '6'
    } else if d == 7 {
        '7'
    } else if d == 8 {
        '8'
    } else {
        '9'
    }
}

/// The canonical decimal numeral of `n`: no sign, no leading zero.
pub open spec fn dec_of(n: nat) -> Seq<char>
    decreases n,
{
    if n < 10 {
        seq![digit_char(n as int)]
    } else {
        dec_of(n / 10).push(digit_char((n % 10) as int))
    }
}

/// The value of a digit sequence read as a decimal numeral.
pub open spec fn dec_val(s: Seq<char>) -> int
    decreases s.len(),
{
    if s.len() == 0 {
        0
    } else {
        dec_val(s.drop_last()) * 10 + digit_val(s.last())
    }
}

/// Every character of `s` is a decimal digit.
pub open spec fn all_digits(s: Seq<char>) -> bool {
    forall|i: int| 0 <= i < s.len() ==> is_digit(#[trigger] s[i])
}

pub proof fn lemma_digit_char_val(c: char)
    requires
        is_digit(c),
    ensures
        digit_char(digit_val(c)) == c,
        0 <= digit_val(c) < 10,
{
    assert(digit_char(digit_val(c)) == c) by {
        if c as u32 == 48 {
            assert(c == '0');
        } else if c as u32 == 49 {
            assert(c == '1');
        } else if c as u32 == 50 {
            assert(c == '2');
        } else if c as u32 == 51 {
            assert(c == '3');
        } else if c as u32 == 52 {
            assert(c == '4');
        } else if c as u32 == 53 {
            assert(c == '5');
        } else if c as u32 == 54 {
            assert(c == '6');
        } else if c as u32 == 55 {
            assert(c == '7');
        } else if c as u32 == 56 {
            assert(c == '8');
        } else {
            assert(c == '9');
        }
    }
}

pub proof fn lemma_dec_of_shape(n: nat)
    ensures
        dec_of(n).len() >= 1,
        all_digits(dec_of(n)),
        dec_of(n)[0] == '0' <==> n == 0,
    decreases n,
{
    if n < 10 {
        assert(dec_of(n) == seq![digit_char(n as int)]);
    } else {
        lemma_dec_of_shape(n / 10);
        assert(n / 10 >= 1) by (nonlinear_arith)
            requires n >= 10;
        assert(0 <= n % 10 < 10) by (nonlinear_arith);
        let s = dec_of(n);
        assert(s == dec_of(n / 10).push(digit_char((n % 10) as int)));
        assert forall|i: int| 0 <= i < s.len() implies is_digit(#[trigger] s[i]) by {
            if i < s.len() - 1 {
                assert(s[i] == dec_of(n / 10)[i]);
            }
        }
        assert(s[0] == dec_of(n / 10)[0]);
    }
}

pub proof fn lemma_dec_val_of(n: nat)
    ensures
        dec_val(dec_of(n)) == n,
    decreases n,
{
    if n < 10 {
        let s = dec_of(n);
        assert(s == seq![digit_char(n as int)]);
        assert(s.last() == digit_char(n as int));
        assert(s.drop_last().len() == 0);
        assert(dec_val(s.drop_last()) == 0);
        assert(digit_val(digit_char(n as int)) == n);
    } else {
        lemma_dec_val_of(n / 10);
        let s = dec_of(n);
        assert(s == dec_of(n / 10).push(digit_char((n % 10) as int)));
        assert(s.drop_last() == dec_of(n / 10));
        assert(0 <= n % 10 < 10) by (nonlinear_arith);
        assert(digit_val(s.last()) == n % 10);
        assert(dec_val(s) == (n / 10) * 10 + n % 10);
        assert(n == (n / 10) * 10 + n % 10) by (nonlinear_arith);
    }
}

/// The value of a digit run is never negative.
pub proof fn lemma_dec_val_nonneg(s: Seq<char>)
    requires
        all_digits(s),
    ensures
        dec_val(s) >= 0,
    decreases s.len(),
{
    if s.len() > 0 {
        let t = s.drop_last();
        assert(all_digits(t)) by {
            assert forall|i: int| 0 <= i < t.len() implies is_digit(#[trigger] t[i]) by {
                assert(t[i] == s[i]);
            }
        }
        lemma_dec_val_nonneg(t);
        lemma_digit_char_val(s.last());
        assert(dec_val(t) * 10 >= 0) by (nonlinear_arith)
            requires dec_val(t) >= 0;
    }
}

/// Extending a digit run to the right never lowers its value.
pub proof fn lemma_dec_val_extend(s: Seq<char>, i: int, j: int, k: int)
    requires
        0 <= i <= j <= k <= s.len(),
        all_digits(s.subrange(i, k)),
    ensures
        dec_val(s.subrange(i, k)) >= dec_val(s.subrange(i, j)),
    decreases k - j,
{
    if j < k {
        let a = s.subrange(i, k - 1);
        let b = s.subrange(i, k);
        assert(a == b.drop_last());
        assert(all_digits(a)) by {
            assert forall|m: int| 0 <= m < a.len() implies is_digit(#[trigger] a[m]) by {
                assert(a[m] == b[m]);
            }
        }
        lemma_dec_val_extend(s, i, j, k - 1);
        lemma_dec_val_nonneg(a);
        lemma_digit_char_val(b.last());
        assert(dec_val(b) == dec_val(a) * 10 + digit_val(b.last()));
        assert(dec_val(a) * 10 >= dec_val(a)) by (nonlinear_arith)
            requires dec_val(a) >= 0;
    }
}

/// Is `c` a hexadecimal digit character?
pub open spec fn is_hex(c: char) -> bool {
    is_digit(c) || 97 <= (c as u32) <= 102 || 65 <= (c as u32) <= 70
}

/// Numeric value of a hexadecimal digit character.
pub open spec fn hex_val(c: char) -> int {
    if is_digit(c) {
        digit_val(c)
    } else if (c as u32) >= 97 {
        (c as u32) - 87
    } else {
        (c as u32) - 55
    }
}

/// The lower-case hexadecimal digit character for a value below
/// sixteen.
pub open spec fn hex_char(d: int) -> char {
    if d < 10 {
        digit_char(d)
    } else if d == 10 {
        'a'
    } else if d == 11 {
        'b'
    } else if d == 12 {
        'c'
    } else if d == 13 {
        'd'
    } else if d == 14 {
        'e'
    } else {
        'f'
    }
}

pub proof fn lemma_hex_char_val(d: int)
    requires
        0 <= d < 16,
    ensures
        is_hex(hex_char(d)),
        hex_val(hex_char(d)) == d,
{
}

/// Four hexadecimal digits stand at `i`.
pub open spec fn hex4_at(s: Seq<char>, i: int) -> bool {
    i + 4 <= s.len() && is_hex(s[i]) && is_hex(s[i + 1]) && is_hex(s[i + 2]) && is_hex(s[i + 3])
}

/// The value of the four hexadecimal digits at `i`.
pub open spec fn hex4_val(s: Seq<char>, i: int) -> int {
    hex_val(s[i]) * 4096 + hex_val(s[i + 1]) * 256 + hex_val(s[i + 2]) * 16 + hex_val(s[i + 3])
}

/// The character with Unicode code point `u`.
pub open spec fn char_of(u: int) -> char {
    choose|c: char| (#[trigger] (c as u32)) == u
}

/// A character is the character of its own code point.
pub proof fn lemma_char_of_code(c: char)
    ensures
        char_of((c as u32) as int) == c,
{
    assert((c as u32) == (c as u32));
    let w = choose|d: char| (#[trigger] (d as u32)) == (c as u32) as int;
    assert(w as u32 == c as u32);
}

/// A character that may stand unescaped inside a quoted JSON string:
/// no quote, no backslash, no control character.
pub open spec fn plain_str_char(c: char) -> bool {
    (c as u32) >= 32 && c != '"' && c != '\\'
}

/// The quoted form of a string body.
pub open spec fn quoted(s: Seq<char>) -> Seq<char> {
    seq!['"'] + s + seq!['"']
}

/// The escape sequence the renderer writes for one name character: a
/// two-character named escape for the quote, the backslash and the
/// escapable controls, the character itself otherwise.
pub open spec fn esc_char(c: char) -> Seq<char> {
    if c == '"' {
        seq!['\\', '"']
    } else if c == '\\' {
        seq!['\\', '\\']
    } else if c == '\n' {
        seq!['\\', 'n']
    } else if c == '\r' {
        seq!['\\', 'r']
    } else if c == '\t' {
        seq!['\\', 't']
    } else if c == '\u{0008}' {
        seq!['\\', 'b']
    } else if c == '\u{000C}' {
        seq!['\\', 'f']
    } else if (c as u32) < 32 {
        seq![
            '\\',
            'u',
            '0',
            '0',
            hex_char(((c as u32) / 16) as int),
            hex_char(((c as u32) % 16) as int),
        ]
    } else {
        seq![c]
    }
}

/// The escaped text of a whole name.
pub open spec fn escape_of(s: Seq<char>) -> Seq<char>
    decreases s.len(),
{
    if s.len() == 0 {
        Seq::empty()
    } else {
        escape_of(s.drop_last()) + esc_char(s.last())
    }
}

/// `escape_of` also unfolds at the front.
pub proof fn lemma_escape_front(s: Seq<char>)
    requires
        s.len() >= 1,
    ensures
        escape_of(s) == esc_char(s[0]) + escape_of(s.drop_first()),
    decreases s.len(),
{
    if s.len() == 1 {
        assert(s.drop_last().len() == 0);
        assert(s.drop_first().len() == 0);
        assert(s.last() == s[0]);
        assert(escape_of(s.drop_last()) =~= Seq::<char>::empty());
        assert(escape_of(s.drop_first()) =~= Seq::<char>::empty());
        assert(escape_of(s) =~= esc_char(s[0]) + escape_of(s.drop_first()));
    } else {
        let h = s.drop_last();
        lemma_escape_front(h);
        assert(h[0] == s[0]);
        assert(s.drop_first().drop_last() =~= h.drop_first());
        assert(s.drop_first().last() == s.last());
        assert(escape_of(s.drop_first()) == escape_of(h.drop_first()) + esc_char(s.last()));
        assert(escape_of(s) == escape_of(h) + esc_char(s.last()));
        assert(esc_char(s[0]) + (escape_of(h.drop_first()) + esc_char(s.last())) =~= (esc_char(
            s[0],
        ) + escape_of(h.drop_first())) + esc_char(s.last()));
    }
}

/// The character an escape introducer letter denotes, when it denotes
/// one.
pub open spec fn unescape_char(c: char) -> Option<char> {
    if c == '"' {
        Some('"')
    } else if c == '\\' {
        Some('\\')
    } else if c == '/' {
        Some('/')
    } else if c == 'n' {
        Some('\n')
    } else if c == 'r' {
        Some('\r')
    } else if c == 't' {
        Some('\t')
    } else if c == 'b' {
        Some('\u{0008}')
    } else if c == 'f' {
        Some('\u{000C}')
    } else {
        None
    }
}

/// Reading a quoted JSON string body from position `i`: the denoted
/// characters and the position after the closing quote, when the body
/// is well formed — plain characters, two-character escapes, and
/// four-digit hex escapes with surrogate pairs, up to an unescaped
/// closing quote.
pub open spec fn scan_str_spec(s: Seq<char>, i: int) -> Option<(Seq<char>, int)>
    decreases s.len() - i when 0 <= i <= s.len()
{
    if i >= s.len() {
        None
    } else if s[i] == '"' {
        Some((Seq::empty(), i + 1))
    } else if s[i] == '\\' {
        if i + 1 >= s.len() {
            None
        } else if s[i + 1] == 'u' {
            if hex4_at(s, i + 2) {
                let h = hex4_val(s, i + 2);
                if h < 0xD800 || h >= 0xE000 {
                    match scan_str_spec(s, i + 6) {
                        None => None,
                        Some(p) => Some((seq![char_of(h)] + p.0, p.1)),
                    }
                } else if h < 0xDC00 {
                    if i + 8 <= s.len() && s[i + 6] == '\\' && s[i + 7] == 'u' && hex4_at(
                        s,
                        i + 8,
                    ) {
                        let l = hex4_val(s, i + 8);
                        if 0xDC00 <= l < 0xE000 {
                            match scan_str_spec(s, i + 12) {
                                None => None,
                                Some(p) => Some(
                                    (
                                        seq![
                                            char_of(0x10000 + (h - 0xD800) * 1024 + (l
                                                - 0xDC00)),
                                        ] + p.0,
                                        p.1,
                                    ),
                                ),
                            }
                        } else {
                            None
                        }
                    } else {
                        None
                    }
                } else {
                    None
                }
            } else {
                None
            }
        } else {
            match unescape_char(s[i + 1]) {
                None => None,
                Some(c) => match scan_str_spec(s, i + 2) {
                    None => None,
                    Some(p) => Some((seq![c] + p.0, p.1)),
                },
            }
        }
    } else if plain_str_char(s[i]) {
        match scan_str_spec(s, i + 1) {
            None => None,
            Some(p) => Some((seq![s[i]] + p.0, p.1)),
        }
    } else {
        None
    }
}

pub proof fn lemma_scan_str_bounds(s: Seq<char>, i: int)
    requires
        0 <= i <= s.len(),
    ensures
        scan_str_spec(s, i) matches Some(p) ==> i < p.1 <= s.len(),
    decreases s.len() - i,
{
    if i < s.len() {
        if s[i] == '\\' {
            if i + 1 < s.len() {
                if s[i + 1] == 'u' {
                    if hex4_at(s, i + 2) {
                        lemma_scan_str_bounds(s, i + 6);
                        if i + 8 <= s.len() && hex4_at(s, i + 8) {
                            lemma_scan_str_bounds(s, i + 12);
                        }
                    }
                } else {
                    lemma_scan_str_bounds(s, i + 2);
                }
            }
        } else if s[i] != '"' && plain_str_char(s[i]) {
            lemma_scan_str_bounds(s, i + 1);
        }
    }
}

/// The escaped text of a name, followed by a closing quote, reads
/// back as exactly that name.
#[verifier::rlimit(60)]
pub proof fn lemma_scan_escaped(s: Seq<char>, i: int, x: Seq<char>)
    requires
        0 <= i,
        i + escape_of(x).len() < s.len(),
        s.subrange(i, i + escape_of(x).len() as int) == escape_of(x),
        s[i + escape_of(x).len()] == '"',
    ensures
        scan_str_spec(s, i) == Some((x, i + escape_of(x).len() + 1)),
    decreases x.len(),
{
    if x.len() == 0 {
        assert(escape_of(x).len() == 0);
        assert(s[i] == '"');
    } else {
        lemma_escape_front(x);
        let e0 = esc_char(x[0]);
        let rest = x.drop_first();
        let er = escape_of(rest);
        assert(escape_of(x) == e0 + er);
        let j = i + e0.len();
        assert(s.subrange(j, j + er.len() as int) =~= er) by {
            assert forall|k: int| 0 <= k < er.len() implies s.subrange(
                j,
                j + er.len() as int,
            )[k] == er[k] by {
                assert(s.subrange(i, i + escape_of(x).len() as int)[e0.len() + k] == escape_of(
                    x,
                )[e0.len() + k]);
            }
        }
        lemma_scan_escaped(s, j, rest);
        assert forall|k: int| 0 <= k < e0.len() implies #[trigger] s[i + k] == e0[k] by {
            assert(s.subrange(i, i + escape_of(x).len() as int)[k] == escape_of(x)[k]);
            assert(escape_of(x)[k] == e0[k]);
        }
        assert(s[i] == e0[0]) by {
            assert(s[i + 0] == e0[0]);
        }
        if e0.len() == 2 {
            assert(s[i] == '\\');
            assert(s[i + 1] != 'u');
            assert(unescape_char(s[i + 1]) == Some(x[0]));
            assert(scan_str_spec(s, i) == Some((seq![x[0]] + rest, j + er.len() + 1)));
            assert(seq![x[0]] + rest =~= x);
        } else if e0.len() == 6 {
            let u = (x[0] as u32) as int;
            assert(u < 32);
            assert(0 <= u / 16 < 16 && 0 <= u % 16 < 16 && u == (u / 16) * 16 + u % 16)
                by (nonlinear_arith)
                requires 0 <= u < 32;
            lemma_hex_char_val(u / 16);
            lemma_hex_char_val(u % 16);
            assert(s[i] == '\\' && s[i + 1] == 'u');
            assert(s[i + 2] == '0' && s[i + 3] == '0');
            assert(s[i + 4] == hex_char(u / 16) && s[i + 5] == hex_char(u % 16));
            assert(is_hex('0') && hex_val('0') == 0);
            assert(hex4_at(s, i + 2));
            assert(hex4_val(s, i + 2) == u);
            lemma_char_of_code(x[0]);
            assert(char_of(u) == x[0]);
            assert(scan_str_spec(s, i) == Some((seq![x[0]] + rest, j + er.len() + 1)));
            assert(seq![x[0]] + rest =~= x);
        } else {
            assert(e0 == seq![x[0]]);
            assert(s[i] == x[0]);
            assert(plain_str_char(x[0]));
            assert(s[i] != '"' && s[i] != '\\');
            assert(scan_str_spec(s, i) == Some((seq![x[0]] + rest, j + er.len() + 1)));
            assert(seq![x[0]] + rest =~= x);
        }
    }
}

/// Is `c` one of the four JSON whitespace characters?
pub open spec fn is_ws(c: char) -> bool {
    c == ' ' || c == '\n' || c == '\t' || c == '\r'
}

/// The first position at or after `i` holding a non-whitespace
/// character, or the end of `s`.
pub open spec fn ws_end(s: Seq<char>, i: int) -> int
    decreases s.len() - i when 0 <= i <= s.len()
{
    if i < s.len() && is_ws(s[i]) {
        ws_end(s, i + 1)
    } else {
        i
    }
}

pub proof fn lemma_ws_end(s: Seq<char>, i: int)
    requires
        0 <= i <= s.len(),
    ensures
        i <= ws_end(s, i) <= s.len(),
        ws_end(s, i) < s.len() ==> !is_ws(s[ws_end(s, i)]),
    decreases s.len() - i,
{
    if i < s.len() && is_ws(s[i]) {
        lemma_ws_end(s, i + 1);
    }
}

pub proof fn lemma_ws_end_is(s: Seq<char>, i: int, k: int)
    requires
        0 <= i <= k <= s.len(),
        forall|m: int| i <= m < k ==> is_ws(#[trigger] s[m]),
        k < s.len() ==> !is_ws(s[k]),
    ensures
        ws_end(s, i) == k,
    decreases k - i,
{
    if i < k {
        lemma_ws_end_is(s, i + 1, k);
    }
}

/// Skip JSON whitespace from character position `i`.
pub fn skip_ws(s: &str, n: usize, i: usize) -> (j: usize)
    requires
        n == s@.len(),
        i <= n,
    ensures
        i <= j <= n,
        j == ws_end(s@, i as int),
{
    let mut j: usize = i;
    loop
        invariant
            n == s@.len(),
            i <= j <= n,
            forall|m: int| i <= m < j ==> is_ws(#[trigger] s@[m]),
        decreases n - j,
    {
        if j == n {
            proof {
                lemma_ws_end_is(s@, i as int, j as int);
            }
            return j;
        }
        let c = s.get_char(j);
        if !(c == ' ' || c == '\n' || c == '\t' || c == '\r') {
            proof {
                lemma_ws_end_is(s@, i as int, j as int);
            }
            return j;
        }
        j += 1;
    }
}

/// The value of the maximal digit run at `i`, when there is one, it
/// has no leading zero, and it fits in a `u64`; with the position
/// after the run.
pub open spec fn scan_uint_spec(s: Seq<char>, i: int) -> Option<(u64, int)> {
    let e = run_end(s, i);
    if e == i {
        None
    } else if s[i] == '0' && e > i + 1 {
        None
    } else if dec_val(s.subrange(i, e)) > u64::MAX {
        None
    } else {
        Some((dec_val(s.subrange(i, e)) as u64, e))
    }
}

/// End of the digit run that starts at `i`: the first position at or
/// after `i` holding a non-digit, or the end of `s`.
pub open spec fn run_end(s: Seq<char>, i: int) -> int
    decreases s.len() - i when 0 <= i <= s.len()
{
    if i < s.len() && is_digit(s[i]) {
        run_end(s, i + 1)
    } else {
        i
    }
}

pub proof fn lemma_run_end(s: Seq<char>, i: int)
    requires
        0 <= i <= s.len(),
    ensures
        i <= run_end(s, i) <= s.len(),
        forall|m: int| i <= m < run_end(s, i) ==> is_digit(#[trigger] s[m]),
        run_end(s, i) < s.len() ==> !is_digit(s[run_end(s, i)]),
    decreases s.len() - i,
{
    if i < s.len() && is_digit(s[i]) {
        lemma_run_end(s, i + 1);
    }
}

pub proof fn lemma_run_end_is(s: Seq<char>, i: int, k: int)
    requires
        0 <= i <= k <= s.len(),
        forall|m: int| i <= m < k ==> is_digit(#[trigger] s[m]),
        k < s.len() ==> !is_digit(s[k]),
    ensures
        run_end(s, i) == k,
    decreases k - i,
{
    if i < k {
        lemma_run_end_is(s, i + 1, k);
    }
}

/// Does `pat` occur in `s` exactly at character position `i`?
pub fn has_at(s: &str, n: usize, i: usize, pat: &str, m: usize) -> (r: bool)
    requires
        n == s@.len(),
        m == pat@.len(),
        i <= n,
    ensures
        r <==> (i + m <= n && s@.subrange(i as int, i + m) == pat@),
{
    if m > n - i {
        return false;
    }
    let mut j: usize = 0;
    while j < m
        invariant
            n == s@.len(),
            m == pat@.len(),
            i + m <= n,
            j <= m,
            forall|k: int| 0 <= k < j ==> s@[i + k] == pat@[k],
        decreases m - j,
    {
        let a = s.get_char(i + j);
        let b = pat.get_char(j);
        if a != b {
            proof {
                assert(s@.subrange(i as int, i + m)[j as int] == s@[i + j]);
            }
            return false;
        }
        j += 1;
    }
    proof {
        assert(s@.subrange(i as int, i + m) =~= pat@);
    }
    true
}

/// Are `s` and `pat` the same text?
pub fn text_is(s: &str, pat: &str) -> (r: bool)
    ensures
        r <==> s@ == pat@,
{
    let n = s.unicode_len();
    let m = pat.unicode_len();
    if n != m {
        return false;
    }
    let r = has_at(s, n, 0, pat, m);
    proof {
        if r {
            assert(s@.subrange(0, m as int) =~= s@);
        } else {
            if s@ == pat@ {
                assert(s@.subrange(0, m as int) =~= pat@);
            }
        }
    }
    r
}

/// Scan the decimal numeral that starts at character position `i`.
///
/// Succeeds exactly on a maximal digit run without a leading zero whose
/// value fits in a `u64`, and reports the value and the end of the run.
pub fn scan_u64(s: &str, n: usize, i: usize) -> (r: Option<(u64, usize)>)
    requires
        n == s@.len(),
        i <= n,
    ensures
        match r {
            Some(p) => {
                &&& i < p.1 <= n
                &&& p.1 == run_end(s@, i as int)
                &&& p.0 == dec_val(s@.subrange(i as int, p.1 as int))
                &&& (s@[i as int] == '0' ==> p.1 == i + 1)
            },
            None => {
                ||| i == n
                ||| (i < n && !is_digit(s@[i as int]))
                ||| (i + 1 < n && s@[i as int] == '0' && is_digit(s@[i as int + 1]))
                ||| dec_val(s@.subrange(i as int, run_end(s@, i as int))) > u64::MAX
            },
        },
{
    if i == n {
        return None;
    }
    let c0 = s.get_char(i);
    let u0 = c0 as u32;
    if !(48 <= u0 && u0 <= 57) {
        return None;
    }
    if u0 == 48 && i + 1 < n {
        let c1 = s.get_char(i + 1);
        let u1 = c1 as u32;
        if 48 <= u1 && u1 <= 57 {
            proof {
                assert(c0 == '0');
            }
            return None;
        }
    }
    let mut j: usize = i;
    let mut acc: u64 = 0;
    loop
        invariant
            n == s@.len(),
            i < n,
            i <= j <= n,
            forall|m: int| i <= m < j ==> is_digit(#[trigger] s@[m]),
            acc == dec_val(s@.subrange(i as int, j as int)),
            is_digit(s@[i as int]),
            s@[i as int] == '0' ==> (i + 1 == n || !is_digit(s@[i as int + 1])),
        decreases n - j,
    {
        if j == n {
            proof {
                lemma_run_end_is(s@, i as int, j as int);
                if s@[i as int] == '0' && j > i + 1 {
                    assert(is_digit(s@[i + 1]));
                }
            }
            return Some((acc, j));
        }
        let c = s.get_char(j);
        let u = c as u32;
        if !(48 <= u && u <= 57) {
            proof {
                lemma_run_end_is(s@, i as int, j as int);
                if s@[i as int] == '0' && j > i + 1 {
                    assert(is_digit(s@[i + 1]));
                }
                if j == i {
                    assert(is_digit(s@[i as int]));
                }
            }
            return Some((acc, j));
        }
        let d: u64 = (u - 48) as u64;
        proof {
            assert(is_digit(s@[j as int]) && digit_val(s@[j as int]) == d);
            let a = s@.subrange(i as int, j as int);
            let b = s@.subrange(i as int, j + 1);
            assert(a == b.drop_last());
            assert(b.last() == s@[j as int]);
            assert(dec_val(b) == acc * 10 + d);
        }
        if acc > (u64::MAX - d) / 10 {
            proof {
                let re = run_end(s@, i as int);
                assert(acc * 10 + d > u64::MAX) by (nonlinear_arith)
                    requires acc > (u64::MAX - d) / 10, 0 <= d < 10, acc >= 0;
                lemma_run_end(s@, i as int);
                assert(re >= j + 1) by {
                    if re < j + 1 {
                        assert(is_digit(s@[re]));
                    }
                }
                assert(all_digits(s@.subrange(i as int, re))) by {
                    let w = s@.subrange(i as int, re);
                    assert forall|m: int| 0 <= m < w.len() implies is_digit(#[trigger] w[m]) by {
                        assert(w[m] == s@[i + m]);
                    }
                }
                lemma_dec_val_extend(s@, i as int, j + 1, re);
                assert(s@.subrange(i as int, j + 1) == s@.subrange(i as int, re).subrange(0, j + 1 - i));
                assert(dec_val(s@.subrange(i as int, re)) >= acc * 10 + d) by {
                    let w = s@.subrange(i as int, re);
                    assert(w.subrange(0, j + 1 - i) == s@.subrange(i as int, j + 1));
                    assert(w.subrange(0, w.len() as int) == w);
                    lemma_dec_val_extend(w, 0, j + 1 - i, w.len() as int);
                }
            }
            return None;
        }
        proof {
            assert(acc * 10 + d <= u64::MAX) by (nonlinear_arith)
                requires acc <= (u64::MAX - d) / 10, 0 <= d < 10, acc >= 0;
        }
        acc = acc * 10 + d;
        j += 1;
    }
}



/// The maximal-digit-run facts of `scan_u64`'s success restate as the
/// spec-level scan.
pub proof fn lemma_uint_spec_some(s: Seq<char>, i: int, v: u64, j: int)
    requires
        0 <= i < j <= s.len(),
        j == run_end(s, i),
        v == dec_val(s.subrange(i, j)),
        s[i] == '0' ==> j == i + 1,
    ensures
        scan_uint_spec(s, i) == Some((v, j)),
{
}

/// The failure cases of `scan_u64` restate as the spec-level scan.
pub proof fn lemma_uint_spec_none(s: Seq<char>, i: int)
    requires
        0 <= i <= s.len(),
        i == s.len() || (i < s.len() && !is_digit(s[i])) || (i + 1 < s.len() && s[i] == '0'
            && is_digit(s[i + 1])) || dec_val(s.subrange(i, run_end(s, i))) > u64::MAX,
    ensures
        (scan_uint_spec(s, i) is None),
{
    lemma_run_end(s, i);
    if i == s.len() {
        assert(run_end(s, i) == i);
    } else if !is_digit(s[i]) {
        assert(run_end(s, i) == i);
    } else if i + 1 < s.len() && s[i] == '0' && is_digit(s[i + 1]) {
        assert(run_end(s, i) == run_end(s, i + 1));
        assert(run_end(s, i + 1) == run_end(s, i + 2));
        lemma_run_end(s, i + 2);
    }
}

/// The numeric value of one hexadecimal digit character.
fn hex_digit(c: char) -> (r: Option<u32>)
    ensures
        match r {
            Some(v) => is_hex(c) && v == hex_val(c),
            None => !is_hex(c),
        },
{
    let u = c as u32;
    if 48 <= u && u <= 57 {
        Some(u - 48)
    } else if 97 <= u && u <= 102 {
        Some(u - 87)
    } else if 65 <= u && u <= 70 {
        Some(u - 55)
    } else {
        None
    }
}

/// Read the four hexadecimal digits at character position `i`.
fn read_hex4(s: &str, n: usize, i: usize) -> (r: Option<u32>)
    requires
        n == s@.len(),
        i + 4 <= n,
    ensures
        match r {
            Some(h) => hex4_at(s@, i as int) && h == hex4_val(s@, i as int) && h <= 0xFFFF,
            None => !hex4_at(s@, i as int),
        },
{
    let v0 = match hex_digit(s.get_char(i)) {
        Some(v) => v,
        None => {
            return None;
        },
    };
    let v1 = match hex_digit(s.get_char(i + 1)) {
        Some(v) => v,
        None => {
            return None;
        },
    };
    let v2 = match hex_digit(s.get_char(i + 2)) {
        Some(v) => v,
        None => {
            return None;
        },
    };
    let v3 = match hex_digit(s.get_char(i + 3)) {
        Some(v) => v,
        None => {
            return None;
        },
    };
    Some(v0 * 4096 + v1 * 256 + v2 * 16 + v3)
}

/// Relies on char::from_u32: a character for every Unicode scalar
/// value, and nothing for surrogate code units and values beyond the
/// last code point.
#[verifier::external_body]
fn char_from_u32(u: u32) -> (r: Option<char>)
    ensures
        (r is Some) <==> (u < 0xD800 || (0xE000 <= u && u <= 0x10FFFF)),
        (r matches Some(c) ==> c as u32 == u),
{
    char::from_u32(u)
}

/// Relies on String::push: appends exactly the one character.
#[verifier::external_body]
fn push_char(out: &mut String, c: char)
    ensures
        final(out)@ == old(out)@.push(c),
{
    out.push(c);
}

/// Read the hex escape that starts at `j`, where a backslash and a
/// `u` stand: the denoted character and the position after the whole
/// escape, a surrogate pair included.
#[verifier::rlimit(60)]
fn scan_hex_escape(s: &str, n: usize, j: usize) -> (r: Option<(char, usize)>)
    requires
        n == s@.len(),
        j + 1 < n,
        s@[j as int] == '\\',
        s@[j as int + 1] == 'u',
    ensures
        match r {
            Some(p) => {
                &&& j < p.1 <= n
                &&& match scan_str_spec(s@, p.1 as int) {
                    None => (scan_str_spec(s@, j as int) is None),
                    Some(q) => scan_str_spec(s@, j as int) == Some((seq![p.0] + q.0, q.1)),
                }
            },
            None => (scan_str_spec(s@, j as int) is None),
        },
{
    if n - j < 6 {
        return None;
    }
    let h = match read_hex4(s, n, j + 2) {
        Some(h) => h,
        None => {
            return None;
        },
    };
    if h < 0xD800 || h >= 0xE000 {
        let ch = match char_from_u32(h) {
            Some(ch) => ch,
            None => {
                proof {
                    assert(false);
                }
                return None;
            },
        };
        proof {
            lemma_char_of_code(ch);
            assert(char_of(h as int) == ch);
        }
        Some((ch, j + 6))
    } else if h < 0xDC00 {
        if !(n - j >= 12 && s.get_char(j + 6) == '\\' && s.get_char(j + 7) == 'u') {
            return None;
        }
        let l = match read_hex4(s, n, j + 8) {
            Some(l) => l,
            None => {
                return None;
            },
        };
        if !(0xDC00 <= l && l < 0xE000) {
            return None;
        }
        let cp: u32 = 0x10000 + (h - 0xD800) * 1024 + (l - 0xDC00);
        proof {
            assert(cp as int == 0x10000 + (h as int - 0xD800) * 1024 + (l as int - 0xDC00));
        }
        let ch = match char_from_u32(cp) {
            Some(ch) => ch,
            None => {
                proof {
                    assert(false);
                }
                return None;
            },
        };
        proof {
            lemma_char_of_code(ch);
            assert(char_of(cp as int) == ch);
        }
        Some((ch, j + 12))
    } else {
        None
    }
}

/// Read a quoted JSON string body from character position `i`,
/// decoding escapes, up to the closing quote.
#[verifier::rlimit(100)]
pub fn scan_string(s: &str, n: usize, i: usize) -> (r: Option<(String, usize)>)
    requires
        n == s@.len(),
        i <= n,
    ensures
        match r {
            Some(p) => scan_str_spec(s@, i as int) == Some((p.0@, p.1 as int)) && i < p.1 <= n,
            None => scan_str_spec(s@, i as int) is None,
        },
{
    let mut out = String::new();
    let mut run_start: usize = i;
    let mut j: usize = i;
    loop
        invariant
            n == s@.len(),
            i <= run_start <= j <= n,
            forall|m: int| run_start <= m < j ==> plain_str_char(#[trigger] s@[m]),
            match scan_str_spec(s@, j as int) {
                None => scan_str_spec(s@, i as int) is None,
                Some(p) => scan_str_spec(s@, i as int) == Some(
                    (out@ + s@.subrange(run_start as int, j as int) + p.0, p.1),
                ),
            },
        decreases n - j,
    {
        if j == n {
            return None;
        }
        let c = s.get_char(j);
        if c == '"' {
            let piece = s.substring_char(run_start, j);
            out.append(piece);
            proof {
                assert(scan_str_spec(s@, j as int) == Some((Seq::<char>::empty(), j + 1)));
                assert(out@ + Seq::<char>::empty() =~= out@);
            }
            return Some((out, j + 1));
        }
        if c == '\\' {
            if j + 1 == n {
                proof {
                    assert(scan_str_spec(s@, j as int) is None);
                }
                return None;
            }
            let e = s.get_char(j + 1);
            if e == 'u' {
                match scan_hex_escape(s, n, j) {
                    None => {
                        return None;
                    },
                    Some((ch, nxt)) => {
                        let ghost out_before = out@;
                        let piece = s.substring_char(run_start, j);
                        out.append(piece);
                        push_char(&mut out, ch);
                        proof {
                            match scan_str_spec(s@, nxt as int) {
                                None => {
                                    assert(scan_str_spec(s@, j as int) is None);
                                },
                                Some(p) => {
                                    assert(scan_str_spec(s@, j as int) == Some(
                                        (seq![ch] + p.0, p.1),
                                    ));
                                    assert(out@ + s@.subrange(nxt as int, nxt as int) + p.0
                                        =~= out_before + s@.subrange(
                                        run_start as int,
                                        j as int,
                                    ) + (seq![ch] + p.0));
                                },
                            }
                        }
                        run_start = nxt;
                        j = nxt;
                    },
                }
            } else {
                let ok = e == '"' || e == '\\' || e == '/' || e == 'n' || e == 'r' || e == 't'
                    || e == 'b' || e == 'f';
                if !ok {
                proof {
                    assert(unescape_char(s@[j + 1]) is None);
                    assert(scan_str_spec(s@, j as int) is None);
                }
                return None;
            }
            let ghost out_before = out@;
            let piece = s.substring_char(run_start, j);
            out.append(piece);
            let decoded: &'static str = if e == '"' {
                "\""
            } else if e == '\\' {
                "\\"
            } else if e == '/' {
                "/"
            } else if e == 'n' {
                "\n"
            } else if e == 'r' {
                "\r"
            } else if e == 't' {
                "\t"
            } else if e == 'b' {
                "\u{0008}"
            } else {
                "\u{000C}"
            };
            proof {
                reveal_strlit("\"");
                reveal_strlit("\\");
                reveal_strlit("/");
                reveal_strlit("\n");
                reveal_strlit("\r");
                reveal_strlit("\t");
                reveal_strlit("\u{0008}");
                reveal_strlit("\u{000C}");
                if e == '"' {
                    assert(decoded@ =~= seq!['"']);
                } else if e == '\\' {
                    assert(decoded@ =~= seq!['\\']);
                } else if e == '/' {
                    assert(decoded@ =~= seq!['/']);
                } else if e == 'n' {
                    assert(decoded@ =~= seq!['\n']);
                } else if e == 'r' {
                    assert(decoded@ =~= seq!['\r']);
                } else if e == 't' {
                    assert(decoded@ =~= seq!['\t']);
                } else if e == 'b' {
                    assert(decoded@ =~= seq!['\u{0008}']);
                } else {
                    assert(decoded@ =~= seq!['\u{000C}']);
                }
                assert(unescape_char(s@[j + 1]) == Some(decoded@[0]));
            }
            out.append(decoded);
            proof {
                let dc = decoded@[0];
                assert(out@ == out_before + s@.subrange(run_start as int, j as int)
                    + decoded@);
                match scan_str_spec(s@, j + 2) {
                    None => {
                        assert(scan_str_spec(s@, j as int) is None);
                    },
                    Some(p) => {
                        assert(scan_str_spec(s@, j as int) == Some((seq![dc] + p.0, p.1)));
                        assert(out@ + s@.subrange(j + 2, j + 2) + p.0 =~= out_before
                            + s@.subrange(run_start as int, j as int) + (seq![dc] + p.0));
                    },
                }
            }
                run_start = j + 2;
                j += 2;
            }
        } else {
            let u = c as u32;
            if u >= 32 {
                proof {
                    assert(plain_str_char(s@[j as int]));
                    match scan_str_spec(s@, j + 1) {
                        None => {
                            assert(scan_str_spec(s@, j as int) is None);
                        },
                        Some(p) => {
                            assert(scan_str_spec(s@, j as int) == Some(
                                (seq![s@[j as int]] + p.0, p.1),
                            ));
                            assert(out@ + s@.subrange(run_start as int, j as int) + (seq![
                                s@[j as int],
                            ] + p.0) =~= out@ + s@.subrange(run_start as int, j + 1) + p.0);
                        },
                    }
                }
                j += 1;
            } else {
                proof {
                    assert(!plain_str_char(s@[j as int]));
                    assert(scan_str_spec(s@, j as int) is None);
                }
                return None;
            }
        }
    }
}

} // verus!
