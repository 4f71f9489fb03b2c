//! The persisted two-field configuration record and its JSON codec.
//!
//! The record is persisted as a JSON object with the fields `timeout`
//! (an unsigned integer) and `default` (a string, null, or absent), in
//! either order, with free JSON whitespace; unknown or duplicate
//! fields are rejected. The renderer writes one canonical
//! pretty-printed layout, and parsing what it wrote restores the
//! record, so saving what was loaded leaves save-produced bytes
//! unchanged.

use vstd::prelude::*;

use crate::errors::Error;
use crate::json::{
    append_dec, append_escaped, lit_at, parse_scalar, JsonModel, JsonValue, model_of,
};
use crate::text::{
    dec_of, dec_val, escape_of, is_digit, is_ws, lemma_dec_of_shape, lemma_dec_val_of,
    lemma_run_end_is, lemma_scan_escaped, lemma_scan_str_bounds, lemma_uint_spec_none,
    lemma_uint_spec_some, lemma_ws_end_is, quoted, scan_str_spec, scan_string, scan_u64,
    scan_uint_spec, skip_ws, text_is, ws_end, has_at,
};

verus! {

/// The persisted configuration record.
pub struct Config {
    /// Discovery timeout, in whole seconds.
    pub timeout: u64,
    /// The default speaker name, when one is configured.
    pub default: Option<String>,
}

/// The default name as a sequence of characters, when configured.
pub open spec fn default_view(c: Config) -> Option<Seq<char>> {
    match c.default {
        Some(s) => Some(s@),
        None => None,
    }
}

/// The text of the `default` field's value in the canonical layout.
pub open spec fn default_field_text(d: Option<Seq<char>>) -> Seq<char> {
    match d {
        None => "null"@,
        Some(x) => quoted(escape_of(x)),
    }
}

/// The canonical persisted text of a record with timeout `t` and
/// default name `d`.
pub open spec fn config_text(t: u64, d: Option<Seq<char>>) -> Seq<char> {
    "{\n  \"timeout\": "@ + dec_of(t as nat) + ",\n  \"default\": "@ + default_field_text(d)
        + "\n}"@
}

/// Reading `: <unsigned integer>` after a key, with free whitespace:
/// the value and the position after it.
pub open spec fn read_uint_field(s: Seq<char>, i: int) -> Option<(u64, int)> {
    let k = ws_end(s, i);
    if k < s.len() && s[k] == ':' {
        scan_uint_spec(s, ws_end(s, k + 1))
    } else {
        None
    }
}

/// Reading `: <null or string>` after a key, with free whitespace:
/// the denoted name and the position after the value.
pub open spec fn read_default_field(s: Seq<char>, i: int) -> Option<(Option<Seq<char>>, int)> {
    let k = ws_end(s, i);
    if k < s.len() && s[k] == ':' {
        let m = ws_end(s, k + 1);
        if lit_at(s, m, "null"@) {
            Some((None, m + "null"@.len()))
        } else if m < s.len() && s[m] == '"' {
            match scan_str_spec(s, m + 1) {
                None => None,
                Some(p) => Some((Some(p.0), p.1)),
            }
        } else {
            None
        }
    } else {
        None
    }
}

/// Reading the object's members from the first key: the timeout, the
/// default name when present, and the position after the last value.
/// `timeout` is required; `default` may be absent; either order;
/// nothing else.
pub open spec fn read_members(s: Seq<char>, i: int) -> Option<(u64, Option<Seq<char>>, int)> {
    if lit_at(s, i, "\"timeout\""@) {
        match read_uint_field(s, i + "\"timeout\""@.len()) {
            None => None,
            Some(p) => {
                let k = ws_end(s, p.1);
                if k < s.len() && s[k] == ',' {
                    let m = ws_end(s, k + 1);
                    if lit_at(s, m, "\"default\""@) {
                        match read_default_field(s, m + "\"default\""@.len()) {
                            None => None,
                            Some(q) => Some((p.0, q.0, q.1)),
                        }
                    } else {
                        None
                    }
                } else {
                    Some((p.0, None, p.1))
                }
            },
        }
    } else if lit_at(s, i, "\"default\""@) {
        match read_default_field(s, i + "\"default\""@.len()) {
            None => None,
            Some(q) => {
                let k = ws_end(s, q.1);
                if k < s.len() && s[k] == ',' {
                    let m = ws_end(s, k + 1);
                    if lit_at(s, m, "\"timeout\""@) {
                        match read_uint_field(s, m + "\"timeout\""@.len()) {
                            None => None,
                            Some(p) => Some((p.0, q.0, p.1)),
                        }
                    } else {
                        None
                    }
                } else {
                    None
                }
            },
        }
    } else {
        None
    }
}

/// Reading a whole persisted text: a JSON object holding the two
/// fields as `read_members` says, surrounded by whitespace, nothing
/// more.
pub open spec fn parse_config_at(s: Seq<char>) -> Option<(u64, Option<Seq<char>>)> {
    let i0 = ws_end(s, 0);
    if i0 < s.len() && s[i0] == '{' {
        match read_members(s, ws_end(s, i0 + 1)) {
            None => None,
            Some(p) => {
                let k = ws_end(s, p.2);
                if k < s.len() && s[k] == '}' && ws_end(s, k + 1) == s.len() {
                    Some((p.0, p.1))
                } else {
                    None
                }
            },
        }
    } else {
        None
    }
}

impl Default for Config {
    /// The built-in record: one second of discovery timeout, no
    /// default speaker.
    fn default() -> (c: Config)
        ensures
            c.timeout == 1,
            c.default is None,
    {
        Config { timeout: 1, default: None }
    }
}

impl Config {
    /// Render the record as its canonical persisted JSON text.
    pub fn to_json(&self) -> (r: String)
        ensures
            r@ == config_text(self.timeout, default_view(*self)),
    {
        let mut out = "{\n  \"timeout\": ".to_owned();
        append_dec(&mut out, self.timeout);
        out.append(",\n  \"default\": ");
        match &self.default {
            None => {
                out.append("null");
            },
            Some(d) => {
                out.append("\"");
                append_escaped(&mut out, d.as_str());
                out.append("\"");
                proof {
                    reveal_strlit("\"");
                    assert("\""@ =~= seq!['"']);
                    assert("\""@ + escape_of(d@) + "\""@ =~= quoted(escape_of(d@)));
                }
            },
        }
        out.append("\n}");
        proof {
            assert(out@ =~= config_text(self.timeout, default_view(*self)));
        }
        out
    }
}

/// Read `: <unsigned integer>` from character position `i`.
fn read_uint(s: &str, n: usize, i: usize) -> (r: Option<(u64, usize)>)
    requires
        n == s@.len(),
        i <= n,
    ensures
        match r {
            Some(p) => read_uint_field(s@, i as int) == Some((p.0, p.1 as int)) && p.1 <= n,
            None => (read_uint_field(s@, i as int) is None),
        },
{
    let k = skip_ws(s, n, i);
    if k < n && s.get_char(k) == ':' {
        let m = skip_ws(s, n, k + 1);
        match scan_u64(s, n, m) {
            Some((v, j)) => {
                proof {
                    lemma_uint_spec_some(s@, m as int, v, j as int);
                }
                Some((v, j))
            },
            None => {
                proof {
                    lemma_uint_spec_none(s@, m as int);
                }
                None
            },
        }
    } else {
        None
    }
}

/// Read `: <null or quoted string>` from character position `i`.
fn read_default(s: &str, n: usize, i: usize) -> (r: Option<(Option<String>, usize)>)
    requires
        n == s@.len(),
        i <= n,
    ensures
        match r {
            Some(p) => {
                &&& read_default_field(s@, i as int) == Some(
                    (
                        match p.0 {
                            Some(x) => Some(x@),
                            None => None,
                        },
                        p.1 as int,
                    ),
                )
                &&& p.1 <= n
            },
            None => (read_default_field(s@, i as int) is None),
        },
{
    proof {
        reveal_strlit("null");
    }
    let k = skip_ws(s, n, i);
    if k < n && s.get_char(k) == ':' {
        let m = skip_ws(s, n, k + 1);
        let lit_null = "null";
        let l_null = lit_null.unicode_len();
        if has_at(s, n, m, lit_null, l_null) {
            return Some((None, m + l_null));
        }
        if m < n && s.get_char(m) == '"' {
            match scan_string(s, n, m + 1) {
                Some((name, j)) => {
                    proof {
                        lemma_scan_str_bounds(s@, m + 1);
                    }
                    return Some((Some(name), j));
                },
                None => {
                    return None;
                },
            }
        }
        None
    } else {
        None
    }
}

impl Config {
    /// Parse persisted JSON text back into a record.
    ///
    /// Returns the record the text denotes under `parse_config_at`,
    /// and an error exactly when it denotes none.
    pub fn from_json(s: &str) -> (r: Result<Config, Error>)
        ensures
            match r {
                Ok(c) => parse_config_at(s@) == Some((c.timeout, default_view(c))),
                Err(e) => e == Error::InvalidConfig && (parse_config_at(s@) is None),
            },
    {
        proof {
            reveal_strlit("\"timeout\"");
            reveal_strlit("\"default\"");
        }
        let n = s.unicode_len();
        let i0 = skip_ws(s, n, 0);
        if !(i0 < n && s.get_char(i0) == '{') {
            return Err(Error::InvalidConfig);
        }
        let i = skip_ws(s, n, i0 + 1);
        let key_timeout = "\"timeout\"";
        let kt_len = key_timeout.unicode_len();
        let key_default = "\"default\"";
        let kd_len = key_default.unicode_len();
        let parsed: Option<(u64, Option<String>, usize)> = if has_at(
            s,
            n,
            i,
            key_timeout,
            kt_len,
        ) {
            match read_uint(s, n, i + kt_len) {
                None => None,
                Some((t, j)) => {
                    let k = skip_ws(s, n, j);
                    if k < n && s.get_char(k) == ',' {
                        let m = skip_ws(s, n, k + 1);
                        if has_at(s, n, m, key_default, kd_len) {
                            match read_default(s, n, m + kd_len) {
                                None => None,
                                Some((d, e)) => Some((t, d, e)),
                            }
                        } else {
                            None
                        }
                    } else {
                        Some((t, None, j))
                    }
                },
            }
        } else if has_at(s, n, i, key_default, kd_len) {
            match read_default(s, n, i + kd_len) {
                None => None,
                Some((d, j)) => {
                    let k = skip_ws(s, n, j);
                    if k < n && s.get_char(k) == ',' {
                        let m = skip_ws(s, n, k + 1);
                        if has_at(s, n, m, key_timeout, kt_len) {
                            match read_uint(s, n, m + kt_len) {
                                None => None,
                                Some((t, e)) => Some((t, d, e)),
                            }
                        } else {
                            None
                        }
                    } else {
                        None
                    }
                },
            }
        } else {
            None
        };
        match parsed {
            None => Err(Error::InvalidConfig),
            Some((t, d, j)) => {
                let k = skip_ws(s, n, j);
                if k < n && s.get_char(k) == '}' {
                    let e = skip_ws(s, n, k + 1);
                    if e == n {
                        return Ok(Config { timeout: t, default: d });
                    }
                    Err(Error::InvalidConfig)
                } else {
                    Err(Error::InvalidConfig)
                }
            },
        }
    }
}

/// Law: the canonical text of a well-formed record denotes exactly
/// that record, so loading what was saved restores the record and
/// saving what was loaded reproduces save-produced bytes unchanged.
#[verifier::rlimit(60)]
pub proof fn lemma_save_load_round_trip(t: u64, d: Option<Seq<char>>)
    ensures
        parse_config_at(config_text(t, d)) == Some((t, d)),
{
    reveal_strlit("{\n  \"timeout\": ");
    reveal_strlit(",\n  \"default\": ");
    reveal_strlit("\"timeout\"");
    reveal_strlit("\"default\"");
    reveal_strlit("null");
    reveal_strlit("\n}");
    let s = config_text(t, d);
    let lit1 = "{\n  \"timeout\": "@;
    let lit2 = ",\n  \"default\": "@;
    let dd = dec_of(t as nat);
    let ff = default_field_text(d);
    let l1 = lit1.len() as int;
    let dn = dd.len() as int;
    let l2 = lit2.len() as int;
    let fl = ff.len() as int;
    lemma_dec_of_shape(t as nat);
    lemma_dec_val_of(t as nat);
    assert(s.subrange(0, l1) =~= lit1);
    assert(s.subrange(l1, l1 + dn) =~= dd);
    assert(s.subrange(l1 + dn, l1 + dn + l2) =~= lit2);
    assert(s.subrange(l1 + dn + l2, l1 + dn + l2 + fl) =~= ff);
    assert(s.subrange(l1 + dn + l2 + fl, s.len() as int) =~= "\n}"@);
    let j = l1 + dn;
    let k0 = j + l2;
    // Opening brace, then the timeout key.
    assert(s[0] == '{' && !is_ws(s[0]));
    lemma_ws_end_is(s, 0, 0);
    assert(is_ws(s[1]) && is_ws(s[2]) && is_ws(s[3]) && s[4] == '"' && !is_ws(s[4]));
    lemma_ws_end_is(s, 1, 4);
    assert(lit_at(s, 4, "\"timeout\""@)) by {
        assert(s.subrange(4, 13) =~= "\"timeout\""@);
    }
    // The colon and the numeral.
    assert(s[13] == ':' && !is_ws(s[13]));
    lemma_ws_end_is(s, 13, 13);
    assert(is_ws(s[14]));
    assert(s[l1] == dd[0] && is_digit(s[l1]) && !is_ws(s[l1]));
    lemma_ws_end_is(s, 14, l1);
    assert(forall|m: int| l1 <= m < j ==> is_digit(#[trigger] s[m]) && s[m] == dd[m - l1]);
    assert(s[j] == lit2[0] && s[j] == ',');
    assert(!is_digit(','));
    lemma_run_end_is(s, l1, j);
    assert(scan_uint_spec(s, l1) == Some((t, j))) by {
        assert(s.subrange(l1, j) == dd);
        assert(dec_val(s.subrange(l1, j)) == t);
        if s[l1] == '0' {
            assert(dd[0] == '0');
            assert(t == 0);
            assert(dn == 1);
        }
        lemma_uint_spec_some(s, l1, t, j);
    }
    assert(read_uint_field(s, 13) == Some((t, j)));
    // The comma and the default key.
    lemma_ws_end_is(s, j, j);
    assert(is_ws(s[j + 1]) && is_ws(s[j + 2]) && is_ws(s[j + 3]) && s[j + 4] == '"');
    lemma_ws_end_is(s, j + 1, j + 4);
    assert(lit_at(s, j + 4, "\"default\""@)) by {
        assert(s.subrange(j + 4, j + 13) =~= "\"default\""@);
    }
    // The colon and the value.
    assert(s[j + 13] == ':' && !is_ws(s[j + 13]));
    lemma_ws_end_is(s, j + 13, j + 13);
    assert(is_ws(s[j + 14]));
    assert(s[k0] == ff[0] && !is_ws(s[k0]));
    lemma_ws_end_is(s, j + 14, k0);
    let vend = k0 + fl;
    assert(read_default_field(s, j + 13) == Some((d, vend))) by {
        match d {
            None => {
                assert(ff == "null"@);
                assert(lit_at(s, k0, "null"@)) by {
                    assert(s.subrange(k0, k0 + 4) =~= "null"@);
                }
            },
            Some(x) => {
                assert(ff == quoted(escape_of(x)));
                assert(s[k0] == '"');
                assert(!lit_at(s, k0, "null"@)) by {
                    if lit_at(s, k0, "null"@) {
                        assert(s.subrange(k0, k0 + 4)[0] == 'n');
                    }
                }
                assert(s.subrange(k0 + 1, k0 + 1 + escape_of(x).len() as int) =~= escape_of(
                    x,
                )) by {
                    assert(forall|m: int|
                        0 <= m < fl ==> #[trigger] s[k0 + m] == quoted(escape_of(x))[m]);
                }
                assert(s[k0 + 1 + escape_of(x).len()] == '"');
                lemma_scan_escaped(s, k0 + 1, x);
                assert(scan_str_spec(s, k0 + 1) == Some((x, vend)));
            },
        }
    }
    assert(read_members(s, 4) == Some((t, d, vend)));
    // The closing brace.
    assert(s[vend] == '\n' && is_ws(s[vend]));
    assert(s[vend + 1] == '}' && !is_ws(s[vend + 1]));
    lemma_ws_end_is(s, vend, vend + 1);
    assert(vend + 2 == s.len());
    lemma_ws_end_is(s, vend + 2, vend + 2);
    assert(parse_config_at(s) == Some((t, d)));
}

/// Law: distinct records have distinct canonical texts, so one
/// persisted text never stands for two configurations.
pub proof fn lemma_config_text_injective(
    t1: u64,
    d1: Option<Seq<char>>,
    t2: u64,
    d2: Option<Seq<char>>,
)
    requires
        config_text(t1, d1) == config_text(t2, d2),
    ensures
        t1 == t2,
        d1 == d2,
{
    lemma_save_load_round_trip(t1, d1);
    lemma_save_load_round_trip(t2, d2);
}


/// The rendered value of one named field, as the `get` and `list`
/// commands print it; a key that names no field renders as null.
pub open spec fn field_text(c: Config, key: Seq<char>) -> Seq<char> {
    if key == "timeout"@ {
        dec_of(c.timeout as nat)
    } else if key == "default"@ {
        default_field_text(default_view(c))
    } else {
        "null"@
    }
}

/// The raw text `val` denotes a scalar the named field can hold: an
/// unsigned integer for `timeout`, null or a string for `default`.
pub open spec fn set_valid(key: Seq<char>, val: Seq<char>) -> bool {
    match parse_scalar(val) {
        Some(m) => {
            ||| (key == "timeout"@ && m matches JsonModel::MUInt(_))
            ||| (key == "default"@ && (m matches JsonModel::MNull || m
                matches JsonModel::MStr(_)))
        },
        None => false,
    }
}

/// How a successful `set` of `val` into the field named `key` relates
/// the new record `c2` to the old record `c`: the addressed field
/// holds the denoted value, the other field is unchanged.
pub open spec fn set_result(key: Seq<char>, val: Seq<char>, c: Config, c2: Config) -> bool {
    match parse_scalar(val) {
        Some(m) => {
            if key == "timeout"@ {
                m == JsonModel::MUInt(c2.timeout) && default_view(c2) == default_view(c)
            } else if key == "default"@ {
                c2.timeout == c.timeout && match m {
                    JsonModel::MNull => default_view(c2) is None,
                    JsonModel::MStr(x) => default_view(c2) == Some(x),
                    _ => false,
                }
            } else {
                false
            }
        },
        None => false,
    }
}

/// What one configuration command produced: lines for the caller to
/// print, and the updated record to persist when the command mutated
/// it.
pub struct CommandOutcome {
    pub lines: Vec<String>,
    pub updated: Option<Config>,
}

/// The configuration subcommands.
pub enum Subcommands {
    List,
    Get { key: String },
    Assign { key: String, value: String },
}

impl Subcommands {
    /// Decide one configuration command against the loaded record.
    ///
    /// `list` renders both fields, one line each, in field-name order;
    /// `get` renders the addressed field; `set` parses the raw value
    /// as a JSON scalar, patches the addressed field, and hands back
    /// the updated record for the caller to persist. A raw value that
    /// denotes no scalar is a syntax error; a scalar the addressed
    /// field cannot hold, or a key that names no field, leaves the
    /// record invalid.
    pub fn run(&self, config: &Config) -> (r: Result<CommandOutcome, Error>)
        ensures
            match self {
                Subcommands::List => match r {
                    Ok(o) => {
                        &&& o.updated is None
                        &&& o.lines@.len() == 2
                        &&& o.lines@[0]@ == "default: "@ + default_field_text(
                            default_view(*config),
                        )
                        &&& o.lines@[1]@ == "timeout: "@ + dec_of(config.timeout as nat)
                    },
                    Err(_) => false,
                },
                Subcommands::Get { key } => match r {
                    Ok(o) => {
                        &&& o.updated is None
                        &&& o.lines@.len() == 1
                        &&& o.lines@[0]@ == key@ + ": "@ + field_text(*config, key@)
                    },
                    Err(_) => false,
                },
                Subcommands::Assign { key, value } => {
                    &&& (r is Ok <==> set_valid(key@, value@))
                    &&& match r {
                        Ok(o) => {
                            &&& o.lines@.len() == 0
                            &&& match o.updated {
                                Some(c2) => set_result(key@, value@, *config, c2),
                                None => false,
                            }
                        },
                        Err(e) => if parse_scalar(value@) is None {
                            e == Error::JsonSyntax
                        } else {
                            e == Error::InvalidConfig
                        },
                    }
                },
            },
    {
        match self {
            Subcommands::List => {
                let mut lines: Vec<String> = Vec::new();
                let mut line0 = "default: ".to_owned();
                match &config.default {
                    None => {
                        line0.append("null");
                    },
                    Some(d) => {
                        line0.append("\"");
                        append_escaped(&mut line0, d.as_str());
                        line0.append("\"");
                        proof {
                            reveal_strlit("\"");
                            assert("\""@ =~= seq!['"']);
                            assert("default: "@ + "\""@ + escape_of(d@) + "\""@
                                =~= "default: "@ + quoted(escape_of(d@)));
                        }
                    },
                }
                lines.push(line0);
                let mut line1 = "timeout: ".to_owned();
                append_dec(&mut line1, config.timeout);
                lines.push(line1);
                Ok(CommandOutcome { lines, updated: None })
            },
            Subcommands::Get { key } => {
                let mut line = key.clone();
                line.append(": ");
                if text_is(key.as_str(), "timeout") {
                    append_dec(&mut line, config.timeout);
                } else if text_is(key.as_str(), "default") {
                    match &config.default {
                        None => {
                            line.append("null");
                        },
                        Some(d) => {
                            line.append("\"");
                            append_escaped(&mut line, d.as_str());
                            line.append("\"");
                            proof {
                                reveal_strlit("\"");
                                assert("\""@ =~= seq!['"']);
                                assert(key@ + ": "@ + "\""@ + escape_of(d@) + "\""@ =~= key@
                                    + ": "@ + quoted(escape_of(d@)));
                            }
                        },
                    }
                } else {
                    line.append("null");
                    proof {
                        reveal_strlit("timeout");
                        reveal_strlit("default");
                    }
                }
                let mut lines: Vec<String> = Vec::new();
                lines.push(line);
                Ok(CommandOutcome { lines, updated: None })
            },
            Subcommands::Assign { key, value } => {
                let parsed = crate::json::parse_value(value.as_str());
                match parsed {
                    Err(_) => Err(Error::JsonSyntax),
                    Ok(v) => {
                        let is_timeout = text_is(key.as_str(), "timeout");
                        let is_default = text_is(key.as_str(), "default");
                        proof {
                            assert(parse_scalar(value@) == Some(model_of(v)));
                        }
                        match v {
                            JsonValue::UInt(m) => {
                                if is_timeout {
                                    let kept = match &config.default {
                                        None => None,
                                        Some(d) => Some(d.clone()),
                                    };
                                    let c2 = Config { timeout: m, default: kept };
                                    Ok(CommandOutcome {
                                        lines: Vec::new(),
                                        updated: Some(c2),
                                    })
                                } else {
                                    Err(Error::InvalidConfig)
                                }
                            },
                            JsonValue::Null => {
                                if is_default {
                                    let c2 = Config { timeout: config.timeout, default: None };
                                    proof {
                                        reveal_strlit("timeout");
                                        reveal_strlit("default");
                                        assert("default"@[0] == 'd' && "timeout"@[0] == 't');
                                        assert(key@ != "timeout"@);
                                    }
                                    Ok(CommandOutcome {
                                        lines: Vec::new(),
                                        updated: Some(c2),
                                    })
                                } else {
                                    Err(Error::InvalidConfig)
                                }
                            },
                            JsonValue::Str(x) => {
                                if is_default {
                                    proof {
                                        reveal_strlit("timeout");
                                        reveal_strlit("default");
                                        assert("default"@[0] == 'd' && "timeout"@[0] == 't');
                                        assert(key@ != "timeout"@);
                                    }
                                    let c2 = Config {
                                        timeout: config.timeout,
                                        default: Some(x),
                                    };
                                    Ok(CommandOutcome {
                                        lines: Vec::new(),
                                        updated: Some(c2),
                                    })
                                } else {
                                    Err(Error::InvalidConfig)
                                }
                            },
                            JsonValue::Bool(_) => Err(Error::InvalidConfig),
                        }
                    },
                }
            },
        }
    }
}

} // verus!
