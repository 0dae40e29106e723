//! The command codec: the self-delimiting, JSON-compatible encoding of
//! mutation records on disk and of request/response frames on the wire.
//!
//! The on-disk and on-wire encodings are identical.  A `Set` request and a
//! persisted `Set` record are both rendered as `{"Set":{"key":K,"value":V}}`,
//! a `Remove` as `{"Remove":{"key":K}}`, a `Get` request as
//! `{"Get":{"key":K}}`.  Responses are rendered as `{"Ok":null}`,
//! `{"Ok":V}` or `{"Err":M}`.  String payloads are escaped exactly as a
//! standard JSON encoder does: `"` and `\` get a backslash, the five control
//! characters with short names become `\b`, `\t`, `\n`, `\f`, `\r`, and the
//! remaining control characters become `\u00XX` with lowercase hex digits.
use vstd::prelude::*;

verus! {

// ---------------------------------------------------------------------------
// Wire and record types, with their mathematical models
// ---------------------------------------------------------------------------
/// Mathematical model of a request (and of a persisted mutation record:
/// `Put` and `Remove` requests double as the on-disk record forms, while
/// `Get` is wire-only and never persisted).
pub enum Req {
    Put { key: Seq<char>, value: Seq<char> },
    Get { key: Seq<char> },
    Remove { key: Seq<char> },
}

/// A request sent from a client to the server.  `Put` carries the wire
/// discriminator `Set`; it asserts the mapping key to value.  `Remove`
/// asserts that the key has no mapping.  `Get` asks for the current value.
#[derive(Debug, Clone, PartialEq)]
pub enum Requests {
    Put { key: String, value: String },
    Get { key: String },
    Remove { key: String },
}

impl View for Requests {
    type V = Req;

    open spec fn view(&self) -> Req {
        match self {
            Requests::Put { key, value } => Req::Put { key: key@, value: value@ },
            Requests::Get { key } => Req::Get { key: key@ },
            Requests::Remove { key } => Req::Remove { key: key@ },
        }
    }
}

/// Mathematical model of a response to a `Get` request.
pub enum RespGet {
    Okay(Option<Seq<char>>),
    Failed(Seq<char>),
}

/// The server's response to a `Get` request: the value (or `None` for a
/// missing key), or the server's error message.  `Okay` carries the wire
/// discriminator `Ok`, `Failed` the discriminator `Err`.
#[derive(Debug, Clone, PartialEq)]
pub enum Response4Get {
    Okay(Option<String>),
    Failed(String),
}

impl View for Response4Get {
    type V = RespGet;

    open spec fn view(&self) -> RespGet {
        match self {
            Response4Get::Okay(None) => RespGet::Okay(None),
            Response4Get::Okay(Some(v)) => RespGet::Okay(Some(v@)),
            Response4Get::Failed(m) => RespGet::Failed(m@),
        }
    }
}

/// Mathematical model of a unit-success response (`Set` and `Remove`).
pub enum RespU {
    Okay,
    Failed(Seq<char>),
}

/// The server's response to a `Set` request.  `Okay` carries the wire
/// discriminator `Ok` (with a `null` payload), `Failed` the discriminator
/// `Err` with the server's error message.
#[derive(Debug, Clone, PartialEq)]
pub enum Response4Set {
    Okay,
    Failed(String),
}

impl View for Response4Set {
    type V = RespU;

    open spec fn view(&self) -> RespU {
        match self {
            Response4Set::Okay => RespU::Okay,
            Response4Set::Failed(m) => RespU::Failed(m@),
        }
    }
}

/// The server's response to a `Remove` request; shaped exactly as
/// [`Response4Set`].
#[derive(Debug, Clone, PartialEq)]
pub enum Response4Remove {
    Okay,
    Failed(String),
}

impl View for Response4Remove {
    type V = RespU;

    open spec fn view(&self) -> RespU {
        match self {
            Response4Remove::Okay => RespU::Okay,
            Response4Remove::Failed(m) => RespU::Failed(m@),
        }
    }
}

// ---------------------------------------------------------------------------
// The encoding, as a specification
// ---------------------------------------------------------------------------
/// The lowercase hex digit for a value below 16.
pub open spec fn hex_digit(d: int) -> char {
    if d == 0 {
        '0'
    } else if d == 1 {
        '1'
    } else if d == 2 {
        '2'
    } else if d == 3 {
        '3'
    } else if d == 4 {
        '4'
    } else if d == 5 {
        '5'
    } else if d == 6 {
        '6'
    } else if d == 7 {
        '7'
    } else if d == 8 {
        '8'
    } else if d == 9 {
        '9'
    } else if d == 10 {
        'a'
    } else if d == 11 {
        'b'
    } else if d == 12 {
        'c'
    } else if d == 13 {
        'd'
    } else if d == 14 {
        'e'
    } else {
        'f'
    }
}

/// How one character is rendered inside a JSON string literal.
pub open spec fn esc_char(c: char) -> Seq<char> {
    if c == '"' {
        seq!['\\', '"']
    } else if c == '\\' {
        seq!['\\', '\\']
    } else if c == '\u{8}' {
        seq!['\\', 'b']
    } else if c == '\t' {
        seq!['\\', 't']
    } else if c == '\n' {
        seq!['\\', 'n']
    } else if c == '\u{c}' {
        seq!['\\', 'f']
    } else if c == '\r' {
        seq!['\\', 'r']
    } else if (c as u32) < 32 {
        seq!['\\', 'u', '0', '0', hex_digit((c as u32) as int / 16), hex_digit((c as u32) as int % 16)]
    } else {
        seq![c]
    }
}

/// The escaped body of a JSON string literal.
pub open spec fn esc_str(s: Seq<char>) -> Seq<char>
    decreases s.len(),
{
    if s.len() == 0 {
        Seq::empty()
    } else {
        esc_char(s[0]) + esc_str(s.drop_first())
    }
}

/// A complete JSON string literal: quote, escaped body, quote.
pub open spec fn json_str(s: Seq<char>) -> Seq<char> {
    seq!['"'] + esc_str(s) + seq!['"']
}

pub open spec fn lit_put_pre() -> Seq<char> {
    seq!['{', '"', 'S', 'e', 't', '"', ':', '{', '"', 'k', 'e', 'y', '"', ':']
}

pub open spec fn lit_get_pre() -> Seq<char> {
    seq!['{', '"', 'G', 'e', 't', '"', ':', '{', '"', 'k', 'e', 'y', '"', ':']
}

pub open spec fn lit_remove_pre() -> Seq<char> {
    seq!['{', '"', 'R', 'e', 'm', 'o', 'v', 'e', '"', ':', '{', '"', 'k', 'e', 'y', '"', ':']
}

pub open spec fn lit_value_mid() -> Seq<char> {
    seq![',', '"', 'v', 'a', 'l', 'u', 'e', '"', ':']
}

pub open spec fn lit_obj_end() -> Seq<char> {
    seq!['}', '}']
}

pub open spec fn lit_ok_pre() -> Seq<char> {
    seq!['{', '"', 'O', 'k', '"', ':']
}

pub open spec fn lit_err_pre() -> Seq<char> {
    seq!['{', '"', 'E', 'r', 'r', '"', ':']
}

pub open spec fn lit_null() -> Seq<char> {
    seq!['n', 'u', 'l', 'l']
}

/// The encoding of a request (identically: of a persisted record).
pub open spec fn enc_req(r: Req) -> Seq<char> {
    match r {
        Req::Put { key, value } => lit_put_pre() + json_str(key) + lit_value_mid() + json_str(
            value,
        ) + lit_obj_end(),
        Req::Get { key } => lit_get_pre() + json_str(key) + lit_obj_end(),
        Req::Remove { key } => lit_remove_pre() + json_str(key) + lit_obj_end(),
    }
}

/// The encoding of a `Get` response.
pub open spec fn enc_resp_get(r: RespGet) -> Seq<char> {
    match r {
        RespGet::Okay(None) => lit_ok_pre() + lit_null() + seq!['}'],
        RespGet::Okay(Some(v)) => lit_ok_pre() + json_str(v) + seq!['}'],
        RespGet::Failed(m) => lit_err_pre() + json_str(m) + seq!['}'],
    }
}

/// The encoding of a `Set` or `Remove` response.
pub open spec fn enc_resp_unit(r: RespU) -> Seq<char> {
    match r {
        RespU::Okay => lit_ok_pre() + lit_null() + seq!['}'],
        RespU::Failed(m) => lit_err_pre() + json_str(m) + seq!['}'],
    }
}

// ---------------------------------------------------------------------------
// Executable encoders
// ---------------------------------------------------------------------------
/// The escaped form of one character is appended in each encoder loop step.
pub proof fn lemma_esc_str_snoc(s: Seq<char>, c: char)
    ensures
        esc_str(s.push(c)) == esc_str(s) + esc_char(c),
    decreases s.len(),
{
    if s.len() == 0 {
        assert(s.push(c)[0] == c);
        assert(s.push(c).drop_first() =~= Seq::<char>::empty());
        assert(esc_str(s.push(c)) == esc_char(c) + esc_str(Seq::<char>::empty()));
        assert(esc_char(c) + Seq::<char>::empty() =~= esc_char(c));
        assert(Seq::<char>::empty() + esc_char(c) =~= esc_char(c));
        assert(esc_str(s.push(c)) =~= esc_str(s) + esc_char(c));
    } else {
        assert(s.push(c).drop_first() =~= s.drop_first().push(c));
        lemma_esc_str_snoc(s.drop_first(), c);
        assert(esc_str(s.push(c)) =~= esc_str(s) + esc_char(c));
    }
}

fn hex_digit_exec(d: u32) -> (r: char)
    requires
        d < 16,
    ensures
        r == hex_digit(d as int),
{
    if d == 0 {
        '0'
    } else if d == 1 {
        '1'
    } else if d == 2 {
        '2'
    } else if d == 3 {
        '3'
    } else if d == 4 {
        '4'
    } else if d == 5 {
        '5'
    } else if d == 6 {
        '6'
    } else if d == 7 {
        '7'
    } else if d == 8 {
        '8'
    } else if d == 9 {
        '9'
    } else if d == 10 {
        'a'
    } else if d == 11 {
        'b'
    } else if d == 12 {
        'c'
    } else if d == 13 {
        'd'
    } else if d == 14 {
        'e'
    } else {
        'f'
    }
}

/// Append the JSON string literal for `s` to `out`.
pub fn encode_json_string(out: &mut Vec<char>, s: &str)
    ensures
        final(out)@ == old(out)@ + json_str(s@),
{
    out.push('"');
    let n = s.unicode_len();
    let mut i: usize = 0;
    while i < n
        invariant
            n == s@.len(),
            i <= n,
            out@ == old(out)@ + seq!['"'] + esc_str(s@.take(i as int)),
        decreases n - i,
    {
        let c = s.get_char(i);
        let ghost pre = out@;
        if c == '"' {
            out.push('\\');
            out.push('"');
        } else if c == '\\' {
            out.push('\\');
            out.push('\\');
        } else if c == '\u{8}' {
            out.push('\\');
            out.push('b');
        } else if c == '\t' {
            out.push('\\');
            out.push('t');
        } else if c == '\n' {
            out.push('\\');
            out.push('n');
        } else if c == '\u{c}' {
            out.push('\\');
            out.push('f');
        } else if c == '\r' {
            out.push('\\');
            out.push('r');
        } else if (c as u32) < 32 {
            out.push('\\');
            out.push('u');
            out.push('0');
            out.push('0');
            out.push(hex_digit_exec((c as u32) / 16));
            out.push(hex_digit_exec((c as u32) % 16));
        } else {
            out.push(c);
        }
        proof {
            assert(out@ =~= pre + esc_char(c));
            assert(s@.take(i + 1 as int) =~= s@.take(i as int).push(s@[i as int]));
            lemma_esc_str_snoc(s@.take(i as int), s@[i as int]);
            assert(out@ =~= old(out)@ + seq!['"'] + esc_str(s@.take(i + 1 as int)));
        }
        i = i + 1;
    }
    out.push('"');
    proof {
        assert(s@.take(n as int) =~= s@);
        assert(out@ =~= old(out)@ + json_str(s@));
    }
}

pub(crate) fn push_lit_put_pre(out: &mut Vec<char>)
    ensures
        final(out)@ == old(out)@ + lit_put_pre(),
{
    out.push('{');
    out.push('"');
    out.push('S');
    out.push('e');
    out.push('t');
    out.push('"');
    out.push(':');
    out.push('{');
    out.push('"');
    out.push('k');
    out.push('e');
    out.push('y');
    out.push('"');
    out.push(':');
    proof {
        assert(out@ =~= old(out)@ + lit_put_pre());
    }
}

pub(crate) fn push_lit_get_pre(out: &mut Vec<char>)
    ensures
        final(out)@ == old(out)@ + lit_get_pre(),
{
    out.push('{');
    out.push('"');
    out.push('G');
    out.push('e');
    out.push('t');
    out.push('"');
    out.push(':');
    out.push('{');
    out.push('"');
    out.push('k');
    out.push('e');
    out.push('y');
    out.push('"');
    out.push(':');
    proof {
        assert(out@ =~= old(out)@ + lit_get_pre());
    }
}

pub(crate) fn push_lit_remove_pre(out: &mut Vec<char>)
    ensures
        final(out)@ == old(out)@ + lit_remove_pre(),
{
    out.push('{');
    out.push('"');
    out.push('R');
    out.push('e');
    out.push('m');
    out.push('o');
    out.push('v');
    out.push('e');
    out.push('"');
    out.push(':');
    out.push('{');
    out.push('"');
    out.push('k');
    out.push('e');
    out.push('y');
    out.push('"');
    out.push(':');
    proof {
        assert(out@ =~= old(out)@ + lit_remove_pre());
    }
}

pub(crate) fn push_lit_value_mid(out: &mut Vec<char>)
    ensures
        final(out)@ == old(out)@ + lit_value_mid(),
{
    out.push(',');
    out.push('"');
    out.push('v');
    out.push('a');
    out.push('l');
    out.push('u');
    out.push('e');
    out.push('"');
    out.push(':');
    proof {
        assert(out@ =~= old(out)@ + lit_value_mid());
    }
}

pub(crate) fn push_lit_ok_pre(out: &mut Vec<char>)
    ensures
        final(out)@ == old(out)@ + lit_ok_pre(),
{
    out.push('{');
    out.push('"');
    out.push('O');
    out.push('k');
    out.push('"');
    out.push(':');
    proof {
        assert(out@ =~= old(out)@ + lit_ok_pre());
    }
}

pub(crate) fn push_lit_err_pre(out: &mut Vec<char>)
    ensures
        final(out)@ == old(out)@ + lit_err_pre(),
{
    out.push('{');
    out.push('"');
    out.push('E');
    out.push('r');
    out.push('r');
    out.push('"');
    out.push(':');
    proof {
        assert(out@ =~= old(out)@ + lit_err_pre());
    }
}

pub(crate) fn push_lit_null(out: &mut Vec<char>)
    ensures
        final(out)@ == old(out)@ + lit_null(),
{
    out.push('n');
    out.push('u');
    out.push('l');
    out.push('l');
    proof {
        assert(out@ =~= old(out)@ + lit_null());
    }
}

/// Encode a `Set` record or request for the given key and value.
pub fn encode_put_record(key: &str, value: &str) -> (out: Vec<char>)
    ensures
        out@ == enc_req(Req::Put { key: key@, value: value@ }),
{
    let mut out: Vec<char> = Vec::new();
    push_lit_put_pre(&mut out);
    encode_json_string(&mut out, key);
    push_lit_value_mid(&mut out);
    encode_json_string(&mut out, value);
    out.push('}');
    out.push('}');
    proof {
        assert(out@ =~= enc_req(Req::Put { key: key@, value: value@ }));
    }
    out
}

/// Encode a `Remove` record or request for the given key.
pub fn encode_remove_record(key: &str) -> (out: Vec<char>)
    ensures
        out@ == enc_req(Req::Remove { key: key@ }),
{
    let mut out: Vec<char> = Vec::new();
    push_lit_remove_pre(&mut out);
    encode_json_string(&mut out, key);
    out.push('}');
    out.push('}');
    proof {
        assert(out@ =~= enc_req(Req::Remove { key: key@ }));
    }
    out
}

/// Encode a `Get` request for the given key.
pub fn encode_get_request(key: &str) -> (out: Vec<char>)
    ensures
        out@ == enc_req(Req::Get { key: key@ }),
{
    let mut out: Vec<char> = Vec::new();
    push_lit_get_pre(&mut out);
    encode_json_string(&mut out, key);
    out.push('}');
    out.push('}');
    proof {
        assert(out@ =~= enc_req(Req::Get { key: key@ }));
    }
    out
}

/// Encode any request frame.
pub fn encode_request(req: &Requests) -> (out: Vec<char>)
    ensures
        out@ == enc_req(req@),
{
    match req {
        Requests::Put { key, value } => encode_put_record(key.as_str(), value.as_str()),
        Requests::Get { key } => encode_get_request(key.as_str()),
        Requests::Remove { key } => encode_remove_record(key.as_str()),
    }
}

/// Encode a `Get` response frame.
pub fn encode_response_get(resp: &Response4Get) -> (out: Vec<char>)
    ensures
        out@ == enc_resp_get(resp@),
{
    let mut out: Vec<char> = Vec::new();
    match resp {
        Response4Get::Okay(None) => {
            push_lit_ok_pre(&mut out);
            push_lit_null(&mut out);
            out.push('}');
        }
        Response4Get::Okay(Some(v)) => {
            push_lit_ok_pre(&mut out);
            encode_json_string(&mut out, v.as_str());
            out.push('}');
        }
        Response4Get::Failed(m) => {
            push_lit_err_pre(&mut out);
            encode_json_string(&mut out, m.as_str());
            out.push('}');
        }
    }
    proof {
        assert(out@ =~= enc_resp_get(resp@));
    }
    out
}

/// Encode a `Set` response frame.
pub fn encode_response_set(resp: &Response4Set) -> (out: Vec<char>)
    ensures
        out@ == enc_resp_unit(resp@),
{
    let mut out: Vec<char> = Vec::new();
    match resp {
        Response4Set::Okay => {
            push_lit_ok_pre(&mut out);
            push_lit_null(&mut out);
            out.push('}');
        }
        Response4Set::Failed(m) => {
            push_lit_err_pre(&mut out);
            encode_json_string(&mut out, m.as_str());
            out.push('}');
        }
    }
    proof {
        assert(out@ =~= enc_resp_unit(resp@));
    }
    out
}

/// Encode a `Remove` response frame.
pub fn encode_response_remove(resp: &Response4Remove) -> (out: Vec<char>)
    ensures
        out@ == enc_resp_unit(resp@),
{
    let mut out: Vec<char> = Vec::new();
    match resp {
        Response4Remove::Okay => {
            push_lit_ok_pre(&mut out);
            push_lit_null(&mut out);
            out.push('}');
        }
        Response4Remove::Failed(m) => {
            push_lit_err_pre(&mut out);
            encode_json_string(&mut out, m.as_str());
            out.push('}');
        }
    }
    proof {
        assert(out@ =~= enc_resp_unit(resp@));
    }
    out
}

} // verus!
