//! The streaming decoder for the codec of [`crate::codec`].
//!
//! Decoding is specified by a total recursive parser over character
//! sequences.  The parser consumes exactly one value and reports how many
//! characters it used, so that successive records concatenate without
//! separators and a reader never consumes past the end of one frame.  On
//! input that is a prefix of some encoding it reports that more input is
//! needed; on input that no extension can complete it reports failure.
//!
//! The decoder accepts exactly the escapes the encoder emits, plus the
//! conventional `\/` form; a `\uXXXX` escape is accepted for code points
//! below 128, which covers every `\u` form a standard JSON encoder
//! produces for these frames.
use vstd::prelude::*;

use crate::codec::Req;
use crate::codec::Requests;
use crate::codec::RespGet;
use crate::codec::RespU;
use crate::codec::Response4Get;
use crate::codec::Response4Remove;
use crate::codec::Response4Set;
use crate::codec::enc_req;
use crate::codec::enc_resp_get;
use crate::codec::enc_resp_unit;
use crate::codec::esc_char;
use crate::codec::esc_str;
use crate::codec::hex_digit;
use crate::codec::json_str;
use crate::codec::lit_err_pre;
use crate::codec::lit_get_pre;
use crate::codec::lit_null;
use crate::codec::lit_obj_end;
use crate::codec::lit_ok_pre;
use crate::codec::lit_put_pre;
use crate::codec::lit_remove_pre;
use crate::codec::lit_value_mid;

verus! {

// ---------------------------------------------------------------------------
// The parser, as a specification
// ---------------------------------------------------------------------------
/// Outcome of parsing one value from the front of a character sequence:
/// the value together with the number of characters it occupied, a report
/// that the input ended inside the value, or a report that the input can
/// never become a valid value.
pub enum ParseOut<T> {
    Found(T, int),
    More,
    Fail,
}

/// The numeric value of a hex digit, upper or lower case.
pub open spec fn hex_val(c: char) -> Option<int> {
    if c == '0' {
        Some(0)
    } else if c == '1' {
        Some(1)
    } else if c == '2' {
        Some(2)
    } else if c == '3' {
        Some(3)
    } else if c == '4' {
        Some(4)
    } else if c == '5' {
        Some(5)
    } else if c == '6' {
        Some(6)
    } else if c == '7' {
        Some(7)
    } else if c == '8' {
        Some(8)
    } else if c == '9' {
        Some(9)
    } else if c == 'a' || c == 'A' {
        Some(10)
    } else if c == 'b' || c == 'B' {
        Some(11)
    } else if c == 'c' || c == 'C' {
        Some(12)
    } else if c == 'd' || c == 'D' {
        Some(13)
    } else if c == 'e' || c == 'E' {
        Some(14)
    } else if c == 'f' || c == 'F' {
        Some(15)
    } else {
        None
    }
}

/// The character denoted by a single-character escape, if any.
pub open spec fn unescape_short(e: char) -> Option<char> {
    if e == '"' {
        Some('"')
    } else if e == '\\' {
        Some('\\')
    } else if e == '/' {
        Some('/')
    } else if e == 'b' {
        Some('\u{8}')
    } else if e == 'f' {
        Some('\u{c}')
    } else if e == 'n' {
        Some('\n')
    } else if e == 'r' {
        Some('\r')
    } else if e == 't' {
        Some('\t')
    } else {
        None
    }
}

/// The character with the given code point below 128.
pub open spec fn char_of_code(v: int) -> char {
    (v as u8) as char
}

/// Prepend a decoded character to the outcome of parsing the rest of a
/// string body, accounting for the `n` input characters it occupied.
pub open spec fn str_cons(c: char, n: int, o: ParseOut<Seq<char>>) -> ParseOut<Seq<char>> {
    match o {
        ParseOut::Found(t, m) => ParseOut::Found(seq![c] + t, n + m),
        ParseOut::More => ParseOut::More,
        ParseOut::Fail => ParseOut::Fail,
    }
}

/// Parse the body of a JSON string literal (everything after the opening
/// quote) up to and including the closing quote.
pub open spec fn parse_str_body(s: Seq<char>) -> ParseOut<Seq<char>>
    decreases s.len(),
{
    if s.len() == 0 {
        ParseOut::More
    } else if s[0] == '"' {
        ParseOut::Found(Seq::empty(), 1)
    } else if s[0] == '\\' {
        if s.len() == 1 {
            ParseOut::More
        } else if unescape_short(s[1]) is Some {
            str_cons(unescape_short(s[1])->0, 2, parse_str_body(s.skip(2)))
        } else if s[1] == 'u' {
            if s.len() >= 3 && hex_val(s[2]) is None {
                ParseOut::Fail
            } else if s.len() >= 4 && hex_val(s[3]) is None {
                ParseOut::Fail
            } else if s.len() >= 5 && hex_val(s[4]) is None {
                ParseOut::Fail
            } else if s.len() < 6 {
                ParseOut::More
            } else if hex_val(s[5]) is None {
                ParseOut::Fail
            } else {
                let v = hex_val(s[2])->0 * 4096 + hex_val(s[3])->0 * 256 + hex_val(s[4])->0 * 16
                    + hex_val(s[5])->0;
                if v >= 128 {
                    ParseOut::Fail
                } else {
                    str_cons(char_of_code(v), 6, parse_str_body(s.skip(6)))
                }
            }
        } else {
            ParseOut::Fail
        }
    } else {
        str_cons(s[0], 1, parse_str_body(s.skip(1)))
    }
}

/// Parse a complete JSON string literal from the front of `s`.
pub open spec fn parse_json_str(s: Seq<char>) -> ParseOut<Seq<char>> {
    if s.len() == 0 {
        ParseOut::More
    } else if s[0] != '"' {
        ParseOut::Fail
    } else {
        match parse_str_body(s.skip(1)) {
            ParseOut::Found(t, m) => ParseOut::Found(t, 1 + m),
            ParseOut::More => ParseOut::More,
            ParseOut::Fail => ParseOut::Fail,
        }
    }
}

/// `s` begins with `lit`.
pub open spec fn starts_with(s: Seq<char>, lit: Seq<char>) -> bool {
    s.len() >= lit.len() && s.take(lit.len() as int) == lit
}

/// `s` ran out before `lit` was complete, but agrees with `lit` as far as
/// it goes; appending input may still complete the literal.
pub open spec fn may_extend_to(s: Seq<char>, lit: Seq<char>) -> bool {
    s.len() < lit.len() && s == lit.take(s.len() as int)
}

/// Parse a request frame (identically: a persisted record) from the front
/// of `s`.
pub open spec fn parse_req(s: Seq<char>) -> ParseOut<Req> {
    if starts_with(s, lit_put_pre()) {
        match parse_json_str(s.skip(lit_put_pre().len() as int)) {
            ParseOut::Found(k, n1) => {
                let r1 = s.skip(lit_put_pre().len() + n1);
                if starts_with(r1, lit_value_mid()) {
                    match parse_json_str(r1.skip(lit_value_mid().len() as int)) {
                        ParseOut::Found(v, n2) => {
                            let r2 = r1.skip(lit_value_mid().len() + n2);
                            if starts_with(r2, lit_obj_end()) {
                                ParseOut::Found(
                                    Req::Put { key: k, value: v },
                                    lit_put_pre().len() + n1 + lit_value_mid().len() + n2
                                        + lit_obj_end().len(),
                                )
                            } else if may_extend_to(r2, lit_obj_end()) {
                                ParseOut::More
                            } else {
                                ParseOut::Fail
                            }
                        }
                        ParseOut::More => ParseOut::More,
                        ParseOut::Fail => ParseOut::Fail,
                    }
                } else if may_extend_to(r1, lit_value_mid()) {
                    ParseOut::More
                } else {
                    ParseOut::Fail
                }
            }
            ParseOut::More => ParseOut::More,
            ParseOut::Fail => ParseOut::Fail,
        }
    } else if may_extend_to(s, lit_put_pre()) {
        ParseOut::More
    } else if starts_with(s, lit_get_pre()) {
        match parse_json_str(s.skip(lit_get_pre().len() as int)) {
            ParseOut::Found(k, n1) => {
                let r1 = s.skip(lit_get_pre().len() + n1);
                if starts_with(r1, lit_obj_end()) {
                    ParseOut::Found(
                        Req::Get { key: k },
                        lit_get_pre().len() + n1 + lit_obj_end().len(),
                    )
                } else if may_extend_to(r1, lit_obj_end()) {
                    ParseOut::More
                } else {
                    ParseOut::Fail
                }
            }
            ParseOut::More => ParseOut::More,
            ParseOut::Fail => ParseOut::Fail,
        }
    } else if may_extend_to(s, lit_get_pre()) {
        ParseOut::More
    } else if starts_with(s, lit_remove_pre()) {
        match parse_json_str(s.skip(lit_remove_pre().len() as int)) {
            ParseOut::Found(k, n1) => {
                let r1 = s.skip(lit_remove_pre().len() + n1);
                if starts_with(r1, lit_obj_end()) {
                    ParseOut::Found(
                        Req::Remove { key: k },
                        lit_remove_pre().len() + n1 + lit_obj_end().len(),
                    )
                } else if may_extend_to(r1, lit_obj_end()) {
                    ParseOut::More
                } else {
                    ParseOut::Fail
                }
            }
            ParseOut::More => ParseOut::More,
            ParseOut::Fail => ParseOut::Fail,
        }
    } else if may_extend_to(s, lit_remove_pre()) {
        ParseOut::More
    } else {
        ParseOut::Fail
    }
}

/// Parse a `Get` response frame from the front of `s`.
pub open spec fn parse_resp_get(s: Seq<char>) -> ParseOut<RespGet> {
    if starts_with(s, lit_ok_pre()) {
        let r = s.skip(lit_ok_pre().len() as int);
        if r.len() == 0 {
            ParseOut::More
        } else if r[0] == 'n' {
            if starts_with(r, lit_null()) {
                let r2 = r.skip(lit_null().len() as int);
                if r2.len() == 0 {
                    ParseOut::More
                } else if r2[0] == '}' {
                    ParseOut::Found(
                        RespGet::Okay(None),
                        lit_ok_pre().len() + lit_null().len() + 1 as int,
                    )
                } else {
                    ParseOut::Fail
                }
            } else if may_extend_to(r, lit_null()) {
                ParseOut::More
            } else {
                ParseOut::Fail
            }
        } else if r[0] == '"' {
            match parse_json_str(r) {
                ParseOut::Found(v, n) => {
                    let r2 = r.skip(n);
                    if r2.len() == 0 {
                        ParseOut::More
                    } else if r2[0] == '}' {
                        ParseOut::Found(RespGet::Okay(Some(v)), lit_ok_pre().len() + n + 1)
                    } else {
                        ParseOut::Fail
                    }
                }
                ParseOut::More => ParseOut::More,
                ParseOut::Fail => ParseOut::Fail,
            }
        } else {
            ParseOut::Fail
        }
    } else if may_extend_to(s, lit_ok_pre()) {
        ParseOut::More
    } else if starts_with(s, lit_err_pre()) {
        match parse_json_str(s.skip(lit_err_pre().len() as int)) {
            ParseOut::Found(m, n) => {
                let r2 = s.skip(lit_err_pre().len() + n);
                if r2.len() == 0 {
                    ParseOut::More
                } else if r2[0] == '}' {
                    ParseOut::Found(RespGet::Failed(m), lit_err_pre().len() + n + 1)
                } else {
                    ParseOut::Fail
                }
            }
            ParseOut::More => ParseOut::More,
            ParseOut::Fail => ParseOut::Fail,
        }
    } else if may_extend_to(s, lit_err_pre()) {
        ParseOut::More
    } else {
        ParseOut::Fail
    }
}

/// Parse a `Set` or `Remove` response frame from the front of `s`.
pub open spec fn parse_resp_unit(s: Seq<char>) -> ParseOut<RespU> {
    if starts_with(s, lit_ok_pre()) {
        let r = s.skip(lit_ok_pre().len() as int);
        if starts_with(r, lit_null()) {
            let r2 = r.skip(lit_null().len() as int);
            if r2.len() == 0 {
                ParseOut::More
            } else if r2[0] == '}' {
                ParseOut::Found(RespU::Okay, lit_ok_pre().len() + lit_null().len() + 1 as int)
            } else {
                ParseOut::Fail
            }
        } else if may_extend_to(r, lit_null()) {
            ParseOut::More
        } else {
            ParseOut::Fail
        }
    } else if may_extend_to(s, lit_ok_pre()) {
        ParseOut::More
    } else if starts_with(s, lit_err_pre()) {
        match parse_json_str(s.skip(lit_err_pre().len() as int)) {
            ParseOut::Found(m, n) => {
                let r2 = s.skip(lit_err_pre().len() + n);
                if r2.len() == 0 {
                    ParseOut::More
                } else if r2[0] == '}' {
                    ParseOut::Found(RespU::Failed(m), lit_err_pre().len() + n + 1)
                } else {
                    ParseOut::Fail
                }
            }
            ParseOut::More => ParseOut::More,
            ParseOut::Fail => ParseOut::Fail,
        }
    } else if may_extend_to(s, lit_err_pre()) {
        ParseOut::More
    } else {
        ParseOut::Fail
    }
}

/// Casting a code point below 128 to `u8` and back to `char` returns the
/// original character.
pub proof fn lemma_char_code_roundtrip(c: char)
    requires
        (c as u32) < 128,
    ensures
        char_of_code(c as u32 as int) == c,
{
}

// ---------------------------------------------------------------------------
// The codec laws: decoding inverts encoding, one frame at a time
// ---------------------------------------------------------------------------
/// The hex digit emitted for a value below 16 reads back as that value.
pub proof fn lemma_hex_digit_val(d: int)
    requires
        0 <= d < 16,
    ensures
        hex_val(hex_digit(d)) == Some(d),
{
}

/// The escaped body of a string, followed by the closing quote and any
/// further input, parses back to exactly that string, consuming exactly
/// the escaped body and the quote.
pub proof fn lemma_parse_body_of_esc(s: Seq<char>, rest: Seq<char>)
    ensures
        parse_str_body(esc_str(s) + seq!['"'] + rest) == ParseOut::Found(
            s,
            esc_str(s).len() + 1 as int,
        ),
    decreases s.len(),
{
    let w = esc_str(s) + seq!['"'] + rest;
    if s.len() == 0 {
        assert(esc_str(s) =~= Seq::<char>::empty());
        assert(w[0] == '"');
        assert(parse_str_body(w) == ParseOut::<Seq<char>>::Found(Seq::empty(), 1));
        assert(s =~= Seq::<char>::empty());
    } else {
        let c = s[0];
        let t = s.drop_first();
        let wt = esc_str(t) + seq!['"'] + rest;
        lemma_parse_body_of_esc(t, rest);
        assert(esc_str(s) == esc_char(c) + esc_str(t));
        assert(w =~= esc_char(c) + wt);
        assert(seq![c] + t =~= s);
        if c == '"' || c == '\\' || c == '\u{8}' || c == '\t' || c == '\n' || c == '\u{c}' || c
            == '\r' {
            let e = esc_char(c)[1];
            assert(w[0] == '\\');
            assert(w[1] == e);
            assert(w.len() >= 2);
            assert(unescape_short(e) == Some(c));
            assert(w.skip(2) =~= wt);
            assert(parse_str_body(w) == str_cons(c, 2, parse_str_body(wt)));
            assert(parse_str_body(w) == ParseOut::<Seq<char>>::Found(s, 2 + esc_str(t).len() + 1 as int));
            assert(esc_str(s).len() == 2 + esc_str(t).len());
        } else if (c as u32) < 32 {
            let v = (c as u32) as int;
            assert(esc_char(c) =~= seq!['\\', 'u', '0', '0', hex_digit(v / 16), hex_digit(v % 16)]);
            assert(w[0] == '\\');
            assert(w[1] == 'u');
            assert(unescape_short('u') is None);
            assert(w[2] == '0');
            assert(w[3] == '0');
            assert(w[4] == hex_digit(v / 16));
            assert(w[5] == hex_digit(v % 16));
            assert(w.len() >= 6);
            assert(hex_val('0') == Some(0int));
            lemma_hex_digit_val(v / 16);
            lemma_hex_digit_val(v % 16);
            assert(hex_val(w[2])->0 * 4096 + hex_val(w[3])->0 * 256 + hex_val(w[4])->0 * 16
                + hex_val(w[5])->0 == v);
            assert(v < 128);
            lemma_char_code_roundtrip(c);
            assert(w.skip(6) =~= wt);
            assert(parse_str_body(w) == str_cons(c, 6, parse_str_body(wt)));
            assert(parse_str_body(w) == ParseOut::<Seq<char>>::Found(s, 6 + esc_str(t).len() + 1 as int));
            assert(esc_str(s).len() == 6 + esc_str(t).len());
        } else {
            assert(esc_char(c) =~= seq![c]);
            assert(w[0] == c);
            assert(w.skip(1) =~= wt);
            assert(parse_str_body(w) == str_cons(c, 1, parse_str_body(wt)));
            assert(parse_str_body(w) == ParseOut::<Seq<char>>::Found(s, 1 + esc_str(t).len() + 1 as int));
            assert(esc_str(s).len() == 1 + esc_str(t).len());
        }
    }
}

/// A complete JSON string literal followed by any further input parses
/// back to exactly the original string, consuming exactly the literal.
pub proof fn lemma_parse_json_str_of_enc(s: Seq<char>, rest: Seq<char>)
    ensures
        parse_json_str(json_str(s) + rest) == ParseOut::Found(s, json_str(s).len() as int),
{
    let w = json_str(s) + rest;
    assert(w[0] == '"');
    assert(w.skip(1) =~= esc_str(s) + seq!['"'] + rest);
    lemma_parse_body_of_esc(s, rest);
    assert(json_str(s).len() == 1 + esc_str(s).len() + 1);
}

/// The streaming law for requests: the encoding of a request, followed by
/// any further input, parses back to exactly that request, consuming
/// exactly the encoding.  This is what makes records self-delimiting: a
/// reader takes one frame and leaves the rest of the stream untouched.
#[verifier::rlimit(100)]
pub proof fn lemma_parse_req_of_enc(r: Req, rest: Seq<char>)
    ensures
        parse_req(enc_req(r) + rest) == ParseOut::Found(r, enc_req(r).len() as int),
{
    let e = enc_req(r);
    let w = e + rest;
    match r {
        Req::Put { key, value } => {
            let a = lit_put_pre();
            let jk = json_str(key);
            let jv = json_str(value);
            assert(w.take(a.len() as int) =~= a);
            assert(starts_with(w, a));
            let tail1 = lit_value_mid() + jv + lit_obj_end() + rest;
            assert(w.skip(a.len() as int) =~= jk + tail1);
            lemma_parse_json_str_of_enc(key, tail1);
            let r1 = w.skip(a.len() + jk.len() as int);
            assert(r1 =~= tail1);
            assert(r1.take(lit_value_mid().len() as int) =~= lit_value_mid());
            assert(starts_with(r1, lit_value_mid()));
            let tail2 = lit_obj_end() + rest;
            assert(r1.skip(lit_value_mid().len() as int) =~= jv + tail2);
            lemma_parse_json_str_of_enc(value, tail2);
            let r2 = r1.skip(lit_value_mid().len() + jv.len() as int);
            assert(r2 =~= tail2);
            assert(r2.take(lit_obj_end().len() as int) =~= lit_obj_end());
            assert(starts_with(r2, lit_obj_end()));
            assert(e.len() == a.len() + jk.len() + lit_value_mid().len() + jv.len()
                + lit_obj_end().len());
        }
        Req::Get { key } => {
            let a = lit_get_pre();
            let jk = json_str(key);
            assert(w[2] == 'G');
            if starts_with(w, lit_put_pre()) {
                assert(w.take(lit_put_pre().len() as int)[2] == w[2]);
                assert(false);
            }
            assert(w.len() >= a.len());
            assert(!may_extend_to(w, lit_put_pre()));
            assert(w.take(a.len() as int) =~= a);
            assert(starts_with(w, a));
            let tail1 = lit_obj_end() + rest;
            assert(w.skip(a.len() as int) =~= jk + tail1);
            lemma_parse_json_str_of_enc(key, tail1);
            let r1 = w.skip(a.len() + jk.len() as int);
            assert(r1 =~= tail1);
            assert(r1.take(lit_obj_end().len() as int) =~= lit_obj_end());
            assert(starts_with(r1, lit_obj_end()));
            assert(e.len() == a.len() + jk.len() + lit_obj_end().len());
        }
        Req::Remove { key } => {
            let a = lit_remove_pre();
            let jk = json_str(key);
            assert(w[2] == 'R');
            if starts_with(w, lit_put_pre()) {
                assert(w.take(lit_put_pre().len() as int)[2] == w[2]);
                assert(false);
            }
            assert(w.len() >= a.len());
            assert(!may_extend_to(w, lit_put_pre()));
            if starts_with(w, lit_get_pre()) {
                assert(w.take(lit_get_pre().len() as int)[2] == w[2]);
                assert(false);
            }
            assert(!may_extend_to(w, lit_get_pre()));
            assert(w.take(a.len() as int) =~= a);
            assert(starts_with(w, a));
            let tail1 = lit_obj_end() + rest;
            assert(w.skip(a.len() as int) =~= jk + tail1);
            lemma_parse_json_str_of_enc(key, tail1);
            let r1 = w.skip(a.len() + jk.len() as int);
            assert(r1 =~= tail1);
            assert(r1.take(lit_obj_end().len() as int) =~= lit_obj_end());
            assert(starts_with(r1, lit_obj_end()));
            assert(e.len() == a.len() + jk.len() + lit_obj_end().len());
        }
    }
}

/// The streaming law for `Get` responses.
pub proof fn lemma_parse_resp_get_of_enc(r: RespGet, rest: Seq<char>)
    ensures
        parse_resp_get(enc_resp_get(r) + rest) == ParseOut::Found(r, enc_resp_get(r).len() as int),
{
    let e = enc_resp_get(r);
    let w = e + rest;
    match r {
        RespGet::Okay(ov) => {
            let a = lit_ok_pre();
            assert(w.take(a.len() as int) =~= a);
            assert(starts_with(w, a));
            match ov {
                None => {
                    let r1 = w.skip(a.len() as int);
                    assert(r1 =~= lit_null() + seq!['}'] + rest);
                    assert(r1[0] == 'n');
                    assert(r1.take(lit_null().len() as int) =~= lit_null());
                    assert(starts_with(r1, lit_null()));
                    let r2 = r1.skip(lit_null().len() as int);
                    assert(r2 =~= seq!['}'] + rest);
                    assert(r2[0] == '}');
                    assert(e.len() == a.len() + lit_null().len() + 1);
                }
                Some(v) => {
                    let jv = json_str(v);
                    let r1 = w.skip(a.len() as int);
                    assert(r1 =~= jv + (seq!['}'] + rest));
                    assert(r1[0] == '"');
                    lemma_parse_json_str_of_enc(v, seq!['}'] + rest);
                    let r2 = r1.skip(jv.len() as int);
                    assert(r2 =~= seq!['}'] + rest);
                    assert(r2[0] == '}');
                    assert(e.len() == a.len() + jv.len() + 1);
                }
            }
        }
        RespGet::Failed(m) => {
            let a = lit_err_pre();
            assert(w[2] == 'E');
            if starts_with(w, lit_ok_pre()) {
                assert(w.take(lit_ok_pre().len() as int)[2] == w[2]);
                assert(false);
            }
            assert(w.len() >= a.len());
            assert(!may_extend_to(w, lit_ok_pre()));
            let jm = json_str(m);
            assert(w.take(a.len() as int) =~= a);
            assert(starts_with(w, a));
            assert(w.skip(a.len() as int) =~= jm + (seq!['}'] + rest));
            lemma_parse_json_str_of_enc(m, seq!['}'] + rest);
            let r2 = w.skip(a.len() + jm.len() as int);
            assert(r2 =~= seq!['}'] + rest);
            assert(r2[0] == '}');
            assert(e.len() == a.len() + jm.len() + 1);
        }
    }
}

/// The streaming law for `Set` and `Remove` responses.
pub proof fn lemma_parse_resp_unit_of_enc(r: RespU, rest: Seq<char>)
    ensures
        parse_resp_unit(enc_resp_unit(r) + rest) == ParseOut::Found(
            r,
            enc_resp_unit(r).len() as int,
        ),
{
    let e = enc_resp_unit(r);
    let w = e + rest;
    match r {
        RespU::Okay => {
            let a = lit_ok_pre();
            assert(w.take(a.len() as int) =~= a);
            assert(starts_with(w, a));
            let r1 = w.skip(a.len() as int);
            assert(r1 =~= lit_null() + (seq!['}'] + rest));
            assert(r1.take(lit_null().len() as int) =~= lit_null());
            assert(starts_with(r1, lit_null()));
            let r2 = r1.skip(lit_null().len() as int);
            assert(r2 =~= seq!['}'] + rest);
            assert(r2[0] == '}');
            assert(e.len() == a.len() + lit_null().len() + 1);
        }
        RespU::Failed(m) => {
            let a = lit_err_pre();
            assert(w[2] == 'E');
            if starts_with(w, lit_ok_pre()) {
                assert(w.take(lit_ok_pre().len() as int)[2] == w[2]);
                assert(false);
            }
            assert(w.len() >= a.len());
            assert(!may_extend_to(w, lit_ok_pre()));
            let jm = json_str(m);
            assert(w.take(a.len() as int) =~= a);
            assert(starts_with(w, a));
            assert(w.skip(a.len() as int) =~= jm + (seq!['}'] + rest));
            lemma_parse_json_str_of_enc(m, seq!['}'] + rest);
            let r2 = w.skip(a.len() + jm.len() as int);
            assert(r2 =~= seq!['}'] + rest);
            assert(r2[0] == '}');
            assert(e.len() == a.len() + jm.len() + 1);
        }
    }
}

/// The encoding of a request is unambiguous inside a stream: equal streams
/// that both start with an encoded request carry the same request and the
/// same remainder.
pub proof fn lemma_enc_req_unambiguous(r1: Req, rest1: Seq<char>, r2: Req, rest2: Seq<char>)
    requires
        enc_req(r1) + rest1 == enc_req(r2) + rest2,
    ensures
        r1 == r2,
        rest1 == rest2,
{
    lemma_parse_req_of_enc(r1, rest1);
    lemma_parse_req_of_enc(r2, rest2);
    assert(enc_req(r1).len() == enc_req(r2).len());
    assert(rest1 =~= (enc_req(r1) + rest1).skip(enc_req(r1).len() as int));
    assert(rest2 =~= (enc_req(r2) + rest2).skip(enc_req(r2).len() as int));
}

// ---------------------------------------------------------------------------
// Executable decoders
// ---------------------------------------------------------------------------
/// Outcome of running a decoder on a buffer: the decoded value and the
/// number of characters it occupied, a report that the buffer holds only a
/// prefix of a frame, or a report that the buffer can never become one.
#[derive(Debug, Clone, PartialEq)]
pub enum Decoded<T> {
    Done { value: T, used: usize },
    Incomplete,
    Invalid,
}

/// Relies on `String::push`: it appends exactly the given character.
#[verifier::external_body]
fn string_push(s: &mut String, c: char)
    ensures
        final(s)@ == old(s)@.push(c),
{
    s.push(c);
}

enum LitMatch {
    Matched,
    Short,
    NoMatch,
}

fn match_lit(buf: &Vec<char>, pos: usize, lit: &Vec<char>) -> (r: LitMatch)
    requires
        pos <= buf@.len(),
    ensures
        (r is Matched) == starts_with(buf@.skip(pos as int), lit@),
        (r is Short) == may_extend_to(buf@.skip(pos as int), lit@),
{
    let ghost s = buf@.skip(pos as int);
    proof {
        assert(buf@.len() == buf.len());
    }
    let mut j: usize = 0;
    while j < lit.len()
        invariant
            pos <= buf@.len(),
            buf@.len() <= usize::MAX,
            j <= lit@.len(),
            pos + j <= buf@.len(),
            s == buf@.skip(pos as int),
            forall|t: int| 0 <= t < j ==> s[t] == lit@[t],
        decreases lit@.len() - j,
    {
        if pos + j == buf.len() {
            proof {
                assert(s.len() == buf@.len() - pos);
                assert(s =~= lit@.take(s.len() as int));
            }
            return LitMatch::Short;
        }
        if buf[pos + j] != lit[j] {
            proof {
                assert(s[j as int] == buf@[pos + j]);
                if s.len() >= lit@.len() && s.take(lit@.len() as int) == lit@ {
                    assert(s.take(lit@.len() as int)[j as int] == s[j as int]);
                    assert(lit@[j as int] == s[j as int]);
                    assert(false);
                }
                if s.len() < lit@.len() && s == lit@.take(s.len() as int) {
                    assert(j < s.len());
                    assert(lit@.take(s.len() as int)[j as int] == lit@[j as int]);
                    assert(s[j as int] == lit@[j as int]);
                    assert(false);
                }
            }
            return LitMatch::NoMatch;
        }
        j = j + 1;
    }
    proof {
        assert(s.len() >= lit@.len());
        assert(s.take(lit@.len() as int) =~= lit@);
    }
    LitMatch::Matched
}

fn hex_val_exec(c: char) -> (r: Option<u32>)
    ensures
        (r is Some) == (hex_val(c) is Some),
        r is Some ==> r->0 as int == hex_val(c)->0 && r->0 < 16,
{
    if c == '0' {
        Some(0)
    } else if c == '1' {
        Some(1)
    } else if c == '2' {
        Some(2)
    } else if c == '3' {
        Some(3)
    } else if c == '4' {
        Some(4)
    } else if c == '5' {
        Some(5)
    } else if c == '6' {
        Some(6)
    } else if c == '7' {
        Some(7)
    } else if c == '8' {
        Some(8)
    } else if c == '9' {
        Some(9)
    } else if c == 'a' || c == 'A' {
        Some(10)
    } else if c == 'b' || c == 'B' {
        Some(11)
    } else if c == 'c' || c == 'C' {
        Some(12)
    } else if c == 'd' || c == 'D' {
        Some(13)
    } else if c == 'e' || c == 'E' {
        Some(14)
    } else if c == 'f' || c == 'F' {
        Some(15)
    } else {
        None
    }
}

/// The loop relation of the string decoder: after consuming `d` characters
/// of the body into `acc`, parsing the whole body is determined by parsing
/// the remaining suffix.
spec fn body_rel(body: Seq<char>, d: int, acc: Seq<char>) -> bool {
    match parse_str_body(body.skip(d)) {
        ParseOut::Found(t, m) => parse_str_body(body) == ParseOut::Found(acc + t, d + m),
        ParseOut::More => parse_str_body(body) is More,
        ParseOut::Fail => parse_str_body(body) is Fail,
    }
}

proof fn lemma_body_rel_init(body: Seq<char>)
    ensures
        body_rel(body, 0, Seq::<char>::empty()),
{
    assert(body.skip(0) =~= body);
    match parse_str_body(body) {
        ParseOut::Found(t, m) => {
            assert(Seq::<char>::empty() + t =~= t);
        }
        ParseOut::More => {}
        ParseOut::Fail => {}
    }
}

proof fn lemma_body_rel_step(body: Seq<char>, d: int, acc: Seq<char>, ch: char, k: int)
    requires
        0 <= d,
        0 < k,
        d + k <= body.len(),
        body_rel(body, d, acc),
        parse_str_body(body.skip(d)) == str_cons(ch, k, parse_str_body(body.skip(d + k))),
    ensures
        body_rel(body, d + k, acc + seq![ch]),
{
    match parse_str_body(body.skip(d + k)) {
        ParseOut::Found(t, m) => {
            assert((acc + seq![ch]) + t =~= acc + (seq![ch] + t));
        }
        ParseOut::More => {}
        ParseOut::Fail => {}
    }
}

/// Decode one JSON string literal starting at `pos`.
pub fn decode_json_string_at(buf: &Vec<char>, pos: usize) -> (r: Decoded<String>)
    requires
        pos <= buf@.len(),
    ensures
        match parse_json_str(buf@.skip(pos as int)) {
            ParseOut::Found(t, n) => r matches Decoded::Done { value, used } && value@ == t && used
                as int == n && pos + used <= buf@.len(),
            ParseOut::More => r is Incomplete,
            ParseOut::Fail => r is Invalid,
        },
{
    let ghost s0 = buf@.skip(pos as int);
    if pos == buf.len() {
        return Decoded::Incomplete;
    }
    if buf[pos] != '"' {
        proof {
            assert(s0[0] == buf@[pos as int]);
        }
        return Decoded::Invalid;
    }
    let ghost body = buf@.skip(pos as int + 1);
    proof {
        assert(s0[0] == buf@[pos as int]);
        assert(s0.skip(1) =~= body);
    }
    let mut out = String::new();
    let mut i: usize = pos + 1;
    proof {
        lemma_body_rel_init(body);
    }
    loop
        invariant
            pos + 1 <= i <= buf@.len(),
            pos < buf@.len(),
            body == buf@.skip(pos as int + 1),
            s0 == buf@.skip(pos as int),
            s0.len() > 0,
            s0[0] == '"',
            s0.skip(1) == body,
            body_rel(body, i - pos - 1, out@),
        decreases buf@.len() - i,
    {
        let ghost d = i - pos - 1;
        let ghost cur = buf@.skip(i as int);
        proof {
            assert(body.skip(d as int) =~= cur);
        }
        if i == buf.len() {
            proof {
                assert(cur.len() == 0);
                assert(parse_str_body(cur) is More);
            }
            return Decoded::Incomplete;
        }
        let c = buf[i];
        proof {
            assert(cur[0] == c);
        }
        if c == '"' {
            proof {
                assert(parse_str_body(cur) == ParseOut::<Seq<char>>::Found(Seq::empty(), 1));
                assert(out@ + Seq::<char>::empty() =~= out@);
                assert(parse_str_body(body) == ParseOut::<Seq<char>>::Found(out@, d + 1));
            }
            return Decoded::Done { value: out, used: i + 1 - pos };
        } else if c == '\\' {
            if i + 1 == buf.len() {
                proof {
                    assert(cur.len() == 1);
                    assert(parse_str_body(cur) is More);
                }
                return Decoded::Incomplete;
            }
            let e = buf[i + 1];
            proof {
                assert(cur[1] == e);
            }
            let short: Option<char> = if e == '"' {
                Some('"')
            } else if e == '\\' {
                Some('\\')
            } else if e == '/' {
                Some('/')
            } else if e == 'b' {
                Some('\u{8}')
            } else if e == 'f' {
                Some('\u{c}')
            } else if e == 'n' {
                Some('\n')
            } else if e == 'r' {
                Some('\r')
            } else if e == 't' {
                Some('\t')
            } else {
                None
            };
            match short {
                Some(ch) => {
                    let ghost acc0 = out@;
                    proof {
                        assert(unescape_short(e) == Some(ch));
                        assert(cur.skip(2) =~= body.skip(d + 2));
                        assert(parse_str_body(cur) == str_cons(
                            ch,
                            2,
                            parse_str_body(body.skip(d + 2)),
                        ));
                        lemma_body_rel_step(body, d, acc0, ch, 2);
                    }
                    string_push(&mut out, ch);
                    proof {
                        assert(out@ =~= acc0 + seq![ch]);
                    }
                    i = i + 2;
                }
                None => {
                    if e != 'u' {
                        proof {
                            assert(parse_str_body(cur) is Fail);
                        }
                        return Decoded::Invalid;
                    }
                    // \uXXXX escape
                    let l = buf.len();
                    if l - i >= 3 {
                        if hex_val_exec(buf[i + 2]).is_none() {
                            proof {
                                assert(cur[2] == buf@[i + 2]);
                                assert(parse_str_body(cur) is Fail);
                            }
                            return Decoded::Invalid;
                        }
                    }
                    if l - i >= 4 {
                        if hex_val_exec(buf[i + 3]).is_none() {
                            proof {
                                assert(cur[3] == buf@[i + 3]);
                                assert(parse_str_body(cur) is Fail);
                            }
                            return Decoded::Invalid;
                        }
                    }
                    if l - i >= 5 {
                        if hex_val_exec(buf[i + 4]).is_none() {
                            proof {
                                assert(cur[4] == buf@[i + 4]);
                                assert(parse_str_body(cur) is Fail);
                            }
                            return Decoded::Invalid;
                        }
                    }
                    if l - i < 6 {
                        proof {
                            assert(cur.len() < 6);
                            assert(parse_str_body(cur) is More);
                        }
                        return Decoded::Incomplete;
                    }
                    let h2 = match hex_val_exec(buf[i + 2]) {
                        Some(h) => h,
                        None => {
                            return Decoded::Invalid;
                        }
                    };
                    let h3 = match hex_val_exec(buf[i + 3]) {
                        Some(h) => h,
                        None => {
                            return Decoded::Invalid;
                        }
                    };
                    let h4 = match hex_val_exec(buf[i + 4]) {
                        Some(h) => h,
                        None => {
                            return Decoded::Invalid;
                        }
                    };
                    let h5 = match hex_val_exec(buf[i + 5]) {
                        Some(h) => h,
                        None => {
                            proof {
                                assert(cur[5] == buf@[i + 5]);
                                assert(parse_str_body(cur) is Fail);
                            }
                            return Decoded::Invalid;
                        }
                    };
                    proof {
                        assert(cur[2] == buf@[i + 2]);
                        assert(cur[3] == buf@[i + 3]);
                        assert(cur[4] == buf@[i + 4]);
                        assert(cur[5] == buf@[i + 5]);
                    }
                    let v = h2 * 4096 + h3 * 256 + h4 * 16 + h5;
                    if v >= 128 {
                        proof {
                            assert(parse_str_body(cur) is Fail);
                        }
                        return Decoded::Invalid;
                    }
                    let ch = (v as u8) as char;
                    let ghost acc0 = out@;
                    proof {
                        assert(char_of_code(v as int) == ch);
                        assert(cur.skip(6) =~= body.skip(d + 6));
                        assert(parse_str_body(cur) == str_cons(
                            ch,
                            6,
                            parse_str_body(body.skip(d + 6)),
                        ));
                        lemma_body_rel_step(body, d, acc0, ch, 6);
                    }
                    string_push(&mut out, ch);
                    proof {
                        assert(out@ =~= acc0 + seq![ch]);
                    }
                    i = i + 6;
                }
            }
        } else {
            let ghost acc0 = out@;
            proof {
                assert(cur.skip(1) =~= body.skip(d + 1));
                assert(parse_str_body(cur) == str_cons(c, 1, parse_str_body(body.skip(d + 1))));
                lemma_body_rel_step(body, d, acc0, c, 1);
            }
            string_push(&mut out, c);
            proof {
                assert(out@ =~= acc0 + seq![c]);
            }
            i = i + 1;
        }
    }
}

/// Decode one request frame (identically: one persisted record) starting
/// at `pos`.
#[verifier::rlimit(100)]
pub fn decode_request_at(buf: &Vec<char>, pos: usize) -> (r: Decoded<Requests>)
    requires
        pos <= buf@.len(),
    ensures
        match parse_req(buf@.skip(pos as int)) {
            ParseOut::Found(m, n) => r matches Decoded::Done { value, used } && value@ == m && used
                as int == n && pos + used <= buf@.len(),
            ParseOut::More => r is Incomplete,
            ParseOut::Fail => r is Invalid,
        },
{
    let ghost s = buf@.skip(pos as int);
    proof {
        assert(buf@.len() == buf.len());
    }
    let mut lput: Vec<char> = Vec::new();
    crate::codec::push_lit_put_pre(&mut lput);
    let mut lget: Vec<char> = Vec::new();
    crate::codec::push_lit_get_pre(&mut lget);
    let mut lrm: Vec<char> = Vec::new();
    crate::codec::push_lit_remove_pre(&mut lrm);
    let mut lval: Vec<char> = Vec::new();
    crate::codec::push_lit_value_mid(&mut lval);
    proof {
        assert(lput@ =~= lit_put_pre());
        assert(lget@ =~= lit_get_pre());
        assert(lrm@ =~= lit_remove_pre());
        assert(lval@ =~= lit_value_mid());
    }
    match match_lit(buf, pos, &lput) {
        LitMatch::Short => Decoded::Incomplete,
        LitMatch::Matched => {
            proof {
                assert(s.len() >= lit_put_pre().len());
                assert(s.len() == buf@.len() - pos);
            }
            let p1 = pos + lput.len();
            proof {
                assert(s.skip(lit_put_pre().len() as int) =~= buf@.skip(p1 as int));
            }
            match decode_json_string_at(buf, p1) {
                Decoded::Incomplete => Decoded::Incomplete,
                Decoded::Invalid => Decoded::Invalid,
                Decoded::Done { value: key, used: n1 } => {
                    let p2 = p1 + n1;
                    let ghost r1 = s.skip(lit_put_pre().len() + n1 as int);
                    proof {
                        assert(r1 =~= buf@.skip(p2 as int));
                    }
                    match match_lit(buf, p2, &lval) {
                        LitMatch::Short => Decoded::Incomplete,
                        LitMatch::NoMatch => Decoded::Invalid,
                        LitMatch::Matched => {
                            let p3 = p2 + lval.len();
                            proof {
                                assert(r1.len() >= lit_value_mid().len());
                                assert(r1.skip(lit_value_mid().len() as int) =~= buf@.skip(
                                    p3 as int,
                                ));
                            }
                            match decode_json_string_at(buf, p3) {
                                Decoded::Incomplete => Decoded::Incomplete,
                                Decoded::Invalid => Decoded::Invalid,
                                Decoded::Done { value, used: n2 } => {
                                    let p4 = p3 + n2;
                                    let ghost r2 = r1.skip(lit_value_mid().len() + n2 as int);
                                    proof {
                                        assert(r2 =~= buf@.skip(p4 as int));
                                    }
                                    let mut lend: Vec<char> = Vec::new();
                                    lend.push('}');
                                    lend.push('}');
                                    proof {
                                        assert(lend@ =~= lit_obj_end());
                                    }
                                    match match_lit(buf, p4, &lend) {
                                        LitMatch::Short => Decoded::Incomplete,
                                        LitMatch::NoMatch => Decoded::Invalid,
                                        LitMatch::Matched => {
                                            proof {
                                                assert(r2.len() >= 2);
                                            }
                                            Decoded::Done {
                                                value: Requests::Put { key, value },
                                                used: p4 + 2 - pos,
                                            }
                                        }
                                    }
                                }
                            }
                        }
                    }
                }
            }
        }
        LitMatch::NoMatch => {
            match match_lit(buf, pos, &lget) {
                LitMatch::Short => Decoded::Incomplete,
                LitMatch::Matched => {
                    proof {
                        assert(s.len() >= lit_get_pre().len());
                        assert(s.len() == buf@.len() - pos);
                    }
                    let p1 = pos + lget.len();
                    proof {
                        assert(s.skip(lit_get_pre().len() as int) =~= buf@.skip(p1 as int));
                    }
                    match decode_json_string_at(buf, p1) {
                        Decoded::Incomplete => Decoded::Incomplete,
                        Decoded::Invalid => Decoded::Invalid,
                        Decoded::Done { value: key, used: n1 } => {
                            let p2 = p1 + n1;
                            let ghost r1 = s.skip(lit_get_pre().len() + n1 as int);
                            proof {
                                assert(r1 =~= buf@.skip(p2 as int));
                            }
                            let mut lend: Vec<char> = Vec::new();
                            lend.push('}');
                            lend.push('}');
                            proof {
                                assert(lend@ =~= lit_obj_end());
                            }
                            match match_lit(buf, p2, &lend) {
                                LitMatch::Short => Decoded::Incomplete,
                                LitMatch::NoMatch => Decoded::Invalid,
                                LitMatch::Matched => {
                                    proof {
                                        assert(r1.len() >= 2);
                                    }
                                    Decoded::Done {
                                        value: Requests::Get { key },
                                        used: p2 + 2 - pos,
                                    }
                                }
                            }
                        }
                    }
                }
                LitMatch::NoMatch => {
                    match match_lit(buf, pos, &lrm) {
                        LitMatch::Short => Decoded::Incomplete,
                        LitMatch::NoMatch => Decoded::Invalid,
                        LitMatch::Matched => {
                            proof {
                                assert(s.len() >= lit_remove_pre().len());
                                assert(s.len() == buf@.len() - pos);
                            }
                            let p1 = pos + lrm.len();
                            proof {
                                assert(s.skip(lit_remove_pre().len() as int) =~= buf@.skip(
                                    p1 as int,
                                ));
                            }
                            match decode_json_string_at(buf, p1) {
                                Decoded::Incomplete => Decoded::Incomplete,
                                Decoded::Invalid => Decoded::Invalid,
                                Decoded::Done { value: key, used: n1 } => {
                                    let p2 = p1 + n1;
                                    let ghost r1 = s.skip(lit_remove_pre().len() + n1 as int);
                                    proof {
                                        assert(r1 =~= buf@.skip(p2 as int));
                                    }
                                    let mut lend: Vec<char> = Vec::new();
                                    lend.push('}');
                                    lend.push('}');
                                    proof {
                                        assert(lend@ =~= lit_obj_end());
                                    }
                                    match match_lit(buf, p2, &lend) {
                                        LitMatch::Short => Decoded::Incomplete,
                                        LitMatch::NoMatch => Decoded::Invalid,
                                        LitMatch::Matched => {
                                            proof {
                                                assert(r1.len() >= 2);
                                            }
                                            Decoded::Done {
                                                value: Requests::Remove { key },
                                                used: p2 + 2 - pos,
                                            }
                                        }
                                    }
                                }
                            }
                        }
                    }
                }
            }
        }
    }
}

/// Decode one request frame from the front of the buffer.
pub fn decode_request(buf: &Vec<char>) -> (r: Decoded<Requests>)
    ensures
        match parse_req(buf@) {
            ParseOut::Found(m, n) => r matches Decoded::Done { value, used } && value@ == m && used
                as int == n && used <= buf@.len(),
            ParseOut::More => r is Incomplete,
            ParseOut::Fail => r is Invalid,
        },
{
    proof {
        assert(buf@.skip(0) =~= buf@);
    }
    decode_request_at(buf, 0)
}

/// Decode one `Get` response frame from the front of the buffer.
#[verifier::rlimit(100)]
pub fn decode_response_get(buf: &Vec<char>) -> (r: Decoded<Response4Get>)
    ensures
        match parse_resp_get(buf@) {
            ParseOut::Found(m, n) => r matches Decoded::Done { value, used } && value@ == m && used
                as int == n && used <= buf@.len(),
            ParseOut::More => r is Incomplete,
            ParseOut::Fail => r is Invalid,
        },
{
    let ghost s = buf@;
    proof {
        assert(buf@.skip(0) =~= buf@);
        assert(buf@.len() == buf.len());
    }
    let mut lok: Vec<char> = Vec::new();
    crate::codec::push_lit_ok_pre(&mut lok);
    let mut lerr: Vec<char> = Vec::new();
    crate::codec::push_lit_err_pre(&mut lerr);
    let mut lnull: Vec<char> = Vec::new();
    crate::codec::push_lit_null(&mut lnull);
    proof {
        assert(lok@ =~= lit_ok_pre());
        assert(lerr@ =~= lit_err_pre());
        assert(lnull@ =~= lit_null());
    }
    match match_lit(buf, 0, &lok) {
        LitMatch::Short => Decoded::Incomplete,
        LitMatch::Matched => {
            let p1 = lok.len();
            let ghost r1 = s.skip(lit_ok_pre().len() as int);
            proof {
                assert(s.len() >= lit_ok_pre().len());
                assert(r1 =~= buf@.skip(p1 as int));
            }
            if p1 == buf.len() {
                return Decoded::Incomplete;
            }
            let c0 = buf[p1];
            proof {
                assert(r1[0] == c0);
            }
            if c0 == 'n' {
                match match_lit(buf, p1, &lnull) {
                    LitMatch::Short => Decoded::Incomplete,
                    LitMatch::NoMatch => Decoded::Invalid,
                    LitMatch::Matched => {
                        let p2 = p1 + lnull.len();
                        let ghost r2 = r1.skip(lit_null().len() as int);
                        proof {
                            assert(r1.len() >= lit_null().len());
                            assert(r2 =~= buf@.skip(p2 as int));
                        }
                        if p2 == buf.len() {
                            return Decoded::Incomplete;
                        }
                        if buf[p2] == '}' {
                            proof {
                                assert(r2[0] == buf@[p2 as int]);
                            }
                            Decoded::Done { value: Response4Get::Okay(None), used: p2 + 1 }
                        } else {
                            proof {
                                assert(r2[0] == buf@[p2 as int]);
                            }
                            Decoded::Invalid
                        }
                    }
                }
            } else if c0 == '"' {
                match decode_json_string_at(buf, p1) {
                    Decoded::Incomplete => Decoded::Incomplete,
                    Decoded::Invalid => Decoded::Invalid,
                    Decoded::Done { value, used: n1 } => {
                        let p2 = p1 + n1;
                        let ghost r2 = r1.skip(n1 as int);
                        proof {
                            assert(r2 =~= buf@.skip(p2 as int));
                        }
                        if p2 == buf.len() {
                            return Decoded::Incomplete;
                        }
                        if buf[p2] == '}' {
                            proof {
                                assert(r2[0] == buf@[p2 as int]);
                            }
                            Decoded::Done {
                                value: Response4Get::Okay(Some(value)),
                                used: p2 + 1,
                            }
                        } else {
                            proof {
                                assert(r2[0] == buf@[p2 as int]);
                            }
                            Decoded::Invalid
                        }
                    }
                }
            } else {
                Decoded::Invalid
            }
        }
        LitMatch::NoMatch => {
            match match_lit(buf, 0, &lerr) {
                LitMatch::Short => Decoded::Incomplete,
                LitMatch::NoMatch => Decoded::Invalid,
                LitMatch::Matched => {
                    let p1 = lerr.len();
                    proof {
                        assert(s.len() >= lit_err_pre().len());
                        assert(s.skip(lit_err_pre().len() as int) =~= buf@.skip(p1 as int));
                    }
                    match decode_json_string_at(buf, p1) {
                        Decoded::Incomplete => Decoded::Incomplete,
                        Decoded::Invalid => Decoded::Invalid,
                        Decoded::Done { value, used: n1 } => {
                            let p2 = p1 + n1;
                            let ghost r2 = s.skip(lit_err_pre().len() + n1 as int);
                            proof {
                                assert(r2 =~= buf@.skip(p2 as int));
                            }
                            if p2 == buf.len() {
                                return Decoded::Incomplete;
                            }
                            if buf[p2] == '}' {
                                proof {
                                    assert(r2[0] == buf@[p2 as int]);
                                }
                                Decoded::Done { value: Response4Get::Failed(value), used: p2 + 1 }
                            } else {
                                proof {
                                    assert(r2[0] == buf@[p2 as int]);
                                }
                                Decoded::Invalid
                            }
                        }
                    }
                }
            }
        }
    }
}

/// Decode one `Set` response frame from the front of the buffer.
#[verifier::rlimit(100)]
pub fn decode_response_set(buf: &Vec<char>) -> (r: Decoded<Response4Set>)
    ensures
        match parse_resp_unit(buf@) {
            ParseOut::Found(m, n) => r matches Decoded::Done { value, used } && value@ == m && used
                as int == n && used <= buf@.len(),
            ParseOut::More => r is Incomplete,
            ParseOut::Fail => r is Invalid,
        },
{
    let ghost s = buf@;
    proof {
        assert(buf@.skip(0) =~= buf@);
        assert(buf@.len() == buf.len());
    }
    let mut lok: Vec<char> = Vec::new();
    crate::codec::push_lit_ok_pre(&mut lok);
    let mut lerr: Vec<char> = Vec::new();
    crate::codec::push_lit_err_pre(&mut lerr);
    let mut lnull: Vec<char> = Vec::new();
    crate::codec::push_lit_null(&mut lnull);
    proof {
        assert(lok@ =~= lit_ok_pre());
        assert(lerr@ =~= lit_err_pre());
        assert(lnull@ =~= lit_null());
    }
    match match_lit(buf, 0, &lok) {
        LitMatch::Short => Decoded::Incomplete,
        LitMatch::Matched => {
            let p1 = lok.len();
            let ghost r1 = s.skip(lit_ok_pre().len() as int);
            proof {
                assert(s.len() >= lit_ok_pre().len());
                assert(r1 =~= buf@.skip(p1 as int));
            }
            match match_lit(buf, p1, &lnull) {
                LitMatch::Short => Decoded::Incomplete,
                LitMatch::NoMatch => Decoded::Invalid,
                LitMatch::Matched => {
                    let p2 = p1 + lnull.len();
                    let ghost r2 = r1.skip(lit_null().len() as int);
                    proof {
                        assert(r1.len() >= lit_null().len());
                        assert(r2 =~= buf@.skip(p2 as int));
                    }
                    if p2 == buf.len() {
                        return Decoded::Incomplete;
                    }
                    if buf[p2] == '}' {
                        proof {
                            assert(r2[0] == buf@[p2 as int]);
                        }
                        Decoded::Done { value: Response4Set::Okay, used: p2 + 1 }
                    } else {
                        proof {
                            assert(r2[0] == buf@[p2 as int]);
                        }
                        Decoded::Invalid
                    }
                }
            }
        }
        LitMatch::NoMatch => {
            match match_lit(buf, 0, &lerr) {
                LitMatch::Short => Decoded::Incomplete,
                LitMatch::NoMatch => Decoded::Invalid,
                LitMatch::Matched => {
                    let p1 = lerr.len();
                    proof {
                        assert(s.len() >= lit_err_pre().len());
                        assert(s.skip(lit_err_pre().len() as int) =~= buf@.skip(p1 as int));
                    }
                    match decode_json_string_at(buf, p1) {
                        Decoded::Incomplete => Decoded::Incomplete,
                        Decoded::Invalid => Decoded::Invalid,
                        Decoded::Done { value, used: n1 } => {
                            let p2 = p1 + n1;
                            let ghost r2 = s.skip(lit_err_pre().len() + n1 as int);
                            proof {
                                assert(r2 =~= buf@.skip(p2 as int));
                            }
                            if p2 == buf.len() {
                                return Decoded::Incomplete;
                            }
                            if buf[p2] == '}' {
                                proof {
                                    assert(r2[0] == buf@[p2 as int]);
                                }
                                Decoded::Done { value: Response4Set::Failed(value), used: p2 + 1 }
                            } else {
                                proof {
                                    assert(r2[0] == buf@[p2 as int]);
                                }
                                Decoded::Invalid
                            }
                        }
                    }
                }
            }
        }
    }
}

/// Decode one `Remove` response frame from the front of the buffer.
pub fn decode_response_remove(buf: &Vec<char>) -> (r: Decoded<Response4Remove>)
    ensures
        match parse_resp_unit(buf@) {
            ParseOut::Found(m, n) => r matches Decoded::Done { value, used } && value@ == m && used
                as int == n && used <= buf@.len(),
            ParseOut::More => r is Incomplete,
            ParseOut::Fail => r is Invalid,
        },
{
    match decode_response_set(buf) {
        Decoded::Incomplete => Decoded::Incomplete,
        Decoded::Invalid => Decoded::Invalid,
        Decoded::Done { value, used } => {
            match value {
                Response4Set::Okay => Decoded::Done { value: Response4Remove::Okay, used },
                Response4Set::Failed(m) => Decoded::Done {
                    value: Response4Remove::Failed(m),
                    used,
                },
            }
        }
    }
}

} // verus!
