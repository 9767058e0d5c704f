//! The decoder: reading a configuration back from stored text. The text
//! must be one JSON object; the fields `url` and `token` must be present
//! with string values; unknown fields are ignored; a field that repeats,
//! a field of another type, surrounding garbage or malformed JSON all
//! fail.
//!
//! The grammar is stated as recursive specification functions over the
//! character sequence, each consuming a prefix and returning the remaining
//! suffix; the executable parser is proved to return exactly what they say.

use vstd::prelude::*;
use crate::config::Config;
use crate::config::ConfigError;
use crate::config::ConfigView;
use crate::chars::str_chars;
use crate::chars::chars_to_string;

verus! {

/// Relies on `char::from_u32` of std: it returns the character with the
/// given code point exactly when the code is a unicode scalar value, that
/// is, not a surrogate and at most `0x10FFFF`.
pub assume_specification[ char::from_u32 ](code: u32) -> (r: Option<char>)
    ensures
        r is Some <==> (code < 0xD800 || (0xE000 <= code && code <= 0x10FFFF)),
        r matches Some(c) ==> c as u32 == code,
;

/// Skipping twice is skipping once by the sum.
proof fn lemma_skip_skip(s: Seq<char>, i: int, k: int)
    requires
        0 <= i,
        0 <= k,
        i + k <= s.len(),
    ensures
        s.skip(i).skip(k) == s.skip(i + k),
{
    assert(s.skip(i).skip(k) =~= s.skip(i + k));
}

/// The JSON whitespace characters.
pub open spec fn is_ws(c: char) -> bool {
    c == ' ' || c == '\t' || c == '\n' || c == '\r'
}

/// The suffix after leading whitespace.
pub open spec fn ws_skip(s: Seq<char>) -> Seq<char>
    decreases s.len(),
{
    if s.len() > 0 && is_ws(s[0]) {
        ws_skip(s.skip(1))
    } else {
        s
    }
}

/// A decimal digit.
pub open spec fn is_digit(c: char) -> bool {
    '0' as u32 <= c as u32 && c as u32 <= '9' as u32
}

/// The suffix after a run of decimal digits.
pub open spec fn digits_skip(s: Seq<char>) -> Seq<char>
    decreases s.len(),
{
    if s.len() > 0 && is_digit(s[0]) {
        digits_skip(s.skip(1))
    } else {
        s
    }
}

/// The value of a hexadecimal digit, in either case, and a negative number
/// for any other character.
pub open spec fn hex_val(c: char) -> int {
    if c == '0' { 0 } else if c == '1' { 1 } else if c == '2' { 2 }
    else if c == '3' { 3 } else if c == '4' { 4 } else if c == '5' { 5 }
    else if c == '6' { 6 } else if c == '7' { 7 } else if c == '8' { 8 }
    else if c == '9' { 9 }
    else if c == 'a' || c == 'A' { 10 } else if c == 'b' || c == 'B' { 11 }
    else if c == 'c' || c == 'C' { 12 } else if c == 'd' || c == 'D' { 13 }
    else if c == 'e' || c == 'E' { 14 } else if c == 'f' || c == 'F' { 15 }
    else { -1 }
}

/// The one-character escapes allowed after a backslash.
pub open spec fn is_simple_escape(e: char) -> bool {
    e == '"' || e == '\\' || e == '/' || e == 'b' || e == 'f' || e == 'n' || e == 'r' || e == 't'
}

/// The character a one-character escape stands for.
pub open spec fn unescape_code(e: char) -> char {
    if e == '"' { '"' } else if e == '\\' { '\\' } else if e == '/' { '/' }
    else if e == 'b' { '\u{08}' } else if e == 'f' { '\u{0c}' }
    else if e == 'n' { '\n' } else if e == 'r' { '\r' } else { '\t' }
}

/// The body of a JSON string, entered just after the opening quote:
/// the characters it denotes and the suffix after the closing quote.
/// A `\u` escape carrying a high surrogate must be followed at once by one
/// carrying a low surrogate; the pair denotes the one character it encodes.
/// Unescaped control characters, bad escapes, lone or mismatched
/// surrogates and a missing closing quote all fail.
pub open spec fn parse_string_body(s: Seq<char>) -> Option<(Seq<char>, Seq<char>)>
    decreases s.len(),
{
    if s.len() == 0 {
        None
    } else if s[0] == '"' {
        Some((Seq::empty(), s.skip(1)))
    } else if s[0] == '\\' {
        if s.len() < 2 {
            None
        } else if is_simple_escape(s[1]) {
            match parse_string_body(s.skip(2)) {
                Some(cr) => Some((seq![unescape_code(s[1])] + cr.0, cr.1)),
                None => None,
            }
        } else if s[1] == 'u' {
            if s.len() >= 6 && hex_val(s[2]) >= 0 && hex_val(s[3]) >= 0 && hex_val(s[4]) >= 0
                && hex_val(s[5]) >= 0 {
                let code = hex_val(s[2]) * 4096 + hex_val(s[3]) * 256 + hex_val(s[4]) * 16
                    + hex_val(s[5]);
                if code < 0xD800 || code >= 0xE000 {
                    match parse_string_body(s.skip(6)) {
                        Some(cr) => Some((seq![code as char] + cr.0, cr.1)),
                        None => None,
                    }
                } else if code < 0xDC00 {
                    if s.len() >= 12 && s[6] == '\\' && s[7] == 'u' && hex_val(s[8]) >= 0
                        && hex_val(s[9]) >= 0 && hex_val(s[10]) >= 0 && hex_val(s[11]) >= 0 {
                        let low = hex_val(s[8]) * 4096 + hex_val(s[9]) * 256 + hex_val(s[10]) * 16
                            + hex_val(s[11]);
                        if 0xDC00 <= low && low < 0xE000 {
                            let combined = 0x10000 + (code - 0xD800) * 0x400 + (low - 0xDC00);
                            match parse_string_body(s.skip(12)) {
                                Some(cr) => Some((seq![combined as char] + cr.0, cr.1)),
                                None => None,
                            }
                        } else {
                            None
                        }
                    } else {
                        None
                    }
                } else {
                    None
                }
            } else {
                None
            }
        } else {
            None
        }
    } else if (s[0] as u32) < 0x20 {
        None
    } else {
        match parse_string_body(s.skip(1)) {
            Some(cr) => Some((seq![s[0]] + cr.0, cr.1)),
            None => None,
        }
    }
}

/// The suffix after a JSON number, or failure where none starts here.
pub open spec fn number_skip(s: Seq<char>) -> Option<Seq<char>> {
    let s1 = if s.len() > 0 && s[0] == '-' { s.skip(1) } else { s };
    if s1.len() == 0 || !is_digit(s1[0]) {
        None
    } else {
        let s2 = if s1[0] == '0' { s1.skip(1) } else { digits_skip(s1) };
        let s3 = if s2.len() >= 1 && s2[0] == '.' {
            if s2.len() >= 2 && is_digit(s2[1]) {
                Some(digits_skip(s2.skip(1)))
            } else {
                None
            }
        } else {
            Some(s2)
        };
        match s3 {
            None => None,
            Some(s3v) => {
                if s3v.len() >= 1 && (s3v[0] == 'e' || s3v[0] == 'E') {
                    let s4 = if s3v.len() >= 2 && (s3v[1] == '+' || s3v[1] == '-') {
                        s3v.skip(2)
                    } else {
                        s3v.skip(1)
                    };
                    if s4.len() >= 1 && is_digit(s4[0]) {
                        Some(digits_skip(s4))
                    } else {
                        None
                    }
                } else {
                    Some(s3v)
                }
            },
        }
    }
}

/// What a parsed JSON value is to this format: a string with its decoded
/// characters, or anything else.
pub ghost enum JsonVal {
    VStr(Seq<char>),
    VOther,
}

/// One JSON value and the suffix after it. `depth` bounds how deep objects
/// and arrays may nest, so that no stored text can drive the parser into
/// unbounded recursion; a value nested deeper fails.
pub open spec fn parse_value(s: Seq<char>, depth: nat) -> Option<(JsonVal, Seq<char>)>
    decreases s.len(), 0int,
{
    if s.len() == 0 {
        None
    } else if s[0] == '"' {
        match parse_string_body(s.skip(1)) {
            Some(cr) => Some((JsonVal::VStr(cr.0), cr.1)),
            None => None,
        }
    } else if s[0] == '{' {
        if depth == 0 {
            None
        } else {
            let r1 = ws_skip(s.skip(1));
            if r1.len() > 0 && r1[0] == '}' {
                Some((JsonVal::VOther, r1.skip(1)))
            } else if r1.len() < s.len() {
                match members_skip(r1, (depth - 1) as nat) {
                    Some(r2) => Some((JsonVal::VOther, r2)),
                    None => None,
                }
            } else {
                None
            }
        }
    } else if s[0] == '[' {
        if depth == 0 {
            None
        } else {
            let r1 = ws_skip(s.skip(1));
            if r1.len() > 0 && r1[0] == ']' {
                Some((JsonVal::VOther, r1.skip(1)))
            } else if r1.len() < s.len() {
                match elements_skip(r1, (depth - 1) as nat) {
                    Some(r2) => Some((JsonVal::VOther, r2)),
                    None => None,
                }
            } else {
                None
            }
        }
    } else if s.len() >= 4 && s.subrange(0, 4) == seq!['t', 'r', 'u', 'e'] {
        Some((JsonVal::VOther, s.skip(4)))
    } else if s.len() >= 5 && s.subrange(0, 5) == seq!['f', 'a', 'l', 's', 'e'] {
        Some((JsonVal::VOther, s.skip(5)))
    } else if s.len() >= 4 && s.subrange(0, 4) == seq!['n', 'u', 'l', 'l'] {
        Some((JsonVal::VOther, s.skip(4)))
    } else {
        match number_skip(s) {
            Some(r) => Some((JsonVal::VOther, r)),
            None => None,
        }
    }
}

/// The members of an object that is only skipped, entered at the first
/// member's opening quote; yields the suffix after the closing brace.
pub open spec fn members_skip(s: Seq<char>, depth: nat) -> Option<Seq<char>>
    decreases s.len(), 1int,
{
    if s.len() == 0 || s[0] != '"' {
        None
    } else {
        match parse_string_body(s.skip(1)) {
            None => None,
            Some(kr) => {
                let r2 = ws_skip(kr.1);
                if r2.len() > 0 && r2[0] == ':' {
                    let r3 = ws_skip(r2.skip(1));
                    if r3.len() < s.len() {
                        match parse_value(r3, depth) {
                            None => None,
                            Some(vr) => {
                                let r5 = ws_skip(vr.1);
                                if r5.len() > 0 && r5[0] == ',' {
                                    let r6 = ws_skip(r5.skip(1));
                                    if r6.len() < s.len() {
                                        members_skip(r6, depth)
                                    } else {
                                        None
                                    }
                                } else if r5.len() > 0 && r5[0] == '}' {
                                    Some(r5.skip(1))
                                } else {
                                    None
                                }
                            },
                        }
                    } else {
                        None
                    }
                } else {
                    None
                }
            },
        }
    }
}

/// The elements of an array that is only skipped, entered at the first
/// element; yields the suffix after the closing bracket.
pub open spec fn elements_skip(s: Seq<char>, depth: nat) -> Option<Seq<char>>
    decreases s.len(), 1int,
{
    if s.len() == 0 {
        None
    } else {
        match parse_value(s, depth) {
            None => None,
            Some(vr) => {
                let r2 = ws_skip(vr.1);
                if r2.len() > 0 && r2[0] == ',' {
                    let r3 = ws_skip(r2.skip(1));
                    if r3.len() < s.len() {
                        elements_skip(r3, depth)
                    } else {
                        None
                    }
                } else if r2.len() > 0 && r2[0] == ']' {
                    Some(r2.skip(1))
                } else {
                    None
                }
            },
        }
    }
}

/// Which of the two named fields have been seen so far, and with what
/// string values.
pub ghost struct Fields {
    pub url: Option<Seq<char>>,
    pub token: Option<Seq<char>>,
}

/// Folds one member into the fields seen so far: a repeated named field or
/// a named field whose value is not a string fails; an unknown field
/// changes nothing.
pub open spec fn fold_member(f: Fields, key: Seq<char>, v: JsonVal) -> Option<Fields> {
    if key == seq!['u', 'r', 'l'] {
        if f.url is Some {
            None
        } else {
            match v {
                JsonVal::VStr(c) => Some(Fields { url: Some(c), token: f.token }),
                JsonVal::VOther => None,
            }
        }
    } else if key == seq!['t', 'o', 'k', 'e', 'n'] {
        if f.token is Some {
            None
        } else {
            match v {
                JsonVal::VStr(c) => Some(Fields { url: f.url, token: Some(c) }),
                JsonVal::VOther => None,
            }
        }
    } else {
        Some(f)
    }
}

/// The members of the top-level object, entered at the first member's
/// opening quote; yields the fields found and the suffix after the closing
/// brace.
pub open spec fn top_members(s: Seq<char>, f: Fields, depth: nat) -> Option<(Fields, Seq<char>)>
    decreases s.len(),
{
    if s.len() == 0 || s[0] != '"' {
        None
    } else {
        match parse_string_body(s.skip(1)) {
            None => None,
            Some(kr) => {
                let r2 = ws_skip(kr.1);
                if r2.len() > 0 && r2[0] == ':' {
                    let r3 = ws_skip(r2.skip(1));
                    if r3.len() < s.len() {
                        match parse_value(r3, depth) {
                            None => None,
                            Some(vr) => match fold_member(f, kr.0, vr.0) {
                                None => None,
                                Some(f2) => {
                                    let r5 = ws_skip(vr.1);
                                    if r5.len() > 0 && r5[0] == ',' {
                                        let r6 = ws_skip(r5.skip(1));
                                        if r6.len() < s.len() {
                                            top_members(r6, f2, depth)
                                        } else {
                                            None
                                        }
                                    } else if r5.len() > 0 && r5[0] == '}' {
                                        Some((f2, r5.skip(1)))
                                    } else {
                                        None
                                    }
                                },
                            },
                        }
                    } else {
                        None
                    }
                } else {
                    None
                }
            },
        }
    }
}

/// What stored text decodes to: the configuration it holds, or nothing
/// where the text is rejected. The text must be one JSON object and
/// nothing else; both named fields must appear, as strings, each once.
pub open spec fn spec_decode(s: Seq<char>) -> Option<ConfigView> {
    let t0 = ws_skip(s);
    if t0.len() == 0 || t0[0] != '{' {
        None
    } else {
        let t1 = ws_skip(t0.skip(1));
        if t1.len() > 0 && t1[0] == '}' {
            None
        } else {
            match top_members(t1, Fields { url: None, token: None }, 127) {
                None => None,
                Some(fr) => {
                    if ws_skip(fr.1).len() == 0 {
                        match (fr.0.url, fr.0.token) {
                            (Some(u), Some(t)) => Some(ConfigView { url: u, token: t }),
                            _ => None,
                        }
                    } else {
                        None
                    }
                },
            }
        }
    }
}

/// The fields as the specification sees them.
pub open spec fn opt_view(o: Option<Vec<char>>) -> Option<Seq<char>> {
    match o {
        Some(v) => Some(v@),
        None => None,
    }
}

/// First position at or after `i` whose character is not JSON whitespace.
fn ws_to(s: &Vec<char>, i: usize) -> (j: usize)
    requires
        i <= s@.len(),
    ensures
        i <= j <= s@.len(),
        s@.skip(j as int) == ws_skip(s@.skip(i as int)),
{
    let mut cur: usize = i;
    while cur < s.len() && (s[cur] == ' ' || s[cur] == '\t' || s[cur] == '\n' || s[cur] == '\r')
        invariant
            i <= cur <= s@.len(),
            ws_skip(s@.skip(i as int)) == ws_skip(s@.skip(cur as int)),
        decreases s@.len() - cur,
    {
        proof {
            assert(s@.skip(cur as int)[0] == s@[cur as int]);
            lemma_skip_skip(s@, cur as int, 1);
        }
        cur = cur + 1;
    }
    proof {
        if cur < s@.len() {
            assert(s@.skip(cur as int)[0] == s@[cur as int]);
        }
        assert(ws_skip(s@.skip(cur as int)) == s@.skip(cur as int));
    }
    cur
}

/// Whether a character is a decimal digit.
fn is_digit_exec(c: char) -> (r: bool)
    ensures
        r == is_digit(c),
{
    let n = c as u32;
    48 <= n && n <= 57
}

/// First position at or after `i` whose character is not a decimal digit.
fn digits_to(s: &Vec<char>, i: usize) -> (j: usize)
    requires
        i <= s@.len(),
    ensures
        i <= j <= s@.len(),
        s@.skip(j as int) == digits_skip(s@.skip(i as int)),
        i < s@.len() && is_digit(s@[i as int]) ==> i < j,
{
    let mut cur: usize = i;
    while cur < s.len() && is_digit_exec(s[cur])
        invariant
            i <= cur <= s@.len(),
            digits_skip(s@.skip(i as int)) == digits_skip(s@.skip(cur as int)),
            i < s@.len() && is_digit(s@[i as int]) && cur == i ==> cur < s@.len() && is_digit(s@[cur as int]),
        decreases s@.len() - cur,
    {
        proof {
            assert(s@.skip(cur as int)[0] == s@[cur as int]);
            lemma_skip_skip(s@, cur as int, 1);
        }
        cur = cur + 1;
    }
    proof {
        if cur < s@.len() {
            assert(s@.skip(cur as int)[0] == s@[cur as int]);
        }
        assert(digits_skip(s@.skip(cur as int)) == s@.skip(cur as int));
    }
    cur
}

/// The value of a hexadecimal digit, in either case.
fn hex_exec(c: char) -> (r: Option<u32>)
    ensures
        r matches Some(v) ==> v < 16 && v == hex_val(c),
        r is None ==> hex_val(c) < 0,
{
    if c == '0' { Some(0) } else if c == '1' { Some(1) } else if c == '2' { Some(2) }
    else if c == '3' { Some(3) } else if c == '4' { Some(4) } else if c == '5' { Some(5) }
    else if c == '6' { Some(6) } else if c == '7' { Some(7) } else if c == '8' { Some(8) }
    else if c == '9' { Some(9) }
    else if c == 'a' || c == 'A' { Some(10) } else if c == 'b' || c == 'B' { Some(11) }
    else if c == 'c' || c == 'C' { Some(12) } else if c == 'd' || c == 'D' { Some(13) }
    else if c == 'e' || c == 'E' { Some(14) } else if c == 'f' || c == 'F' { Some(15) }
    else { None }
}

/// The character a one-character escape stands for.
fn unescape_exec(e: char) -> (c: char)
    requires
        is_simple_escape(e),
    ensures
        c == unescape_code(e),
{
    if e == '"' { '"' } else if e == '\\' { '\\' } else if e == '/' { '/' }
    else if e == 'b' { '\u{08}' } else if e == 'f' { '\u{0c}' }
    else if e == 'n' { '\n' } else if e == 'r' { '\r' } else { '\t' }
}

/// Scans a JSON string body, entered just after the opening quote; returns
/// the decoded characters and the position after the closing quote.
fn scan_string_body(s: &Vec<char>, start: usize) -> (r: Option<(Vec<char>, usize)>)
    requires
        start <= s@.len(),
    ensures
        r matches Some(p) ==> start < p.1 <= s@.len()
            && parse_string_body(s@.skip(start as int)) == Some((p.0@, s@.skip(p.1 as int))),
        r is None ==> parse_string_body(s@.skip(start as int)) is None,
{
    let mut cur: usize = start;
    let mut out: Vec<char> = Vec::new();
    loop
        invariant
            start <= cur <= s@.len(),
            parse_string_body(s@.skip(start as int)) == (match parse_string_body(
                s@.skip(cur as int),
            ) {
                Some(cr) => Some::<(Seq<char>, Seq<char>)>((out@ + cr.0, cr.1)),
                None => None::<(Seq<char>, Seq<char>)>,
            }),
        decreases s@.len() - cur,
    {
        if cur >= s.len() {
            return None;
        }
        let c = s[cur];
        proof {
            assert(s@.skip(cur as int)[0] == c);
        }
        if c == '"' {
            proof {
                lemma_skip_skip(s@, cur as int, 1);
                assert(out@ + Seq::<char>::empty() =~= out@);
            }
            return Some((out, cur + 1));
        } else if c == '\\' {
            if cur + 1 >= s.len() {
                return None;
            }
            let e = s[cur + 1];
            proof {
                assert(s@.skip(cur as int)[1] == e);
            }
            if e == '"' || e == '\\' || e == '/' || e == 'b' || e == 'f' || e == 'n' || e == 'r'
                || e == 't' {
                let u = unescape_exec(e);
                let ghost oc = cur as int;
                let ghost oo = out@;
                proof {
                    lemma_skip_skip(s@, oc, 2);
                }
                out.push(u);
                cur = cur + 2;
                proof {
                    match parse_string_body(s@.skip(oc + 2)) {
                        Some(cr) => {
                            assert(oo + (seq![u] + cr.0) =~= (oo + seq![u]) + cr.0);
                            assert(out@ =~= oo + seq![u]);
                        },
                        None => {},
                    }
                }
            } else if e == 'u' {
                if s.len() - cur < 6 {
                    return None;
                }
                let h2 = hex_exec(s[cur + 2]);
                let h3 = hex_exec(s[cur + 3]);
                let h4 = hex_exec(s[cur + 4]);
                let h5 = hex_exec(s[cur + 5]);
                proof {
                    assert(s@.skip(cur as int)[2] == s@[cur + 2 as int]);
                    assert(s@.skip(cur as int)[3] == s@[cur + 3 as int]);
                    assert(s@.skip(cur as int)[4] == s@[cur + 4 as int]);
                    assert(s@.skip(cur as int)[5] == s@[cur + 5 as int]);
                }
                match (h2, h3, h4, h5) {
                    (Some(v2), Some(v3), Some(v4), Some(v5)) => {
                        let code: u32 = v2 * 4096 + v3 * 256 + v4 * 16 + v5;
                        if code < 0xD800 || code >= 0xE000 {
                            match char::from_u32(code) {
                                None => {
                                    return None;
                                },
                                Some(u) => {
                                    let ghost oc = cur as int;
                                    let ghost oo = out@;
                                    proof {
                                        lemma_skip_skip(s@, oc, 6);
                                        assert(u as u32 == code);
                                        vstd::utf8::char_u32_cast(u, code);
                                        assert((code as int) as char == u);
                                    }
                                    out.push(u);
                                    cur = cur + 6;
                                    proof {
                                        match parse_string_body(s@.skip(oc + 6)) {
                                            Some(cr) => {
                                                assert(oo + (seq![u] + cr.0) =~= (oo + seq![u])
                                                    + cr.0);
                                                assert(out@ =~= oo + seq![u]);
                                            },
                                            None => {},
                                        }
                                    }
                                },
                            }
                        } else if code < 0xDC00 {
                            if s.len() - cur < 12 {
                                return None;
                            }
                            proof {
                                assert(s@.skip(cur as int)[6] == s@[cur + 6 as int]);
                                assert(s@.skip(cur as int)[7] == s@[cur + 7 as int]);
                            }
                            if !(s[cur + 6] == '\\' && s[cur + 7] == 'u') {
                                return None;
                            }
                            let k2 = hex_exec(s[cur + 8]);
                            let k3 = hex_exec(s[cur + 9]);
                            let k4 = hex_exec(s[cur + 10]);
                            let k5 = hex_exec(s[cur + 11]);
                            proof {
                                assert(s@.skip(cur as int)[8] == s@[cur + 8 as int]);
                                assert(s@.skip(cur as int)[9] == s@[cur + 9 as int]);
                                assert(s@.skip(cur as int)[10] == s@[cur + 10 as int]);
                                assert(s@.skip(cur as int)[11] == s@[cur + 11 as int]);
                            }
                            match (k2, k3, k4, k5) {
                                (Some(w2), Some(w3), Some(w4), Some(w5)) => {
                                    let low: u32 = w2 * 4096 + w3 * 256 + w4 * 16 + w5;
                                    if !(0xDC00 <= low && low < 0xE000) {
                                        return None;
                                    }
                                    let combined: u32 = 0x10000 + (code - 0xD800) * 0x400 + (low
                                        - 0xDC00);
                                    match char::from_u32(combined) {
                                        None => {
                                            return None;
                                        },
                                        Some(u) => {
                                            let ghost oc = cur as int;
                                            let ghost oo = out@;
                                            proof {
                                                lemma_skip_skip(s@, oc, 12);
                                                assert(u as u32 == combined);
                                                vstd::utf8::char_u32_cast(u, combined);
                                                assert((combined as int) as char == u);
                                            }
                                            out.push(u);
                                            cur = cur + 12;
                                            proof {
                                                match parse_string_body(s@.skip(oc + 12)) {
                                                    Some(cr) => {
                                                        assert(oo + (seq![u] + cr.0) =~= (oo
                                                            + seq![u]) + cr.0);
                                                        assert(out@ =~= oo + seq![u]);
                                                    },
                                                    None => {},
                                                }
                                            }
                                        },
                                    }
                                },
                                _ => {
                                    return None;
                                },
                            }
                        } else {
                            return None;
                        }
                    },
                    _ => {
                        return None;
                    },
                }
            } else {
                return None;
            }
        } else if (c as u32) < 0x20 {
            return None;
        } else {
            let ghost oc = cur as int;
            let ghost oo = out@;
            proof {
                lemma_skip_skip(s@, oc, 1);
            }
            out.push(c);
            cur = cur + 1;
            proof {
                match parse_string_body(s@.skip(oc + 1)) {
                    Some(cr) => {
                        assert(oo + (seq![c] + cr.0) =~= (oo + seq![c]) + cr.0);
                        assert(out@ =~= oo + seq![c]);
                    },
                    None => {},
                }
            }
        }
    }
}

/// Scans a JSON number; returns the position after it.
fn scan_number(s: &Vec<char>, i: usize) -> (r: Option<usize>)
    requires
        i <= s@.len(),
    ensures
        r matches Some(j) ==> i < j <= s@.len()
            && number_skip(s@.skip(i as int)) == Some(s@.skip(j as int)),
        r is None ==> number_skip(s@.skip(i as int)) is None,
{
    let ghost sp = s@.skip(i as int);
    let minus = i < s.len() && s[i] == '-';
    let i1 = if minus { i + 1 } else { i };
    proof {
        if i < s@.len() {
            assert(sp[0] == s@[i as int]);
        }
        if minus {
            lemma_skip_skip(s@, i as int, 1);
        }
        assert(s@.skip(i1 as int) == (if sp.len() > 0 && sp[0] == '-' { sp.skip(1) } else { sp }));
    }
    if i1 >= s.len() {
        return None;
    }
    let c = s[i1];
    proof {
        assert(s@.skip(i1 as int)[0] == c);
    }
    if !is_digit_exec(c) {
        return None;
    }
    let i2 = if c == '0' {
        proof {
            lemma_skip_skip(s@, i1 as int, 1);
        }
        i1 + 1
    } else {
        digits_to(s, i1)
    };
    let i3 = if i2 < s.len() && s[i2] == '.' {
        proof {
            assert(s@.skip(i2 as int)[0] == s@[i2 as int]);
            if i2 + 1 < s@.len() {
                assert(s@.skip(i2 as int)[1] == s@[i2 + 1 as int]);
            }
        }
        if i2 + 1 < s.len() && is_digit_exec(s[i2 + 1]) {
            proof {
                lemma_skip_skip(s@, i2 as int, 1);
            }
            digits_to(s, i2 + 1)
        } else {
            return None;
        }
    } else {
        proof {
            if i2 < s@.len() {
                assert(s@.skip(i2 as int)[0] == s@[i2 as int]);
            }
        }
        i2
    };
    if i3 < s.len() && (s[i3] == 'e' || s[i3] == 'E') {
        proof {
            assert(s@.skip(i3 as int)[0] == s@[i3 as int]);
            if i3 + 1 < s@.len() {
                assert(s@.skip(i3 as int)[1] == s@[i3 + 1 as int]);
            }
        }
        let i4 = if i3 + 1 < s.len() && (s[i3 + 1] == '+' || s[i3 + 1] == '-') {
            proof {
                lemma_skip_skip(s@, i3 as int, 2);
            }
            i3 + 2
        } else {
            proof {
                lemma_skip_skip(s@, i3 as int, 1);
            }
            i3 + 1
        };
        if i4 < s.len() && is_digit_exec(s[i4]) {
            proof {
                assert(s@.skip(i4 as int)[0] == s@[i4 as int]);
            }
            Some(digits_to(s, i4))
        } else {
            None
        }
    } else {
        proof {
            if i3 < s@.len() {
                assert(s@.skip(i3 as int)[0] == s@[i3 as int]);
            }
        }
        Some(i3)
    }
}

/// Scans one JSON value; for a string, also returns its decoded characters.
fn scan_value(s: &Vec<char>, i: usize, depth: u32) -> (r: Option<(Option<Vec<char>>, usize)>)
    requires
        i <= s@.len(),
    ensures
        r matches Some(p) ==> i < p.1 <= s@.len(),
        r matches Some(p) ==> parse_value(s@.skip(i as int), depth as nat) == Some(
            (
                match p.0 {
                    Some(c) => JsonVal::VStr(c@),
                    None => JsonVal::VOther,
                },
                s@.skip(p.1 as int),
            ),
        ),
        r is None ==> parse_value(s@.skip(i as int), depth as nat) is None,
    decreases s@.len() - i, 0int,
{
    if i >= s.len() {
        return None;
    }
    let c0 = s[i];
    proof {
        assert(s@.skip(i as int)[0] == c0);
    }
    if c0 == '"' {
        proof {
            lemma_skip_skip(s@, i as int, 1);
        }
        match scan_string_body(s, i + 1) {
            Some((content, j)) => Some((Some(content), j)),
            None => None,
        }
    } else if c0 == '{' {
        if depth == 0 {
            return None;
        }
        proof {
            lemma_skip_skip(s@, i as int, 1);
        }
        let j = ws_to(s, i + 1);
        if j < s.len() && s[j] == '}' {
            proof {
                assert(s@.skip(j as int)[0] == s@[j as int]);
                lemma_skip_skip(s@, j as int, 1);
            }
            return Some((None, j + 1));
        }
        proof {
            if j < s@.len() {
                assert(s@.skip(j as int)[0] == s@[j as int]);
            }
        }
        match members_to(s, j, depth - 1) {
            Some(k) => Some((None, k)),
            None => None,
        }
    } else if c0 == '[' {
        if depth == 0 {
            return None;
        }
        proof {
            lemma_skip_skip(s@, i as int, 1);
        }
        let j = ws_to(s, i + 1);
        if j < s.len() && s[j] == ']' {
            proof {
                assert(s@.skip(j as int)[0] == s@[j as int]);
                lemma_skip_skip(s@, j as int, 1);
            }
            return Some((None, j + 1));
        }
        proof {
            if j < s@.len() {
                assert(s@.skip(j as int)[0] == s@[j as int]);
            }
        }
        match elements_to(s, j, depth - 1) {
            Some(k) => Some((None, k)),
            None => None,
        }
    } else if c0 == 't' {
        if s.len() - i >= 4 && s[i + 1] == 'r' && s[i + 2] == 'u' && s[i + 3] == 'e' {
            proof {
                assert(s@.skip(i as int).subrange(0, 4) =~= seq!['t', 'r', 'u', 'e']);
                lemma_skip_skip(s@, i as int, 4);
            }
            Some((None, i + 4))
        } else {
            proof {
                lemma_not_literal(s@.skip(i as int), s@, i as int);
            }
            None
        }
    } else if c0 == 'f' {
        if s.len() - i >= 5 && s[i + 1] == 'a' && s[i + 2] == 'l' && s[i + 3] == 's'
            && s[i + 4] == 'e' {
            proof {
                assert(s@.skip(i as int).subrange(0, 5) =~= seq!['f', 'a', 'l', 's', 'e']);
                lemma_skip_skip(s@, i as int, 5);
            }
            Some((None, i + 5))
        } else {
            proof {
                lemma_not_literal(s@.skip(i as int), s@, i as int);
            }
            None
        }
    } else if c0 == 'n' {
        if s.len() - i >= 4 && s[i + 1] == 'u' && s[i + 2] == 'l' && s[i + 3] == 'l' {
            proof {
                assert(s@.skip(i as int).subrange(0, 4) =~= seq!['n', 'u', 'l', 'l']);
                lemma_skip_skip(s@, i as int, 4);
            }
            Some((None, i + 4))
        } else {
            proof {
                lemma_not_literal(s@.skip(i as int), s@, i as int);
            }
            None
        }
    } else {
        proof {
            lemma_not_literal(s@.skip(i as int), s@, i as int);
        }
        match scan_number(s, i) {
            Some(j) => Some((None, j)),
            None => None,
        }
    }
}

/// A suffix whose visible characters differ from a keyword differs from it
/// as a sequence.
proof fn lemma_not_literal(t: Seq<char>, s: Seq<char>, i: int)
    requires
        0 <= i <= s.len(),
        t == s.skip(i),
    ensures
        t.len() >= 4 && t.subrange(0, 4) == seq!['t', 'r', 'u', 'e'] ==> (t[0] == 't' && t[1]
            == 'r' && t[2] == 'u' && t[3] == 'e'),
        t.len() >= 5 && t.subrange(0, 5) == seq!['f', 'a', 'l', 's', 'e'] ==> (t[0] == 'f' && t[1]
            == 'a' && t[2] == 'l' && t[3] == 's' && t[4] == 'e'),
        t.len() >= 4 && t.subrange(0, 4) == seq!['n', 'u', 'l', 'l'] ==> (t[0] == 'n' && t[1]
            == 'u' && t[2] == 'l' && t[3] == 'l'),
        forall|k: int| 0 <= k < t.len() ==> t[k] == s[i + k],
{
    if t.len() >= 4 && t.subrange(0, 4) == seq!['t', 'r', 'u', 'e'] {
        assert(forall|k: int| 0 <= k < 4 ==> t[k] == #[trigger] t.subrange(0, 4)[k]);
    }
    if t.len() >= 5 && t.subrange(0, 5) == seq!['f', 'a', 'l', 's', 'e'] {
        assert(forall|k: int| 0 <= k < 5 ==> t[k] == #[trigger] t.subrange(0, 5)[k]);
    }
    if t.len() >= 4 && t.subrange(0, 4) == seq!['n', 'u', 'l', 'l'] {
        assert(forall|k: int| 0 <= k < 4 ==> t[k] == #[trigger] t.subrange(0, 4)[k]);
    }
}

/// Scans the members of a skipped object, entered at the first member's
/// opening quote; returns the position after the closing brace.
fn members_to(s: &Vec<char>, start: usize, depth: u32) -> (r: Option<usize>)
    requires
        start <= s@.len(),
    ensures
        r matches Some(j) ==> start < j <= s@.len() && members_skip(
            s@.skip(start as int),
            depth as nat,
        ) == Some(s@.skip(j as int)),
        r is None ==> members_skip(s@.skip(start as int), depth as nat) is None,
    decreases s@.len() - start, 1int,
{
    let mut cur: usize = start;
    loop
        invariant
            start <= cur <= s@.len(),
            members_skip(s@.skip(start as int), depth as nat) == members_skip(
                s@.skip(cur as int),
                depth as nat,
            ),
        decreases s@.len() - cur,
    {
        if cur >= s.len() {
            return None;
        }
        if s[cur] != '"' {
            proof {
                assert(s@.skip(cur as int)[0] == s@[cur as int]);
            }
            return None;
        }
        proof {
            assert(s@.skip(cur as int)[0] == s@[cur as int]);
            lemma_skip_skip(s@, cur as int, 1);
        }
        match scan_string_body(s, cur + 1) {
            None => {
                return None;
            },
            Some((_key, p)) => {
                let q = ws_to(s, p);
                if q >= s.len() || s[q] != ':' {
                    proof {
                        if q < s@.len() {
                            assert(s@.skip(q as int)[0] == s@[q as int]);
                        }
                    }
                    return None;
                }
                proof {
                    assert(s@.skip(q as int)[0] == s@[q as int]);
                    lemma_skip_skip(s@, q as int, 1);
                }
                let m = ws_to(s, q + 1);
                match scan_value(s, m, depth) {
                    None => {
                        return None;
                    },
                    Some((_v, a)) => {
                        let b = ws_to(s, a);
                        if b < s.len() && s[b] == ',' {
                            proof {
                                assert(s@.skip(b as int)[0] == s@[b as int]);
                                lemma_skip_skip(s@, b as int, 1);
                            }
                            let n2 = ws_to(s, b + 1);
                            cur = n2;
                        } else if b < s.len() && s[b] == '}' {
                            proof {
                                assert(s@.skip(b as int)[0] == s@[b as int]);
                                lemma_skip_skip(s@, b as int, 1);
                            }
                            return Some(b + 1);
                        } else {
                            proof {
                                if b < s@.len() {
                                    assert(s@.skip(b as int)[0] == s@[b as int]);
                                }
                            }
                            return None;
                        }
                    },
                }
            },
        }
    }
}

/// Scans the elements of a skipped array, entered at the first element;
/// returns the position after the closing bracket.
fn elements_to(s: &Vec<char>, start: usize, depth: u32) -> (r: Option<usize>)
    requires
        start <= s@.len(),
    ensures
        r matches Some(j) ==> start < j <= s@.len() && elements_skip(
            s@.skip(start as int),
            depth as nat,
        ) == Some(s@.skip(j as int)),
        r is None ==> elements_skip(s@.skip(start as int), depth as nat) is None,
    decreases s@.len() - start, 1int,
{
    let mut cur: usize = start;
    loop
        invariant
            start <= cur <= s@.len(),
            elements_skip(s@.skip(start as int), depth as nat) == elements_skip(
                s@.skip(cur as int),
                depth as nat,
            ),
        decreases s@.len() - cur,
    {
        if cur >= s.len() {
            return None;
        }
        match scan_value(s, cur, depth) {
            None => {
                return None;
            },
            Some((_v, a)) => {
                let b = ws_to(s, a);
                if b < s.len() && s[b] == ',' {
                    proof {
                        assert(s@.skip(b as int)[0] == s@[b as int]);
                        lemma_skip_skip(s@, b as int, 1);
                    }
                    let n2 = ws_to(s, b + 1);
                    cur = n2;
                } else if b < s.len() && s[b] == ']' {
                    proof {
                        assert(s@.skip(b as int)[0] == s@[b as int]);
                        lemma_skip_skip(s@, b as int, 1);
                    }
                    return Some(b + 1);
                } else {
                    proof {
                        if b < s@.len() {
                            assert(s@.skip(b as int)[0] == s@[b as int]);
                        }
                    }
                    return None;
                }
            },
        }
    }
}

/// Scans the members of the top-level object, entered at the first
/// member's opening quote; returns the two named fields found and the
/// position after the closing brace.
#[verifier::rlimit(50)]
fn top_scan(s: &Vec<char>, start: usize, depth: u32) -> (r: Option<
    (Option<Vec<char>>, Option<Vec<char>>, usize),
>)
    requires
        start <= s@.len(),
    ensures
        r matches Some(p) ==> p.2 <= s@.len() && top_members(
            s@.skip(start as int),
            Fields { url: None, token: None },
            depth as nat,
        ) == Some((Fields { url: opt_view(p.0), token: opt_view(p.1) }, s@.skip(p.2 as int))),
        r is None ==> top_members(
            s@.skip(start as int),
            Fields { url: None, token: None },
            depth as nat,
        ) is None,
{
    let mut cur: usize = start;
    let mut url_f: Option<Vec<char>> = None;
    let mut token_f: Option<Vec<char>> = None;
    loop
        invariant
            start <= cur <= s@.len(),
            top_members(
                s@.skip(start as int),
                Fields { url: None, token: None },
                depth as nat,
            ) == top_members(
                s@.skip(cur as int),
                Fields { url: opt_view(url_f), token: opt_view(token_f) },
                depth as nat,
            ),
        decreases s@.len() - cur,
    {
        if cur >= s.len() {
            return None;
        }
        if s[cur] != '"' {
            proof {
                assert(s@.skip(cur as int)[0] == s@[cur as int]);
            }
            return None;
        }
        proof {
            assert(s@.skip(cur as int)[0] == s@[cur as int]);
            lemma_skip_skip(s@, cur as int, 1);
        }
        match scan_string_body(s, cur + 1) {
            None => {
                return None;
            },
            Some((key, p)) => {
                let q = ws_to(s, p);
                if q >= s.len() || s[q] != ':' {
                    proof {
                        if q < s@.len() {
                            assert(s@.skip(q as int)[0] == s@[q as int]);
                        }
                    }
                    return None;
                }
                proof {
                    assert(s@.skip(q as int)[0] == s@[q as int]);
                    lemma_skip_skip(s@, q as int, 1);
                }
                let m = ws_to(s, q + 1);
                match scan_value(s, m, depth) {
                    None => {
                        return None;
                    },
                    Some((v, a)) => {
                        let is_url = key.len() == 3 && key[0] == 'u' && key[1] == 'r' && key[2]
                            == 'l';
                        let is_token = key.len() == 5 && key[0] == 't' && key[1] == 'o' && key[2]
                            == 'k' && key[3] == 'e' && key[4] == 'n';
                        proof {
                            if is_url {
                                assert(key@ =~= seq!['u', 'r', 'l']);
                            } else {
                                assert(key@ != seq!['u', 'r', 'l']) by {
                                    if key@ == seq!['u', 'r', 'l'] {
                                        assert(key@.len() == 3);
                                        assert(key@[0] == 'u' && key@[1] == 'r' && key@[2] == 'l');
                                    }
                                }
                            }
                            if is_token {
                                assert(key@ =~= seq!['t', 'o', 'k', 'e', 'n']);
                            } else {
                                assert(key@ != seq!['t', 'o', 'k', 'e', 'n']) by {
                                    if key@ == seq!['t', 'o', 'k', 'e', 'n'] {
                                        assert(key@.len() == 5);
                                        assert(key@[0] == 't' && key@[1] == 'o' && key@[2] == 'k'
                                            && key@[3] == 'e' && key@[4] == 'n');
                                    }
                                }
                            }
                        }
                        if is_url {
                            if url_f.is_some() {
                                return None;
                            }
                            match v {
                                Some(content) => {
                                    url_f = Some(content);
                                },
                                None => {
                                    return None;
                                },
                            }
                        } else if is_token {
                            if token_f.is_some() {
                                return None;
                            }
                            match v {
                                Some(content) => {
                                    token_f = Some(content);
                                },
                                None => {
                                    return None;
                                },
                            }
                        }
                        let b = ws_to(s, a);
                        if b < s.len() && s[b] == ',' {
                            proof {
                                assert(s@.skip(b as int)[0] == s@[b as int]);
                                lemma_skip_skip(s@, b as int, 1);
                            }
                            let n2 = ws_to(s, b + 1);
                            cur = n2;
                        } else if b < s.len() && s[b] == '}' {
                            proof {
                                assert(s@.skip(b as int)[0] == s@[b as int]);
                                lemma_skip_skip(s@, b as int, 1);
                            }
                            return Some((url_f, token_f, b + 1));
                        } else {
                            proof {
                                if b < s@.len() {
                                    assert(s@.skip(b as int)[0] == s@[b as int]);
                                }
                            }
                            return None;
                        }
                    },
                }
            },
        }
    }
}

/// Reads a configuration back from stored text. Returns the configuration
/// the text holds, and `DecodeError` exactly where the specification
/// rejects the text; no other error is ever returned.
pub fn decode_config(text: &str) -> (r: Result<Config, ConfigError>)
    ensures
        spec_decode(text@) matches Some(cv) ==> (r matches Ok(c) && c@ == cv),
        spec_decode(text@) is None ==> r == Err::<Config, ConfigError>(ConfigError::DecodeError),
{
    let s = str_chars(text);
    proof {
        assert(s@.skip(0) =~= s@);
    }
    let t0 = ws_to(&s, 0);
    if t0 >= s.len() || s[t0] != '{' {
        proof {
            if t0 < s@.len() {
                assert(s@.skip(t0 as int)[0] == s@[t0 as int]);
            }
        }
        return Err(ConfigError::DecodeError);
    }
    proof {
        assert(s@.skip(t0 as int)[0] == s@[t0 as int]);
        lemma_skip_skip(s@, t0 as int, 1);
    }
    let t1 = ws_to(&s, t0 + 1);
    if t1 < s.len() && s[t1] == '}' {
        proof {
            assert(s@.skip(t1 as int)[0] == s@[t1 as int]);
        }
        return Err(ConfigError::DecodeError);
    }
    proof {
        if t1 < s@.len() {
            assert(s@.skip(t1 as int)[0] == s@[t1 as int]);
        }
    }
    match top_scan(&s, t1, 127) {
        None => Err(ConfigError::DecodeError),
        Some((url_f, token_f, end)) => {
            let fin = ws_to(&s, end);
            if fin < s.len() {
                return Err(ConfigError::DecodeError);
            }
            match (url_f, token_f) {
                (Some(u), Some(t)) => {
                    let url = chars_to_string(&u);
                    let token = chars_to_string(&t);
                    Ok(Config { url, token })
                },
                _ => Err(ConfigError::DecodeError),
            }
        },
    }
}

} // verus!
