//! The properties the library states of its codec: decoding inverts
//! encoding, and the stored text is a function of the configuration alone.

use vstd::prelude::*;
use vstd::arithmetic::div_mod::lemma_fundamental_div_mod;
use vstd::utf8::char_u32_cast;
use crate::config::ConfigView;
use crate::decode::Fields;
use crate::decode::JsonVal;
use crate::decode::hex_val;
use crate::decode::is_simple_escape;
use crate::decode::is_ws;
use crate::decode::parse_string_body;
use crate::decode::parse_value;
use crate::decode::spec_decode;
use crate::decode::top_members;
use crate::decode::unescape_code;
use crate::decode::ws_skip;
use crate::encode::escape_char;
use crate::encode::escape_str;
use crate::encode::hex_digit;
use crate::encode::spec_encoded;

verus! {

/// Leading whitespace skipping does nothing where none leads.
proof fn lemma_ws_noop(s: Seq<char>)
    requires
        s.len() > 0 ==> !is_ws(s[0]),
    ensures
        ws_skip(s) == s,
{
}

/// Escaping leaves a string of plain characters as it is.
proof fn lemma_escape_plain(s: Seq<char>)
    requires
        forall|k: int|
            0 <= k < s.len() ==> ((s[k] as u32) >= 0x20 && s[k] != '"' && s[k] != '\\'),
    ensures
        escape_str(s) == s,
    decreases s.len(),
{
    if s.len() == 0 {
        assert(escape_str(s) =~= s);
    } else {
        assert(escape_char(s[0]) =~= seq![s[0]]);
        lemma_escape_plain(s.skip(1));
        assert(escape_str(s) =~= s);
    }
}

/// Reading a hexadecimal digit back gives the value it was written from.
proof fn lemma_hex_digit_val(d: int)
    requires
        0 <= d < 16,
    ensures
        hex_val(hex_digit(d)) == d,
{
}

/// The string parser inverts the escape encoder: the escaped form of any
/// string, followed by the closing quote and anything further, parses to
/// exactly that string with exactly that remainder.
pub proof fn lemma_parse_escaped(u: Seq<char>, rest: Seq<char>)
    ensures
        parse_string_body(escape_str(u) + seq!['"'] + rest) == Some((u, rest)),
    decreases u.len(),
{
    let s = escape_str(u) + seq!['"'] + rest;
    if u.len() == 0 {
        assert(escape_str(u) =~= Seq::<char>::empty());
        assert(s[0] == '"');
        assert(s.skip(1) =~= rest);
        assert(Seq::<char>::empty() =~= u);
    } else {
        let c0 = u[0];
        let e = escape_char(c0);
        let tail = escape_str(u.skip(1)) + seq!['"'] + rest;
        assert(escape_str(u) == e + escape_str(u.skip(1)));
        assert(s =~= e + tail);
        lemma_parse_escaped(u.skip(1), rest);
        if c0 == '"' || c0 == '\\' || c0 == '\u{08}' || c0 == '\t' || c0 == '\n' || c0 == '\u{0c}'
            || c0 == '\r' {
            let x = e[1];
            assert(e.len() == 2 && e[0] == '\\');
            assert(is_simple_escape(x));
            assert(unescape_code(x) == c0);
            assert(s[0] == '\\');
            assert(s[1] == x);
            assert(s.skip(2) =~= tail);
            assert(parse_string_body(s) == Some((seq![unescape_code(s[1])] + u.skip(1), rest)));
            assert(seq![c0] + u.skip(1) =~= u);
        } else if (c0 as u32) < 0x20 {
            let cv = (c0 as u32) as int;
            let d1 = cv / 16;
            let d2 = cv % 16;
            assert(e == seq!['\\', 'u', '0', '0', hex_digit(d1), hex_digit(d2)]);
            assert(s[0] == '\\');
            assert(s[1] == 'u');
            assert(s[2] == '0');
            assert(s[3] == '0');
            assert(s[4] == hex_digit(d1));
            assert(s[5] == hex_digit(d2));
            assert(!is_simple_escape('u'));
            lemma_hex_digit_val(d1);
            lemma_hex_digit_val(d2);
            let code = hex_val(s[2]) * 4096 + hex_val(s[3]) * 256 + hex_val(s[4]) * 16 + hex_val(
                s[5],
            );
            lemma_fundamental_div_mod(cv, 16);
            assert(code == cv);
            char_u32_cast(c0, c0 as u32);
            assert(code as char == c0);
            assert(s.skip(6) =~= tail);
            assert(parse_string_body(s) == Some((seq![code as char] + u.skip(1), rest)));
            assert(seq![c0] + u.skip(1) =~= u);
        } else {
            assert(e =~= seq![c0]);
            assert(s[0] == c0);
            assert(s.skip(1) =~= tail);
            assert(parse_string_body(s) == Some((seq![c0] + u.skip(1), rest)));
            assert(seq![c0] + u.skip(1) =~= u);
        }
    }
}

/// The closing half of the canonical text: from the token key's opening
/// quote, the member list parses to the token's characters and ends the
/// object with nothing left over.
#[verifier::rlimit(100)]
proof fn lemma_round_trip_token(u: Seq<char>, t: Seq<char>)
    ensures
        top_members(
            seq!['"', 't', 'o', 'k', 'e', 'n', '"', ':', '"'] + escape_str(t) + seq!['"', '}'],
            Fields { url: Some(u), token: None },
            127,
        ) == Some((Fields { url: Some(u), token: Some(t) }, Seq::<char>::empty())),
{
    let et = escape_str(t);
    let ktok = seq!['t', 'o', 'k', 'e', 'n'];
    let w5 = seq!['}'];
    let r_kt = seq![':', '"'] + et + seq!['"', '}'];
    let m2 = seq!['"'] + ktok + seq!['"'] + r_kt;
    let f2 = Fields { url: Some(u), token: None };
    let f3 = Fields { url: Some(u), token: Some(t) };
    assert(m2 =~= seq!['"', 't', 'o', 'k', 'e', 'n', '"', ':', '"'] + et + seq!['"', '}']);
    assert(m2[0] == '"');
    assert(forall|k: int|
        0 <= k < ktok.len() ==> ((ktok[k] as u32) >= 0x20 && ktok[k] != '"' && ktok[k] != '\\'));
    lemma_escape_plain(ktok);
    lemma_parse_escaped(ktok, r_kt);
    assert(m2.skip(1) =~= escape_str(ktok) + seq!['"'] + r_kt);
    assert(parse_string_body(m2.skip(1)) == Some((ktok, r_kt)));
    assert(r_kt[0] == ':');
    lemma_ws_noop(r_kt);
    let r3t = seq!['"'] + et + seq!['"', '}'];
    assert(r_kt.skip(1) =~= r3t);
    assert(r3t[0] == '"');
    lemma_ws_noop(r3t);
    assert(r3t.len() < m2.len());
    assert(r3t.skip(1) =~= et + seq!['"'] + w5);
    lemma_parse_escaped(t, w5);
    assert(parse_value(r3t, 127) == Some((JsonVal::VStr(t), w5)));
    assert(ktok != seq!['u', 'r', 'l']);
    assert(w5[0] == '}');
    lemma_ws_noop(w5);
    assert(w5.skip(1) =~= Seq::<char>::empty());
    assert(top_members(m2, f2, 127) == Some((f3, Seq::<char>::empty())));
}

/// Decoding inverts encoding: the stored text of any configuration decodes
/// back to exactly that configuration, whatever its fields hold.
#[verifier::rlimit(100)]
pub proof fn lemma_round_trip(c: ConfigView)
    ensures
        spec_decode(spec_encoded(c)) == Some(c),
{
    let u = c.url;
    let t = c.token;
    let eu = escape_str(u);
    let et = escape_str(t);
    let kurl = seq!['u', 'r', 'l'];
    let ktok = seq!['t', 'o', 'k', 'e', 'n'];
    let s = spec_encoded(c);

    // the suffix after the token value's closing quote
    let w5 = seq!['}'];
    // the suffix after the token key's closing quote
    let r_kt = seq![':', '"'] + et + seq!['"', '}'];
    // the second member, from its key's opening quote
    let m2 = seq!['"'] + ktok + seq!['"'] + r_kt;
    // the suffix after the url key's closing quote
    let r_ku = seq![':', '"'] + eu + seq!['"', ','] + m2;
    // the member list, from the first key's opening quote
    let m1 = seq!['"'] + kurl + seq!['"'] + r_ku;

    assert(m2 =~= seq!['"', 't', 'o', 'k', 'e', 'n', '"', ':', '"'] + et + seq!['"', '}']);
    assert(s =~= seq!['{'] + m1);
    assert(s[0] == '{');
    lemma_ws_noop(s);
    assert(s.skip(1) =~= m1);
    assert(m1[0] == '"');
    lemma_ws_noop(m1);

    // the url member
    let f0 = Fields { url: None, token: None };
    assert(forall|k: int|
        0 <= k < kurl.len() ==> ((kurl[k] as u32) >= 0x20 && kurl[k] != '"' && kurl[k] != '\\'));
    lemma_escape_plain(kurl);
    lemma_parse_escaped(kurl, r_ku);
    assert(m1.skip(1) =~= escape_str(kurl) + seq!['"'] + r_ku);
    assert(parse_string_body(m1.skip(1)) == Some((kurl, r_ku)));
    assert(r_ku[0] == ':');
    lemma_ws_noop(r_ku);
    let r3 = seq!['"'] + eu + seq!['"', ','] + m2;
    assert(r_ku.skip(1) =~= r3);
    assert(r3[0] == '"');
    lemma_ws_noop(r3);
    assert(r3.len() < m1.len());
    let after_u = seq![','] + m2;
    assert(r3.skip(1) =~= eu + seq!['"'] + after_u);
    lemma_parse_escaped(u, after_u);
    assert(parse_value(r3, 127) == Some((JsonVal::VStr(u), after_u)));
    let f2 = Fields { url: Some(u), token: None };
    assert(after_u[0] == ',');
    lemma_ws_noop(after_u);
    assert(after_u.skip(1) =~= m2);
    assert(m2[0] == '"');
    lemma_ws_noop(m2);
    assert(m2.len() < m1.len());
    assert(top_members(m1, f0, 127) == top_members(m2, f2, 127));

    // the token member
    lemma_round_trip_token(u, t);
    let f3 = Fields { url: Some(u), token: Some(t) };
    assert(top_members(m2, f2, 127) == Some((f3, Seq::<char>::empty())));

    // the whole text
    lemma_ws_noop(Seq::<char>::empty());
    assert(ConfigView { url: u, token: t } == c);
}

/// The text a save writes depends on the configuration value alone: where
/// a file already holds the text of one save, a second save of the same
/// configuration writes exactly that text again. That the write replaces
/// the whole file is the filesystem call's contract, not stated here; the
/// byte-for-byte outcome rests on that together with `save_plan`'s
/// `ensures`.
pub proof fn lemma_save_idempotent(first: Seq<char>, c: ConfigView)
    requires
        first == spec_encoded(c),
    ensures
        spec_encoded(c) == first,
{
}

} // verus!
