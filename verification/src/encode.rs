//! The encoder: a configuration's canonical stored text, the JSON object
//! `{"url":"...","token":"..."}` with both fields escaped as JSON strings.

use vstd::prelude::*;
use crate::config::Config;
use crate::config::ConfigView;
use crate::chars::str_chars;
use crate::chars::chars_to_string;

verus! {

/// The lower-case hexadecimal digit for a value below sixteen.
pub open spec fn hex_digit(d: int) -> char {
    if d == 0 { '0' } else if d == 1 { '1' } else if d == 2 { '2' }
    else if d == 3 { '3' } else if d == 4 { '4' } else if d == 5 { '5' }
    else if d == 6 { '6' } else if d == 7 { '7' } else if d == 8 { '8' }
    else if d == 9 { '9' } else if d == 10 { 'a' } else if d == 11 { 'b' }
    else if d == 12 { 'c' } else if d == 13 { 'd' } else if d == 14 { 'e' }
    else { 'f' }
}

/// How one character is written inside a JSON string: quote and backslash
/// get a two-character escape, the five control characters with short names
/// get theirs, every other control character below space becomes `\u00xy`,
/// and everything else stands as itself.
pub open spec fn escape_char(c: char) -> Seq<char> {
    if c == '"' { seq!['\\', '"'] }
    else if c == '\\' { seq!['\\', '\\'] }
    else if c == '\u{08}' { seq!['\\', 'b'] }
    else if c == '\t' { seq!['\\', 't'] }
    else if c == '\n' { seq!['\\', 'n'] }
    else if c == '\u{0c}' { seq!['\\', 'f'] }
    else if c == '\r' { seq!['\\', 'r'] }
    else if (c as u32) < 0x20 {
        seq!['\\', 'u', '0', '0', hex_digit(c as u32 as int / 16), hex_digit(c as u32 as int % 16)]
    }
    else { seq![c] }
}

/// A whole string escaped character by character.
pub open spec fn escape_str(s: Seq<char>) -> Seq<char>
    decreases s.len(),
{
    if s.len() == 0 {
        Seq::empty()
    } else {
        escape_char(s[0]) + escape_str(s.skip(1))
    }
}

/// Escaping distributes over appending one character at the end.
pub proof fn lemma_escape_str_push(s: Seq<char>, c: char)
    ensures
        escape_str(s.push(c)) == escape_str(s) + escape_char(c),
    decreases s.len(),
{
    if s.len() == 0 {
        assert(s.push(c)[0] == c);
        assert(s.push(c).skip(1) =~= Seq::<char>::empty());
        assert(escape_str(s.push(c)) == escape_char(c) + escape_str(Seq::<char>::empty()));
        assert(escape_str(s.push(c)) =~= escape_str(s) + escape_char(c));
    } else {
        assert(s.push(c)[0] == s[0]);
        assert(s.push(c).skip(1) =~= s.skip(1).push(c));
        lemma_escape_str_push(s.skip(1), c);
        assert(escape_str(s.push(c)) =~= escape_str(s) + escape_char(c));
    }
}

/// The opening of the stored object up to the start of the url value.
pub open spec fn json_prefix() -> Seq<char> {
    seq!['{', '"', 'u', 'r', 'l', '"', ':', '"']
}

/// The text between the url value and the start of the token value.
pub open spec fn json_mid() -> Seq<char> {
    seq!['"', ',', '"', 't', 'o', 'k', 'e', 'n', '"', ':', '"']
}

/// The closing of the stored object after the token value.
pub open spec fn json_suffix() -> Seq<char> {
    seq!['"', '}']
}

/// The canonical stored text of a configuration: one JSON object with the
/// two string fields `url` and `token`, in that order, with no added
/// whitespace.
pub open spec fn spec_encoded(c: ConfigView) -> Seq<char> {
    json_prefix() + escape_str(c.url) + json_mid() + escape_str(c.token) + json_suffix()
}

/// The lower-case hexadecimal digit for a value below sixteen.
fn hex_digit_exec(d: u32) -> (c: char)
    requires
        d < 16,
    ensures
        c == hex_digit(d as int),
{
    if d == 0 { '0' } else if d == 1 { '1' } else if d == 2 { '2' }
    else if d == 3 { '3' } else if d == 4 { '4' } else if d == 5 { '5' }
    else if d == 6 { '6' } else if d == 7 { '7' } else if d == 8 { '8' }
    else if d == 9 { '9' } else if d == 10 { 'a' } else if d == 11 { 'b' }
    else if d == 12 { 'c' } else if d == 13 { 'd' } else if d == 14 { 'e' }
    else { 'f' }
}

/// Appends the escaped form of one character.
fn push_escaped(out: &mut Vec<char>, c: char)
    ensures
        final(out)@ == old(out)@ + escape_char(c),
{
    if c == '"' { out.push('\\'); out.push('"'); }
    else if c == '\\' { out.push('\\'); out.push('\\'); }
    else if c == '\u{08}' { out.push('\\'); out.push('b'); }
    else if c == '\t' { out.push('\\'); out.push('t'); }
    else if c == '\n' { out.push('\\'); out.push('n'); }
    else if c == '\u{0c}' { out.push('\\'); out.push('f'); }
    else if c == '\r' { out.push('\\'); out.push('r'); }
    else if (c as u32) < 0x20 {
        let code = c as u32;
        out.push('\\');
        out.push('u');
        out.push('0');
        out.push('0');
        out.push(hex_digit_exec(code / 16));
        out.push(hex_digit_exec(code % 16));
    } else {
        out.push(c);
    }
    proof {
        assert(out@ =~= old(out)@ + escape_char(c));
    }
}

/// Appends the escaped form of a whole string.
fn push_escaped_str(out: &mut Vec<char>, s: &Vec<char>)
    ensures
        final(out)@ == old(out)@ + escape_str(s@),
{
    let mut i: usize = 0;
    while i < s.len()
        invariant
            i <= s@.len(),
            out@ == old(out)@ + escape_str(s@.take(i as int)),
        decreases s@.len() - i,
    {
        push_escaped(out, s[i]);
        proof {
            assert(s@.take(i as int).push(s@[i as int]) =~= s@.take(i + 1 as int));
            lemma_escape_str_push(s@.take(i as int), s@[i as int]);
            assert(old(out)@ + escape_str(s@.take(i as int)) + escape_char(s@[i as int])
                =~= old(out)@ + escape_str(s@.take(i + 1 as int)));
        }
        i = i + 1;
    }
    proof {
        assert(s@.take(s@.len() as int) =~= s@);
    }
}

/// The stored text of a configuration. Total: every configuration encodes,
/// whatever its fields hold.
pub fn encode_config(c: &Config) -> (s: String)
    ensures
        s@ == spec_encoded(c@),
{
    let mut out: Vec<char> = Vec::new();
    out.push('{'); out.push('"'); out.push('u'); out.push('r'); out.push('l');
    out.push('"'); out.push(':'); out.push('"');
    proof {
        assert(out@ =~= json_prefix());
    }
    let url_chars = str_chars(c.url.as_str());
    push_escaped_str(&mut out, &url_chars);
    out.push('"'); out.push(','); out.push('"'); out.push('t'); out.push('o');
    out.push('k'); out.push('e'); out.push('n'); out.push('"'); out.push(':');
    out.push('"');
    proof {
        assert(out@ =~= json_prefix() + escape_str(c@.url) + json_mid());
    }
    let token_chars = str_chars(c.token.as_str());
    push_escaped_str(&mut out, &token_chars);
    out.push('"');
    out.push('}');
    proof {
        assert(out@ =~= spec_encoded(c@));
    }
    chars_to_string(&out)
}

} // verus!
