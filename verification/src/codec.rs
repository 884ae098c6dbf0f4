//! The announcement wire format: one datagram carries one message, a
//! field-tagged text object `{"ip":"a.b.c.d","port":p,"name":"...","content":"..."}`.
//!
//! The encoder produces exactly `spec_encode` of the message. The decoder
//! accepts the same shape with the fields in any order, whitespace between
//! tokens, and unknown fields (which it skips); a message missing a required
//! field, or otherwise malformed, decodes to nothing. Decoding an encoded
//! message gives the message back (`lemma_decode_encode`).

use vstd::prelude::*;

use crate::addr::Ipv4;
use crate::text::{dec_digits, hex_char, push_char, push_dec, str_chars};

verus! {

/// One announcement: where the sender can be reached, its identity, and a
/// free-form diagnostic text.
pub struct Message {
    pub ip: Ipv4,
    pub port: u16,
    /// The sender's identity token.
    pub name: String,
    pub content: String,
}

/// The mathematical content of a `Message`.
#[verifier::ext_equal]
pub struct MessageView {
    pub ip: Ipv4,
    pub port: u16,
    pub name: Seq<char>,
    pub content: Seq<char>,
}

impl View for Message {
    type V = MessageView;

    open spec fn view(&self) -> MessageView {
        MessageView { ip: self.ip, port: self.port, name: self.name@, content: self.content@ }
    }
}

impl Clone for Message {
    fn clone(&self) -> (r: Self)
        ensures
            r == *self,
    {
        Message {
            ip: self.ip,
            port: self.port,
            name: self.name.clone(),
            content: self.content.clone(),
        }
    }
}

/// How one character appears inside an encoded text field: quote and
/// backslash get a backslash escape, control characters a hexadecimal
/// escape, and everything else stands for itself.
pub open spec fn esc_char(c: char) -> Seq<char> {
    if c == '"' {
        seq!['\\', '"']
    } else if c == '\\' {
        seq!['\\', '\\']
    } else if (c as u32) < 32 {
        seq!['\\', 'u', '0', '0', hex_char((c as u32) as int / 16), hex_char((c as u32) as int % 16)]
    } else {
        seq![c]
    }
}

/// A text escaped for an encoded field.
pub open spec fn esc(s: Seq<char>) -> Seq<char>
    decreases s.len(),
{
    if s.len() == 0 {
        Seq::empty()
    } else {
        esc(s.drop_last()) + esc_char(s.last())
    }
}

/// The dotted-quad text of an address.
pub open spec fn ip_chars(ip: Ipv4) -> Seq<char> {
    dec_digits(ip.a as int) + seq!['.'] + dec_digits(ip.b as int) + seq!['.'] + dec_digits(
        ip.c as int,
    ) + seq!['.'] + dec_digits(ip.d as int)
}

/// The exact text of an encoded message.
pub open spec fn spec_encode(m: MessageView) -> Seq<char> {
    seq!['{', '"', 'i', 'p', '"', ':', '"'] + ip_chars(m.ip) + seq!['"', ',', '"', 'p', 'o', 'r', 't', '"', ':']
        + dec_digits(m.port as int) + seq![',', '"', 'n', 'a', 'm', 'e', '"', ':', '"'] + esc(m.name)
        + seq!['"', ',', '"', 'c', 'o', 'n', 't', 'e', 'n', 't', '"', ':', '"'] + esc(m.content)
        + seq!['"', '}']
}

/// Append `s` with field escaping applied.
fn push_escaped(out: &mut String, s: &String)
    ensures
        final(out)@ == old(out)@ + esc(s@),
{
    let n = s.as_str().unicode_len();
    let mut i: usize = 0;
    proof {
        assert(s@.take(0) =~= Seq::<char>::empty());
        assert(out@ =~= out@ + esc(s@.take(0)));
    }
    while i < n
        invariant
            i <= n,
            n == s@.len(),
            out@ == old(out)@ + esc(s@.take(i as int)),
        decreases n - i,
    {
        let c = s.as_str().get_char(i);
        if c == '"' {
            push_char(out, '\\');
            push_char(out, '"');
        } else if c == '\\' {
            push_char(out, '\\');
            push_char(out, '\\');
        } else if (c as u32) < 32 {
            let v = c as u32;
            push_char(out, '\\');
            push_char(out, 'u');
            push_char(out, '0');
            push_char(out, '0');
            let hi = (v / 16) as u8;
            let lo = (v % 16) as u8;
            push_char(out, if hi < 10 { (48 + hi) as char } else { (87 + hi) as char });
            push_char(out, if lo < 10 { (48 + lo) as char } else { (87 + lo) as char });
        } else {
            push_char(out, c);
        }
        proof {
            assert(s@.take(i as int + 1).drop_last() =~= s@.take(i as int));
            assert(s@.take(i as int + 1).last() == s@[i as int]);
            assert(out@ =~= old(out)@ + esc(s@.take(i as int + 1)));
        }
        i += 1;
    }
    proof {
        assert(s@.take(n as int) =~= s@);
    }
}

/// Append the dotted-quad text of `ip`.
fn push_ip(out: &mut String, ip: Ipv4)
    ensures
        final(out)@ == old(out)@ + ip_chars(ip),
{
    push_dec(out, ip.a as u64);
    push_char(out, '.');
    push_dec(out, ip.b as u64);
    push_char(out, '.');
    push_dec(out, ip.c as u64);
    push_char(out, '.');
    push_dec(out, ip.d as u64);
    proof {
        assert(final(out)@ =~= old(out)@ + ip_chars(ip));
    }
}

/// Encode a message as one datagram's text.
#[verifier::rlimit(100)]
pub fn encode_message(m: &Message) -> (r: String)
    ensures
        r@ == spec_encode(m@),
{
    let mut out = String::new();
    push_char(&mut out, '{');
    push_char(&mut out, '"');
    push_char(&mut out, 'i');
    push_char(&mut out, 'p');
    push_char(&mut out, '"');
    push_char(&mut out, ':');
    push_char(&mut out, '"');
    push_ip(&mut out, m.ip);
    push_char(&mut out, '"');
    push_char(&mut out, ',');
    push_char(&mut out, '"');
    push_char(&mut out, 'p');
    push_char(&mut out, 'o');
    push_char(&mut out, 'r');
    push_char(&mut out, 't');
    push_char(&mut out, '"');
    push_char(&mut out, ':');
    push_dec(&mut out, m.port as u64);
    push_char(&mut out, ',');
    push_char(&mut out, '"');
    push_char(&mut out, 'n');
    push_char(&mut out, 'a');
    push_char(&mut out, 'm');
    push_char(&mut out, 'e');
    push_char(&mut out, '"');
    push_char(&mut out, ':');
    push_char(&mut out, '"');
    push_escaped(&mut out, &m.name);
    push_char(&mut out, '"');
    push_char(&mut out, ',');
    push_char(&mut out, '"');
    push_char(&mut out, 'c');
    push_char(&mut out, 'o');
    push_char(&mut out, 'n');
    push_char(&mut out, 't');
    push_char(&mut out, 'e');
    push_char(&mut out, 'n');
    push_char(&mut out, 't');
    push_char(&mut out, '"');
    push_char(&mut out, ':');
    push_char(&mut out, '"');
    push_escaped(&mut out, &m.content);
    push_char(&mut out, '"');
    push_char(&mut out, '}');
    proof {
        assert(out@ =~= spec_encode(m@));
    }
    out
}

} // verus!

verus! {

/// The whitespace the decoder tolerates between tokens.
pub open spec fn is_ws(c: char) -> bool {
    c == ' ' || c == '\t' || c == '\n' || c == '\r'
}

/// A decimal digit.
pub open spec fn is_digit(c: char) -> bool {
    48 <= c as u32 <= 57
}

/// The value of a hexadecimal digit character, or -1.
pub open spec fn hex_val(c: char) -> int {
    if 48 <= c as u32 <= 57 {
        c as u32 - 48
    } else if 97 <= c as u32 <= 102 {
        c as u32 - 87
    } else if 65 <= c as u32 <= 70 {
        c as u32 - 55
    } else {
        -1
    }
}

/// The first position at or after `i` holding a non-whitespace character.
pub open spec fn skip_ws(s: Seq<char>, i: int) -> int
    decreases s.len() - i,
{
    if i < s.len() && is_ws(s[i]) {
        skip_ws(s, i + 1)
    } else {
        i
    }
}

/// Parse the inside of a quoted text, from just after the opening quote up
/// to and past the closing quote. Escapes cover the quote, the backslash,
/// the usual short forms, and hexadecimal escapes up to 127; a raw control
/// character, an unknown escape, or a missing closing quote fails.
pub open spec fn parse_string_body(s: Seq<char>, i: int, acc: Seq<char>) -> Option<(Seq<char>, int)>
    decreases s.len() - i,
{
    if i >= s.len() {
        None
    } else if s[i] == '"' {
        Some((acc, i + 1))
    } else if s[i] == '\\' {
        if i + 1 >= s.len() {
            None
        } else {
            let e = s[i + 1];
            if e == '"' {
                parse_string_body(s, i + 2, acc.push('"'))
            } else if e == '\\' {
                parse_string_body(s, i + 2, acc.push('\\'))
            } else if e == '/' {
                parse_string_body(s, i + 2, acc.push('/'))
            } else if e == 'n' {
                parse_string_body(s, i + 2, acc.push('\n'))
            } else if e == 'r' {
                parse_string_body(s, i + 2, acc.push('\r'))
            } else if e == 't' {
                parse_string_body(s, i + 2, acc.push('\t'))
            } else if e == 'b' {
                parse_string_body(s, i + 2, acc.push(8u8 as char))
            } else if e == 'f' {
                parse_string_body(s, i + 2, acc.push(12u8 as char))
            } else if e == 'u' {
                if i + 6 > s.len() {
                    None
                } else {
                    let h0 = hex_val(s[i + 2]);
                    let h1 = hex_val(s[i + 3]);
                    let h2 = hex_val(s[i + 4]);
                    let h3 = hex_val(s[i + 5]);
                    let v = h0 * 4096 + h1 * 256 + h2 * 16 + h3;
                    if h0 >= 0 && h1 >= 0 && h2 >= 0 && h3 >= 0 && v < 128 {
                        parse_string_body(s, i + 6, acc.push((v as u8) as char))
                    } else {
                        None
                    }
                }
            } else {
                None
            }
        }
    } else if (s[i] as u32) < 32 {
        None
    } else {
        parse_string_body(s, i + 1, acc.push(s[i]))
    }
}

/// Parse a run of decimal digits into `acc`; fails on overflow past the
/// largest 64-bit value.
pub open spec fn parse_digits(s: Seq<char>, i: int, acc: u64) -> Option<(u64, int)>
    decreases s.len() - i,
{
    if i < s.len() && is_digit(s[i]) {
        let d = s[i] as u32 - 48;
        if acc > (0xFFFF_FFFF_FFFF_FFFFu64 - d) / 10 {
            None
        } else {
            parse_digits(s, i + 1, (acc * 10 + d) as u64)
        }
    } else {
        Some((acc, i))
    }
}

/// Parse an unsigned decimal number: one zero, or a nonzero digit followed
/// by more digits, with no leading zero.
pub open spec fn parse_number(s: Seq<char>, i: int) -> Option<(u64, int)> {
    if i < s.len() && s[i] == '0' {
        if i + 1 < s.len() && is_digit(s[i + 1]) {
            None
        } else {
            Some((0, i + 1))
        }
    } else if i < s.len() && is_digit(s[i]) {
        parse_digits(s, i, 0)
    } else {
        None
    }
}

/// Walk past a nested value that started with an opening brace or bracket
/// (already consumed, `depth` 1), counting nesting and skipping quoted text.
pub open spec fn skip_balanced(s: Seq<char>, i: int, depth: int, in_str: bool, esc_next: bool) -> Option<
    int,
>
    decreases s.len() - i,
{
    if depth <= 0 {
        Some(i)
    } else if i >= s.len() {
        None
    } else {
        let c = s[i];
        if in_str {
            if esc_next {
                skip_balanced(s, i + 1, depth, true, false)
            } else if c == '\\' {
                skip_balanced(s, i + 1, depth, true, true)
            } else if c == '"' {
                skip_balanced(s, i + 1, depth, false, false)
            } else {
                skip_balanced(s, i + 1, depth, true, false)
            }
        } else {
            if c == '"' {
                skip_balanced(s, i + 1, depth, true, false)
            } else if c == '{' || c == '[' {
                skip_balanced(s, i + 1, depth + 1, false, false)
            } else if c == '}' || c == ']' {
                skip_balanced(s, i + 1, depth - 1, false, false)
            } else {
                skip_balanced(s, i + 1, depth, false, false)
            }
        }
    }
}

/// A character that may appear in a numeric token.
pub open spec fn is_number_char(c: char) -> bool {
    is_digit(c) || c == '-' || c == '+' || c == '.' || c == 'e' || c == 'E'
}

/// The first position at or after `i` past a run of numeric characters.
pub open spec fn skip_number_chars(s: Seq<char>, i: int) -> int
    decreases s.len() - i,
{
    if i < s.len() && is_number_char(s[i]) {
        skip_number_chars(s, i + 1)
    } else {
        i
    }
}

/// Walk past one value of any shape: quoted text, a nested object or array,
/// a numeric token, or a literal word.
pub open spec fn skip_value(s: Seq<char>, i: int) -> Option<int> {
    if i >= s.len() {
        None
    } else if s[i] == '"' {
        match parse_string_body(s, i + 1, Seq::empty()) {
            Some((t, j)) => Some(j),
            None => None,
        }
    } else if s[i] == '{' || s[i] == '[' {
        skip_balanced(s, i + 1, 1, false, false)
    } else if s[i] == '-' || is_digit(s[i]) {
        Some(skip_number_chars(s, i + 1))
    } else if s[i] == 't' {
        if i + 4 <= s.len() && s[i + 1] == 'r' && s[i + 2] == 'u' && s[i + 3] == 'e' {
            Some(i + 4)
        } else {
            None
        }
    } else if s[i] == 'f' {
        if i + 5 <= s.len() && s[i + 1] == 'a' && s[i + 2] == 'l' && s[i + 3] == 's' && s[i + 4]
            == 'e' {
            Some(i + 5)
        } else {
            None
        }
    } else if s[i] == 'n' {
        if i + 4 <= s.len() && s[i + 1] == 'u' && s[i + 2] == 'l' && s[i + 3] == 'l' {
            Some(i + 4)
        } else {
            None
        }
    } else {
        None
    }
}

/// Parse one address octet: a number up to 255.
pub open spec fn parse_octet(t: Seq<char>, i: int) -> Option<(u8, int)> {
    match parse_number(t, i) {
        Some((v, j)) => if v <= 255 {
            Some((v as u8, j))
        } else {
            None
        },
        None => None,
    }
}

/// Parse a whole dotted-quad address text.
pub open spec fn parse_ip_text(t: Seq<char>) -> Option<Ipv4> {
    match parse_octet(t, 0) {
        Some((a, i)) => if i < t.len() && t[i] == '.' {
            match parse_octet(t, i + 1) {
                Some((b, j)) => if j < t.len() && t[j] == '.' {
                    match parse_octet(t, j + 1) {
                        Some((c, k)) => if k < t.len() && t[k] == '.' {
                            match parse_octet(t, k + 1) {
                                Some((d, l)) => if l == t.len() {
                                    Some(Ipv4 { a, b, c, d })
                                } else {
                                    None
                                },
                                None => None,
                            }
                        } else {
                            None
                        },
                        None => None,
                    }
                } else {
                    None
                },
                None => None,
            }
        } else {
            None
        },
        None => None,
    }
}

/// The fields collected while walking an encoded object.
pub struct PartialFields {
    pub ip: Option<Ipv4>,
    pub port: Option<u16>,
    pub name: Option<String>,
    pub content: Option<String>,
}

/// The mathematical content of a `PartialFields`.
#[verifier::ext_equal]
pub struct PartialFieldsView {
    pub ip: Option<Ipv4>,
    pub port: Option<u16>,
    pub name: Option<Seq<char>>,
    pub content: Option<Seq<char>>,
}

impl View for PartialFields {
    type V = PartialFieldsView;

    open spec fn view(&self) -> PartialFieldsView {
        PartialFieldsView {
            ip: self.ip,
            port: self.port,
            name: match self.name {
                Some(n) => Some(n@),
                None => None,
            },
            content: match self.content {
                Some(c) => Some(c@),
                None => None,
            },
        }
    }
}

/// No field seen yet.
pub open spec fn no_fields() -> PartialFieldsView {
    PartialFieldsView { ip: None, port: None, name: None, content: None }
}

/// Parse the value of the field named `key`, already positioned at the
/// value's first character. A known field must have the right shape and must
/// not repeat; an unknown field is skipped whole.
pub open spec fn parse_field_value(
    s: Seq<char>,
    i: int,
    acc: PartialFieldsView,
    key: Seq<char>,
) -> Option<(PartialFieldsView, int)> {
    if key == seq!['i', 'p'] {
        if acc.ip is Some {
            None
        } else if i < s.len() && s[i] == '"' {
            match parse_string_body(s, i + 1, Seq::empty()) {
                Some((t, j)) => match parse_ip_text(t) {
                    Some(ip) => Some((PartialFieldsView { ip: Some(ip), ..acc }, j)),
                    None => None,
                },
                None => None,
            }
        } else {
            None
        }
    } else if key == seq!['p', 'o', 'r', 't'] {
        if acc.port is Some {
            None
        } else {
            match parse_number(s, i) {
                Some((v, j)) => if v <= 65535 {
                    Some((PartialFieldsView { port: Some(v as u16), ..acc }, j))
                } else {
                    None
                },
                None => None,
            }
        }
    } else if key == seq!['n', 'a', 'm', 'e'] {
        if acc.name is Some {
            None
        } else if i < s.len() && s[i] == '"' {
            match parse_string_body(s, i + 1, Seq::empty()) {
                Some((t, j)) => Some((PartialFieldsView { name: Some(t), ..acc }, j)),
                None => None,
            }
        } else {
            None
        }
    } else if key == seq!['c', 'o', 'n', 't', 'e', 'n', 't'] {
        if acc.content is Some {
            None
        } else if i < s.len() && s[i] == '"' {
            match parse_string_body(s, i + 1, Seq::empty()) {
                Some((t, j)) => Some((PartialFieldsView { content: Some(t), ..acc }, j)),
                None => None,
            }
        } else {
            None
        }
    } else {
        match skip_value(s, i) {
            Some(j) => Some((acc, j)),
            None => None,
        }
    }
}

/// Parse fields from just after an opening brace or a separating comma,
/// through the closing brace. Positions only move forward; the explicit
/// check on the recursive call makes that evident to the termination
/// measure and never fails on real input.
pub open spec fn parse_fields(s: Seq<char>, i: int, acc: PartialFieldsView) -> Option<
    (PartialFieldsView, int),
>
    decreases s.len() - i,
{
    let j = skip_ws(s, i);
    if !(j < s.len() && s[j] == '"') {
        None
    } else {
        match parse_string_body(s, j + 1, Seq::empty()) {
            None => None,
            Some((key, j2)) => {
                let j3 = skip_ws(s, j2);
                if !(j3 < s.len() && s[j3] == ':') {
                    None
                } else {
                    let j4 = skip_ws(s, j3 + 1);
                    match parse_field_value(s, j4, acc, key) {
                        None => None,
                        Some((acc2, j5)) => {
                            let j6 = skip_ws(s, j5);
                            if j6 < s.len() && s[j6] == ',' {
                                if i < j6 + 1 <= s.len() {
                                    parse_fields(s, j6 + 1, acc2)
                                } else {
                                    None
                                }
                            } else if j6 < s.len() && s[j6] == '}' {
                                Some((acc2, j6 + 1))
                            } else {
                                None
                            }
                        },
                    }
                }
            },
        }
    }
}

/// Decode one datagram's text: one object, nothing but whitespace around
/// it, all four fields present.
pub open spec fn spec_decode(s: Seq<char>) -> Option<MessageView> {
    let i = skip_ws(s, 0);
    if i < s.len() && s[i] == '{' {
        let j = skip_ws(s, i + 1);
        let res = if j < s.len() && s[j] == '}' {
            Some((no_fields(), j + 1))
        } else {
            parse_fields(s, i + 1, no_fields())
        };
        match res {
            Some((f, k)) => if skip_ws(s, k) == s.len() {
                if f.ip is Some && f.port is Some && f.name is Some && f.content is Some {
                    Some(
                        MessageView {
                            ip: f.ip->0,
                            port: f.port->0,
                            name: f.name->0,
                            content: f.content->0,
                        },
                    )
                } else {
                    None
                }
            } else {
                None
            },
            None => None,
        }
    } else {
        None
    }
}

} // verus!

use vstd::string::StringExecFns;

verus! {

/// The first position at or after `i` holding a non-whitespace character.
fn ws_end(s: &Vec<char>, i: usize) -> (r: usize)
    requires
        i <= s@.len(),
    ensures
        r == skip_ws(s@, i as int),
        i <= r <= s@.len(),
{
    let mut j = i;
    while j < s.len() && (s[j] == ' ' || s[j] == '\t' || s[j] == '\n' || s[j] == '\r')
        invariant
            i <= j <= s@.len(),
            skip_ws(s@, i as int) == skip_ws(s@, j as int),
        decreases s@.len() - j,
    {
        j += 1;
    }
    j
}

/// The value of a hexadecimal digit character.
fn hex_digit(c: char) -> (r: Option<u8>)
    ensures
        match r {
            Some(v) => hex_val(c) == v as int && v < 16,
            None => hex_val(c) == -1,
        },
{
    let v = c as u32;
    if 48 <= v && v <= 57 {
        Some((v - 48) as u8)
    } else if 97 <= v && v <= 102 {
        Some((v - 87) as u8)
    } else if 65 <= v && v <= 70 {
        Some((v - 55) as u8)
    } else {
        None
    }
}

/// Scan a quoted text from just after its opening quote; the unescaped
/// content and the position past the closing quote.
fn scan_string_body(s: &Vec<char>, start: usize) -> (r: Option<(String, usize)>)
    requires
        start <= s@.len(),
    ensures
        match r {
            Some(p) => parse_string_body(s@, start as int, Seq::empty()) == Some((p.0@, p.1 as int))
                && start < p.1 <= s@.len(),
            None => parse_string_body(s@, start as int, Seq::empty()) is None,
        },
{
    let mut i = start;
    let mut acc = String::new();
    loop
        invariant
            start <= i <= s@.len(),
            parse_string_body(s@, start as int, Seq::empty()) == parse_string_body(
                s@,
                i as int,
                acc@,
            ),
        decreases s@.len() - i,
    {
        if i >= s.len() {
            return None;
        }
        let c = s[i];
        if c == '"' {
            return Some((acc, i + 1));
        }
        if c == '\\' {
            if i + 1 >= s.len() {
                return None;
            }
            let e = s[i + 1];
            if e == '"' {
                push_char(&mut acc, '"');
                i += 2;
            } else if e == '\\' {
                push_char(&mut acc, '\\');
                i += 2;
            } else if e == '/' {
                push_char(&mut acc, '/');
                i += 2;
            } else if e == 'n' {
                push_char(&mut acc, '\n');
                i += 2;
            } else if e == 'r' {
                push_char(&mut acc, '\r');
                i += 2;
            } else if e == 't' {
                push_char(&mut acc, '\t');
                i += 2;
            } else if e == 'b' {
                push_char(&mut acc, 8u8 as char);
                i += 2;
            } else if e == 'f' {
                push_char(&mut acc, 12u8 as char);
                i += 2;
            } else if e == 'u' {
                if s.len() - i < 6 {
                    return None;
                }
                let h0 = hex_digit(s[i + 2]);
                let h1 = hex_digit(s[i + 3]);
                let h2 = hex_digit(s[i + 4]);
                let h3 = hex_digit(s[i + 5]);
                match (h0, h1, h2, h3) {
                    (Some(a), Some(b), Some(c2), Some(d)) => {
                        let v: u32 = a as u32 * 4096 + b as u32 * 256 + c2 as u32 * 16 + d as u32;
                        if v < 128 {
                            push_char(&mut acc, (v as u8) as char);
                            i += 6;
                        } else {
                            return None;
                        }
                    },
                    _ => {
                        return None;
                    },
                }
            } else {
                return None;
            }
        } else if (c as u32) < 32 {
            return None;
        } else {
            push_char(&mut acc, c);
            i += 1;
        }
    }
}

/// Scan an unsigned decimal number.
fn scan_number(s: &Vec<char>, start: usize) -> (r: Option<(u64, usize)>)
    requires
        start <= s@.len(),
    ensures
        match r {
            Some(p) => parse_number(s@, start as int) == Some((p.0, p.1 as int)) && start < p.1
                <= s@.len(),
            None => parse_number(s@, start as int) is None,
        },
{
    if start < s.len() && s[start] == '0' {
        if start + 1 < s.len() && 48 <= (s[start + 1] as u32) && (s[start + 1] as u32) <= 57 {
            return None;
        }
        return Some((0, start + 1));
    }
    if !(start < s.len() && 48 <= (s[start] as u32) && (s[start] as u32) <= 57) {
        return None;
    }
    let mut i = start;
    let mut acc: u64 = 0;
    proof {
        assert(parse_number(s@, start as int) == parse_digits(s@, start as int, 0));
    }
    while i < s.len() && 48 <= (s[i] as u32) && (s[i] as u32) <= 57
        invariant
            start <= i <= s@.len(),
            parse_number(s@, start as int) == parse_digits(s@, i as int, acc),
        decreases s@.len() - i,
    {
        let d = ((s[i] as u32) - 48) as u64;
        if acc > (0xFFFF_FFFF_FFFF_FFFFu64 - d) / 10 {
            proof {
                assert(parse_digits(s@, i as int, acc) is None);
            }
            return None;
        }
        proof {
            let m = 0xFFFF_FFFF_FFFF_FFFFu64 as int;
            let q = (m - d) / 10;
            vstd::arithmetic::div_mod::lemma_fundamental_div_mod(m - d, 10);
            assert(acc * 10 <= q * 10) by (nonlinear_arith)
                requires
                    acc <= q,
                    0 <= q,
            ;
            assert(acc * 10 + d <= m);
        }
        acc = acc * 10 + d;
        i += 1;
    }
    Some((acc, i))
}

/// Walk past a nested value whose opening brace or bracket was consumed.
fn scan_balanced(s: &Vec<char>, start: usize) -> (r: Option<usize>)
    requires
        start <= s@.len(),
    ensures
        match r {
            Some(j) => skip_balanced(s@, start as int, 1, false, false) == Some(j as int) && start
                <= j <= s@.len(),
            None => skip_balanced(s@, start as int, 1, false, false) is None,
        },
{
    let mut i = start;
    let mut depth: u128 = 1;
    let mut in_str = false;
    let mut esc_next = false;
    loop
        invariant
            start <= i <= s@.len(),
            depth <= 1 + (i - start) as u128,
            in_str || !esc_next,
            skip_balanced(s@, start as int, 1, false, false) == skip_balanced(
                s@,
                i as int,
                depth as int,
                in_str,
                esc_next,
            ),
        decreases s@.len() - i,
    {
        if depth == 0 {
            return Some(i);
        }
        if i >= s.len() {
            return None;
        }
        let c = s[i];
        if in_str {
            if esc_next {
                esc_next = false;
            } else if c == '\\' {
                esc_next = true;
            } else if c == '"' {
                in_str = false;
            }
        } else {
            if c == '"' {
                in_str = true;
            } else if c == '{' || c == '[' {
                depth = depth + 1;
            } else if c == '}' || c == ']' {
                depth = depth - 1;
            }
        }
        i += 1;
    }
}

/// Walk past one value of any shape.
fn scan_value(s: &Vec<char>, start: usize) -> (r: Option<usize>)
    requires
        start <= s@.len(),
    ensures
        match r {
            Some(j) => skip_value(s@, start as int) == Some(j as int) && start <= j <= s@.len(),
            None => skip_value(s@, start as int) is None,
        },
{
    if start >= s.len() {
        return None;
    }
    let c = s[start];
    if c == '"' {
        match scan_string_body(s, start + 1) {
            Some((t, j)) => Some(j),
            None => None,
        }
    } else if c == '{' || c == '[' {
        scan_balanced(s, start + 1)
    } else if c == '-' || (48 <= (c as u32) && (c as u32) <= 57) {
        let mut j = start + 1;
        while j < s.len() && ((48 <= (s[j] as u32) && (s[j] as u32) <= 57) || s[j] == '-' || s[j]
            == '+' || s[j] == '.' || s[j] == 'e' || s[j] == 'E')
            invariant
                start + 1 <= j <= s@.len(),
                skip_number_chars(s@, start as int + 1) == skip_number_chars(s@, j as int),
            decreases s@.len() - j,
        {
            j += 1;
        }
        Some(j)
    } else if c == 't' {
        if s.len() - start >= 4 && s[start + 1] == 'r' && s[start + 2] == 'u' && s[start + 3]
            == 'e' {
            Some(start + 4)
        } else {
            None
        }
    } else if c == 'f' {
        if s.len() - start >= 5 && s[start + 1] == 'a' && s[start + 2] == 'l' && s[start + 3] == 's'
            && s[start + 4] == 'e' {
            Some(start + 5)
        } else {
            None
        }
    } else if c == 'n' {
        if s.len() - start >= 4 && s[start + 1] == 'u' && s[start + 2] == 'l' && s[start + 3]
            == 'l' {
            Some(start + 4)
        } else {
            None
        }
    } else {
        None
    }
}

/// Parse one address octet of a dotted-quad text.
fn scan_octet(t: &Vec<char>, start: usize) -> (r: Option<(u8, usize)>)
    requires
        start <= t@.len(),
    ensures
        match r {
            Some(p) => parse_octet(t@, start as int) == Some((p.0, p.1 as int)) && start < p.1
                <= t@.len(),
            None => parse_octet(t@, start as int) is None,
        },
{
    match scan_number(t, start) {
        Some((v, j)) => {
            if v <= 255 {
                Some((v as u8, j))
            } else {
                None
            }
        },
        None => None,
    }
}

/// Parse a whole dotted-quad address text.
fn scan_ip_text(t: &Vec<char>) -> (r: Option<Ipv4>)
    ensures
        r == parse_ip_text(t@),
{
    match scan_octet(t, 0) {
        None => None,
        Some((a, i)) => {
            if !(i < t.len() && t[i] == '.') {
                return None;
            }
            match scan_octet(t, i + 1) {
                None => None,
                Some((b, j)) => {
                    if !(j < t.len() && t[j] == '.') {
                        return None;
                    }
                    match scan_octet(t, j + 1) {
                        None => None,
                        Some((c, k)) => {
                            if !(k < t.len() && t[k] == '.') {
                                return None;
                            }
                            match scan_octet(t, k + 1) {
                                None => None,
                                Some((d, l)) => {
                                    if l == t.len() {
                                        Some(Ipv4 { a, b, c, d })
                                    } else {
                                        None
                                    }
                                },
                            }
                        },
                    }
                },
            }
        },
    }
}

/// Parse the value of the field named `key`.
fn scan_field_value(s: &Vec<char>, start: usize, acc: PartialFields, key: &String) -> (r: Option<
    (PartialFields, usize),
>)
    requires
        start <= s@.len(),
    ensures
        match r {
            Some(p) => parse_field_value(s@, start as int, acc@, key@) == Some((p.0@, p.1 as int))
                && start <= p.1 <= s@.len(),
            None => parse_field_value(s@, start as int, acc@, key@) is None,
        },
{
    proof {
        reveal_strlit("ip");
        reveal_strlit("port");
        reveal_strlit("name");
        reveal_strlit("content");
        assert("ip"@ =~= seq!['i', 'p']);
        assert("port"@ =~= seq!['p', 'o', 'r', 't']);
        assert("name"@ =~= seq!['n', 'a', 'm', 'e']);
        assert("content"@ =~= seq!['c', 'o', 'n', 't', 'e', 'n', 't']);
    }
    if *key == String::from_str("ip") {
        if acc.ip.is_some() {
            return None;
        }
        if !(start < s.len() && s[start] == '"') {
            return None;
        }
        match scan_string_body(s, start + 1) {
            None => None,
            Some((t, j)) => {
                let chars = str_chars(t.as_str());
                match scan_ip_text(&chars) {
                    Some(ip) => Some(
                        (
                            PartialFields {
                                ip: Some(ip),
                                port: acc.port,
                                name: acc.name,
                                content: acc.content,
                            },
                            j,
                        ),
                    ),
                    None => None,
                }
            },
        }
    } else if *key == String::from_str("port") {
        if acc.port.is_some() {
            return None;
        }
        match scan_number(s, start) {
            None => None,
            Some((v, j)) => {
                if v <= 65535 {
                    Some(
                        (
                            PartialFields {
                                ip: acc.ip,
                                port: Some(v as u16),
                                name: acc.name,
                                content: acc.content,
                            },
                            j,
                        ),
                    )
                } else {
                    None
                }
            },
        }
    } else if *key == String::from_str("name") {
        if acc.name.is_some() {
            return None;
        }
        if !(start < s.len() && s[start] == '"') {
            return None;
        }
        match scan_string_body(s, start + 1) {
            None => None,
            Some((t, j)) => Some(
                (
                    PartialFields {
                        ip: acc.ip,
                        port: acc.port,
                        name: Some(t),
                        content: acc.content,
                    },
                    j,
                ),
            ),
        }
    } else if *key == String::from_str("content") {
        if acc.content.is_some() {
            return None;
        }
        if !(start < s.len() && s[start] == '"') {
            return None;
        }
        match scan_string_body(s, start + 1) {
            None => None,
            Some((t, j)) => Some(
                (
                    PartialFields { ip: acc.ip, port: acc.port, name: acc.name, content: Some(t) },
                    j,
                ),
            ),
        }
    } else {
        match scan_value(s, start) {
            Some(j) => Some((acc, j)),
            None => None,
        }
    }
}

/// Parse fields from just after the opening brace through the closing brace.
fn scan_fields(s: &Vec<char>, start: usize) -> (r: Option<(PartialFields, usize)>)
    requires
        start <= s@.len(),
    ensures
        match r {
            Some(p) => parse_fields(s@, start as int, no_fields()) == Some((p.0@, p.1 as int))
                && p.1 <= s@.len(),
            None => parse_fields(s@, start as int, no_fields()) is None,
        },
{
    let mut i = start;
    let mut acc = PartialFields { ip: None, port: None, name: None, content: None };
    proof {
        assert(acc@ =~= no_fields());
    }
    loop
        invariant
            start <= i <= s@.len(),
            parse_fields(s@, start as int, no_fields()) == parse_fields(s@, i as int, acc@),
        decreases s@.len() - i,
    {
        let j = ws_end(s, i);
        if !(j < s.len()) {
            return None;
        }
        if s[j] != '"' {
            return None;
        }
        match scan_string_body(s, j + 1) {
            None => {
                return None;
            },
            Some((key, j2)) => {
                let j3 = ws_end(s, j2);
                if !(j3 < s.len()) {
                    return None;
                }
                if s[j3] != ':' {
                    return None;
                }
                let j4 = ws_end(s, j3 + 1);
                match scan_field_value(s, j4, acc, &key) {
                    None => {
                        return None;
                    },
                    Some((acc2, j5)) => {
                        let j6 = ws_end(s, j5);
                        if j6 < s.len() && s[j6] == ',' {
                            acc = acc2;
                            i = j6 + 1;
                        } else if j6 < s.len() && s[j6] == '}' {
                            return Some((acc2, j6 + 1));
                        } else {
                            return None;
                        }
                    },
                }
            },
        }
    }
}

/// Decode one datagram's text into a message, if it is a well-formed
/// announcement; malformed or foreign traffic decodes to nothing.
pub fn decode_message(text: &str) -> (r: Option<Message>)
    ensures
        r is Some <==> spec_decode(text@) is Some,
        r is Some ==> spec_decode(text@) == Some(r->0@),
{
    let s = str_chars(text);
    let i = ws_end(&s, 0);
    if !(i < s.len() && s[i] == '{') {
        return None;
    }
    let j = ws_end(&s, i + 1);
    let fres: Option<(PartialFields, usize)> = if j < s.len() && s[j] == '}' {
        let empty = PartialFields { ip: None, port: None, name: None, content: None };
        proof {
            assert(empty@ =~= no_fields());
        }
        Some((empty, j + 1))
    } else {
        scan_fields(&s, i + 1)
    };
    match fres {
        None => None,
        Some((f, k)) => {
            if ws_end(&s, k) != s.len() {
                return None;
            }
            match (f.ip, f.port, f.name, f.content) {
                (Some(ip), Some(port), Some(name), Some(content)) => Some(
                    Message { ip, port, name, content },
                ),
                _ => None,
            }
        },
    }
}

} // verus!
