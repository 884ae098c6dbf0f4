//! Decoding an encoded announcement gives the announcement back. This is
//! the guarantee that two nodes of this crate understand each other: what
//! the announcer sends, a listener reads, field for field.

use vstd::prelude::*;

use crate::addr::Ipv4;
use crate::codec::{
    esc, esc_char, hex_val, ip_chars, is_digit, is_ws, no_fields, parse_field_value, parse_fields,
    parse_ip_text, parse_number, parse_octet, parse_digits, parse_string_body, skip_ws, spec_decode,
    spec_encode, MessageView, PartialFieldsView,
};
use crate::text::{dec_digits, digit_char, hex_char};

verus! {

/// A character that stands for itself inside an encoded text field.
pub open spec fn plain_char(c: char) -> bool {
    c != '"' && c != '\\' && (c as u32) >= 32
}

/// A text of characters that stand for themselves.
pub open spec fn all_plain(t: Seq<char>) -> bool {
    forall|i: int| 0 <= i < t.len() ==> plain_char(t[i])
}

/// Escaping a plain text changes nothing.
proof fn lemma_esc_plain(t: Seq<char>)
    requires
        all_plain(t),
    ensures
        esc(t) == t,
    decreases t.len(),
{
    if t.len() == 0 {
        assert(esc(t) =~= t);
    } else {
        assert(all_plain(t.drop_last()));
        lemma_esc_plain(t.drop_last());
        assert(plain_char(t.last()));
        assert(esc_char(t.last()) =~= seq![t.last()]);
        assert(esc(t) =~= t);
    }
}

/// Escaping works character by character from the front as well.
proof fn lemma_esc_head(t: Seq<char>)
    requires
        t.len() > 0,
    ensures
        esc(t) == esc_char(t[0]) + esc(t.skip(1)),
    decreases t.len(),
{
    if t.len() == 1 {
        assert(t.drop_last() =~= Seq::<char>::empty());
        assert(t.skip(1) =~= Seq::<char>::empty());
        assert(esc(t) =~= esc_char(t[0]) + esc(t.skip(1)));
    } else {
        lemma_esc_head(t.drop_last());
        assert(t.skip(1).drop_last() =~= t.drop_last().skip(1));
        assert(t.skip(1).last() == t.last());
        assert(esc(t.skip(1)) == esc(t.drop_last().skip(1)) + esc_char(t.last()));
        assert(t.drop_last()[0] == t[0]);
        assert(esc(t) == esc_char(t[0]) + esc(t.drop_last().skip(1)) + esc_char(t.last()));
        assert(esc(t) =~= esc_char(t[0]) + esc(t.skip(1)));
    }
}

/// The hexadecimal digit characters read back as their values, and are
/// plain.
proof fn lemma_hex_char_val(d: int)
    requires
        0 <= d < 16,
    ensures
        hex_val(hex_char(d)) == d,
        plain_char(hex_char(d)),
{
    if d < 10 {
        assert(hex_char(d) as u32 == 48 + d);
    } else {
        assert(hex_char(d) as u32 == 87 + d);
    }
}

/// The decimal digit characters are digits, are plain, and read back as
/// their values.
proof fn lemma_digit_char(d: int)
    requires
        0 <= d <= 9,
    ensures
        digit_char(d) as u32 == 48 + d,
        is_digit(digit_char(d)),
        plain_char(digit_char(d)),
        !is_ws(digit_char(d)),
        digit_char(d) != '.',
{
    assert(digit_char(d) as u32 == 48 + d);
}

/// Parsing a quoted text whose body is the escaped form of `t` yields `t`
/// appended to whatever was read so far, ending just past the closing quote.
proof fn lemma_parse_string_at(s: Seq<char>, i: int, t: Seq<char>, acc: Seq<char>)
    requires
        0 <= i,
        i + esc(t).len() + 1 <= s.len(),
        s.subrange(i, i + esc(t).len()) == esc(t),
        s[i + esc(t).len()] == '"',
    ensures
        parse_string_body(s, i, acc) == Some((acc + t, i + esc(t).len() + 1)),
    decreases t.len(),
{
    if t.len() == 0 {
        assert(esc(t) =~= Seq::<char>::empty());
        assert(s[i] == '"');
        assert(acc + t =~= acc);
    } else {
        let c = t[0];
        let rest = t.skip(1);
        lemma_esc_head(t);
        let ec = esc_char(c);
        assert(esc(t) == ec + esc(rest));
        assert forall|k: int| 0 <= k < ec.len() implies s[i + k] == ec[k] by {
            assert(s.subrange(i, i + esc(t).len())[k] == s[i + k]);
            assert((ec + esc(rest))[k] == ec[k]);
        }
        assert(s.subrange(i + ec.len(), i + esc(t).len()) =~= esc(rest)) by {
            assert forall|k: int| 0 <= k < esc(rest).len() implies s.subrange(
                i + ec.len(),
                i + esc(t).len(),
            )[k] == esc(rest)[k] by {
                assert(s.subrange(i, i + esc(t).len())[ec.len() + k] == s[i + ec.len() + k]);
                assert((ec + esc(rest))[ec.len() + k] == esc(rest)[k]);
            }
        }
        if c == '"' {
            assert(ec =~= seq!['\\', '"']);
            assert(s[i + 0] == ec[0] && s[i + 1] == ec[1]);
            assert(s[i] == '\\' && s[i + 1] == '"');
            lemma_parse_string_at(s, i + 2, rest, acc.push(c));
            assert(acc.push(c) + rest =~= acc + t);
        } else if c == '\\' {
            assert(ec =~= seq!['\\', '\\']);
            assert(s[i + 0] == ec[0] && s[i + 1] == ec[1]);
            assert(s[i] == '\\' && s[i + 1] == '\\');
            lemma_parse_string_at(s, i + 2, rest, acc.push(c));
            assert(acc.push(c) + rest =~= acc + t);
        } else if (c as u32) < 32 {
            let hi = (c as u32) as int / 16;
            let lo = (c as u32) as int % 16;
            assert(ec =~= seq!['\\', 'u', '0', '0', hex_char(hi), hex_char(lo)]);
            assert(s[i + 0] == ec[0] && s[i + 1] == ec[1] && s[i + 2] == ec[2] && s[i + 3] == ec[3]
                && s[i + 4] == ec[4] && s[i + 5] == ec[5]);
            assert(s[i] == '\\' && s[i + 1] == 'u' && s[i + 2] == '0' && s[i + 3] == '0');
            assert(s[i + 4] == hex_char(hi) && s[i + 5] == hex_char(lo));
            lemma_hex_char_val(hi);
            lemma_hex_char_val(lo);
            assert(hex_val('0') == 0);
            let v = hex_val(s[i + 2]) * 4096 + hex_val(s[i + 3]) * 256 + hex_val(s[i + 4]) * 16
                + hex_val(s[i + 5]);
            assert(v == hi * 16 + lo);
            assert(v == c as u32) by {
                assert(hi * 16 + lo == (c as u32) as int);
            }
            assert(v < 128);
            assert(((v as u8) as char) == c) by {
                let x = (v as u8) as char;
                assert(x as u32 == v);
                vstd::utf8::char_u32_cast(x, x as u32);
                vstd::utf8::char_u32_cast(c, c as u32);
            }
            lemma_parse_string_at(s, i + 6, rest, acc.push(c));
            assert(acc.push(c) + rest =~= acc + t);
        } else {
            assert(ec =~= seq![c]);
            assert(s[i + 0] == ec[0]);
            assert(s[i] == c);
            lemma_parse_string_at(s, i + 1, rest, acc.push(c));
            assert(acc.push(c) + rest =~= acc + t);
        }
    }
}

/// Ten to the `k`.
pub open spec fn pow10(k: int) -> int
    decreases k,
{
    if k <= 0 {
        1
    } else {
        10 * pow10(k - 1)
    }
}

proof fn lemma_pow10_pos(k: int)
    ensures
        pow10(k) >= 1,
        k >= 1 ==> pow10(k) >= 10,
    decreases k,
{
    if k > 0 {
        lemma_pow10_pos(k - 1);
    }
}

/// The number read from a run of digit characters, most significant first.
pub open spec fn digits_val(ds: Seq<char>) -> int
    decreases ds.len(),
{
    if ds.len() == 0 {
        0
    } else {
        digits_val(ds.drop_last()) * 10 + (ds.last() as u32 - 48)
    }
}

/// Every character of `ds` is a decimal digit.
pub open spec fn all_digits(ds: Seq<char>) -> bool {
    forall|i: int| 0 <= i < ds.len() ==> is_digit(ds[i])
}

/// The value of a digit run, taken from the front: the first digit carries
/// the highest weight.
proof fn lemma_digits_val_head(ds: Seq<char>)
    requires
        ds.len() > 0,
        all_digits(ds),
    ensures
        digits_val(ds) == (ds[0] as u32 - 48) * pow10(ds.len() as int - 1) + digits_val(ds.skip(1)),
        digits_val(ds) >= 0,
        digits_val(ds.skip(1)) >= 0,
        digits_val(ds.skip(1)) < pow10(ds.len() as int - 1),
    decreases ds.len(),
{
    lemma_pow10_pos(ds.len() as int - 1);
    if ds.len() == 1 {
        assert(ds.drop_last() =~= Seq::<char>::empty());
        assert(ds.skip(1) =~= Seq::<char>::empty());
        assert(is_digit(ds[0]));
    } else {
        let d = ds.drop_last();
        assert(all_digits(d)) by {
            assert(forall|i: int| 0 <= i < d.len() ==> d[i] == ds[i]);
        }
        lemma_digits_val_head(d);
        assert(ds.skip(1).drop_last() =~= d.skip(1));
        assert(ds.skip(1).last() == ds.last());
        assert(d[0] == ds[0]);
        assert(is_digit(ds.last()));
        let w = pow10(d.len() as int - 1);
        lemma_pow10_pos(d.len() as int - 1);
        // digits_val(ds) == digits_val(d) * 10 + last
        //               == ((ds[0] - 48) * w + digits_val(d.skip(1))) * 10 + last
        assert(((ds[0] as u32 - 48) * w + digits_val(d.skip(1))) * 10 == (ds[0] as u32 - 48) * (w
            * 10) + digits_val(d.skip(1)) * 10) by (nonlinear_arith);
        assert(w * 10 == pow10(ds.len() as int - 1));
        assert(digits_val(ds.skip(1)) == digits_val(d.skip(1)) * 10 + (ds.last() as u32 - 48));
        // bound: digits_val(ds.skip(1)) < pow10(ds.len() as int - 1)
        assert(digits_val(d.skip(1)) <= w - 1);
        assert(digits_val(d.skip(1)) * 10 <= (w - 1) * 10) by (nonlinear_arith)
            requires
                digits_val(d.skip(1)) <= w - 1,
        ;
        assert((ds.last() as u32 - 48) <= 9);
        assert(digits_val(ds.skip(1)) <= w * 10 - 1);
    }
}

/// Running the digit parser over a digit run bounded by a non-digit (or the
/// end of the text) accumulates exactly the run's value.
proof fn lemma_parse_digits_run(s: Seq<char>, i: int, ds: Seq<char>, acc: u64)
    requires
        0 <= i,
        i + ds.len() <= s.len(),
        all_digits(ds),
        s.subrange(i, i + ds.len()) == ds,
        i + ds.len() == s.len() || !is_digit(s[i + ds.len()]),
        acc * pow10(ds.len() as int) + digits_val(ds) <= 0xFFFF_FFFF_FFFF_FFFF,
    ensures
        parse_digits(s, i, acc) == Some(((acc * pow10(ds.len() as int) + digits_val(ds)) as u64, i
            + ds.len())),
    decreases ds.len(),
{
    lemma_pow10_pos(ds.len() as int);
    if ds.len() == 0 {
        assert(digits_val(ds) == 0);
        assert(parse_digits(s, i, acc) == Some((acc, i)));
    } else {
        lemma_digits_val_head(ds);
        let d0 = (ds[0] as u32 - 48) as int;
        let w = pow10(ds.len() as int - 1);
        lemma_pow10_pos(ds.len() as int - 1);
        assert(s[i] == ds[0]) by {
            assert(s.subrange(i, i + ds.len())[0] == s[i]);
        }
        assert(is_digit(s[i]));
        let m = 0xFFFF_FFFF_FFFF_FFFF as int;
        // The whole value bounds the first accumulation step.
        assert(acc * pow10(ds.len() as int) == acc * 10 * w) by (nonlinear_arith)
            requires
                w == pow10(ds.len() as int - 1),
                pow10(ds.len() as int) == 10 * w,
        ;
        assert(acc * 10 <= acc * 10 * w) by (nonlinear_arith)
            requires
                w >= 1,
                acc >= 0,
        ;
        assert(d0 <= d0 * w) by (nonlinear_arith)
            requires
                w >= 1,
                d0 >= 0,
        ;
        assert(digits_val(ds) == d0 * w + digits_val(ds.skip(1)));
        assert(acc * 10 + d0 <= m);
        // So the overflow guard does not fire.
        vstd::arithmetic::div_mod::lemma_fundamental_div_mod(m - d0, 10);
        assert(acc <= (m - d0) / 10) by (nonlinear_arith)
            requires
                acc * 10 + d0 <= m,
                m - d0 == 10 * ((m - d0) / 10) + (m - d0) % 10,
                0 <= (m - d0) % 10 < 10,
        ;
        let acc2 = (acc * 10 + d0) as u64;
        let rest = ds.skip(1);
        assert(all_digits(rest)) by {
            assert(forall|k: int| 0 <= k < rest.len() ==> rest[k] == ds[k + 1]);
        }
        assert(s.subrange(i + 1, i + 1 + rest.len()) =~= rest) by {
            assert forall|k: int| 0 <= k < rest.len() implies s.subrange(
                i + 1,
                i + 1 + rest.len(),
            )[k] == rest[k] by {
                assert(s.subrange(i, i + ds.len())[k + 1] == s[i + 1 + k]);
            }
        }
        assert(acc2 * pow10(rest.len() as int) + digits_val(rest) == acc * pow10(ds.len() as int) + digits_val(
            ds,
        )) by (nonlinear_arith)
            requires
                acc2 == acc * 10 + d0,
                pow10(ds.len() as int) == 10 * pow10(rest.len() as int),
                rest.len() == ds.len() - 1,
                w == pow10(rest.len() as int),
                digits_val(ds) == d0 * w + digits_val(rest),
        ;
        lemma_parse_digits_run(s, i + 1, rest, acc2);
    }
}

/// The decimal text of `n` consists of digits, has no leading zero, and
/// reads back as `n`.
proof fn lemma_dec_digits(n: int)
    requires
        n >= 0,
    ensures
        dec_digits(n).len() >= 1,
        all_digits(dec_digits(n)),
        all_plain(dec_digits(n)),
        digits_val(dec_digits(n)) == n,
        n >= 1 ==> dec_digits(n)[0] != '0',
        n == 0 ==> dec_digits(n) == seq!['0'],
    decreases n,
{
    if n < 10 {
        lemma_digit_char(n);
        assert(dec_digits(n) =~= seq![digit_char(n)]);
        assert(digits_val(dec_digits(n)) == n) by {
            assert(dec_digits(n).drop_last() =~= Seq::<char>::empty());
            assert(digits_val(Seq::<char>::empty()) == 0);
            assert(dec_digits(n).last() == digit_char(n));
        }
        if n >= 1 {
            assert(digit_char(n) as u32 == 48 + n);
            assert('0' as u32 == 48);
        }
    } else {
        lemma_dec_digits(n / 10);
        lemma_digit_char(n % 10);
        let head = dec_digits(n / 10);
        let ds = dec_digits(n);
        assert(ds == head.push(digit_char(n % 10)));
        assert(all_digits(ds)) by {
            assert(forall|i: int| 0 <= i < head.len() ==> ds[i] == head[i]);
            assert(ds.last() == digit_char(n % 10));
        }
        assert(all_plain(ds)) by {
            assert(forall|i: int| 0 <= i < head.len() ==> ds[i] == head[i]);
            assert(ds.last() == digit_char(n % 10));
        }
        assert(ds.drop_last() =~= head);
        assert(digits_val(ds) == digits_val(head) * 10 + (digit_char(n % 10) as u32 - 48));
        assert(digits_val(ds) == (n / 10) * 10 + n % 10);
        assert((n / 10) * 10 + n % 10 == n) by {
            vstd::arithmetic::div_mod::lemma_fundamental_div_mod(n, 10);
        }
        assert(ds[0] == head[0]);
        assert(n / 10 >= 1);
    }
}

/// Parsing the decimal text of `n` at `i`, bounded by a non-digit or the
/// text's end, yields exactly `n`.
proof fn lemma_parse_number_at(s: Seq<char>, i: int, n: int)
    requires
        0 <= n <= 0xFFFF_FFFF_FFFF_FFFF,
        0 <= i,
        i + dec_digits(n).len() <= s.len(),
        s.subrange(i, i + dec_digits(n).len()) == dec_digits(n),
        i + dec_digits(n).len() == s.len() || !is_digit(s[i + dec_digits(n).len()]),
    ensures
        parse_number(s, i) == Some((n as u64, i + dec_digits(n).len())),
{
    lemma_dec_digits(n);
    let ds = dec_digits(n);
    assert(s[i] == ds[0]) by {
        assert(s.subrange(i, i + ds.len())[0] == s[i]);
    }
    if n == 0 {
        assert(ds =~= seq!['0']);
        assert(s[i] == '0');
        assert(parse_number(s, i) == Some((0u64, i + 1)));
    } else {
        assert(s[i] != '0');
        assert(is_digit(s[i]));
        lemma_parse_digits_run(s, i, ds, 0);
        assert(0 * pow10(ds.len() as int) + digits_val(ds) == n);
    }
}


/// The dotted-quad text of an address parses back to the address.
proof fn lemma_ip_roundtrip(ip: Ipv4)
    ensures
        parse_ip_text(ip_chars(ip)) == Some(ip),
{
    let t = ip_chars(ip);
    let da = dec_digits(ip.a as int);
    let db = dec_digits(ip.b as int);
    let dc = dec_digits(ip.c as int);
    let dd = dec_digits(ip.d as int);
    lemma_dec_digits(ip.a as int);
    lemma_dec_digits(ip.b as int);
    lemma_dec_digits(ip.c as int);
    lemma_dec_digits(ip.d as int);
    let la = da.len() as int;
    let lb = db.len() as int;
    let lc = dc.len() as int;
    let ld = dd.len() as int;
    let o2 = la + 1;
    let o3 = la + 1 + lb + 1;
    let o4 = la + 1 + lb + 1 + lc + 1;
    assert(t.len() == la + 1 + lb + 1 + lc + 1 + ld);
    assert(t.subrange(0, la) =~= da);
    assert(t[la] == '.');
    assert(!is_digit('.'));
    lemma_parse_number_at(t, 0, ip.a as int);
    assert(parse_octet(t, 0) == Some((ip.a, la)));
    assert(t.subrange(o2, o2 + lb) =~= db);
    assert(t[o2 + lb] == '.');
    lemma_parse_number_at(t, o2, ip.b as int);
    assert(parse_octet(t, o2) == Some((ip.b, o2 + lb)));
    assert(t.subrange(o3, o3 + lc) =~= dc);
    assert(t[o3 + lc] == '.');
    lemma_parse_number_at(t, o3, ip.c as int);
    assert(parse_octet(t, o3) == Some((ip.c, o3 + lc)));
    assert(t.subrange(o4, o4 + ld) =~= dd);
    assert(o4 + ld == t.len());
    lemma_parse_number_at(t, o4, ip.d as int);
    assert(parse_octet(t, o4) == Some((ip.d, o4 + ld)));
    assert(parse_ip_text(t) == Some(Ipv4 { a: ip.a, b: ip.b, c: ip.c, d: ip.d }));
    assert(Ipv4 { a: ip.a, b: ip.b, c: ip.c, d: ip.d } == ip);
}


/// One field of an encoded object: a quoted plain key, a colon, and a value
/// already accounted for, followed by a comma (more fields) or the closing
/// brace (done).
proof fn lemma_parse_fields_step(
    s: Seq<char>,
    i: int,
    acc: PartialFieldsView,
    key: Seq<char>,
    acc2: PartialFieldsView,
    vend: int,
)
    requires
        0 <= i < s.len(),
        s[i] == '"',
        all_plain(key),
        i + 3 + key.len() < s.len(),
        s.subrange(i + 1, i + 1 + key.len()) == key,
        s[i + 1 + key.len()] == '"',
        s[i + 2 + key.len()] == ':',
        !is_ws(s[i + 3 + key.len()]),
        parse_field_value(s, i + 3 + key.len(), acc, key) == Some((acc2, vend)),
        i < vend < s.len(),
        !is_ws(s[vend]),
    ensures
        s[vend] == ',' ==> parse_fields(s, i, acc) == parse_fields(s, vend + 1, acc2),
        s[vend] == '}' ==> parse_fields(s, i, acc) == Some((acc2, vend + 1)),
{
    assert(!is_ws(s[i]));
    assert(skip_ws(s, i) == i);
    lemma_esc_plain(key);
    lemma_parse_string_at(s, i + 1, key, Seq::empty());
    assert(Seq::empty() + key =~= key);
    assert(parse_string_body(s, i + 1, Seq::empty()) == Some((key, i + key.len() + 2)));
    let j2 = i + key.len() + 2;
    assert(s[j2] == ':');
    assert(!is_ws(s[j2]));
    assert(skip_ws(s, j2) == j2);
    let j4 = j2 + 1;
    assert(skip_ws(s, j4) == j4);
    assert(skip_ws(s, vend) == vend);
}

/// The encoded text, its parts, and the offsets the field lemmas share.
pub open spec fn enc_a0(m: MessageView) -> int {
    16 + ip_chars(m.ip).len() as int + dec_digits(m.port as int).len() as int
}

pub open spec fn enc_b0(m: MessageView) -> int {
    enc_a0(m) + 9 + esc(m.name).len() as int
}

pub open spec fn enc_c0(m: MessageView) -> int {
    enc_b0(m) + 13 + esc(m.content).len() as int
}

/// The accumulated fields after each parsed field of an encoding.
pub open spec fn enc_f1(m: MessageView) -> PartialFieldsView {
    PartialFieldsView { ip: Some(m.ip), ..no_fields() }
}

pub open spec fn enc_f2(m: MessageView) -> PartialFieldsView {
    PartialFieldsView { port: Some(m.port), ..enc_f1(m) }
}

pub open spec fn enc_f3(m: MessageView) -> PartialFieldsView {
    PartialFieldsView { name: Some(m.name), ..enc_f2(m) }
}

pub open spec fn enc_f4(m: MessageView) -> PartialFieldsView {
    PartialFieldsView { content: Some(m.content), ..enc_f3(m) }
}

/// The shape of the encoding, spelled out once.
proof fn lemma_enc_shape(m: MessageView)
    ensures
        spec_encode(m) == seq!['{', '"', 'i', 'p', '"', ':', '"'] + ip_chars(m.ip) + seq!['"', ',', '"', 'p', 'o', 'r', 't', '"', ':']
            + dec_digits(m.port as int) + seq![',', '"', 'n', 'a', 'm', 'e', '"', ':', '"'] + esc(
            m.name,
        ) + seq!['"', ',', '"', 'c', 'o', 'n', 't', 'e', 'n', 't', '"', ':', '"'] + esc(m.content)
            + seq!['"', '}'],
        spec_encode(m).len() == enc_c0(m) + 2,
{
}

/// The first field of an encoding: the address.
proof fn lemma_enc_field_ip(m: MessageView)
    ensures
        parse_fields(spec_encode(m), 1, no_fields()) == parse_fields(
            spec_encode(m),
            9 + ip_chars(m.ip).len() as int,
            enc_f1(m),
        ),
{
    let s = spec_encode(m);
    lemma_enc_shape(m);
    let ipt = ip_chars(m.ip);
    let li = ipt.len() as int;
    lemma_dec_digits(m.ip.a as int);
    lemma_dec_digits(m.ip.b as int);
    lemma_dec_digits(m.ip.c as int);
    lemma_dec_digits(m.ip.d as int);
    assert(all_plain(ipt)) by {
        assert forall|k: int| 0 <= k < ipt.len() implies plain_char(ipt[k]) by {
            let da = dec_digits(m.ip.a as int);
            let db = dec_digits(m.ip.b as int);
            let dc = dec_digits(m.ip.c as int);
            let dd = dec_digits(m.ip.d as int);
            assert(ipt == da + seq!['.'] + db + seq!['.'] + dc + seq!['.'] + dd);
            assert(plain_char('.'));
        }
    }
    let kip = Seq::<char>::empty().push('i').push('p');
    assert(kip =~= seq!['i', 'p']);
    assert(all_plain(seq!['i', 'p'])) by {
        assert forall|k: int| 0 <= k < kip.len() implies plain_char(kip[k]) by {
            assert(kip[0] == 'i' && kip[1] == 'p');
        }
        assert(all_plain(kip));
    }
    let f0 = no_fields();
    let f1 = enc_f1(m);
    assert(s.subrange(2, 4) =~= seq!['i', 'p']);
    assert(s[1] == '"' && s[4] == '"' && s[5] == ':' && s[6] == '"');
    assert(parse_field_value(s, 6, f0, seq!['i', 'p']) == Some((f1, 8 + li))) by {
        assert(s.subrange(7, 7 + li) =~= ipt);
        assert(s[7 + li] == '"');
        lemma_esc_plain(ipt);
        lemma_parse_string_at(s, 7, ipt, Seq::empty());
        assert(Seq::empty() + ipt =~= ipt);
        lemma_ip_roundtrip(m.ip);
    }
    assert(s[8 + li] == ',');
    assert(!is_ws(s[8 + li]) && !is_ws(s[6]));
    lemma_parse_fields_step(s, 1, f0, seq!['i', 'p'], f1, 8 + li);
}

/// The second field of an encoding: the port.
proof fn lemma_enc_field_port(m: MessageView)
    ensures
        parse_fields(spec_encode(m), 9 + ip_chars(m.ip).len() as int, enc_f1(m)) == parse_fields(
            spec_encode(m),
            enc_a0(m) + 1,
            enc_f2(m),
        ),
{
    let s = spec_encode(m);
    lemma_enc_shape(m);
    let li = ip_chars(m.ip).len() as int;
    let pd = dec_digits(m.port as int);
    let lp = pd.len() as int;
    let a0 = enc_a0(m);
    lemma_dec_digits(m.port as int);
    let kip = Seq::<char>::empty().push('i').push('p');
    let kport = Seq::<char>::empty().push('p').push('o').push('r').push('t');
    assert(kip =~= seq!['i', 'p']);
    assert(kport =~= seq!['p', 'o', 'r', 't']);
    assert(all_plain(seq!['p', 'o', 'r', 't'])) by {
        assert forall|k: int| 0 <= k < kport.len() implies plain_char(kport[k]) by {
            assert(kport[0] == 'p' && kport[1] == 'o' && kport[2] == 'r' && kport[3] == 't');
        }
        assert(all_plain(kport));
    }
    let i2 = 9 + li;
    let f1 = enc_f1(m);
    let f2 = enc_f2(m);
    assert(s[i2] == '"');
    assert(s.subrange(i2 + 1, i2 + 5) =~= seq!['p', 'o', 'r', 't']);
    assert(s[i2 + 5] == '"' && s[i2 + 6] == ':');
    assert(parse_field_value(s, 16 + li, f1, seq!['p', 'o', 'r', 't']) == Some((f2, a0))) by {
        assert(kport[0] == 'p' && kip[0] == 'i');
        assert(seq!['p', 'o', 'r', 't'].len() != seq!['i', 'p'].len());
        assert(seq!['p', 'o', 'r', 't'] != seq!['i', 'p']);
        assert(s.subrange(16 + li, 16 + li + lp) =~= pd);
        assert(s[a0] == ',');
        assert(!is_digit(','));
        lemma_parse_number_at(s, 16 + li, m.port as int);
        assert((m.port as u64) <= 65535);
    }
    assert(is_digit(s[16 + li])) by {
        assert(s.subrange(16 + li, 16 + li + lp) =~= pd);
        assert(s[16 + li] == pd[0]);
    }
    assert(!is_ws(s[16 + li])) by {
        assert(is_digit(s[16 + li]));
        if is_ws(s[16 + li]) {
            assert((s[16 + li] as u32) == 32 || (s[16 + li] as u32) == 9 || (s[16 + li] as u32)
                == 10 || (s[16 + li] as u32) == 13);
        }
    }
    assert(s[a0] == ',' && !is_ws(s[a0]));
    lemma_parse_fields_step(s, i2, f1, seq!['p', 'o', 'r', 't'], f2, a0);
}

/// The third field of an encoding: the identity.
proof fn lemma_enc_field_name(m: MessageView)
    ensures
        parse_fields(spec_encode(m), enc_a0(m) + 1, enc_f2(m)) == parse_fields(
            spec_encode(m),
            enc_b0(m) + 2,
            enc_f3(m),
        ),
{
    let s = spec_encode(m);
    lemma_enc_shape(m);
    let a0 = enc_a0(m);
    let b0 = enc_b0(m);
    let en = esc(m.name);
    let ln = en.len() as int;
    let kip = Seq::<char>::empty().push('i').push('p');
    let kport = Seq::<char>::empty().push('p').push('o').push('r').push('t');
    let kname = Seq::<char>::empty().push('n').push('a').push('m').push('e');
    assert(kip =~= seq!['i', 'p']);
    assert(kport =~= seq!['p', 'o', 'r', 't']);
    assert(kname =~= seq!['n', 'a', 'm', 'e']);
    assert(all_plain(seq!['n', 'a', 'm', 'e'])) by {
        assert forall|k: int| 0 <= k < kname.len() implies plain_char(kname[k]) by {
            assert(kname[0] == 'n' && kname[1] == 'a' && kname[2] == 'm' && kname[3] == 'e');
        }
        assert(all_plain(kname));
    }
    let i3 = a0 + 1;
    let f2 = enc_f2(m);
    let f3 = enc_f3(m);
    assert(s[i3] == '"');
    assert(s.subrange(i3 + 1, i3 + 5) =~= seq!['n', 'a', 'm', 'e']);
    assert(s[i3 + 5] == '"' && s[i3 + 6] == ':' && s[i3 + 7] == '"');
    assert(parse_field_value(s, a0 + 8, f2, seq!['n', 'a', 'm', 'e']) == Some((f3, b0 + 1))) by {
        assert(kname[0] == 'n' && kport[0] == 'p');
        assert(seq!['i', 'p'].len() == 2 && seq!['n', 'a', 'm', 'e'].len() == 4);
        assert(seq!['n', 'a', 'm', 'e'] != seq!['i', 'p']);
        assert(seq!['n', 'a', 'm', 'e'] != seq!['p', 'o', 'r', 't']) by {
            if seq!['n', 'a', 'm', 'e'] == seq!['p', 'o', 'r', 't'] {
                assert(seq!['n', 'a', 'm', 'e'][0] == seq!['p', 'o', 'r', 't'][0]);
            }
        }
        assert(s.subrange(a0 + 9, a0 + 9 + ln) =~= en);
        assert(s[b0] == '"');
        lemma_parse_string_at(s, a0 + 9, m.name, Seq::empty());
        assert(Seq::empty() + m.name =~= m.name);
    }
    assert(s[a0 + 8] == '"' && !is_ws(s[a0 + 8]));
    assert(s[b0 + 1] == ',' && !is_ws(s[b0 + 1]));
    lemma_parse_fields_step(s, i3, f2, seq!['n', 'a', 'm', 'e'], f3, b0 + 1);
}

/// The last field of an encoding: the content, closing the object.
proof fn lemma_enc_field_content(m: MessageView)
    ensures
        parse_fields(spec_encode(m), enc_b0(m) + 2, enc_f3(m)) == Some(
            (enc_f4(m), enc_c0(m) + 2),
        ),
{
    let s = spec_encode(m);
    lemma_enc_shape(m);
    let b0 = enc_b0(m);
    let c0 = enc_c0(m);
    let ec = esc(m.content);
    let lc = ec.len() as int;
    let kip = Seq::<char>::empty().push('i').push('p');
    let kport = Seq::<char>::empty().push('p').push('o').push('r').push('t');
    let kname = Seq::<char>::empty().push('n').push('a').push('m').push('e');
    let kcontent = Seq::<char>::empty().push('c').push('o').push('n').push('t').push('e').push(
        'n',
    ).push('t');
    assert(kip =~= seq!['i', 'p']);
    assert(kport =~= seq!['p', 'o', 'r', 't']);
    assert(kname =~= seq!['n', 'a', 'm', 'e']);
    assert(kcontent =~= seq!['c', 'o', 'n', 't', 'e', 'n', 't']);
    assert(all_plain(seq!['c', 'o', 'n', 't', 'e', 'n', 't'])) by {
        assert forall|k: int| 0 <= k < kcontent.len() implies plain_char(kcontent[k]) by {
            assert(kcontent[0] == 'c' && kcontent[1] == 'o' && kcontent[2] == 'n' && kcontent[3]
                == 't' && kcontent[4] == 'e' && kcontent[5] == 'n' && kcontent[6] == 't');
        }
        assert(all_plain(kcontent));
    }
    let i4 = b0 + 2;
    let f3 = enc_f3(m);
    let f4 = enc_f4(m);
    assert(s[i4] == '"');
    assert(s.subrange(i4 + 1, i4 + 8) =~= seq!['c', 'o', 'n', 't', 'e', 'n', 't']);
    assert(s[i4 + 8] == '"' && s[i4 + 9] == ':' && s[i4 + 10] == '"');
    assert(parse_field_value(s, b0 + 12, f3, seq!['c', 'o', 'n', 't', 'e', 'n', 't']) == Some(
        (f4, c0 + 1),
    )) by {
        let ck = seq!['c', 'o', 'n', 't', 'e', 'n', 't'];
        assert(ck.len() == 7);
        assert(seq!['i', 'p'].len() == 2 && seq!['p', 'o', 'r', 't'].len() == 4 && seq!['n', 'a', 'm', 'e'].len()
            == 4);
        assert(ck != seq!['i', 'p']);
        assert(ck != seq!['p', 'o', 'r', 't']);
        assert(ck != seq!['n', 'a', 'm', 'e']);
        assert(s.subrange(b0 + 13, b0 + 13 + lc) =~= ec);
        assert(s[c0] == '"');
        lemma_parse_string_at(s, b0 + 13, m.content, Seq::empty());
        assert(Seq::empty() + m.content =~= m.content);
    }
    assert(s[b0 + 12] == '"' && !is_ws(s[b0 + 12]));
    assert(s[c0 + 1] == '}' && !is_ws(s[c0 + 1]));
    lemma_parse_fields_step(s, i4, f3, seq!['c', 'o', 'n', 't', 'e', 'n', 't'], f4, c0 + 1);
}

/// What the announcer encodes, any listener decodes back, field for field:
/// the wire format loses nothing.
pub proof fn lemma_decode_encode(m: MessageView)
    ensures
        spec_decode(spec_encode(m)) == Some(m),
{
    let s = spec_encode(m);
    lemma_enc_shape(m);
    lemma_enc_field_ip(m);
    lemma_enc_field_port(m);
    lemma_enc_field_name(m);
    lemma_enc_field_content(m);
    let f4 = enc_f4(m);
    assert(parse_fields(s, 1, no_fields()) == Some((f4, enc_c0(m) + 2)));
    assert(s[0] == '{' && !is_ws(s[0]));
    assert(skip_ws(s, 0) == 0);
    assert(s[1] == '"' && !is_ws(s[1]));
    assert(skip_ws(s, 1) == 1);
    assert(s[1] != '}');
    assert(skip_ws(s, enc_c0(m) + 2) == enc_c0(m) + 2);
    assert(f4.ip == Some(m.ip) && f4.port == Some(m.port) && f4.name == Some(m.name) && f4.content
        == Some(m.content));
    let mv = MessageView { ip: f4.ip->0, port: f4.port->0, name: f4.name->0, content: f4.content->0 };
    assert(mv =~= m);
    assert(spec_decode(s) == Some(m));
}

} // verus!
