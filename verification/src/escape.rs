//! Markup escaping and entity resolution.
//!
//! Text content escapes `<`, `>`, `&`, `'`, `"` and carriage returns;
//! attribute values additionally escape newlines and tabs.  Unescaping
//! resolves the five predefined entities and numeric character references.

use vstd::prelude::*;

use crate::chars::is_digit;
use crate::chars::is_hex_digit;
use crate::chars::digit_val;
use crate::chars::str_to_chars;
use crate::chars::push_str;
use crate::text::all_digits;

verus! {

/// The replacement text of one character when escaping.  Attribute values
/// (`attr`) also escape tab and newline, which would otherwise be normalized
/// to spaces.
pub open spec fn esc_char(c: char, attr: bool) -> Seq<char> {
    if c == '<' {
        "&lt;"@
    } else if c == '>' {
        "&gt;"@
    } else if c == '&' {
        "&amp;"@
    } else if c == '\'' {
        "&apos;"@
    } else if c == '"' {
        "&quot;"@
    } else if c == '\r' {
        "&#13;"@
    } else if attr && c == '\n' {
        "&#10;"@
    } else if attr && c == '\t' {
        "&#9;"@
    } else {
        seq![c]
    }
}

/// `s` with every character escaped.
pub open spec fn spec_escape(s: Seq<char>, attr: bool) -> Seq<char>
    decreases s.len(),
{
    if s.len() == 0 {
        Seq::empty()
    } else {
        spec_escape(s.drop_last(), attr) + esc_char(s.last(), attr)
    }
}

/// Appends the escaped form of `src` to `out`.
pub fn push_escaped(out: &mut Vec<char>, src: &Vec<char>, attr: bool)
    ensures
        final(out)@ == old(out)@ + spec_escape(src@, attr),
{
    let mut i: usize = 0;
    while i < src.len()
        invariant
            0 <= i <= src@.len(),
            out@ == old(out)@ + spec_escape(src@.subrange(0, i as int), attr),
        decreases src@.len() - i,
    {
        let c = src[i];
        if c == '<' {
            push_str(out, "&lt;");
        } else if c == '>' {
            push_str(out, "&gt;");
        } else if c == '&' {
            push_str(out, "&amp;");
        } else if c == '\'' {
            push_str(out, "&apos;");
        } else if c == '"' {
            push_str(out, "&quot;");
        } else if c == '\r' {
            push_str(out, "&#13;");
        } else if attr && c == '\n' {
            push_str(out, "&#10;");
        } else if attr && c == '\t' {
            push_str(out, "&#9;");
        } else {
            out.push(c);
        }
        i = i + 1;
        proof {
            let p = src@.subrange(0, i - 1);
            let q = src@.subrange(0, i as int);
            assert(q.drop_last() =~= p);
            assert(q.last() == c);
            assert(out@ =~= old(out)@ + spec_escape(q, attr));
        }
    }
    proof {
        assert(src@.subrange(0, src@.len() as int) =~= src@);
    }
}

/// The position of the first occurrence of `c` at or after `i`, or the
/// length of `s` if there is none.
pub open spec fn scan_char(s: Seq<char>, i: int, c: char) -> int
    decreases s.len() - i,
{
    if i < s.len() {
        if s[i] == c {
            i
        } else {
            scan_char(s, i + 1, c)
        }
    } else {
        s.len() as int
    }
}

/// `scan_char` stays between its start and the length, stops on `c`, and
/// skips nothing that matches.
pub proof fn lemma_scan_char(s: Seq<char>, i: int, c: char)
    requires
        i <= s.len(),
    ensures
        i <= scan_char(s, i, c) <= s.len(),
        scan_char(s, i, c) < s.len() ==> s[scan_char(s, i, c)] == c,
        forall|j: int| i <= j < scan_char(s, i, c) ==> s[j] != c,
    decreases s.len() - i,
{
    if i < s.len() && s[i] != c {
        lemma_scan_char(s, i + 1, c);
    }
}

/// Walks the characters from `i` to the first occurrence of `c`.
pub fn find_char(v: &Vec<char>, i: usize, c: char) -> (r: usize)
    requires
        i <= v@.len(),
    ensures
        r == scan_char(v@, i as int, c),
        i <= r <= v@.len(),
{
    let mut j: usize = i;
    while j < v.len() && v[j] != c
        invariant
            i <= j <= v@.len(),
            scan_char(v@, i as int, c) == scan_char(v@, j as int, c),
        decreases v@.len() - j,
    {
        j = j + 1;
    }
    j
}

/// The numeric value of a hexadecimal digit.
pub open spec fn hex_digit_val(c: char) -> int {
    if '0' <= c && c <= '9' {
        c as int - '0' as int
    } else if 'a' <= c && c <= 'f' {
        c as int - 'a' as int + 10
    } else {
        c as int - 'A' as int + 10
    }
}

/// All characters are hexadecimal digits (true of the empty sequence).
pub open spec fn all_hex_digits(s: Seq<char>) -> bool {
    forall|i: int| 0 <= i < s.len() ==> is_hex_digit(#[trigger] s[i])
}

/// The value of a digit sequence in the given base (10 or 16).
pub open spec fn radix_val(s: Seq<char>, radix: int) -> int
    decreases s.len(),
{
    if s.len() == 0 {
        0
    } else {
        radix_val(s.drop_last(), radix) * radix + (if radix == 16 {
            hex_digit_val(s.last())
        } else {
            digit_val(s.last())
        })
    }
}

/// The code point named by a character reference body (what stands between
/// `&#` and `;`), or nothing if the body is malformed or out of range.
/// A leading `x` selects hexadecimal; code zero and surrogate or
/// out-of-range values are rejected, as are empty digit runs.
pub open spec fn char_ref_code(body: Seq<char>) -> Option<int> {
    let hex = body.len() > 0 && body[0] == 'x';
    let digits = if hex {
        body.drop_first()
    } else {
        body
    };
    if digits.len() == 0 {
        None
    } else if hex && !all_hex_digits(digits) {
        None
    } else if !hex && !all_digits(digits) {
        None
    } else {
        let v = radix_val(digits, if hex { 16int } else { 10int });
        if v > 0 && vstd::utf8::is_scalar(v as u32) && v <= 0x10ffff {
            Some(v)
        } else {
            None
        }
    }
}

/// What one entity body (between `&` and `;`) resolves to: a predefined
/// name, or a numeric character reference introduced by `#`.
pub open spec fn resolve_entity(ent: Seq<char>) -> Option<char> {
    if ent == "lt"@ {
        Some('<')
    } else if ent == "gt"@ {
        Some('>')
    } else if ent == "amp"@ {
        Some('&')
    } else if ent == "apos"@ {
        Some('\'')
    } else if ent == "quot"@ {
        Some('"')
    } else if ent.len() > 0 && ent[0] == '#' {
        match char_ref_code(ent.drop_first()) {
            Some(v) => Some((v as u32) as char),
            None => None,
        }
    } else {
        None
    }
}

/// `s` with every entity replaced by its character, or nothing if an
/// entity is unterminated or unknown.
pub open spec fn spec_unescape(s: Seq<char>) -> Option<Seq<char>>
    decreases s.len(),
    via spec_unescape_decreases
{
    if s.len() == 0 {
        Some(Seq::empty())
    } else if s[0] != '&' {
        match spec_unescape(s.drop_first()) {
            Some(r) => Some(seq![s[0]] + r),
            None => None,
        }
    } else {
        let semi = scan_char(s, 1, ';');
        if semi >= s.len() {
            None
        } else {
            match resolve_entity(s.subrange(1, semi)) {
                Some(c) => match spec_unescape(s.subrange(semi + 1, s.len() as int)) {
                    Some(r) => Some(seq![c] + r),
                    None => None,
                },
                None => None,
            }
        }
    }
}

#[via_fn]
proof fn spec_unescape_decreases(s: Seq<char>) {
    if s.len() > 0 && s[0] == '&' {
        lemma_scan_char(s, 1, ';');
    }
}

/// Relies on `char::from_u32`: it returns a character exactly for Unicode
/// scalar values, and that character casts back to the argument.
#[verifier::external_body]
pub fn char_from_u32_pub(u: u32) -> (r: Option<char>)
    ensures
        r is Some <==> vstd::utf8::is_scalar(u),
        r matches Some(c) ==> c as u32 == u,
{
    char::from_u32(u)
}

/// Resolves one entity body, as `resolve_entity` describes.
fn resolve_entity_chars(v: &Vec<char>, from: usize, to: usize) -> (r: Option<char>)
    requires
        from <= to <= v@.len(),
    ensures
        r == resolve_entity(v@.subrange(from as int, to as int)),
{
    let ghost ent = v@.subrange(from as int, to as int);
    if chars_range_eq_str(v, from, to, "lt") {
        return Some('<');
    }
    if chars_range_eq_str(v, from, to, "gt") {
        return Some('>');
    }
    if chars_range_eq_str(v, from, to, "amp") {
        return Some('&');
    }
    if chars_range_eq_str(v, from, to, "apos") {
        return Some('\'');
    }
    if chars_range_eq_str(v, from, to, "quot") {
        return Some('"');
    }
    if from < to && v[from] == '#' {
        proof {
            assert(ent[0] == '#');
            assert(ent.drop_first() =~= v@.subrange(from + 1, to as int));
        }
        match char_ref_value(v, from + 1, to) {
            Some(u) => {
                match char_from_u32_pub(u) {
                    Some(c) => {
                        proof {
                            assert(char_ref_code(ent.drop_first()) == Some(u as int));
                            assert(((u as int) as u32) == u);
                            assert((u as char) == c) by {
                                vstd::utf8::char_u32_cast(c, u);
                            }
                        }
                        Some(c)
                    },
                    None => {
                        proof {
                            assert(char_ref_code(ent.drop_first()) == Some(u as int));
                            assert(vstd::utf8::is_scalar(u));
                            assert(false);
                        }
                        None
                    },
                }
            },
            None => None,
        }
    } else {
        proof {
            assert(ent.len() == to - from);
            if ent.len() > 0 {
                assert(ent[0] == v@[from as int]);
            }
        }
        None
    }
}

/// Computes `char_ref_code` of `v[from..to]` as a `u32`.
fn char_ref_value(v: &Vec<char>, from: usize, to: usize) -> (r: Option<u32>)
    requires
        from <= to <= v@.len(),
    ensures
        match r {
            Some(u) => char_ref_code(v@.subrange(from as int, to as int)) == Some(u as int),
            None => char_ref_code(v@.subrange(from as int, to as int)) is None,
        },
{
    let ghost body = v@.subrange(from as int, to as int);
    let hex = from < to && v[from] == 'x';
    let d0: usize = if hex {
        from + 1
    } else {
        from
    };
    let ghost digits = if hex {
        body.drop_first()
    } else {
        body
    };
    proof {
        assert(body.len() == to - from);
        if from < to {
            assert(body[0] == v@[from as int]);
        }
        assert(hex == (body.len() > 0 && body[0] == 'x'));
        assert(digits =~= v@.subrange(d0 as int, to as int));
    }
    if d0 >= to {
        return None;
    }
    let mut acc: u32 = 0;
    let mut i: usize = d0;
    while i < to
        invariant
            from <= d0 <= i <= to <= v@.len(),
            body == v@.subrange(from as int, to as int),
            hex == (body.len() > 0 && body[0] == 'x'),
            digits == (if hex {
                body.drop_first()
            } else {
                body
            }),
            digits == v@.subrange(d0 as int, to as int),
            d0 < to,
            hex ==> all_hex_digits(digits.subrange(0, i - d0)),
            !hex ==> all_digits(digits.subrange(0, i - d0)),
            acc == radix_val(digits.subrange(0, i - d0), if hex { 16int } else { 10int }),
            acc <= 0x10ffff,
        decreases to - i,
    {
        let c = v[i];
        let dv: u32 = if '0' <= c && c <= '9' {
            (c as u32) - ('0' as u32)
        } else if hex && 'a' <= c && c <= 'f' {
            (c as u32) - ('a' as u32) + 10
        } else if hex && 'A' <= c && c <= 'F' {
            (c as u32) - ('A' as u32) + 10
        } else {
            proof {
                assert(digits[i - d0] == c);
            }
            return None;
        };
        proof {
            assert(digits[i - d0] == c);
            let p = digits.subrange(0, i - d0);
            let q = digits.subrange(0, i - d0 + 1);
            assert(q.drop_last() =~= p);
            assert(q.last() == c);
        }
        let radix: u32 = if hex {
            16
        } else {
            10
        };
        let ghost radix_i = if hex {
            16int
        } else {
            10int
        };
        if (radix == 16 && acc > 0x10ffff / 16) || (radix == 10 && acc > 0x10ffff / 10) {
            // the reference is already beyond the greatest code point
            proof {
                let q = digits.subrange(0, i - d0 + 1);
                assert(radix_val(q, radix_i) == acc * radix_i + dv > 0x10ffff);
                if (hex && all_hex_digits(digits)) || (!hex && all_digits(digits)) {
                    lemma_radix_prefix_le(digits, i - d0 + 1, radix_i);
                    assert(radix_val(digits, radix_i) > 0x10ffff);
                }
            }
            return None;
        }
        acc = acc * radix + dv;
        if acc > 0x10ffff {
            proof {
                let q = digits.subrange(0, i - d0 + 1);
                assert(radix_val(q, radix_i) == acc > 0x10ffff);
                if (hex && all_hex_digits(digits)) || (!hex && all_digits(digits)) {
                    lemma_radix_prefix_le(digits, i - d0 + 1, radix_i);
                    assert(radix_val(digits, radix_i) > 0x10ffff);
                }
            }
            return None;
        }
        i = i + 1;
    }
    proof {
        assert(digits.subrange(0, to - d0) =~= digits);
    }
    if acc == 0 {
        return None;
    }
    if acc >= 0xd800 && acc <= 0xdfff {
        return None;
    }
    proof {
        assert(vstd::utf8::is_scalar(acc));
    }
    Some(acc)
}

/// In any base of at least 2, a digit run's value only grows as it extends,
/// once it has left zero; more precisely the value of a prefix never
/// exceeds the value of the whole run when every digit is valid.
proof fn lemma_radix_prefix_le(s: Seq<char>, i: int, radix: int)
    requires
        0 <= i <= s.len(),
        radix == 10 || radix == 16,
        radix == 10 ==> all_digits(s),
        radix == 16 ==> all_hex_digits(s),
    ensures
        radix_val(s.subrange(0, i), radix) <= radix_val(s, radix),
    decreases s.len() - i,
{
    if i < s.len() {
        lemma_radix_prefix_le(s, i + 1, radix);
        let p = s.subrange(0, i);
        let q = s.subrange(0, i + 1);
        assert(q.drop_last() =~= p);
        lemma_radix_nonneg(p, radix);
        assert(radix_val(q, radix) >= radix_val(p, radix)) by {
            assert(radix_val(p, radix) * radix >= radix_val(p, radix) * 1) by (nonlinear_arith)
                requires
                    radix_val(p, radix) >= 0,
                    radix >= 1,
            ;
            if radix == 16 {
                assert(hex_digit_val(q.last()) >= 0);
            } else {
                assert(digit_val(q.last()) >= 0);
            }
        }
    } else {
        assert(s.subrange(0, i) =~= s);
    }
}

proof fn lemma_radix_nonneg(s: Seq<char>, radix: int)
    requires
        radix == 10 || radix == 16,
        radix == 10 ==> all_digits(s),
        radix == 16 ==> all_hex_digits(s),
    ensures
        radix_val(s, radix) >= 0,
    decreases s.len(),
{
    if s.len() > 0 {
        assert(s.drop_last() =~= s.subrange(0, s.len() - 1));
        assert(all_digits(s) ==> all_digits(s.drop_last()));
        assert(all_hex_digits(s) ==> all_hex_digits(s.drop_last()));
        lemma_radix_nonneg(s.drop_last(), radix);
        assert(radix_val(s.drop_last(), radix) * radix >= 0) by (nonlinear_arith)
            requires
                radix_val(s.drop_last(), radix) >= 0,
                radix >= 1,
        ;
    }
}

/// Whether `v[from..to]` equals the characters of `b`.
pub fn chars_range_eq_str(v: &Vec<char>, from: usize, to: usize, b: &str) -> (r: bool)
    requires
        from <= to <= v@.len(),
    ensures
        r == (v@.subrange(from as int, to as int) == b@),
{
    let bs = str_to_chars(b);
    if to - from != bs.len() {
        proof {
            assert(v@.subrange(from as int, to as int).len() != b@.len());
        }
        return false;
    }
    let mut i: usize = 0;
    while i < bs.len()
        invariant
            0 <= i <= bs@.len(),
            bs@ == b@,
            from + bs@.len() == to <= v@.len(),
            forall|j: int| 0 <= j < i ==> v@[from + j] == bs@[j],
        decreases bs@.len() - i,
    {
        if v[from + i] != bs[i] {
            proof {
                assert(v@.subrange(from as int, to as int)[i as int] == v@[from + i]);
            }
            return false;
        }
        i = i + 1;
    }
    proof {
        assert(v@.subrange(from as int, to as int) =~= bs@);
    }
    true
}

/// `scan_char` looks only at the window it is given: scanning inside the
/// window of `s` from `base` to `to` agrees with scanning `s` itself,
/// clamped to the window's end.
proof fn lemma_scan_window(s: Seq<char>, base: int, to: int, k: int, c: char)
    requires
        0 <= base,
        0 <= k,
        base + k <= to <= s.len(),
    ensures
        ({
            let rest = s.subrange(base, to);
            let g = scan_char(s, base + k, c);
            scan_char(rest, k, c) == if g < to {
                g - base
            } else {
                to - base
            }
        }),
    decreases to - base - k,
{
    let rest = s.subrange(base, to);
    lemma_scan_char(s, base + k, c);
    if base + k < to {
        assert(rest[k] == s[base + k]);
        if s[base + k] != c {
            lemma_scan_window(s, base, to, k + 1, c);
        }
    }
}

/// Unescapes `v[from..to]`, as `spec_unescape` describes.
pub fn unescape_range(v: &Vec<char>, from: usize, to: usize) -> (r: Option<Vec<char>>)
    requires
        from <= to <= v@.len(),
    ensures
        match r {
            Some(out) => spec_unescape(v@.subrange(from as int, to as int)) == Some(out@),
            None => spec_unescape(v@.subrange(from as int, to as int)) is None,
        },
{
    let ghost whole = v@.subrange(from as int, to as int);
    let mut out: Vec<char> = Vec::new();
    let mut i: usize = from;
    while i < to
        invariant
            from <= i <= to <= v@.len(),
            whole == v@.subrange(from as int, to as int),
            ({
                let rest = v@.subrange(i as int, to as int);
                match spec_unescape(rest) {
                    Some(r) => spec_unescape(whole) == Some(out@ + r),
                    None => spec_unescape(whole) is None,
                }
            }),
        decreases to - i,
    {
        let ghost rest = v@.subrange(i as int, to as int);
        let ghost out0 = out@;
        let c = v[i];
        proof {
            assert(rest[0] == c);
        }
        if c != '&' {
            out.push(c);
            i = i + 1;
            proof {
                assert(rest.drop_first() =~= v@.subrange(i as int, to as int));
                let nr = v@.subrange(i as int, to as int);
                if spec_unescape(nr) is Some {
                    let r = spec_unescape(nr)->0;
                    assert(spec_unescape(rest) == Some(seq![c] + r));
                    assert(out0 + (seq![c] + r) =~= out@ + r);
                }
            }
        } else {
            let semi = find_char(v, i + 1, ';');
            proof {
                lemma_scan_window(v@, i as int, to as int, 1, ';');
            }
            if semi >= to {
                proof {
                    assert(scan_char(rest, 1, ';') == to - i);
                    assert(spec_unescape(rest) is None);
                }
                return None;
            }
            let ghost sm = semi - i;
            proof {
                assert(scan_char(rest, 1, ';') == sm);
                assert(rest.subrange(1, sm) =~= v@.subrange(i + 1, semi as int));
            }
            match resolve_entity_chars(v, i + 1, semi) {
                Some(ch) => {
                    out.push(ch);
                    let ghost i0 = i as int;
                    i = semi + 1;
                    proof {
                        assert(rest.subrange(sm + 1, rest.len() as int) =~= v@.subrange(
                            i as int,
                            to as int,
                        ));
                        let nr = v@.subrange(i as int, to as int);
                        if spec_unescape(nr) is Some {
                            let r = spec_unescape(nr)->0;
                            assert(spec_unescape(rest) == Some(seq![ch] + r));
                            assert(out0 + (seq![ch] + r) =~= out@ + r);
                        } else {
                            assert(spec_unescape(rest) is None);
                        }
                    }
                },
                None => {
                    proof {
                        assert(resolve_entity(rest.subrange(1, sm)) is None);
                        assert(spec_unescape(rest) is None);
                    }
                    return None;
                },
            }
        }
    }
    proof {
        assert(v@.subrange(i as int, to as int) =~= whole.subrange(
            whole.len() as int,
            whole.len() as int,
        ));
        assert(spec_unescape(v@.subrange(i as int, to as int)) == Some(Seq::<char>::empty()));
        assert(out@ + Seq::<char>::empty() =~= out@);
    }
    Some(out)
}

/// Unescapes all of `v`.
pub fn unescape_all(v: &Vec<char>) -> (r: Option<Vec<char>>)
    ensures
        match r {
            Some(out) => spec_unescape(v@) == Some(out@),
            None => spec_unescape(v@) is None,
        },
{
    let r = unescape_range(v, 0, v.len());
    proof {
        assert(v@.subrange(0, v@.len() as int) =~= v@);
    }
    r
}

} // verus!
