//! Scalar coercion: classifying leaf text as string, unsigned integer,
//! decimal, or boolean, plus the numeric formatting the serializer needs.

use vstd::prelude::*;

use crate::chars::all_ws;
use crate::chars::chars_to_string;
use crate::chars::digit_val;
use crate::chars::is_digit;
use crate::chars::is_ws_char;
use crate::chars::str_to_chars;
use crate::chars::ws_char;
use crate::node::Node;
use crate::node::NodeData;

verus! {

/// `s` with leading whitespace removed.
pub open spec fn trim_front(s: Seq<char>) -> Seq<char>
    decreases s.len(),
{
    if s.len() > 0 && is_ws_char(s[0]) {
        trim_front(s.drop_first())
    } else {
        s
    }
}

/// `s` with trailing whitespace removed.
pub open spec fn trim_back(s: Seq<char>) -> Seq<char>
    decreases s.len(),
{
    if s.len() > 0 && is_ws_char(s.last()) {
        trim_back(s.drop_last())
    } else {
        s
    }
}

/// `s` with whitespace removed from both ends, as `str::trim` does.
pub open spec fn spec_trim(s: Seq<char>) -> Seq<char> {
    trim_back(trim_front(s))
}

proof fn lemma_trim_front_at(s: Seq<char>, a: int)
    requires
        0 <= a <= s.len(),
        forall|j: int| 0 <= j < a ==> is_ws_char(#[trigger] s[j]),
        a < s.len() ==> !is_ws_char(s[a]),
    ensures
        trim_front(s) == s.subrange(a, s.len() as int),
    decreases a,
{
    if a == 0 {
        assert(s.subrange(0, s.len() as int) =~= s);
    } else {
        lemma_trim_front_at(s.drop_first(), a - 1);
        assert(s.drop_first().subrange(a - 1, s.drop_first().len() as int) =~= s.subrange(
            a,
            s.len() as int,
        ));
    }
}

proof fn lemma_trim_back_at(s: Seq<char>, b: int)
    requires
        0 <= b <= s.len(),
        forall|j: int| b <= j < s.len() ==> is_ws_char(#[trigger] s[j]),
        b > 0 ==> !is_ws_char(s[b - 1]),
    ensures
        trim_back(s) == s.subrange(0, b),
    decreases s.len(),
{
    if b == s.len() {
        assert(s.subrange(0, s.len() as int) =~= s);
    } else {
        lemma_trim_back_at(s.drop_last(), b);
        assert(s.drop_last().subrange(0, b) =~= s.subrange(0, b));
    }
}

/// The trimmed middle of `v`, equal to `spec_trim(v@)`.
pub fn trim_chars(v: &Vec<char>) -> (r: Vec<char>)
    ensures
        r@ == spec_trim(v@),
{
    let mut a: usize = 0;
    while a < v.len() && ws_char(v[a])
        invariant
            0 <= a <= v@.len(),
            forall|j: int| 0 <= j < a ==> is_ws_char(#[trigger] v@[j]),
        decreases v@.len() - a,
    {
        a = a + 1;
    }
    let mut b: usize = v.len();
    while b > a && ws_char(v[b - 1])
        invariant
            a <= b <= v@.len(),
            forall|j: int| 0 <= j < a ==> is_ws_char(#[trigger] v@[j]),
            forall|j: int| b <= j < v@.len() ==> is_ws_char(#[trigger] v@[j]),
        decreases b,
    {
        b = b - 1;
    }
    let mut r: Vec<char> = Vec::new();
    crate::chars::push_range(&mut r, v, a, b);
    proof {
        lemma_trim_front_at(v@, a as int);
        let t = v@.subrange(a as int, v@.len() as int);
        lemma_trim_back_at(t, b - a);
        assert(t.subrange(0, b - a) =~= v@.subrange(a as int, b as int));
        assert(r@ =~= v@.subrange(a as int, b as int));
    }
    r
}

/// All characters are decimal digits (true of the empty sequence).
pub open spec fn all_digits(s: Seq<char>) -> bool {
    forall|i: int| 0 <= i < s.len() ==> is_digit(#[trigger] s[i])
}

/// The numeric value of a digit sequence, most significant digit first.
pub open spec fn digits_val(s: Seq<char>) -> int
    decreases s.len(),
{
    if s.len() == 0 {
        0
    } else {
        digits_val(s.drop_last()) * 10 + digit_val(s.last())
    }
}

/// The digit run of an integer literal, behind an optional `+` sign.
pub open spec fn uint_body(s: Seq<char>) -> Seq<char> {
    if s.len() > 0 && s[0] == '+' {
        s.drop_first()
    } else {
        s
    }
}

/// Whether `u64::from_str` accepts `s`: an optional `+`, then one or more
/// digits, with a value that fits in 64 bits.
pub open spec fn is_uint_text(s: Seq<char>) -> bool {
    &&& uint_body(s).len() > 0
    &&& all_digits(uint_body(s))
    &&& digits_val(uint_body(s)) <= u64::MAX
}

/// The value `u64::from_str` returns for an accepted `s`.
pub open spec fn uint_text_val(s: Seq<char>) -> int {
    digits_val(uint_body(s))
}

proof fn lemma_digits_val_nonneg(s: Seq<char>)
    requires
        all_digits(s),
    ensures
        digits_val(s) >= 0,
    decreases s.len(),
{
    if s.len() > 0 {
        lemma_digits_val_nonneg(s.drop_last());
    }
}

proof fn lemma_digits_val_prefix_le(s: Seq<char>, i: int)
    requires
        all_digits(s),
        0 <= i <= s.len(),
    ensures
        digits_val(s.subrange(0, i)) <= digits_val(s),
    decreases s.len() - i,
{
    if i < s.len() {
        lemma_digits_val_prefix_le(s, i + 1);
        let p = s.subrange(0, i);
        let q = s.subrange(0, i + 1);
        assert(q.drop_last() =~= p);
        lemma_digits_val_nonneg(p);
        assert(digits_val(q) == digits_val(p) * 10 + digit_val(s[i]));
        assert(digits_val(p) * 10 >= digits_val(p));
    } else {
        assert(s.subrange(0, i) =~= s);
    }
}

/// Parses a digit run with an optional `+` sign as `u64::from_str` would.
pub fn parse_u64_chars(v: &Vec<char>) -> (r: Option<u64>)
    ensures
        match r {
            Some(u) => is_uint_text(v@) && u == uint_text_val(v@),
            None => !is_uint_text(v@),
        },
{
    let start: usize = if v.len() > 0 && v[0] == '+' {
        1
    } else {
        0
    };
    proof {
        if v@.len() > 0 && v@[0] == '+' {
            assert(uint_body(v@) =~= v@.subrange(1, v@.len() as int));
        } else {
            assert(uint_body(v@) =~= v@.subrange(0, v@.len() as int));
            assert(v@.subrange(0, v@.len() as int) =~= v@);
        }
    }
    if start >= v.len() {
        return None;
    }
    let ghost body = uint_body(v@);
    let mut acc: u64 = 0;
    let mut i: usize = start;
    while i < v.len()
        invariant
            start <= i <= v@.len(),
            start <= 1,
            body == uint_body(v@),
            body == v@.subrange(start as int, v@.len() as int),
            all_digits(body.subrange(0, i - start)),
            acc == digits_val(body.subrange(0, i - start)),
        decreases v@.len() - i,
    {
        let c = v[i];
        if !('0' <= c && c <= '9') {
            proof {
                assert(body[i - start] == c);
            }
            return None;
        }
        let d: u64 = (c as u32 as u64) - ('0' as u32 as u64);
        proof {
            assert(d == digit_val(c));
        }
        // 1844674407370955161 == u64::MAX / 10
        if acc > 1844674407370955161u64 || (acc == 1844674407370955161u64 && d > 5) {
            proof {
                let p = body.subrange(0, i - start);
                let q = body.subrange(0, i - start + 1);
                assert(q.drop_last() =~= p);
                assert(body[i - start] == c);
                assert(digits_val(q) == acc * 10 + d > u64::MAX);
                if all_digits(body) {
                    lemma_digits_val_prefix_le(body, i - start + 1);
                    assert(digits_val(body) > u64::MAX);
                }
            }
            return None;
        }
        acc = acc * 10 + d;
        i = i + 1;
        proof {
            let p = body.subrange(0, i - 1 - start);
            let q = body.subrange(0, i - start);
            assert(q.drop_last() =~= p);
            assert(body[i - 1 - start] == c);
        }
    }
    proof {
        assert(body.subrange(0, v@.len() - start) =~= body);
    }
    Some(acc)
}

/// One decimal digit as a character.
pub open spec fn digit_char(d: int) -> char {
    if d == 0 {
        '0'
    } else if d == 1 {
        '1'
    } else if d == 2 {
        '2'
    } else if d == 3 {
        '3'
    } else if d == 4 {
        '4'
    } else if d == 5 {
        '5'
    } else if d == 6 {
        '6'
    } else if d == 7 {
        '7'
    } else if d == 8 {
        '8'
    } else {
        '9'
    }
}

fn digit_to_char(d: u64) -> (c: char)
    requires
        d < 10,
    ensures
        c == digit_char(d as int),
{
    if d == 0 {
        '0'
    } else if d == 1 {
        '1'
    } else if d == 2 {
        '2'
    } else if d == 3 {
        '3'
    } else if d == 4 {
        '4'
    } else if d == 5 {
        '5'
    } else if d == 6 {
        '6'
    } else if d == 7 {
        '7'
    } else if d == 8 {
        '8'
    } else {
        '9'
    }
}

/// The canonical decimal text of an unsigned integer.
pub open spec fn uint_chars(u: int) -> Seq<char>
    decreases u,
{
    if u < 10 {
        seq![digit_char(u)]
    } else {
        uint_chars(u / 10).push(digit_char(u % 10))
    }
}

/// Appends the decimal text of `u` to `out`.
pub fn push_u64(out: &mut Vec<char>, u: u64)
    ensures
        final(out)@ == old(out)@ + uint_chars(u as int),
    decreases u,
{
    if u >= 10 {
        push_u64(out, u / 10);
    }
    out.push(digit_to_char(u % 10));
    proof {
        if u < 10 {
            assert(out@ =~= old(out)@ + uint_chars(u as int));
        } else {
            assert(out@ =~= old(out)@ + uint_chars(u as int));
        }
    }
}

/// The position of the first non-digit at or after `i`.
pub open spec fn skip_digits(s: Seq<char>, i: int) -> int
    decreases s.len() - i,
{
    if i < s.len() && is_digit(s[i]) {
        skip_digits(s, i + 1)
    } else {
        i
    }
}

/// Whether `s` is a decimal literal the library keeps as a `Dec` scalar:
/// an optional minus sign, one or more digits, an optional fraction of one
/// or more digits, and an optional signed exponent of one or more digits.
pub open spec fn is_dec_text(s: Seq<char>) -> bool {
    let start: int = if s.len() > 0 && s[0] == '-' {
        1
    } else {
        0
    };
    let int_end = skip_digits(s, start);
    if int_end == start {
        false
    } else if int_end < s.len() && s[int_end] == '.' && skip_digits(s, int_end + 1) == int_end
        + 1 {
        false
    } else {
        let frac_end: int = if int_end < s.len() && s[int_end] == '.' {
            skip_digits(s, int_end + 1)
        } else {
            int_end
        };
        if frac_end == s.len() {
            true
        } else if s[frac_end] == 'e' || s[frac_end] == 'E' {
            let d: int = if frac_end + 1 < s.len() && (s[frac_end + 1] == '+' || s[frac_end + 1]
                == '-') {
                frac_end + 2
            } else {
                frac_end + 1
            };
            d < s.len() && skip_digits(s, d) == s.len()
        } else {
            false
        }
    }
}

/// Walks the characters from `i` to the first non-digit, returning where
/// `skip_digits` points.
fn scan_digits(v: &Vec<char>, i: usize) -> (r: usize)
    requires
        i <= v@.len(),
    ensures
        r == skip_digits(v@, i as int),
        i <= r <= v@.len(),
{
    let mut j: usize = i;
    while j < v.len() && '0' <= v[j] && v[j] <= '9'
        invariant
            i <= j <= v@.len(),
            skip_digits(v@, i as int) == skip_digits(v@, j as int),
        decreases v@.len() - j,
    {
        j = j + 1;
    }
    j
}

/// Decides `is_dec_text` by scanning the literal left to right.
pub fn check_dec_text(v: &Vec<char>) -> (r: bool)
    ensures
        r == is_dec_text(v@),
{
    let n = v.len();
    let start: usize = if n > 0 && v[0] == '-' {
        1
    } else {
        0
    };
    let int_end = scan_digits(v, start);
    if int_end == start {
        return false;
    }
    let frac_end: usize = if int_end < n && v[int_end] == '.' {
        let fe = scan_digits(v, int_end + 1);
        if fe == int_end + 1 {
            return false;
        }
        fe
    } else {
        int_end
    };
    if frac_end == n {
        return true;
    }
    let c = v[frac_end];
    if !(c == 'e' || c == 'E') {
        return false;
    }
    let d: usize = if frac_end + 1 < n && (v[frac_end + 1] == '+' || v[frac_end + 1] == '-') {
        frac_end + 2
    } else {
        frac_end + 1
    };
    if d >= n {
        return false;
    }
    scan_digits(v, d) == n
}

/// The scalar that element text coerces to: trim; empty stays an empty
/// string; under the leading-zero rule any text starting with `0` stays a
/// string; otherwise an unsigned-integer parse, a decimal-literal parse
/// and a boolean parse are tried in order.
pub open spec fn spec_coerce(s: Seq<char>, leading_zero_as_string: bool) -> NodeData {
    spec_coerce_trimmed(spec_trim(s), leading_zero_as_string)
}

/// Whether the characters of `a` equal those of `b`.
pub fn chars_eq_str(a: &Vec<char>, b: &str) -> (r: bool)
    ensures
        r == (a@ == b@),
{
    let bs = str_to_chars(b);
    if a.len() != bs.len() {
        return false;
    }
    let mut i: usize = 0;
    while i < a.len()
        invariant
            0 <= i <= a@.len(),
            a@.len() == bs@.len(),
            bs@ == b@,
            forall|j: int| 0 <= j < i ==> a@[j] == bs@[j],
        decreases a@.len() - i,
    {
        if a[i] != bs[i] {
            return false;
        }
        i = i + 1;
    }
    proof {
        assert(a@ =~= bs@);
    }
    true
}

/// Classifies already-trimmed text, the helper behind [`parse_text_value`].
fn coerce_trimmed(t: Vec<char>, leading_zero_as_string: bool) -> (r: Node)
    ensures
        r@ == spec_coerce_trimmed(t@, leading_zero_as_string),
{
    if t.len() == 0 {
        return Node::Str(chars_to_string(&t));
    }
    if leading_zero_as_string && t[0] == '0' {
        return Node::Str(chars_to_string(&t));
    }
    if let Some(u) = parse_u64_chars(&t) {
        return Node::UInt(u);
    }
    if (t[0] != '0' || (t.len() >= 2 && t[1] == '.')) && check_dec_text(&t) {
        return Node::Dec(chars_to_string(&t));
    }
    if chars_eq_str(&t, "true") {
        return Node::Bool(true);
    }
    if chars_eq_str(&t, "false") {
        return Node::Bool(false);
    }
    Node::Str(chars_to_string(&t))
}

/// [`spec_coerce`] on text whose whitespace is already trimmed away.
pub open spec fn spec_coerce_trimmed(t: Seq<char>, leading_zero_as_string: bool) -> NodeData {
    if t.len() == 0 {
        NodeData::Str(Seq::empty())
    } else if leading_zero_as_string && t[0] == '0' {
        NodeData::Str(t)
    } else if is_uint_text(t) {
        NodeData::UInt(uint_text_val(t) as u64)
    } else if is_dec_text(t) && (t[0] != '0' || (t.len() >= 2 && t[1] == '.')) {
        NodeData::Dec(t)
    } else if t == "true"@ {
        NodeData::Bool(true)
    } else if t == "false"@ {
        NodeData::Bool(false)
    } else {
        NodeData::Str(t)
    }
}

/// Trims `text` and classifies it as the scalar coercion rule directs.
pub fn parse_text_value(text: &str, leading_zero_as_string: bool) -> (r: Node)
    ensures
        r@ == spec_coerce(text@, leading_zero_as_string),
{
    let cs = str_to_chars(text);
    let t = trim_chars(&cs);
    coerce_trimmed(t, leading_zero_as_string)
}

} // verus!
