//! The markup tokenizer: raw text to a sequence of tokens.
//!
//! A token is an open tag with its attributes, a close tag, a self-closing
//! tag, character data, a comment, a CDATA block, or an ignored piece
//! (a processing instruction, the document declaration or a doctype).
//! Attribute values, character data and comments arrive entity-unescaped;
//! a failed unescape leaves the content empty.  Malformed markup is a
//! lexing failure: the whole document is rejected.

use vstd::prelude::*;

use crate::chars::is_ws_char;
use crate::chars::matches_at;
use crate::escape::scan_char;
use crate::escape::spec_unescape;
use crate::escape::lemma_scan_char;

verus! {

/// One attribute of an open or self-closing tag.
pub struct Attr {
    pub name: String,
    pub value: String,
}

impl View for Attr {
    type V = (Seq<char>, Seq<char>);

    open spec fn view(&self) -> (Seq<char>, Seq<char>) {
        (self.name@, self.value@)
    }
}

/// One token of the markup text.
pub enum Tok {
    Open(String, Vec<Attr>),
    Close(String),
    SelfClose(String, Vec<Attr>),
    Text(String),
    Comment(String),
    CData(String),
    Misc,
}

/// The mathematical value of a token.
#[verifier::ext_equal]
pub enum TokData {
    Open(Seq<char>, Seq<(Seq<char>, Seq<char>)>),
    Close(Seq<char>),
    SelfClose(Seq<char>, Seq<(Seq<char>, Seq<char>)>),
    Text(Seq<char>),
    Comment(Seq<char>),
    CData(Seq<char>),
    Misc,
}

/// The views of an attribute list, in order.
pub open spec fn attrs_data(s: Seq<Attr>) -> Seq<(Seq<char>, Seq<char>)>
    decreases s,
{
    if s.len() == 0 {
        Seq::empty()
    } else {
        seq![(s[0].name@, s[0].value@)] + attrs_data(s.drop_first())
    }
}

/// `attrs_data` reads attribute by attribute.
pub proof fn lemma_attrs_data(s: Seq<Attr>)
    ensures
        attrs_data(s).len() == s.len(),
        forall|i: int| 0 <= i < s.len() ==> attrs_data(s)[i] == (s[i].name@, s[i].value@),
    decreases s,
{
    if s.len() > 0 {
        lemma_attrs_data(s.drop_first());
        assert(attrs_data(s) == seq![(s[0].name@, s[0].value@)] + attrs_data(s.drop_first()));
        assert forall|i: int| 0 <= i < s.len() implies attrs_data(s)[i] == (
        s[i].name@,
        s[i].value@,
        ) by {
            if i > 0 {
                assert(s.drop_first()[i - 1] == s[i]);
                assert(attrs_data(s)[i] == attrs_data(s.drop_first())[i - 1]);
            }
        }
    }
}

impl View for Tok {
    type V = TokData;

    open spec fn view(&self) -> TokData {
        match self {
            Tok::Open(n, a) => TokData::Open(n@, attrs_data(a@)),
            Tok::Close(n) => TokData::Close(n@),
            Tok::SelfClose(n, a) => TokData::SelfClose(n@, attrs_data(a@)),
            Tok::Text(t) => TokData::Text(t@),
            Tok::Comment(t) => TokData::Comment(t@),
            Tok::CData(t) => TokData::CData(t@),
            Tok::Misc => TokData::Misc,
        }
    }
}

/// The views of a token list, in order.
pub open spec fn toks_data(s: Seq<Tok>) -> Seq<TokData>
    decreases s,
{
    if s.len() == 0 {
        Seq::empty()
    } else {
        seq![s[0]@] + toks_data(s.drop_first())
    }
}

/// `toks_data` reads token by token.
pub proof fn lemma_toks_data(s: Seq<Tok>)
    ensures
        toks_data(s).len() == s.len(),
        forall|i: int| 0 <= i < s.len() ==> toks_data(s)[i] == s[i]@,
    decreases s,
{
    if s.len() > 0 {
        lemma_toks_data(s.drop_first());
        assert(toks_data(s) == seq![s[0]@] + toks_data(s.drop_first()));
        assert forall|i: int| 0 <= i < s.len() implies toks_data(s)[i] == s[i]@ by {
            if i > 0 {
                assert(s.drop_first()[i - 1] == s[i]);
                assert(toks_data(s)[i] == toks_data(s.drop_first())[i - 1]);
            }
        }
    }
}

/// The position of the first non-whitespace character at or after `i`.
pub open spec fn skip_ws_at(s: Seq<char>, i: int) -> int
    decreases s.len() - i,
{
    if i < s.len() && is_ws_char(s[i]) {
        skip_ws_at(s, i + 1)
    } else if i <= s.len() {
        i
    } else {
        s.len() as int
    }
}

pub proof fn lemma_skip_ws_at(s: Seq<char>, i: int)
    requires
        i <= s.len(),
    ensures
        i <= skip_ws_at(s, i) <= s.len(),
        skip_ws_at(s, i) < s.len() ==> !is_ws_char(s[skip_ws_at(s, i)]),
    decreases s.len() - i,
{
    if i < s.len() && is_ws_char(s[i]) {
        lemma_skip_ws_at(s, i + 1);
    }
}

/// Whether `c` ends a tag or attribute name.
pub open spec fn is_name_stop(c: char) -> bool {
    is_ws_char(c) || c == '<' || c == '>' || c == '/' || c == '=' || c == '"' || c == '\''
}

/// The position of the first name-stopping character at or after `i`.
pub open spec fn scan_name(s: Seq<char>, i: int) -> int
    decreases s.len() - i,
{
    if i < s.len() && !is_name_stop(s[i]) {
        scan_name(s, i + 1)
    } else if i <= s.len() {
        i
    } else {
        s.len() as int
    }
}

pub proof fn lemma_scan_name(s: Seq<char>, i: int)
    requires
        i <= s.len(),
    ensures
        i <= scan_name(s, i) <= s.len(),
        scan_name(s, i) < s.len() ==> is_name_stop(s[scan_name(s, i)]),
    decreases s.len() - i,
{
    if i < s.len() && !is_name_stop(s[i]) {
        lemma_scan_name(s, i + 1);
    }
}

/// The first position at or after `i` where `pat` occurs, or the length of
/// `s` if it occurs nowhere; whether it was found shows in
/// `matches_at(s, result, pat)`.
pub open spec fn find_pat(s: Seq<char>, i: int, pat: Seq<char>) -> int
    decreases s.len() - i,
{
    if i > s.len() {
        s.len() as int
    } else if matches_at(s, i, pat) {
        i
    } else if i < s.len() {
        find_pat(s, i + 1, pat)
    } else {
        i
    }
}

pub proof fn lemma_find_pat(s: Seq<char>, i: int, pat: Seq<char>)
    requires
        i <= s.len(),
    ensures
        i <= find_pat(s, i, pat) <= s.len(),
        forall|j: int| i <= j < find_pat(s, i, pat) ==> !matches_at(s, j, pat),
    decreases s.len() - i,
{
    if !matches_at(s, i, pat) && i < s.len() {
        lemma_find_pat(s, i + 1, pat);
    }
}

/// The unescaped form of `raw`, or the empty sequence when an entity fails
/// to resolve.
pub open spec fn unescape_or_empty(raw: Seq<char>) -> Seq<char> {
    match spec_unescape(raw) {
        Some(r) => r,
        None => Seq::empty(),
    }
}

/// The attributes of a tag from position `i` (just after the tag name):
/// the attribute list, the position after the closing `>`, and whether the
/// tag was self-closing.  Attribute values must be quoted with `"` or `'`.
pub open spec fn lex_attrs(s: Seq<char>, i: int) -> Option<
    (Seq<(Seq<char>, Seq<char>)>, int, bool),
>
    decreases s.len() - i,
    via lex_attrs_decreases
{
    let j = skip_ws_at(s, i);
    if j >= s.len() {
        None
    } else if s[j] == '>' {
        Some((Seq::empty(), j + 1, false))
    } else if s[j] == '/' {
        if matches_at(s, j, "/>"@) {
            Some((Seq::empty(), j + 2, true))
        } else {
            None
        }
    } else {
        let ne = scan_name(s, j);
        if ne == j {
            None
        } else {
            let name = s.subrange(j, ne);
            let k = skip_ws_at(s, ne);
            if k >= s.len() || s[k] != '=' {
                None
            } else {
                let q = skip_ws_at(s, k + 1);
                if q >= s.len() || (s[q] != '"' && s[q] != '\'') {
                    None
                } else {
                    let vend = scan_char(s, q + 1, s[q]);
                    if vend >= s.len() {
                        None
                    } else {
                        let value = unescape_or_empty(s.subrange(q + 1, vend));
                        match lex_attrs(s, vend + 1) {
                            Some((rest, k2, sc)) => Some((seq![(name, value)] + rest, k2, sc)),
                            None => None,
                        }
                    }
                }
            }
        }
    }
}

#[via_fn]
proof fn lex_attrs_decreases(s: Seq<char>, i: int) {
    if i <= s.len() {
        let j = skip_ws_at(s, i);
        lemma_skip_ws_at(s, i);
        if j < s.len() && s[j] != '>' && s[j] != '/' {
            let ne = scan_name(s, j);
            lemma_scan_name(s, j);
            if ne != j {
                let k = skip_ws_at(s, ne);
                lemma_skip_ws_at(s, ne);
                if k < s.len() && s[k] == '=' {
                    let q = skip_ws_at(s, k + 1);
                    lemma_skip_ws_at(s, k + 1);
                    if q < s.len() {
                        lemma_scan_char(s, q + 1, s[q]);
                    }
                }
            }
        }
    }
}

/// Every position a successful `lex_attrs` returns lies beyond its start.
pub proof fn lemma_lex_attrs_pos(s: Seq<char>, i: int)
    requires
        i <= s.len(),
    ensures
        lex_attrs(s, i) matches Some(r) ==> i < r.1 <= s.len(),
    decreases s.len() - i,
{
    reveal_strlit("/>");
    let j = skip_ws_at(s, i);
    lemma_skip_ws_at(s, i);
    if j < s.len() && s[j] != '>' && s[j] != '/' {
        let ne = scan_name(s, j);
        lemma_scan_name(s, j);
        if ne != j {
            let k = skip_ws_at(s, ne);
            lemma_skip_ws_at(s, ne);
            if k < s.len() && s[k] == '=' {
                let q = skip_ws_at(s, k + 1);
                lemma_skip_ws_at(s, k + 1);
                if q < s.len() {
                    let vend = scan_char(s, q + 1, s[q]);
                    lemma_scan_char(s, q + 1, s[q]);
                    if vend < s.len() {
                        lemma_lex_attrs_pos(s, vend + 1);
                    }
                }
            }
        }
    }
}

/// The tokens of `s` from position `i` on, or nothing on malformed markup.
pub open spec fn lex_at(s: Seq<char>, i: int) -> Option<Seq<TokData>>
    decreases s.len() - i,
    via lex_at_decreases
{
    if i >= s.len() {
        Some(Seq::empty())
    } else if s[i] == '<' {
        if i + 1 >= s.len() {
            None
        } else if s[i + 1] == '/' {
            let ne = scan_name(s, i + 2);
            if ne == i + 2 {
                None
            } else {
                let k = skip_ws_at(s, ne);
                if k < s.len() && s[k] == '>' {
                    match lex_at(s, k + 1) {
                        Some(rest) => Some(seq![TokData::Close(s.subrange(i + 2, ne))] + rest),
                        None => None,
                    }
                } else {
                    None
                }
            }
        } else if s[i + 1] == '!' {
            if matches_at(s, i + 1, "!--"@) {
                let p = find_pat(s, i + 4, "-->"@);
                if matches_at(s, p, "-->"@) {
                    match lex_at(s, p + 3) {
                        Some(rest) => Some(
                            seq![TokData::Comment(unescape_or_empty(s.subrange(i + 4, p)))] + rest,
                        ),
                        None => None,
                    }
                } else {
                    None
                }
            } else if matches_at(s, i + 1, "![CDATA["@) {
                let p = find_pat(s, i + 9, "]]>"@);
                if matches_at(s, p, "]]>"@) {
                    match lex_at(s, p + 3) {
                        Some(rest) => Some(seq![TokData::CData(s.subrange(i + 9, p))] + rest),
                        None => None,
                    }
                } else {
                    None
                }
            } else {
                let p = scan_char(s, i + 2, '>');
                if p < s.len() {
                    match lex_at(s, p + 1) {
                        Some(rest) => Some(seq![TokData::Misc] + rest),
                        None => None,
                    }
                } else {
                    None
                }
            }
        } else if s[i + 1] == '?' {
            let p = find_pat(s, i + 2, "?>"@);
            if matches_at(s, p, "?>"@) {
                match lex_at(s, p + 2) {
                    Some(rest) => Some(seq![TokData::Misc] + rest),
                    None => None,
                }
            } else {
                None
            }
        } else {
            let ne = scan_name(s, i + 1);
            if ne == i + 1 {
                None
            } else {
                let name = s.subrange(i + 1, ne);
                match lex_attrs(s, ne) {
                    Some((attrs, k, selfclose)) => {
                        match lex_at(s, k) {
                            Some(rest) => Some(
                                seq![if selfclose {
                                    TokData::SelfClose(name, attrs)
                                } else {
                                    TokData::Open(name, attrs)
                                }] + rest,
                            ),
                            None => None,
                        }
                    },
                    None => None,
                }
            }
        }
    } else {
        let j = scan_char(s, i, '<');
        match lex_at(s, j) {
            Some(rest) => Some(seq![TokData::Text(unescape_or_empty(s.subrange(i, j)))] + rest),
            None => None,
        }
    }
}

#[via_fn]
proof fn lex_at_decreases(s: Seq<char>, i: int) {
    reveal_strlit("!--");
    reveal_strlit("![CDATA[");
    reveal_strlit("-->");
    reveal_strlit("]]>");
    reveal_strlit("?>");
    reveal_strlit("/>");
    if i < s.len() {
        if s[i] == '<' {
            if i + 1 < s.len() {
                if s[i + 1] == '/' {
                    let ne = scan_name(s, i + 2);
                    lemma_scan_name(s, i + 2);
                    lemma_skip_ws_at(s, ne);
                } else if s[i + 1] == '!' {
                    if matches_at(s, i + 1, "!--"@) {
                        lemma_find_pat(s, i + 4, "-->"@);
                    } else if matches_at(s, i + 1, "![CDATA["@) {
                        lemma_find_pat(s, i + 9, "]]>"@);
                    } else {
                        lemma_scan_char(s, i + 2, '>');
                    }
                } else if s[i + 1] == '?' {
                    lemma_find_pat(s, i + 2, "?>"@);
                } else {
                    let ne = scan_name(s, i + 1);
                    lemma_scan_name(s, i + 1);
                    lemma_lex_attrs_pos(s, ne);
                }
            }
        } else {
            lemma_scan_char(s, i, '<');
            assert(scan_char(s, i, '<') == scan_char(s, i + 1, '<'));
            lemma_scan_char(s, i + 1, '<');
        }
    }
}

/// The tokens of the whole text, or nothing on malformed markup.
pub open spec fn spec_lex(s: Seq<char>) -> Option<Seq<TokData>> {
    lex_at(s, 0)
}

} // verus!

verus! {

/// Copies `v[from..to]` into a fresh vector.
pub fn sub_vec(v: &Vec<char>, from: usize, to: usize) -> (r: Vec<char>)
    requires
        from <= to <= v@.len(),
    ensures
        r@ == v@.subrange(from as int, to as int),
{
    let mut r: Vec<char> = Vec::new();
    crate::chars::push_range(&mut r, v, from, to);
    proof {
        assert(r@ =~= v@.subrange(from as int, to as int));
    }
    r
}

/// The string of `v[from..to]`.
pub fn sub_string(v: &Vec<char>, from: usize, to: usize) -> (r: String)
    requires
        from <= to <= v@.len(),
    ensures
        r@ == v@.subrange(from as int, to as int),
{
    let r = sub_vec(v, from, to);
    crate::chars::chars_to_string(&r)
}

/// Unescapes `v[from..to]`, falling back to the empty string.
fn unescape_or_empty_exec(v: &Vec<char>, from: usize, to: usize) -> (r: String)
    requires
        from <= to <= v@.len(),
    ensures
        r@ == unescape_or_empty(v@.subrange(from as int, to as int)),
{
    match crate::escape::unescape_range(v, from, to) {
        Some(out) => crate::chars::chars_to_string(&out),
        None => String::new(),
    }
}

/// Walks the characters from `i` to the first non-whitespace one.
pub fn skip_ws_exec(v: &Vec<char>, i: usize) -> (r: usize)
    requires
        i <= v@.len(),
    ensures
        r == skip_ws_at(v@, i as int),
        i <= r <= v@.len(),
{
    let mut j: usize = i;
    while j < v.len() && crate::chars::ws_char(v[j])
        invariant
            i <= j <= v@.len(),
            skip_ws_at(v@, i as int) == skip_ws_at(v@, j as int),
        decreases v@.len() - j,
    {
        j = j + 1;
    }
    j
}

/// Walks the characters from `i` to the first name-stopping one.
fn scan_name_exec(v: &Vec<char>, i: usize) -> (r: usize)
    requires
        i <= v@.len(),
    ensures
        r == scan_name(v@, i as int),
        i <= r <= v@.len(),
{
    let mut j: usize = i;
    while j < v.len() && !(crate::chars::ws_char(v[j]) || v[j] == '<' || v[j] == '>' || v[j] == '/'
        || v[j] == '=' || v[j] == '"' || v[j] == '\'')
        invariant
            i <= j <= v@.len(),
            scan_name(v@, i as int) == scan_name(v@, j as int),
        decreases v@.len() - j,
    {
        j = j + 1;
    }
    j
}

/// Walks the positions from `i` to the first occurrence of `pat`.
pub fn find_pat_exec(v: &Vec<char>, i: usize, pat: &Vec<char>) -> (r: usize)
    requires
        i <= v@.len(),
    ensures
        r == find_pat(v@, i as int, pat@),
        i <= r <= v@.len(),
{
    let mut j: usize = i;
    while !crate::chars::check_match(v, j, pat) && j < v.len()
        invariant
            i <= j <= v@.len(),
            find_pat(v@, i as int, pat@) == find_pat(v@, j as int, pat@),
        decreases v@.len() - j,
    {
        j = j + 1;
    }
    j
}

/// `toks_data` of a list with one more token on the end.
proof fn lemma_toks_data_push(s: Seq<Tok>, t: Tok)
    ensures
        toks_data(s.push(t)) == toks_data(s) + seq![t@],
{
    lemma_toks_data(s.push(t));
    lemma_toks_data(s);
    assert(toks_data(s.push(t)) =~= toks_data(s) + seq![t@]);
}

/// `attrs_data` of a list with one more attribute on the end.
proof fn lemma_attrs_data_push(s: Seq<Attr>, a: Attr)
    ensures
        attrs_data(s.push(a)) == attrs_data(s) + seq![(a.name@, a.value@)],
{
    lemma_attrs_data(s.push(a));
    lemma_attrs_data(s);
    assert(attrs_data(s.push(a)) =~= attrs_data(s) + seq![(a.name@, a.value@)]);
}

/// One token step: from position `pos0`, token `t` is read and position
/// `pos1` follows, in the sense of `lex_at`.
pub open spec fn step_ok(s: Seq<char>, pos0: int, t: TokData, pos1: int) -> bool {
    match lex_at(s, pos1) {
        Some(rest) => lex_at(s, pos0) == Some(seq![t] + rest),
        None => lex_at(s, pos0) is None,
    }
}

/// Reads the attribute list of a tag, as `lex_attrs` describes.
fn lex_attrs_exec(v: &Vec<char>, i: usize) -> (r: Option<(Vec<Attr>, usize, bool)>)
    requires
        i <= v@.len(),
    ensures
        match r {
            Some(t) => lex_attrs(v@, i as int) == Some((attrs_data(t.0@), t.1 as int, t.2)) && i
                < t.1 <= v@.len(),
            None => lex_attrs(v@, i as int) is None,
        },
{
    let ghost s = v@;
    let mut acc: Vec<Attr> = Vec::new();
    let mut cur: usize = i;
    proof {
        lemma_lex_attrs_pos(s, i as int);
        if lex_attrs(s, i as int) is Some {
            let t = lex_attrs(s, i as int)->0;
            assert(attrs_data(acc@) + t.0 =~= t.0);
        }
    }
    loop
        invariant
            i <= cur <= v@.len(),
            s == v@,
            ({
                match lex_attrs(s, cur as int) {
                    Some(t) => lex_attrs(s, i as int) == Some(
                        (attrs_data(acc@) + t.0, t.1, t.2),
                    ) && (cur as int) < t.1 <= s.len(),
                    None => lex_attrs(s, i as int) is None,
                }
            }),
        decreases v@.len() - cur,
    {
        proof {
            reveal_strlit("/>");
        }
        let j = skip_ws_exec(v, cur);
        if j >= v.len() {
            return None;
        }
        let c = v[j];
        if c == '>' {
            proof {
                assert(lex_attrs(s, cur as int) == Some(
                    (Seq::<(Seq<char>, Seq<char>)>::empty(), j + 1 as int, false),
                ));
                assert(attrs_data(acc@) + Seq::<(Seq<char>, Seq<char>)>::empty() =~= attrs_data(
                    acc@,
                ));
            }
            return Some((acc, j + 1, false));
        }
        if c == '/' {
            if j + 1 < v.len() && v[j + 1] == '>' {
                proof {
                    assert(s.subrange(j as int, j + 2) =~= "/>"@);
                    assert(matches_at(s, j as int, "/>"@));
                    assert(attrs_data(acc@) + Seq::<(Seq<char>, Seq<char>)>::empty() =~= attrs_data(
                        acc@,
                    ));
                }
                return Some((acc, j + 2, true));
            } else {
                proof {
                    if matches_at(s, j as int, "/>"@) {
                        assert(s.subrange(j as int, j + 2)[1] == s[j + 1]);
                    }
                }
                return None;
            }
        }
        let ne = scan_name_exec(v, j);
        if ne == j {
            return None;
        }
        let k = skip_ws_exec(v, ne);
        if k >= v.len() || v[k] != '=' {
            return None;
        }
        let q = skip_ws_exec(v, k + 1);
        if q >= v.len() || !(v[q] == '"' || v[q] == '\'') {
            return None;
        }
        let vend = crate::escape::find_char(v, q + 1, v[q]);
        if vend >= v.len() {
            return None;
        }
        let name = sub_string(v, j, ne);
        let value = unescape_or_empty_exec(v, q + 1, vend);
        let ghost acc0 = acc@;
        acc.push(Attr { name, value });
        let ghost cur0 = cur as int;
        cur = vend + 1;
        proof {
            lemma_attrs_data_push(acc0, acc@.last());
            lemma_lex_attrs_pos(s, cur as int);
            let entry = (s.subrange(j as int, ne as int), unescape_or_empty(s.subrange(q + 1, vend as int)));
            if lex_attrs(s, cur as int) is Some {
                let t = lex_attrs(s, cur as int)->0;
                assert(lex_attrs(s, cur0) == Some((seq![entry] + t.0, t.1, t.2)));
                assert(attrs_data(acc0) + (seq![entry] + t.0) =~= attrs_data(acc@) + t.0);
            } else {
                assert(lex_attrs(s, cur0) is None);
            }
        }
    }
}

/// Splits markup text into tokens, as `spec_lex` describes; malformed
/// markup yields nothing.
pub fn tokenize(v: &Vec<char>) -> (r: Option<Vec<Tok>>)
    ensures
        match r {
            Some(ts) => spec_lex(v@) == Some(toks_data(ts@)),
            None => spec_lex(v@) is None,
        },
{
    let ghost s = v@;
    let comment_open = crate::chars::str_to_chars("!--");
    let comment_close = crate::chars::str_to_chars("-->");
    let cdata_open = crate::chars::str_to_chars("![CDATA[");
    let cdata_close = crate::chars::str_to_chars("]]>");
    let pi_close = crate::chars::str_to_chars("?>");
    let mut toks: Vec<Tok> = Vec::new();
    let mut pos: usize = 0;
    while pos < v.len()
        invariant
            0 <= pos <= v@.len(),
            s == v@,
            comment_open@ == "!--"@,
            comment_close@ == "-->"@,
            cdata_open@ == "![CDATA["@,
            cdata_close@ == "]]>"@,
            pi_close@ == "?>"@,
            ({
                match lex_at(s, pos as int) {
                    Some(rest) => lex_at(s, 0) == Some(toks_data(toks@) + rest),
                    None => lex_at(s, 0) is None,
                }
            }),
        decreases v@.len() - pos,
    {
        let ghost pos0 = pos as int;
        let ghost toks0 = toks@;
        let i = pos;
        let c = v[i];
        let tk: Tok;
        if c == '<' {
            if i + 1 >= v.len() {
                return None;
            }
            let c1 = v[i + 1];
            if c1 == '/' {
                let ne = scan_name_exec(v, i + 2);
                if ne == i + 2 {
                    return None;
                }
                let k = skip_ws_exec(v, ne);
                if k < v.len() && v[k] == '>' {
                    tk = Tok::Close(sub_string(v, i + 2, ne));
                    pos = k + 1;
                    proof {
                        assert(step_ok(s, pos0, tk@, pos as int));
                    }
                } else {
                    return None;
                }
            } else if c1 == '!' {
                if crate::chars::check_match(v, i + 1, &comment_open) {
                    proof {
                        reveal_strlit("!--");
                    }
                    let p = find_pat_exec(v, i + 4, &comment_close);
                    if crate::chars::check_match(v, p, &comment_close) {
                        proof {
                            reveal_strlit("-->");
                        }
                        tk = Tok::Comment(unescape_or_empty_exec(v, i + 4, p));
                        pos = p + 3;
                        proof {
                            assert(step_ok(s, pos0, tk@, pos as int));
                        }
                    } else {
                        return None;
                    }
                } else if crate::chars::check_match(v, i + 1, &cdata_open) {
                    proof {
                        reveal_strlit("![CDATA[");
                    }
                    let p = find_pat_exec(v, i + 9, &cdata_close);
                    if crate::chars::check_match(v, p, &cdata_close) {
                        proof {
                            reveal_strlit("]]>");
                        }
                        tk = Tok::CData(sub_string(v, i + 9, p));
                        pos = p + 3;
                        proof {
                            assert(step_ok(s, pos0, tk@, pos as int));
                        }
                    } else {
                        return None;
                    }
                } else {
                    let p = crate::escape::find_char(v, i + 2, '>');
                    if p < v.len() {
                        tk = Tok::Misc;
                        pos = p + 1;
                        proof {
                            assert(step_ok(s, pos0, tk@, pos as int));
                        }
                    } else {
                        return None;
                    }
                }
            } else if c1 == '?' {
                let p = find_pat_exec(v, i + 2, &pi_close);
                if crate::chars::check_match(v, p, &pi_close) {
                    proof {
                        reveal_strlit("?>");
                    }
                    tk = Tok::Misc;
                    pos = p + 2;
                    proof {
                        assert(step_ok(s, pos0, tk@, pos as int));
                    }
                } else {
                    return None;
                }
            } else {
                let ne = scan_name_exec(v, i + 1);
                if ne == i + 1 {
                    return None;
                }
                match lex_attrs_exec(v, ne) {
                    Some((attrs, k, selfclose)) => {
                        let name = sub_string(v, i + 1, ne);
                        if selfclose {
                            tk = Tok::SelfClose(name, attrs);
                        } else {
                            tk = Tok::Open(name, attrs);
                        }
                        pos = k;
                        proof {
                            assert(step_ok(s, pos0, tk@, pos as int));
                        }
                    },
                    None => {
                        return None;
                    },
                }
            }
        } else {
            let j = crate::escape::find_char(v, i, '<');
            tk = Tok::Text(unescape_or_empty_exec(v, i, j));
            pos = j;
            proof {
                crate::escape::lemma_scan_char(s, pos0, '<');
                assert(step_ok(s, pos0, tk@, pos as int));
            }
        }
        toks.push(tk);
        proof {
            lemma_toks_data_push(toks0, toks@.last());
            if lex_at(s, pos as int) is Some {
                let rest = lex_at(s, pos as int)->0;
                assert(lex_at(s, pos0) == Some(seq![toks@.last()@] + rest));
                assert(toks_data(toks0) + (seq![toks@.last()@] + rest) =~= toks_data(toks@) + rest);
            } else {
                assert(lex_at(s, pos0) is None);
            }
        }
    }
    proof {
        assert(lex_at(s, pos as int) == Some(Seq::<TokData>::empty()));
        assert(toks_data(toks@) + Seq::<TokData>::empty() =~= toks_data(toks@));
    }
    Some(toks)
}

} // verus!
