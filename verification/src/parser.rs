//! The tree builder: tokens to a document tree.
//!
//! A stack-based walk over the token stream.  An open tag pushes a fresh
//! mapping holding the tag's attributes under `@`-prefixed keys; the
//! matching close tag pops it and hangs it under its parent, promoting a
//! repeated sibling name to a list.  Text, comments and CDATA go to the
//! reserved structural keys `#text`, `#comment`, `#text-tail` and `#cdata`.
//! The last element popped with no parent becomes the document root.

use vstd::prelude::*;

use crate::lexer::Tok;
use crate::lexer::TokData;
use crate::lexer::tokenize;
use crate::lexer::toks_data;
use crate::lexer::lemma_toks_data;
use crate::lexer::spec_lex;
use crate::chars::str_to_chars;
use crate::chars::chars_to_string;
use crate::chars::push_str;
use crate::node::Entry;
use crate::node::Node;
use crate::node::NodeData;
use crate::node::entries_data;
use crate::node::lemma_entries_data;
use crate::node::obj_has;
use crate::node::obj_get;
use crate::node::obj_insert;
use crate::node::obj_insert_exec;
use crate::node::add_child;
use crate::node::add_child_exec;
use crate::node::entry_index;

verus! {

/// The failure a malformed document produces.
#[derive(Debug)]
pub enum ParseError {
    Malformed,
}

/// The key under which an attribute named `name` is stored.
pub open spec fn attr_key(name: Seq<char>) -> Seq<char> {
    seq!['@'] + name
}

/// The entries a tag's attribute list produces, each value stored as a
/// string under its `@`-prefixed key; a repeated attribute name keeps the
/// last value in the first position.
pub open spec fn attrs_entries(attrs: Seq<(Seq<char>, Seq<char>)>) -> Seq<(Seq<char>, NodeData)>
    decreases attrs.len(),
{
    if attrs.len() == 0 {
        Seq::empty()
    } else {
        obj_insert(
            attrs_entries(attrs.drop_last()),
            attr_key(attrs.last().0),
            NodeData::Str(attrs.last().1),
        )
    }
}

/// Concatenates `raw` onto the string stored under `key`, or stores it
/// fresh; a non-string value under `key` is left untouched.
pub open spec fn concat_or_insert(
    entries: Seq<(Seq<char>, NodeData)>,
    key: Seq<char>,
    raw: Seq<char>,
) -> Seq<(Seq<char>, NodeData)> {
    if obj_has(entries, key) {
        match obj_get(entries, key) {
            NodeData::Str(t) => obj_insert(entries, key, NodeData::Str(t + raw)),
            _ => entries,
        }
    } else {
        obj_insert(entries, key, NodeData::Str(raw))
    }
}

/// Where a text run goes: after a comment it feeds the trailing-text key
/// (concatenating); beside CDATA it replaces the text key, kept apart from
/// the CDATA content; otherwise it accumulates under the text key.
pub open spec fn route_text(
    entries: Seq<(Seq<char>, NodeData)>,
    raw: Seq<char>,
) -> Seq<(Seq<char>, NodeData)> {
    if obj_has(entries, "#comment"@) {
        concat_or_insert(entries, "#text-tail"@, raw)
    } else if obj_has(entries, "#cdata"@) {
        obj_insert(entries, "#text"@, NodeData::Str(raw))
    } else {
        concat_or_insert(entries, "#text"@, raw)
    }
}

/// Where a CDATA run goes: adjacent runs concatenate under the CDATA key.
pub open spec fn add_cdata(
    entries: Seq<(Seq<char>, NodeData)>,
    raw: Seq<char>,
) -> Seq<(Seq<char>, NodeData)> {
    concat_or_insert(entries, "#cdata"@, raw)
}

/// One open element under construction.
pub struct Frame {
    pub name: String,
    pub entries: Vec<Entry>,
}

/// The views of the element stack, innermost element last.
pub open spec fn frames_data(s: Seq<Frame>) -> Seq<(Seq<char>, Seq<(Seq<char>, NodeData)>)>
    decreases s,
{
    if s.len() == 0 {
        Seq::empty()
    } else {
        frames_data(s.drop_last()).push((s.last().name@, entries_data(s.last().entries@)))
    }
}

/// The root under construction, if the first top-level element has closed.
pub open spec fn root_data(r: Option<(String, Node)>) -> Option<(Seq<char>, NodeData)> {
    match r {
        Some(p) => Some((p.0@, p.1@)),
        None => None,
    }
}

/// The document that remains when `toks` run against an element stack and
/// a root seen so far: the stack walk of the parser.  Nothing comes out of
/// a close tag that matches no open element, a second top-level element,
/// or an element left open at the end.
pub open spec fn build_toks(
    toks: Seq<TokData>,
    stack: Seq<(Seq<char>, Seq<(Seq<char>, NodeData)>)>,
    root: Option<(Seq<char>, NodeData)>,
) -> Option<NodeData>
    decreases toks.len(),
{
    if toks.len() == 0 {
        if stack.len() > 0 {
            None
        } else {
            match root {
                Some(p) => Some(NodeData::Obj(seq![p])),
                None => Some(NodeData::Obj(Seq::empty())),
            }
        }
    } else {
        let rest = toks.drop_first();
        match toks[0] {
            TokData::Open(name, attrs) => {
                if stack.len() == 0 && root is Some {
                    None
                } else {
                    build_toks(rest, stack.push((name, attrs_entries(attrs))), root)
                }
            },
            TokData::SelfClose(name, attrs) => {
                let value = NodeData::Obj(attrs_entries(attrs));
                if stack.len() > 0 {
                    let top = stack.last();
                    build_toks(
                        rest,
                        stack.update(stack.len() - 1, (top.0, add_child(top.1, name, value))),
                        root,
                    )
                } else if root is Some {
                    None
                } else {
                    build_toks(rest, stack, Some((name, value)))
                }
            },
            TokData::Close(name) => {
                if stack.len() == 0 {
                    None
                } else {
                    let top = stack.last();
                    if top.0 != name {
                        None
                    } else {
                        let value = NodeData::Obj(top.1);
                        let stack2 = stack.drop_last();
                        if stack2.len() > 0 {
                            let parent = stack2.last();
                            build_toks(
                                rest,
                                stack2.update(
                                    stack2.len() - 1,
                                    (parent.0, add_child(parent.1, name, value)),
                                ),
                                root,
                            )
                        } else if root is Some {
                            None
                        } else {
                            build_toks(rest, stack2, Some((name, value)))
                        }
                    }
                }
            },
            TokData::Text(t) => {
                if stack.len() == 0 {
                    build_toks(rest, stack, root)
                } else {
                    let top = stack.last();
                    build_toks(
                        rest,
                        stack.update(stack.len() - 1, (top.0, route_text(top.1, t))),
                        root,
                    )
                }
            },
            TokData::Comment(c) => {
                if stack.len() == 0 {
                    build_toks(rest, stack, root)
                } else {
                    let top = stack.last();
                    build_toks(
                        rest,
                        stack.update(
                            stack.len() - 1,
                            (top.0, obj_insert(top.1, "#comment"@, NodeData::Str(c))),
                        ),
                        root,
                    )
                }
            },
            TokData::CData(c) => {
                if stack.len() == 0 {
                    build_toks(rest, stack, root)
                } else {
                    let top = stack.last();
                    build_toks(
                        rest,
                        stack.update(stack.len() - 1, (top.0, add_cdata(top.1, c))),
                        root,
                    )
                }
            },
            TokData::Misc => build_toks(rest, stack, root),
        }
    }
}

/// The document a token stream produces.
pub open spec fn spec_build(toks: Seq<TokData>) -> Option<NodeData> {
    build_toks(toks, Seq::empty(), None)
}

/// The document tree of markup text: tokens run through the stack walk.
pub open spec fn spec_parse(s: Seq<char>) -> Option<NodeData> {
    match spec_lex(s) {
        Some(toks) => spec_build(toks),
        None => None,
    }
}

} // verus!

verus! {

/// `frames_data` reads frame by frame.
pub proof fn lemma_frames_data(s: Seq<Frame>)
    ensures
        frames_data(s).len() == s.len(),
        forall|i: int|
            0 <= i < s.len() ==> frames_data(s)[i] == (s[i].name@, entries_data(s[i].entries@)),
    decreases s,
{
    if s.len() > 0 {
        lemma_frames_data(s.drop_last());
        assert forall|i: int|
            0 <= i < s.len() implies frames_data(s)[i] == (
            s[i].name@,
            entries_data(s[i].entries@),
        ) by {
            if i < s.len() - 1 {
                assert(s.drop_last()[i] == s[i]);
                assert(frames_data(s)[i] == frames_data(s.drop_last())[i]);
            }
        }
    }
}

/// Builds the `@`-prefixed key of an attribute.
fn make_attr_key(name: &str) -> (r: String)
    ensures
        r@ == attr_key(name@),
{
    let mut kv: Vec<char> = Vec::new();
    kv.push('@');
    push_str(&mut kv, name);
    proof {
        assert(kv@ =~= attr_key(name@));
    }
    chars_to_string(&kv)
}

/// Turns a tag's attribute list into entries, as `attrs_entries` describes.
fn attrs_entries_exec(attrs: &Vec<crate::lexer::Attr>) -> (r: Vec<Entry>)
    ensures
        entries_data(r@) == attrs_entries(crate::lexer::attrs_data(attrs@)),
{
    let ghost ad = crate::lexer::attrs_data(attrs@);
    proof {
        crate::lexer::lemma_attrs_data(attrs@);
    }
    let mut out: Vec<Entry> = Vec::new();
    let mut i: usize = 0;
    proof {
        assert(ad.subrange(0, 0) =~= Seq::<(Seq<char>, Seq<char>)>::empty());
    }
    while i < attrs.len()
        invariant
            0 <= i <= attrs@.len(),
            ad == crate::lexer::attrs_data(attrs@),
            ad.len() == attrs@.len(),
            forall|j: int|
                0 <= j < attrs@.len() ==> #[trigger] ad[j] == (attrs@[j].name@, attrs@[j].value@),
            entries_data(out@) == attrs_entries(ad.subrange(0, i as int)),
        decreases attrs@.len() - i,
    {
        let key = make_attr_key(attrs[i].name.as_str());
        let value = attrs[i].value.clone();
        obj_insert_exec(&mut out, key, Node::Str(value));
        i = i + 1;
        proof {
            let p = ad.subrange(0, i - 1);
            let q = ad.subrange(0, i as int);
            assert(q.drop_last() =~= p);
            assert(q.last() == ad[i - 1]);
        }
    }
    proof {
        assert(ad.subrange(0, ad.len() as int) =~= ad);
    }
    out
}

/// Concatenates `raw` onto the string under `key`, or stores it fresh, as
/// `concat_or_insert` describes.
fn concat_or_insert_exec(entries: &mut Vec<Entry>, key: &str, raw: String)
    ensures
        entries_data(final(entries)@) == concat_or_insert(entries_data(old(entries)@), key@, raw@),
{
    proof {
        lemma_entries_data(entries@);
        crate::node::lemma_obj_index(entries_data(entries@), key@);
    }
    let ghost ed = entries_data(entries@);
    match entry_index(entries, key) {
        Some(i) => {
            let prev = entries.remove(i);
            proof {
                lemma_entries_data(old(entries)@);
                assert(ed[i as int] == (prev.key@, prev.val@));
            }
            match prev.val {
                Node::Str(t) => {
                    let nv = Node::Str(t.concat(raw.as_str()));
                    entries.insert(i, Entry { key: prev.key, val: nv });
                    proof {
                        lemma_entries_data(entries@);
                        assert(entries_data(entries@) =~= concat_or_insert(ed, key@, raw@));
                    }
                },
                other => {
                    entries.insert(i, Entry { key: prev.key, val: other });
                    proof {
                        lemma_entries_data(entries@);
                        assert(entries_data(entries@) =~= ed);
                    }
                },
            }
        },
        None => {
            let k = crate::chars::str_to_chars(key);
            entries.push(Entry { key: chars_to_string(&k), val: Node::Str(raw) });
            proof {
                lemma_entries_data(entries@);
                assert(entries_data(entries@) =~= concat_or_insert(ed, key@, raw@));
            }
        },
    }
}

/// Routes one text run into an element, as `route_text` describes.
fn route_text_exec(entries: &mut Vec<Entry>, raw: String)
    ensures
        entries_data(final(entries)@) == route_text(entries_data(old(entries)@), raw@),
{
    let has_comment = entry_index(entries, "#comment").is_some();
    if has_comment {
        concat_or_insert_exec(entries, "#text-tail", raw);
    } else {
        let has_cdata = entry_index(entries, "#cdata").is_some();
        if has_cdata {
            let k = crate::chars::str_to_chars("#text");
            obj_insert_exec(entries, chars_to_string(&k), Node::Str(raw));
        } else {
            concat_or_insert_exec(entries, "#text", raw);
        }
    }
}

/// Builds the document tree from a token stream, as `spec_build` describes.
pub fn build_tree(toks: &Vec<Tok>) -> (r: Option<Node>)
    ensures
        match r {
            Some(n) => spec_build(toks_data(toks@)) == Some(n@),
            None => spec_build(toks_data(toks@)) is None,
        },
{
    let ghost full = toks_data(toks@);
    proof {
        lemma_toks_data(toks@);
        assert(full.subrange(0, full.len() as int) =~= full);
    }
    let mut stack: Vec<Frame> = Vec::new();
    let mut root: Option<(String, Node)> = None;
    let mut t: usize = 0;
    while t < toks.len()
        invariant
            0 <= t <= toks@.len(),
            full == toks_data(toks@),
            full.len() == toks@.len(),
            forall|j: int| 0 <= j < toks@.len() ==> #[trigger] full[j] == toks@[j]@,
            build_toks(full, Seq::empty(), None) == build_toks(
                full.subrange(t as int, full.len() as int),
                frames_data(stack@),
                root_data(root),
            ),
        decreases toks@.len() - t,
    {
        let ghost suffix = full.subrange(t as int, full.len() as int);
        let ghost st0 = frames_data(stack@);
        let ghost rd0 = root_data(root);
        proof {
            assert(suffix[0] == full[t as int]);
            assert(suffix.drop_first() =~= full.subrange(t + 1, full.len() as int));
            lemma_frames_data(stack@);
        }
        match &toks[t] {
            Tok::Open(name, attrs) => {
                if stack.len() == 0 && root.is_some() {
                    return None;
                }
                let entries = attrs_entries_exec(attrs);
                let ghost sf0 = stack@;
                stack.push(Frame { name: name.clone(), entries });
                proof {
                    assert(stack@.drop_last() =~= sf0);
                    assert(frames_data(stack@) == st0.push(
                        (stack@.last().name@, entries_data(stack@.last().entries@)),
                    ));
                }
            },
            Tok::SelfClose(name, attrs) => {
                let entries = attrs_entries_exec(attrs);
                let value = Node::Obj(entries);
                if stack.len() > 0 {
                    let mut top = stack.pop().unwrap();
                    let ghost popped = stack@;
                    add_child_exec(&mut top.entries, name.clone(), value);
                    stack.push(top);
                    proof {
                        assert(stack@.drop_last() =~= popped);
                        assert(frames_data(stack@) =~= st0.update(
                            st0.len() - 1,
                            (stack@.last().name@, entries_data(stack@.last().entries@)),
                        ));
                    }
                } else if root.is_some() {
                    return None;
                } else {
                    root = Some((name.clone(), value));
                }
            },
            Tok::Close(name) => {
                if stack.len() == 0 {
                    return None;
                }
                let top = stack.pop().unwrap();
                let ghost popped = stack@;
                if !crate::chars::str_eq(top.name.as_str(), name.as_str()) {
                    return None;
                }
                let value = Node::Obj(top.entries);
                if stack.len() > 0 {
                    let mut parent = stack.pop().unwrap();
                    let ghost popped2 = stack@;
                    add_child_exec(&mut parent.entries, name.clone(), value);
                    stack.push(parent);
                    proof {
                        assert(stack@.drop_last() =~= popped2);
                        lemma_frames_data(popped);
                        assert(frames_data(popped) =~= st0.drop_last());
                        assert(frames_data(stack@) =~= st0.drop_last().update(
                            st0.drop_last().len() - 1,
                            (stack@.last().name@, entries_data(stack@.last().entries@)),
                        ));
                    }
                } else if root.is_some() {
                    return None;
                } else {
                    root = Some((name.clone(), value));
                    proof {
                        lemma_frames_data(popped);
                        assert(frames_data(popped) =~= st0.drop_last());
                    }
                }
            },
            Tok::Text(txt) => {
                if stack.len() > 0 {
                    let mut top = stack.pop().unwrap();
                    let ghost popped = stack@;
                    route_text_exec(&mut top.entries, txt.clone());
                    stack.push(top);
                    proof {
                        assert(stack@.drop_last() =~= popped);
                        assert(frames_data(stack@) =~= st0.update(
                            st0.len() - 1,
                            (stack@.last().name@, entries_data(stack@.last().entries@)),
                        ));
                    }
                }
            },
            Tok::Comment(c) => {
                if stack.len() > 0 {
                    let mut top = stack.pop().unwrap();
                    let ghost popped = stack@;
                    let k = crate::chars::str_to_chars("#comment");
                    obj_insert_exec(&mut top.entries, chars_to_string(&k), Node::Str(c.clone()));
                    stack.push(top);
                    proof {
                        assert(stack@.drop_last() =~= popped);
                        assert(frames_data(stack@) =~= st0.update(
                            st0.len() - 1,
                            (stack@.last().name@, entries_data(stack@.last().entries@)),
                        ));
                    }
                }
            },
            Tok::CData(c) => {
                if stack.len() > 0 {
                    let mut top = stack.pop().unwrap();
                    let ghost popped = stack@;
                    concat_or_insert_exec(&mut top.entries, "#cdata", c.clone());
                    stack.push(top);
                    proof {
                        assert(stack@.drop_last() =~= popped);
                        assert(frames_data(stack@) =~= st0.update(
                            st0.len() - 1,
                            (stack@.last().name@, entries_data(stack@.last().entries@)),
                        ));
                    }
                }
            },
            Tok::Misc => {
            },
        }
        t = t + 1;
    }
    proof {
        assert(full.subrange(t as int, full.len() as int).len() == 0);
        lemma_frames_data(stack@);
    }
    if stack.len() > 0 {
        return None;
    }
    match root {
        Some((name, value)) => {
            let ghost p = (name@, value@);
            let doc = Node::Obj(vec![Entry { key: name, val: value }]);
            proof {
                if let Node::Obj(es) = &doc {
                    lemma_entries_data(es@);
                    assert(entries_data(es@) =~= seq![p]);
                }
            }
            Some(doc)
        },
        None => {
            let doc = Node::Obj(Vec::new());
            proof {
                if let Node::Obj(es) = &doc {
                    assert(entries_data(es@) =~= Seq::<(Seq<char>, NodeData)>::empty());
                }
            }
            Some(doc)
        },
    }
}

/// Parses markup text into a document tree, preserving CDATA sections,
/// comments and text trailing a comment; malformed markup is an error.
pub fn parse_xml_with_cdata(xml: &str) -> (r: Result<Node, ParseError>)
    ensures
        match r {
            Ok(n) => spec_parse(xml@) == Some(n@),
            Err(_) => spec_parse(xml@) is None,
        },
{
    let cs = str_to_chars(xml);
    match tokenize(&cs) {
        Some(toks) => {
            match build_tree(&toks) {
                Some(n) => Ok(n),
                None => Err(ParseError::Malformed),
            }
        },
        None => Err(ParseError::Malformed),
    }
}

} // verus!

verus! {

/// Parses markup text and normalizes away insignificant whitespace; the
/// path parameter only names the source in the caller's diagnostics.
/// Malformed markup yields nothing.
pub fn parse_xml_from_str(content: &str, _file_path: &str) -> (r: Option<Node>)
    ensures
        match r {
            Some(n) => spec_parse(content@) matches Some(p) && n@
                == crate::normalize::spec_normalize(p),
            None => spec_parse(content@) is None,
        },
{
    match parse_xml_with_cdata(content) {
        Ok(parsed) => Some(crate::normalize::strip_whitespace_text_nodes(&parsed)),
        Err(_) => None,
    }
}

} // verus!

verus! {

/// The tree of one markup fragment file with converter-dropped metadata
/// put back: the parsed, normalized document; the declaration recovered
/// from the raw text stored under `?xml`; and a namespace recovered from
/// the raw text appended to the root element's attributes when the root
/// has none.  A recovered namespace with no root element to carry it
/// reads the whole fragment to nothing.
pub open spec fn spec_recovered_doc(s: Seq<char>) -> Option<NodeData> {
    match spec_parse(s) {
        Some(p) => {
            match crate::normalize::spec_normalize(p) {
                NodeData::Obj(entries) => {
                    let with_decl: Seq<(Seq<char>, NodeData)> = match crate::extract::spec_extract_decl(
                        s,
                    ) {
                        Some(d) => obj_insert(entries, "?xml"@, d),
                        None => entries,
                    };
                    match crate::extract::spec_extract_xmlns(s) {
                        Some(x) => {
                            match crate::render::first_root_key(with_decl) {
                                Some(rk) => {
                                    match crate::node::obj_get(with_decl, rk) {
                                        NodeData::Obj(re) => {
                                            if !obj_has(re, "@xmlns"@) {
                                                Some(
                                                    NodeData::Obj(
                                                        obj_insert(
                                                            with_decl,
                                                            rk,
                                                            NodeData::Obj(
                                                                re.push(
                                                                    ("@xmlns"@, NodeData::Str(x)),
                                                                ),
                                                            ),
                                                        ),
                                                    ),
                                                )
                                            } else {
                                                Some(NodeData::Obj(with_decl))
                                            }
                                        },
                                        _ => Some(NodeData::Obj(with_decl)),
                                    }
                                },
                                None => None,
                            }
                        },
                        None => Some(NodeData::Obj(with_decl)),
                    }
                },
                _ => None,
            }
        },
        None => None,
    }
}

/// Parses one markup fragment file's text and recovers its dropped
/// metadata, as `spec_recovered_doc` describes; the path parameter only
/// names the source in the caller's diagnostics.
pub fn parse_xml_with_metadata(content: &str, file_path: &str) -> (r: Option<Node>)
    ensures
        match r {
            Some(n) => spec_recovered_doc(content@) == Some(n@),
            None => spec_recovered_doc(content@) is None,
        },
{
    let parsed = match parse_xml_from_str(content, file_path) {
        Some(p) => p,
        None => {
            return None;
        },
    };
    let mut entries = match parsed {
        Node::Obj(e) => e,
        _ => {
            return None;
        },
    };
    match crate::extract::extract_xml_declaration_from_raw(content) {
        Some(d) => {
            let dk = crate::chars::str_to_chars("?xml");
            obj_insert_exec(&mut entries, chars_to_string(&dk), d);
        },
        None => {},
    }
    let ghost with_decl = entries_data(entries@);
    match crate::extract::extract_xmlns_from_raw(content) {
        Some(x) => {
            proof {
                lemma_entries_data(entries@);
                crate::merge::lemma_first_root_key(entries_data(entries@));
            }
            let rk = match crate::render::first_root_key_exec(&entries) {
                Some(k) => k,
                None => {
                    return None;
                },
            };
            proof {
                crate::node::lemma_obj_index(entries_data(entries@), rk@);
            }
            let ri = match entry_index(&entries, rk.as_str()) {
                Some(i) => i,
                None => {
                    proof {
                        assert(false);
                    }
                    return None;
                },
            };
            proof {
                assert(crate::node::obj_get(with_decl, rk@) == entries@[ri as int].val@);
            }
            let ghost ev0 = entries@;
            let prev = entries.remove(ri);
            proof {
                lemma_entries_data(ev0);
                assert(prev.val@ == with_decl[ri as int].1);
            }
            match prev.val {
                Node::Obj(mut re) => {
                    proof {
                        lemma_entries_data(re@);
                        crate::node::lemma_obj_index(entries_data(re@), "@xmlns"@);
                    }
                    let ghost re0 = entries_data(re@);
                    if entry_index(&re, "@xmlns").is_none() {
                        let xk = crate::chars::str_to_chars("@xmlns");
                        re.push(Entry { key: chars_to_string(&xk), val: Node::Str(x) });
                        proof {
                            lemma_entries_data(re@);
                            assert(entries_data(re@) =~= re0.push(("@xmlns"@, re@.last().val@)));
                        }
                        entries.insert(ri, Entry { key: prev.key, val: Node::Obj(re) });
                        proof {
                            lemma_entries_data(entries@);
                            assert(entries_data(entries@) =~= obj_insert(
                                with_decl,
                                rk@,
                                NodeData::Obj(re0.push(("@xmlns"@, NodeData::Str(x@)))),
                            ));
                        }
                    } else {
                        entries.insert(ri, Entry { key: prev.key, val: Node::Obj(re) });
                        proof {
                            lemma_entries_data(entries@);
                            assert(entries_data(entries@) =~= with_decl);
                        }
                    }
                },
                other => {
                    entries.insert(ri, Entry { key: prev.key, val: other });
                    proof {
                        lemma_entries_data(entries@);
                        assert(entries_data(entries@) =~= with_decl);
                    }
                },
            }
        },
        None => {},
    }
    Some(Node::Obj(entries))
}

} // verus!
