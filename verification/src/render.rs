//! The serializer: a document tree back to markup text, the inverse of the
//! parser and normalizer as closely as achievable.
//!
//! The outermost mapping may carry a declaration under `?xml`; the first
//! other key names the root element.  Attributes print on the open tag in
//! mapping order; element children print one per line, indented four
//! spaces per level; an element with no element children prints its text,
//! comment, trailing text and CDATA in that fixed order.  The whole output
//! is trimmed of trailing whitespace at the very end only.

use vstd::prelude::*;

use crate::chars::chars_to_string;
use crate::chars::push_str;
use crate::chars::push_range;
use crate::chars::str_to_chars;
use crate::escape::spec_escape;
use crate::escape::push_escaped;
use crate::json::json_compact;
use crate::node::Entry;
use crate::node::Node;
use crate::node::NodeData;
use crate::node::entries_data;
use crate::node::lemma_entries_data;
use crate::node::items_data;
use crate::node::lemma_items_data;
use crate::node::obj_has;
use crate::node::obj_get;
use crate::node::obj_index;
use crate::node::entry_index;
use crate::text::uint_chars;
use crate::text::push_u64;
use crate::text::trim_back;

verus! {

/// The plain text of a scalar value; a mapping or list value falls back to
/// its compact JSON text.
pub open spec fn value_text(v: NodeData) -> Seq<char> {
    match v {
        NodeData::Str(s) => s,
        NodeData::UInt(u) => uint_chars(u as int),
        NodeData::Dec(s) => s,
        NodeData::Bool(b) => if b {
            "true"@
        } else {
            "false"@
        },
        NodeData::Null => Seq::empty(),
        other => json_compact(other),
    }
}

/// Appends the plain text of a scalar value.
pub fn push_value_text(out: &mut Vec<char>, v: &Node)
    ensures
        final(out)@ == old(out)@ + value_text(v@),
{
    match v {
        Node::Str(s) => push_str(out, s.as_str()),
        Node::UInt(u) => push_u64(out, *u),
        Node::Dec(s) => push_str(out, s.as_str()),
        Node::Bool(b) => {
            if *b {
                push_str(out, "true");
            } else {
                push_str(out, "false");
            }
        },
        Node::Null => {
            proof {
                assert(out@ =~= old(out)@ + value_text(v@));
            }
        },
        Node::Obj(_) => crate::json::push_json_compact(out, v),
        Node::Arr(_) => crate::json::push_json_compact(out, v),
    }
}

/// The indentation of a nesting level: four spaces per level.
pub open spec fn sp(level: int) -> Seq<char>
    decreases level,
{
    if level <= 0 {
        Seq::empty()
    } else {
        sp(level - 1) + "    "@
    }
}

/// Whether `k` is an attribute key.
pub open spec fn is_attr_key(k: Seq<char>) -> bool {
    k.len() > 0 && k[0] == '@'
}

/// Whether the entry under `k` prints as an element child.
pub open spec fn is_elem_child(k: Seq<char>) -> bool {
    &&& !is_attr_key(k)
    &&& k != "#text"@
    &&& k != "#comment"@
    &&& k != "#text-tail"@
    &&& k != "#cdata"@
}

/// The display name of an attribute key: every leading `@` removed.
pub open spec fn attr_display(k: Seq<char>) -> Seq<char>
    decreases k.len(),
{
    if k.len() > 0 && k[0] == '@' {
        attr_display(k.drop_first())
    } else {
        k
    }
}

/// The attribute text of the open tag: one ` name="value"` piece per
/// attribute entry, values escaped for attribute context.
pub open spec fn render_attrs(entries: Seq<(Seq<char>, NodeData)>) -> Seq<char>
    decreases entries,
{
    if entries.len() == 0 {
        Seq::empty()
    } else {
        render_attrs(entries.drop_last()) + (if is_attr_key(entries.last().0) {
            seq![' '] + attr_display(entries.last().0) + seq!['=', '"'] + spec_escape(
                value_text(entries.last().1),
                true,
            ) + seq!['"']
        } else {
            Seq::empty()
        })
    }
}

/// The text stored under `key`, or the empty sequence when absent.
pub open spec fn struct_text(entries: Seq<(Seq<char>, NodeData)>, key: Seq<char>) -> Seq<char> {
    if obj_has(entries, key) {
        value_text(obj_get(entries, key))
    } else {
        Seq::empty()
    }
}

/// Whether any entry prints as an element child.
pub open spec fn has_child(entries: Seq<(Seq<char>, NodeData)>) -> bool
    decreases entries,
{
    if entries.len() == 0 {
        false
    } else {
        is_elem_child(entries[0].0) || has_child(entries.drop_first())
    }
}

/// The markup text of one element named `name` holding `v`.
pub open spec fn render_element(name: Seq<char>, v: NodeData, level: int) -> Seq<char>
    decreases v, 1int,
{
    match v {
        NodeData::Obj(entries) => {
            let open = seq!['<'] + name + render_attrs(entries) + seq!['>'];
            let close = seq!['<', '/'] + name + seq!['>'];
            let text = struct_text(entries, "#text"@);
            let comment = struct_text(entries, "#comment"@);
            let tail = struct_text(entries, "#text-tail"@);
            let cdata = struct_text(entries, "#cdata"@);
            if has_child(entries) {
                open + seq!['\n'] + sp(level + 1) + render_children(entries, level + 1) + seq![
                    '\n',
                ] + sp(level) + close
            } else if text.len() > 0 || comment.len() > 0 || tail.len() > 0 || cdata.len() > 0 {
                open + render_leaf_content(entries, level) + close
            } else {
                open + close
            }
        },
        NodeData::Arr(items) => render_siblings(name, items, level),
        scalar => seq!['<'] + name + seq!['>'] + spec_escape(value_text(scalar), false) + seq![
            '<',
            '/',
        ] + name + seq!['>'],
    }
}

/// The mixed leaf content of an element with no element children, in the
/// fixed order text, comment, trailing text, CDATA; a newline and deeper
/// indentation precede content that starts with a comment-free CDATA or
/// trailing text, and a newline and the level's indentation precede the
/// close tag after CDATA.
pub open spec fn render_leaf_content(entries: Seq<(Seq<char>, NodeData)>, level: int) -> Seq<
    char,
> {
    let text = struct_text(entries, "#text"@);
    let comment = struct_text(entries, "#comment"@);
    let tail = struct_text(entries, "#text-tail"@);
    let cdata = struct_text(entries, "#cdata"@);
    (if text.len() == 0 && comment.len() == 0 {
        seq!['\n'] + sp(level + 1)
    } else {
        Seq::empty()
    }) + spec_escape(text, false) + (if comment.len() > 0 {
        "<!--"@ + spec_escape(comment, false) + "-->"@
    } else {
        Seq::empty()
    }) + spec_escape(tail, false) + (if cdata.len() > 0 {
        "<![CDATA["@ + cdata + "]]>"@
    } else {
        Seq::empty()
    }) + (if cdata.len() > 0 {
        seq!['\n'] + sp(level)
    } else {
        Seq::empty()
    })
}

/// The markup text of the element children among `entries`, in order,
/// separated by a newline and the level's indentation; attribute and
/// structural entries print nothing here.
pub open spec fn render_children(
    entries: Seq<(Seq<char>, NodeData)>,
    level: int,
) -> Seq<char>
    decreases entries, 4int,
{
    if entries.len() == 0 {
        Seq::empty()
    } else {
        let rest = entries.drop_first();
        if !is_elem_child(entries[0].0) {
            render_children(rest, level)
        } else {
            let piece = render_child(entries[0].0, entries[0].1, level);
            if has_child(rest) {
                piece + seq!['\n'] + sp(level) + render_children(rest, level)
            } else {
                piece
            }
        }
    }
}

/// The markup text of one child entry: a list prints as that many
/// same-named siblings, anything else as a single element.
pub open spec fn render_child(cname: Seq<char>, cval: NodeData, level: int) -> Seq<char>
    decreases cval, 3int,
{
    match cval {
        NodeData::Arr(items) => render_sibling_run(cname, items, level),
        NodeData::Obj(_) => render_element(cname, cval, level),
        scalar => seq!['<'] + cname + seq!['>'] + spec_escape(value_text(scalar), false) + seq![
            '<',
            '/',
        ] + cname + seq!['>'],
    }
}

/// Sibling elements of one list child, separated by a newline and the
/// level's indentation.
pub open spec fn render_sibling_run(name: Seq<char>, items: Seq<NodeData>, level: int) -> Seq<
    char,
>
    decreases items, 2int,
{
    if items.len() == 0 {
        Seq::empty()
    } else if items.len() == 1 {
        render_element(name, items[0], level)
    } else {
        render_element(name, items[0], level) + seq!['\n'] + sp(level) + render_sibling_run(
            name,
            items.drop_first(),
            level,
        )
    }
}

/// Sibling elements of a list standing directly at element position,
/// printed back to back.
pub open spec fn render_siblings(name: Seq<char>, items: Seq<NodeData>, level: int) -> Seq<char>
    decreases items, 0int,
{
    if items.len() == 0 {
        Seq::empty()
    } else {
        render_element(name, items[0], level) + render_siblings(name, items.drop_first(), level)
    }
}

/// The first key of the outermost mapping that is not the declaration.
pub open spec fn first_root_key(entries: Seq<(Seq<char>, NodeData)>) -> Option<Seq<char>>
    decreases entries,
{
    if entries.len() == 0 {
        None
    } else if entries[0].0 != "?xml"@ {
        Some(entries[0].0)
    } else {
        first_root_key(entries.drop_first())
    }
}

/// The declaration line, when the outermost mapping holds a mapping under
/// `?xml`: version (defaulting to `1.0`), then encoding and standalone
/// when they are present as strings.
pub open spec fn render_decl(entries: Seq<(Seq<char>, NodeData)>) -> Seq<char> {
    if obj_has(entries, "?xml"@) && obj_get(entries, "?xml"@) is Obj {
        let d = obj_get(entries, "?xml"@)->Obj_0;
        let version: Seq<char> = if obj_has(d, "@version"@) && obj_get(d, "@version"@) is Str {
            obj_get(d, "@version"@)->Str_0
        } else {
            "1.0"@
        };
        "<?xml version=\""@ + version + seq!['"'] + (if obj_has(d, "@encoding"@) && obj_get(
            d,
            "@encoding"@,
        ) is Str {
            " encoding=\""@ + obj_get(d, "@encoding"@)->Str_0 + seq!['"']
        } else {
            Seq::empty()
        }) + (if obj_has(d, "@standalone"@) && obj_get(d, "@standalone"@) is Str {
            " standalone=\""@ + obj_get(d, "@standalone"@)->Str_0 + seq!['"']
        } else {
            Seq::empty()
        }) + "?>"@ + seq!['\n']
    } else {
        Seq::empty()
    }
}

/// The markup text of a whole document: the declaration line if present,
/// the root element, and trailing whitespace trimmed at the very end.
/// Anything but a mapping at the top yields the empty string.
pub open spec fn spec_render_doc(doc: NodeData) -> Seq<char> {
    match doc {
        NodeData::Obj(entries) => {
            let root_key: Seq<char> = match first_root_key(entries) {
                Some(k) => k,
                None => "root"@,
            };
            let root_val: NodeData = if obj_has(entries, root_key) {
                obj_get(entries, root_key)
            } else {
                NodeData::Obj(Seq::empty())
            };
            trim_back(render_decl(entries) + render_element(root_key, root_val, 0))
        },
        _ => Seq::empty(),
    }
}

} // verus!

verus! {

/// Appends the display name of an attribute key.
fn push_attr_display(out: &mut Vec<char>, k: &str)
    ensures
        final(out)@ == old(out)@ + attr_display(k@),
{
    let cs = str_to_chars(k);
    let mut a: usize = 0;
    proof {
        assert(cs@.subrange(0, cs@.len() as int) =~= cs@);
    }
    while a < cs.len() && cs[a] == '@'
        invariant
            0 <= a <= cs@.len(),
            cs@ == k@,
            attr_display(k@) == attr_display(cs@.subrange(a as int, cs@.len() as int)),
        decreases cs@.len() - a,
    {
        a = a + 1;
        proof {
            assert(cs@.subrange(a - 1, cs@.len() as int).drop_first() =~= cs@.subrange(
                a as int,
                cs@.len() as int,
            ));
        }
    }
    push_range(out, &cs, a, cs.len());
    proof {
        let rest = cs@.subrange(a as int, cs@.len() as int);
        assert(attr_display(rest) == rest);
        assert(out@ =~= old(out)@ + attr_display(k@));
    }
}

/// Appends the attribute text of the open tag.
fn write_attrs(out: &mut Vec<char>, entries: &Vec<Entry>)
    ensures
        final(out)@ == old(out)@ + render_attrs(entries_data(entries@)),
{
    proof {
        lemma_entries_data(entries@);
    }
    let ghost ed = entries_data(entries@);
    let mut i: usize = 0;
    proof {
        assert(ed.subrange(0, 0) =~= Seq::<(Seq<char>, NodeData)>::empty());
    }
    #[verifier::loop_isolation(false)]
    while i < entries.len()
        invariant
            0 <= i <= entries@.len(),
            out@ == old(out)@ + render_attrs(ed.subrange(0, i as int)),
        decreases entries@.len() - i,
    {
        let k = &entries[i].key;
        let first_at = if k.as_str().is_empty() {
            false
        } else {
            let kc = str_to_chars(k.as_str());
            kc[0] == '@'
        };
        if first_at {
            out.push(' ');
            push_attr_display(out, k.as_str());
            out.push('=');
            out.push('"');
            let mut vt: Vec<char> = Vec::new();
            push_value_text(&mut vt, &entries[i].val);
            push_escaped(out, &vt, true);
            out.push('"');
        }
        i = i + 1;
        proof {
            let p = ed.subrange(0, i - 1);
            let q = ed.subrange(0, i as int);
            assert(q.drop_last() =~= p);
            assert(q.last() == ed[i - 1]);
            assert(is_attr_key(ed[i - 1].0) == first_at);
            assert(out@ =~= old(out)@ + render_attrs(q));
        }
    }
    proof {
        assert(ed.subrange(0, ed.len() as int) =~= ed);
    }
}

/// The text stored under `key`, or the empty vector when absent.
fn struct_text_exec(entries: &Vec<Entry>, key: &str) -> (r: Vec<char>)
    ensures
        r@ == struct_text(entries_data(entries@), key@),
{
    proof {
        lemma_entries_data(entries@);
        crate::node::lemma_obj_index(entries_data(entries@), key@);
    }
    let mut out: Vec<char> = Vec::new();
    match entry_index(entries, key) {
        Some(i) => {
            push_value_text(&mut out, &entries[i].val);
            proof {
                assert(obj_get(entries_data(entries@), key@) == entries@[i as int].val@);
            }
        },
        None => {
        },
    }
    out
}

/// Whether any entry from position `i` on prints as an element child.
fn has_child_from(entries: &Vec<Entry>, i: usize) -> (r: bool)
    requires
        i <= entries@.len(),
    ensures
        r == has_child(entries_data(entries@).subrange(i as int, entries_data(entries@).len() as int)),
{
    proof {
        lemma_entries_data(entries@);
    }
    let ghost ed = entries_data(entries@);
    let mut j: usize = i;
    while j < entries.len()
        invariant
            i <= j <= entries@.len(),
            ed == entries_data(entries@),
            ed.len() == entries@.len(),
            forall|t: int|
                0 <= t < entries@.len() ==> #[trigger] ed[t] == (
                    entries@[t].key@,
                    entries@[t].val@,
                ),
            has_child(ed.subrange(i as int, ed.len() as int)) == has_child(
                ed.subrange(j as int, ed.len() as int),
            ),
        decreases entries@.len() - j,
    {
        if elem_child_key(&entries[j].key) {
            proof {
                assert(ed.subrange(j as int, ed.len() as int)[0] == ed[j as int]);
            }
            return true;
        }
        j = j + 1;
        proof {
            assert(ed.subrange(j - 1, ed.len() as int).drop_first() =~= ed.subrange(
                j as int,
                ed.len() as int,
            ));
            assert(ed.subrange(j - 1, ed.len() as int)[0] == ed[j - 1]);
        }
    }
    proof {
        assert(ed.subrange(j as int, ed.len() as int).len() == 0);
    }
    false
}

/// Decides whether a key prints as an element child.
fn elem_child_key(k: &String) -> (r: bool)
    ensures
        r == is_elem_child(k@),
{
    let kc = str_to_chars(k.as_str());
    if kc.len() > 0 && kc[0] == '@' {
        return false;
    }
    !(crate::chars::str_eq(k.as_str(), "#text") || crate::chars::str_eq(k.as_str(), "#comment")
        || crate::chars::str_eq(k.as_str(), "#text-tail") || crate::chars::str_eq(
        k.as_str(),
        "#cdata",
    ))
}

/// Writes one element, as `render_element` describes.
/// Writes one element, as `render_element` describes.
pub fn write_element(
    out: &mut Vec<char>,
    name: &str,
    v: &Node,
    ind: &Vec<char>,
    Ghost(level): Ghost<int>,
)
    requires
        level >= 0,
        ind@ == sp(level),
    ensures
        final(out)@ == old(out)@ + render_element(name@, v@, level),
    decreases v, 1int,
{
    match v {
        Node::Obj(entries) => {
            write_obj_element(out, name, entries, ind, Ghost(level));
            proof {
                assert(out@ =~= old(out)@ + render_element(name@, v@, level));
            }
        },
        Node::Arr(items) => {
            proof {
                lemma_items_data(items@);
                assert(items_data(items@).subrange(0, items_data(items@).len() as int)
                    =~= items_data(items@));
            }
            let ghost idd = items_data(items@);
            let mut i: usize = 0;
            #[verifier::loop_isolation(false)]
            while i < items.len()
                invariant
                    0 <= i <= items@.len(),
                    out@ + render_siblings(name@, idd.subrange(i as int, idd.len() as int), level)
                        == old(out)@ + render_siblings(name@, idd, level),
                decreases items@.len() - i,
            {
                let ghost suffix = idd.subrange(i as int, idd.len() as int);
                proof {
                    assert(suffix[0] == idd[i as int]);
                    assert(suffix.drop_first() =~= idd.subrange(i + 1, idd.len() as int));
                }
                write_element(out, name, &items[i], ind, Ghost(level));
                i = i + 1;
                proof {
                    assert(out@ + render_siblings(
                        name@,
                        idd.subrange(i as int, idd.len() as int),
                        level,
                    ) =~= old(out)@ + render_siblings(name@, idd, level));
                }
            }
            proof {
                assert(idd.subrange(i as int, idd.len() as int).len() == 0);
                assert(out@ =~= old(out)@ + render_siblings(name@, idd, level));
            }
        },
        _ => {
            out.push('<');
            push_str(out, name);
            out.push('>');
            let mut vt: Vec<char> = Vec::new();
            push_value_text(&mut vt, v);
            push_escaped(out, &vt, false);
            out.push('<');
            out.push('/');
            push_str(out, name);
            out.push('>');
            proof {
                assert(out@ =~= old(out)@ + render_element(name@, v@, level));
            }
        },
    }
}

/// Writes one mapping-valued element.
#[verifier::rlimit(100)]
fn write_obj_element(
    out: &mut Vec<char>,
    name: &str,
    entries: &Vec<Entry>,
    ind: &Vec<char>,
    Ghost(level): Ghost<int>,
)
    requires
        level >= 0,
        ind@ == sp(level),
    ensures
        final(out)@ == old(out)@ + render_element(name@, NodeData::Obj(entries_data(entries@)), level),
    decreases entries@, 6int,
{
    proof {
        lemma_entries_data(entries@);
    }
    let ghost ed = entries_data(entries@);
    out.push('<');
    push_str(out, name);
    write_attrs(out, entries);
    out.push('>');
    let mut ind2: Vec<char> = Vec::new();
    push_range(&mut ind2, ind, 0, ind.len());
    push_str(&mut ind2, "    ");
    proof {
        assert(ind@.subrange(0, ind@.len() as int) =~= ind@);
        assert(ind2@ =~= sp(level + 1));
    }
    if has_child_from(entries, 0) {
        proof {
            assert(ed.subrange(0, ed.len() as int) =~= ed);
        }
        out.push('\n');
        push_range(out, &ind2, 0, ind2.len());
        proof {
            assert(ind2@.subrange(0, ind2@.len() as int) =~= ind2@);
        }
        write_children(out, entries, &ind2, Ghost(level + 1));
        out.push('\n');
        push_range(out, ind, 0, ind.len());
        proof {
            assert(ind@.subrange(0, ind@.len() as int) =~= ind@);
        }
        out.push('<');
        out.push('/');
        push_str(out, name);
        out.push('>');
        proof {
            assert(out@ =~= old(out)@ + render_element(name@, NodeData::Obj(ed), level));
        }
    } else {
        proof {
            assert(ed.subrange(0, ed.len() as int) =~= ed);
        }
        let text = struct_text_exec(entries, "#text");
        let comment = struct_text_exec(entries, "#comment");
        let tail = struct_text_exec(entries, "#text-tail");
        let cdata = struct_text_exec(entries, "#cdata");
        if text.len() > 0 || comment.len() > 0 || tail.len() > 0 || cdata.len() > 0 {
            write_leaf_content(out, entries, ind, &ind2, Ghost(level));
            out.push('<');
            out.push('/');
            push_str(out, name);
            out.push('>');
            proof {
                assert(out@ =~= old(out)@ + render_element(name@, NodeData::Obj(ed), level));
            }
        } else {
            out.push('<');
            out.push('/');
            push_str(out, name);
            out.push('>');
            proof {
                assert(out@ =~= old(out)@ + render_element(name@, NodeData::Obj(ed), level));
            }
        }
    }
}

/// Writes the mixed leaf content of an element with no element children.
#[verifier::rlimit(100)]
fn write_leaf_content(
    out: &mut Vec<char>,
    entries: &Vec<Entry>,
    ind: &Vec<char>,
    ind2: &Vec<char>,
    Ghost(level): Ghost<int>,
)
    requires
        level >= 0,
        ind@ == sp(level),
        ind2@ == sp(level + 1),
    ensures
        final(out)@ == old(out)@ + render_leaf_content(entries_data(entries@), level),
{
    proof {
        lemma_entries_data(entries@);
    }
    let ghost ed = entries_data(entries@);
    let text = struct_text_exec(entries, "#text");
    let comment = struct_text_exec(entries, "#comment");
    let tail = struct_text_exec(entries, "#text-tail");
    let cdata = struct_text_exec(entries, "#cdata");
    if text.len() == 0 && comment.len() == 0 {
        out.push('\n');
        push_range(out, ind2, 0, ind2.len());
        proof {
            assert(ind2@.subrange(0, ind2@.len() as int) =~= ind2@);
        }
    }
    push_escaped(out, &text, false);
    if comment.len() > 0 {
        push_str(out, "<!--");
        push_escaped(out, &comment, false);
        push_str(out, "-->");
    }
    push_escaped(out, &tail, false);
    if cdata.len() > 0 {
        push_str(out, "<![CDATA[");
        let n = cdata.len();
        push_range(out, &cdata, 0, n);
        proof {
            assert(cdata@.subrange(0, cdata@.len() as int) =~= cdata@);
        }
        push_str(out, "]]>");
        out.push('\n');
        push_range(out, ind, 0, ind.len());
        proof {
            assert(ind@.subrange(0, ind@.len() as int) =~= ind@);
        }
    }
    proof {
        assert(out@ =~= old(out)@ + render_leaf_content(ed, level));
    }
}

/// Entries among which nothing prints as an element child render nothing.
proof fn lemma_render_children_empty(entries: Seq<(Seq<char>, NodeData)>, level: int)
    requires
        !has_child(entries),
    ensures
        render_children(entries, level) == Seq::<char>::empty(),
    decreases entries,
{
    if entries.len() > 0 {
        lemma_render_children_empty(entries.drop_first(), level);
    }
}

/// Writes the element children of one element, as `render_children`
/// describes.
fn write_children(out: &mut Vec<char>, entries: &Vec<Entry>, ind: &Vec<char>, Ghost(level): Ghost<
    int,
>)
    requires
        level >= 0,
        ind@ == sp(level),
    ensures
        final(out)@ == old(out)@ + render_children(entries_data(entries@), level),
    decreases entries@, 4int,
{
    proof {
        lemma_entries_data(entries@);
    }
    let ghost ed = entries_data(entries@);
    let mut i: usize = 0;
    proof {
        assert(ed.subrange(0, ed.len() as int) =~= ed);
    }
    #[verifier::loop_isolation(false)]
    while i < entries.len()
        invariant
            0 <= i <= entries@.len(),
            out@ + render_children(ed.subrange(i as int, ed.len() as int), level) == old(out)@
                + render_children(ed, level),
        decreases entries@.len() - i,
    {
        let ghost suffix = ed.subrange(i as int, ed.len() as int);
        proof {
            assert(suffix[0] == ed[i as int]);
            assert(suffix.drop_first() =~= ed.subrange(i + 1, ed.len() as int));
        }
        if elem_child_key(&entries[i].key) {
            write_child(out, &entries[i], ind, Ghost(level));
            if i + 1 < entries.len() && has_child_from(entries, i + 1) {
                out.push('\n');
                push_range(out, ind, 0, ind.len());
                proof {
                    assert(ind@.subrange(0, ind@.len() as int) =~= ind@);
                }
            } else {
                proof {
                    if i + 1 >= entries@.len() {
                        assert(ed.subrange(i + 1, ed.len() as int).len() == 0);
                        assert(!has_child(suffix.drop_first()));
                    }
                    lemma_render_children_empty(suffix.drop_first(), level);
                }
            }
        }
        i = i + 1;
        proof {
            assert(out@ + render_children(ed.subrange(i as int, ed.len() as int), level) =~= old(
                out,
            )@ + render_children(ed, level));
        }
    }
    proof {
        assert(ed.subrange(i as int, ed.len() as int).len() == 0);
    }
}

/// Writes one child entry, as `render_child` describes.
fn write_child(out: &mut Vec<char>, entry: &Entry, ind: &Vec<char>, Ghost(level): Ghost<int>)
    requires
        level >= 0,
        ind@ == sp(level),
    ensures
        final(out)@ == old(out)@ + render_child(entry.key@, entry.val@, level),
    decreases entry.val, 3int,
{
    match &entry.val {
        Node::Arr(items) => {
            proof {
                lemma_items_data(items@);
                assert(items_data(items@).subrange(0, items_data(items@).len() as int)
                    =~= items_data(items@));
            }
            let ghost idd = items_data(items@);
            let mut i: usize = 0;
            #[verifier::loop_isolation(false)]
            while i < items.len()
                invariant
                    0 <= i <= items@.len(),
                    out@ + render_sibling_run(
                        entry.key@,
                        idd.subrange(i as int, idd.len() as int),
                        level,
                    ) == old(out)@ + render_sibling_run(entry.key@, idd, level),
                decreases items@.len() - i,
            {
                let ghost suffix = idd.subrange(i as int, idd.len() as int);
                proof {
                    assert(suffix[0] == idd[i as int]);
                    assert(suffix.drop_first() =~= idd.subrange(i + 1, idd.len() as int));
                }
                write_element(out, entry.key.as_str(), &items[i], ind, Ghost(level));
                if i + 1 < items.len() {
                    out.push('\n');
                    push_range(out, ind, 0, ind.len());
                    proof {
                        assert(ind@.subrange(0, ind@.len() as int) =~= ind@);
                        assert(suffix.len() > 1);
                    }
                } else {
                    proof {
                        assert(suffix.len() == 1);
                    }
                }
                i = i + 1;
            }
            proof {
                assert(idd.subrange(i as int, idd.len() as int).len() == 0);
                if idd.len() == 0 {
                    assert(render_sibling_run(entry.key@, idd, level) == Seq::<char>::empty());
                }
                assert(out@ =~= old(out)@ + render_child(entry.key@, entry.val@, level));
            }
        },
        Node::Obj(_) => {
            write_element(out, entry.key.as_str(), &entry.val, ind, Ghost(level));
        },
        _ => {
            out.push('<');
            push_str(out, entry.key.as_str());
            out.push('>');
            let mut vt: Vec<char> = Vec::new();
            push_value_text(&mut vt, &entry.val);
            push_escaped(out, &vt, false);
            out.push('<');
            out.push('/');
            push_str(out, entry.key.as_str());
            out.push('>');
            proof {
                assert(out@ =~= old(out)@ + render_child(entry.key@, entry.val@, level));
            }
        },
    }
}

} // verus!

verus! {

/// Finds the first key of the outermost mapping that is not `?xml`.
pub fn first_root_key_exec(entries: &Vec<Entry>) -> (r: Option<String>)
    ensures
        match r {
            Some(k) => first_root_key(entries_data(entries@)) == Some(k@),
            None => first_root_key(entries_data(entries@)) is None,
        },
{
    proof {
        lemma_entries_data(entries@);
    }
    let ghost ed = entries_data(entries@);
    let mut i: usize = 0;
    proof {
        assert(ed.subrange(0, ed.len() as int) =~= ed);
    }
    #[verifier::loop_isolation(false)]
    while i < entries.len()
        invariant
            0 <= i <= entries@.len(),
            first_root_key(ed) == first_root_key(ed.subrange(i as int, ed.len() as int)),
        decreases entries@.len() - i,
    {
        let ghost suffix = ed.subrange(i as int, ed.len() as int);
        proof {
            assert(suffix[0] == ed[i as int]);
            assert(suffix.drop_first() =~= ed.subrange(i + 1, ed.len() as int));
        }
        if !crate::chars::str_eq(entries[i].key.as_str(), "?xml") {
            return Some(entries[i].key.clone());
        }
        i = i + 1;
    }
    proof {
        assert(ed.subrange(i as int, ed.len() as int).len() == 0);
    }
    None
}

/// Writes the declaration line, as `render_decl` describes.
fn write_decl(out: &mut Vec<char>, entries: &Vec<Entry>)
    ensures
        final(out)@ == old(out)@ + render_decl(entries_data(entries@)),
{
    proof {
        lemma_entries_data(entries@);
        crate::node::lemma_obj_index(entries_data(entries@), "?xml"@);
    }
    let ghost ed = entries_data(entries@);
    match entry_index(entries, "?xml") {
        Some(i) => {
            proof {
                assert(obj_get(ed, "?xml"@) == entries@[i as int].val@);
            }
            match &entries[i].val {
                Node::Obj(d) => {
                    proof {
                        lemma_entries_data(d@);
                        crate::node::lemma_obj_index(entries_data(d@), "@version"@);
                        crate::node::lemma_obj_index(entries_data(d@), "@encoding"@);
                        crate::node::lemma_obj_index(entries_data(d@), "@standalone"@);
                    }
                    let ghost dd = entries_data(d@);
                    push_str(out, "<?xml version=\"");
                    let mut wrote_version = false;
                    match entry_index(d, "@version") {
                        Some(vi) => {
                            proof {
                                assert(obj_get(dd, "@version"@) == d@[vi as int].val@);
                            }
                            match &d[vi].val {
                                Node::Str(vs) => {
                                    push_str(out, vs.as_str());
                                    wrote_version = true;
                                },
                                _ => {},
                            }
                        },
                        None => {},
                    }
                    if !wrote_version {
                        push_str(out, "1.0");
                    }
                    out.push('"');
                    match entry_index(d, "@encoding") {
                        Some(ei) => {
                            proof {
                                assert(obj_get(dd, "@encoding"@) == d@[ei as int].val@);
                            }
                            match &d[ei].val {
                                Node::Str(es) => {
                                    push_str(out, " encoding=\"");
                                    push_str(out, es.as_str());
                                    out.push('"');
                                },
                                _ => {},
                            }
                        },
                        None => {},
                    }
                    match entry_index(d, "@standalone") {
                        Some(si) => {
                            proof {
                                assert(obj_get(dd, "@standalone"@) == d@[si as int].val@);
                            }
                            match &d[si].val {
                                Node::Str(ss) => {
                                    push_str(out, " standalone=\"");
                                    push_str(out, ss.as_str());
                                    out.push('"');
                                },
                                _ => {},
                            }
                        },
                        None => {},
                    }
                    push_str(out, "?>");
                    out.push('\n');
                    proof {
                        assert(out@ =~= old(out)@ + render_decl(ed));
                    }
                },
                _ => {
                    proof {
                        assert(out@ =~= old(out)@ + render_decl(ed));
                    }
                },
            }
        },
        None => {
            proof {
                assert(out@ =~= old(out)@ + render_decl(ed));
            }
        },
    }
}

/// Serializes a whole document tree to markup text, as `spec_render_doc`
/// describes; anything but a mapping at the top yields the empty string.
pub fn build_xml_string(element: &Node) -> (r: String)
    ensures
        r@ == spec_render_doc(element@),
{
    match element {
        Node::Obj(entries) => {
            proof {
                lemma_entries_data(entries@);
                crate::node::lemma_obj_index(entries_data(entries@), "?xml"@);
            }
            let ghost ed = entries_data(entries@);
            let mut out: Vec<char> = Vec::new();
            write_decl(&mut out, entries);
            let root_key: String = match first_root_key_exec(entries) {
                Some(k) => k,
                None => {
                    let rk = str_to_chars("root");
                    chars_to_string(&rk)
                },
            };
            proof {
                crate::node::lemma_obj_index(ed, root_key@);
            }
            let empty_ind: Vec<char> = Vec::new();
            match entry_index(entries, root_key.as_str()) {
                Some(i) => {
                    proof {
                        assert(obj_get(ed, root_key@) == entries@[i as int].val@);
                    }
                    write_element(&mut out, root_key.as_str(), &entries[i].val, &empty_ind, Ghost(0));
                },
                None => {
                    let root_val = Node::Obj(Vec::new());
                    proof {
                        if let Node::Obj(es) = &root_val {
                            assert(entries_data(es@) =~= Seq::<(Seq<char>, NodeData)>::empty());
                        }
                    }
                    write_element(&mut out, root_key.as_str(), &root_val, &empty_ind, Ghost(0));
                },
            }
            let trimmed = trim_end_chars(&out);
            chars_to_string(&trimmed)
        },
        _ => {
            proof {
                assert(spec_render_doc(element@) == Seq::<char>::empty());
            }
            String::new()
        },
    }
}

/// The vector with trailing whitespace removed.
fn trim_end_chars(v: &Vec<char>) -> (r: Vec<char>)
    ensures
        r@ == trim_back(v@),
{
    let mut b: usize = v.len();
    while b > 0 && crate::chars::ws_char(v[b - 1])
        invariant
            0 <= b <= v@.len(),
            forall|j: int| b <= j < v@.len() ==> crate::chars::is_ws_char(#[trigger] v@[j]),
        decreases b,
    {
        b = b - 1;
    }
    let mut r: Vec<char> = Vec::new();
    push_range(&mut r, v, 0, b);
    proof {
        lemma_trim_back_prefix(v@, b as int);
        assert(r@ =~= v@.subrange(0, b as int));
    }
    r
}

/// `trim_back` keeps exactly the prefix before the trailing whitespace.
proof fn lemma_trim_back_prefix(s: Seq<char>, b: int)
    requires
        0 <= b <= s.len(),
        forall|j: int| b <= j < s.len() ==> crate::chars::is_ws_char(#[trigger] s[j]),
        b > 0 ==> !crate::chars::is_ws_char(s[b - 1]),
    ensures
        trim_back(s) == s.subrange(0, b),
    decreases s.len(),
{
    if b == s.len() {
        assert(s.subrange(0, s.len() as int) =~= s);
    } else {
        lemma_trim_back_prefix(s.drop_last(), b);
        assert(s.drop_last().subrange(0, b) =~= s.subrange(0, b));
    }
}

} // verus!
