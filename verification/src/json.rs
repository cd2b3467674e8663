//! JSON encoding of the document tree, in a compact form (the canonical
//! serialized form the unique-identifier hash is computed over) and in a
//! pretty-printed form with two-space indentation.

use vstd::prelude::*;

use crate::chars::digit_val;
use crate::node::Entry;
use crate::node::Node;
use crate::node::NodeData;
use crate::node::entries_data;
use crate::node::items_data;
use crate::node::lemma_entries_data;
use crate::node::lemma_items_data;
use crate::text::uint_chars;
use crate::text::push_u64;
use crate::chars::push_str;

verus! {

/// One lowercase hexadecimal digit.
pub open spec fn hex_char(d: int) -> char {
    if d == 0 {
        '0'
    } else if d == 1 {
        '1'
    } else if d == 2 {
        '2'
    } else if d == 3 {
        '3'
    } else if d == 4 {
        '4'
    } else if d == 5 {
        '5'
    } else if d == 6 {
        '6'
    } else if d == 7 {
        '7'
    } else if d == 8 {
        '8'
    } else if d == 9 {
        '9'
    } else if d == 10 {
        'a'
    } else if d == 11 {
        'b'
    } else if d == 12 {
        'c'
    } else if d == 13 {
        'd'
    } else if d == 14 {
        'e'
    } else {
        'f'
    }
}

pub fn hex_char_exec(d: u32) -> (c: char)
    requires
        d < 16,
    ensures
        c == hex_char(d as int),
{
    if d == 0 {
        '0'
    } else if d == 1 {
        '1'
    } else if d == 2 {
        '2'
    } else if d == 3 {
        '3'
    } else if d == 4 {
        '4'
    } else if d == 5 {
        '5'
    } else if d == 6 {
        '6'
    } else if d == 7 {
        '7'
    } else if d == 8 {
        '8'
    } else if d == 9 {
        '9'
    } else if d == 10 {
        'a'
    } else if d == 11 {
        'b'
    } else if d == 12 {
        'c'
    } else if d == 13 {
        'd'
    } else if d == 14 {
        'e'
    } else {
        'f'
    }
}

/// The escaped form of one character inside a JSON string literal: quote
/// and backslash take a backslash, control characters take their short
/// escape or a `\u00..` escape.
pub open spec fn json_esc_char(c: char) -> Seq<char> {
    if c == '"' {
        seq!['\\', '"']
    } else if c == '\\' {
        seq!['\\', '\\']
    } else if c == '\u{8}' {
        seq!['\\', 'b']
    } else if c == '\u{c}' {
        seq!['\\', 'f']
    } else if c == '\n' {
        seq!['\\', 'n']
    } else if c == '\r' {
        seq!['\\', 'r']
    } else if c == '\t' {
        seq!['\\', 't']
    } else if (c as u32) < 0x20 {
        seq!['\\', 'u', '0', '0', hex_char((c as int) / 16), hex_char((c as int) % 16)]
    } else {
        seq![c]
    }
}

/// The body of a JSON string literal for `s`.
pub open spec fn json_escape(s: Seq<char>) -> Seq<char>
    decreases s.len(),
{
    if s.len() == 0 {
        Seq::empty()
    } else {
        json_escape(s.drop_last()) + json_esc_char(s.last())
    }
}

/// A quoted JSON string literal for `s`.
pub open spec fn json_string(s: Seq<char>) -> Seq<char> {
    seq!['"'] + json_escape(s) + seq!['"']
}

/// The compact JSON text of a tree: no spaces, keys in mapping order.
/// This is the canonical serialized form that content hashes are taken of.
pub open spec fn json_compact(n: NodeData) -> Seq<char>
    decreases n,
{
    match n {
        NodeData::Null => "null"@,
        NodeData::Bool(b) => if b {
            "true"@
        } else {
            "false"@
        },
        NodeData::UInt(u) => uint_chars(u as int),
        NodeData::Dec(s) => s,
        NodeData::Str(s) => json_string(s),
        NodeData::Arr(items) => seq!['['] + json_items(items) + seq![']'],
        NodeData::Obj(entries) => seq!['{'] + json_entries(entries) + seq!['}'],
    }
}

/// The comma-separated compact items of a JSON array.
pub open spec fn json_items(items: Seq<NodeData>) -> Seq<char>
    decreases items,
{
    if items.len() == 0 {
        Seq::empty()
    } else if items.len() == 1 {
        json_compact(items[0])
    } else {
        json_compact(items[0]) + seq![','] + json_items(items.drop_first())
    }
}

/// The comma-separated compact members of a JSON object.
pub open spec fn json_entries(entries: Seq<(Seq<char>, NodeData)>) -> Seq<char>
    decreases entries,
{
    if entries.len() == 0 {
        Seq::empty()
    } else if entries.len() == 1 {
        json_string(entries[0].0) + seq![':'] + json_compact(entries[0].1)
    } else {
        json_string(entries[0].0) + seq![':'] + json_compact(entries[0].1) + seq![',']
            + json_entries(entries.drop_first())
    }
}

/// Appends the escaped form of one character.
fn push_json_esc_char(out: &mut Vec<char>, c: char)
    ensures
        final(out)@ == old(out)@ + json_esc_char(c),
{
    if c == '"' {
        push_str(out, "\\\"");
        proof {
            reveal_strlit("\\\"");
            assert(out@ =~= old(out)@ + json_esc_char(c));
        }
    } else if c == '\\' {
        push_str(out, "\\\\");
        proof {
            reveal_strlit("\\\\");
            assert(out@ =~= old(out)@ + json_esc_char(c));
        }
    } else if c == '\u{8}' {
        push_str(out, "\\b");
        proof {
            reveal_strlit("\\b");
            assert(out@ =~= old(out)@ + json_esc_char(c));
        }
    } else if c == '\u{c}' {
        push_str(out, "\\f");
        proof {
            reveal_strlit("\\f");
            assert(out@ =~= old(out)@ + json_esc_char(c));
        }
    } else if c == '\n' {
        push_str(out, "\\n");
        proof {
            reveal_strlit("\\n");
            assert(out@ =~= old(out)@ + json_esc_char(c));
        }
    } else if c == '\r' {
        push_str(out, "\\r");
        proof {
            reveal_strlit("\\r");
            assert(out@ =~= old(out)@ + json_esc_char(c));
        }
    } else if c == '\t' {
        push_str(out, "\\t");
        proof {
            reveal_strlit("\\t");
            assert(out@ =~= old(out)@ + json_esc_char(c));
        }
    } else if (c as u32) < 0x20 {
        out.push('\\');
        out.push('u');
        out.push('0');
        out.push('0');
        out.push(hex_char_exec((c as u32) / 16));
        out.push(hex_char_exec((c as u32) % 16));
        proof {
            assert((c as u32) / 16 == (c as int) / 16);
            assert((c as u32) % 16 == (c as int) % 16);
            assert(out@ =~= old(out)@ + json_esc_char(c));
        }
    } else {
        out.push(c);
        proof {
            assert(out@ =~= old(out)@ + json_esc_char(c));
        }
    }
}

/// Appends the escaped body of a JSON string literal.
fn push_json_escape(out: &mut Vec<char>, s: &Vec<char>)
    ensures
        final(out)@ == old(out)@ + json_escape(s@),
{
    let mut i: usize = 0;
    while i < s.len()
        invariant
            0 <= i <= s@.len(),
            out@ == old(out)@ + json_escape(s@.subrange(0, i as int)),
        decreases s@.len() - i,
    {
        push_json_esc_char(out, s[i]);
        i = i + 1;
        proof {
            let p = s@.subrange(0, i - 1);
            let q = s@.subrange(0, i as int);
            assert(q.drop_last() =~= p);
            assert(q.last() == s@[i - 1]);
            assert(out@ =~= old(out)@ + json_escape(q));
        }
    }
    proof {
        assert(s@.subrange(0, s@.len() as int) =~= s@);
    }
}

/// Appends a quoted JSON string literal for `s`.
fn push_json_string(out: &mut Vec<char>, s: &str)
    ensures
        final(out)@ == old(out)@ + json_string(s@),
{
    let cs = crate::chars::str_to_chars(s);
    out.push('"');
    push_json_escape(out, &cs);
    out.push('"');
    proof {
        assert(out@ =~= old(out)@ + json_string(s@));
    }
}

/// Appends the compact JSON text of a tree, as `json_compact` describes.
pub fn push_json_compact(out: &mut Vec<char>, n: &Node)
    ensures
        final(out)@ == old(out)@ + json_compact(n@),
    decreases n,
{
    match n {
        Node::Null => push_str(out, "null"),
        Node::Bool(b) => {
            if *b {
                push_str(out, "true");
            } else {
                push_str(out, "false");
            }
        },
        Node::UInt(u) => push_u64(out, *u),
        Node::Dec(s) => push_str(out, s.as_str()),
        Node::Str(s) => push_json_string(out, s.as_str()),
        Node::Arr(items) => {
            proof {
                lemma_items_data(items@);
            }
            let ghost id = items_data(items@);
            out.push('[');
            let ghost mid0 = out@;
            let mut i: usize = 0;
            proof {
                assert(id.subrange(0, id.len() as int) =~= id);
            }
            #[verifier::loop_isolation(false)]
            while i < items.len()
                invariant
                    0 <= i <= items@.len(),
                    out@ + json_items(id.subrange(i as int, id.len() as int)) == mid0 + json_items(
                        id,
                    ),
                decreases items@.len() - i,
            {
                let ghost suffix = id.subrange(i as int, id.len() as int);
                proof {
                    assert(suffix[0] == id[i as int]);
                    assert(suffix.drop_first() =~= id.subrange(i + 1, id.len() as int));
                }
                push_json_compact(out, &items[i]);
                if i + 1 < items.len() {
                    out.push(',');
                    proof {
                        assert(suffix.len() > 1);
                        assert(json_items(suffix) =~= json_compact(suffix[0]) + seq![',']
                            + json_items(suffix.drop_first()));
                        assert(out@ + json_items(id.subrange(i + 1, id.len() as int)) =~= mid0
                            + json_items(id));
                    }
                } else {
                    proof {
                        assert(suffix.len() == 1);
                        assert(json_items(suffix) == json_compact(suffix[0]));
                        assert(id.subrange(i + 1, id.len() as int).len() == 0);
                        assert(out@ + json_items(id.subrange(i + 1, id.len() as int)) =~= mid0
                            + json_items(id));
                    }
                }
                i = i + 1;
            }
            out.push(']');
            proof {
                if id.len() == 0 {
                    assert(json_items(id) == Seq::<char>::empty());
                }
                assert(out@ =~= old(out)@ + json_compact(n@));
            }
        },
        Node::Obj(entries) => {
            proof {
                lemma_entries_data(entries@);
            }
            let ghost ed = entries_data(entries@);
            out.push('{');
            let ghost mid0 = out@;
            let mut i: usize = 0;
            proof {
                assert(ed.subrange(0, ed.len() as int) =~= ed);
            }
            #[verifier::loop_isolation(false)]
            while i < entries.len()
                invariant
                    0 <= i <= entries@.len(),
                    out@ + json_entries(ed.subrange(i as int, ed.len() as int)) == mid0
                        + json_entries(ed),
                decreases entries@.len() - i,
            {
                let ghost suffix = ed.subrange(i as int, ed.len() as int);
                proof {
                    assert(suffix[0] == ed[i as int]);
                    assert(suffix.drop_first() =~= ed.subrange(i + 1, ed.len() as int));
                }
                push_json_string(out, entries[i].key.as_str());
                out.push(':');
                push_json_compact(out, &entries[i].val);
                if i + 1 < entries.len() {
                    out.push(',');
                    proof {
                        assert(suffix.len() > 1);
                        assert(out@ + json_entries(ed.subrange(i + 1, ed.len() as int)) =~= mid0
                            + json_entries(ed));
                    }
                } else {
                    proof {
                        assert(suffix.len() == 1);
                        assert(ed.subrange(i + 1, ed.len() as int).len() == 0);
                        assert(out@ + json_entries(ed.subrange(i + 1, ed.len() as int)) =~= mid0
                            + json_entries(ed));
                    }
                }
                i = i + 1;
            }
            out.push('}');
            proof {
                if ed.len() == 0 {
                    assert(json_entries(ed) == Seq::<char>::empty());
                }
                assert(out@ =~= old(out)@ + json_compact(n@));
            }
        },
    }
}

/// The compact JSON text of a tree as a string.
pub fn to_json_compact(n: &Node) -> (r: String)
    ensures
        r@ == json_compact(n@),
{
    let mut out: Vec<char> = Vec::new();
    push_json_compact(&mut out, n);
    crate::chars::chars_to_string(&out)
}

} // verus!
