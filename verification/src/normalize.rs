//! The whitespace normalizer: drops whitespace-only text values from a
//! parsed tree, except where context makes them significant.
//!
//! A whitespace-only `#text` value stays when the same element also carries
//! CDATA content or a comment; a whitespace-only `#text-tail` stays beside
//! a comment.  List items that normalize to an empty mapping disappear.
//! Structural keys keep even a null value: their presence distinguishes
//! "no text" from "never had text".

use vstd::prelude::*;

use crate::chars::all_ws;
use crate::chars::chars_all_ws;
use crate::chars::str_to_chars;
use crate::node::Entry;
use crate::node::Node;
use crate::node::NodeData;
use crate::node::entries_data;
use crate::node::items_data;
use crate::node::lemma_entries_data;
use crate::node::lemma_items_data;
use crate::node::obj_has;
use crate::node::entry_index;

verus! {

/// Whether `k` is one of the reserved structural keys.
pub open spec fn is_structural_key(k: Seq<char>) -> bool {
    k == "#text"@ || k == "#cdata"@ || k == "#comment"@ || k == "#text-tail"@
}

/// A text-carrying entry whose string value is whitespace only.
pub open spec fn is_blank_text(k: Seq<char>, v: NodeData) -> bool {
    &&& (k == "#text"@ || k == "#cdata"@ || k == "#text-tail"@)
    &&& v matches NodeData::Str(t) && all_ws(t)
}

/// Whether the entry `(k, v)` is dropped from an element that carries
/// CDATA content (`has_cdata`) or a comment (`has_comment`).
pub open spec fn drops_entry(k: Seq<char>, v: NodeData, has_cdata: bool, has_comment: bool) -> bool {
    &&& is_blank_text(k, v)
    &&& !(k == "#text"@ && has_cdata)
    &&& !(k == "#text"@ && has_comment)
    &&& !(k == "#text-tail"@ && has_comment)
}

/// The normalized form of a tree.
pub open spec fn spec_normalize(n: NodeData) -> NodeData
    decreases n,
{
    match n {
        NodeData::Obj(entries) => NodeData::Obj(
            clean_entries(entries, obj_has(entries, "#cdata"@), obj_has(entries, "#comment"@)),
        ),
        NodeData::Arr(items) => NodeData::Arr(clean_items(items)),
        other => other,
    }
}

/// The entries that survive normalization, each with a normalized value;
/// a normalized value of null survives only under a structural key.
pub open spec fn clean_entries(
    entries: Seq<(Seq<char>, NodeData)>,
    has_cdata: bool,
    has_comment: bool,
) -> Seq<(Seq<char>, NodeData)>
    decreases entries,
{
    if entries.len() == 0 {
        Seq::empty()
    } else {
        let k = entries[0].0;
        let v = entries[0].1;
        let rest = clean_entries(entries.drop_first(), has_cdata, has_comment);
        if drops_entry(k, v, has_cdata, has_comment) {
            rest
        } else {
            let cv = spec_normalize(v);
            if cv is Null && !is_structural_key(k) {
                rest
            } else {
                seq![(k, cv)] + rest
            }
        }
    }
}

/// The items that survive normalization: each normalized, and those that
/// become an empty mapping dropped.
pub open spec fn clean_items(items: Seq<NodeData>) -> Seq<NodeData>
    decreases items,
{
    if items.len() == 0 {
        Seq::empty()
    } else {
        let c = spec_normalize(items[0]);
        let rest = clean_items(items.drop_first());
        if c matches NodeData::Obj(es) && es.len() == 0 {
            rest
        } else {
            seq![c] + rest
        }
    }
}

/// Whether the string under `key`, if any, is whitespace only.
fn blank_value(entries: &Vec<Entry>, i: usize) -> (r: bool)
    requires
        i < entries@.len(),
    ensures
        r == (entries@[i as int].val@ matches NodeData::Str(t) && all_ws(t)),
{
    match &entries[i].val {
        Node::Str(t) => {
            let cs = str_to_chars(t.as_str());
            chars_all_ws(&cs)
        },
        _ => false,
    }
}

/// Normalizes a tree, as `spec_normalize` describes.
pub fn strip_whitespace_text_nodes(node: &Node) -> (r: Node)
    ensures
        r@ == spec_normalize(node@),
    decreases node,
{
    match node {
        Node::Obj(entries) => {
            proof {
                lemma_entries_data(entries@);
            }
            let ghost ed = entries_data(entries@);
            let has_cdata = entry_index(entries, "#cdata").is_some();
            let has_comment = entry_index(entries, "#comment").is_some();
            let mut out: Vec<Entry> = Vec::new();
            let mut i: usize = 0;
            proof {
                assert(ed.subrange(0, ed.len() as int) =~= ed);
            }
            #[verifier::loop_isolation(false)]
            while i < entries.len()
                invariant
                    0 <= i <= entries@.len(),
                    ed == entries_data(entries@),
                    ed.len() == entries@.len(),
                    forall|j: int|
                        0 <= j < entries@.len() ==> #[trigger] ed[j] == (
                            entries@[j].key@,
                            entries@[j].val@,
                        ),
                    has_cdata == obj_has(ed, "#cdata"@),
                    has_comment == obj_has(ed, "#comment"@),
                    clean_entries(ed, has_cdata, has_comment) == entries_data(out@)
                        + clean_entries(
                        ed.subrange(i as int, ed.len() as int),
                        has_cdata,
                        has_comment,
                    ),
                decreases entries@.len() - i,
            {
                let ghost suffix = ed.subrange(i as int, ed.len() as int);
                let ghost out0 = out@;
                proof {
                    assert(suffix[0] == ed[i as int]);
                    assert(suffix.drop_first() =~= ed.subrange(i + 1, ed.len() as int));
                    lemma_entries_data(out@);
                }
                let k = &entries[i].key;
                let is_text = crate::chars::str_eq(k.as_str(), "#text");
                let is_cd = crate::chars::str_eq(k.as_str(), "#cdata");
                let is_tail = crate::chars::str_eq(k.as_str(), "#text-tail");
                let is_comment_key = crate::chars::str_eq(k.as_str(), "#comment");
                let blank = if is_text || is_cd || is_tail {
                    blank_value(entries, i)
                } else {
                    false
                };
                let dropped = blank && !(is_text && has_cdata) && !(is_text && has_comment) && !(
                is_tail && has_comment);
                if !dropped {
                    let cv = strip_whitespace_text_nodes(&entries[i].val);
                    let keep = match &cv {
                        Node::Null => is_text || is_cd || is_tail || is_comment_key,
                        _ => true,
                    };
                    if keep {
                        out.push(Entry { key: k.clone(), val: cv });
                        proof {
                            lemma_entries_data(out@);
                            lemma_entries_data(out0);
                            assert(entries_data(out@) =~= entries_data(out0) + seq![
                                (ed[i as int].0, spec_normalize(ed[i as int].1))
                            ]);
                            assert(entries_data(out0) + (seq![
                                (ed[i as int].0, spec_normalize(ed[i as int].1))
                            ] + clean_entries(suffix.drop_first(), has_cdata, has_comment))
                                =~= entries_data(out@) + clean_entries(
                                suffix.drop_first(),
                                has_cdata,
                                has_comment,
                            ));
                        }
                    }
                }
                i = i + 1;
            }
            proof {
                assert(ed.subrange(i as int, ed.len() as int).len() == 0);
                assert(entries_data(out@) + Seq::<(Seq<char>, NodeData)>::empty() =~= entries_data(
                    out@,
                ));
            }
            Node::Obj(out)
        },
        Node::Arr(items) => {
            proof {
                lemma_items_data(items@);
            }
            let ghost id = items_data(items@);
            let mut out: Vec<Node> = Vec::new();
            let mut i: usize = 0;
            proof {
                assert(id.subrange(0, id.len() as int) =~= id);
            }
            #[verifier::loop_isolation(false)]
            while i < items.len()
                invariant
                    0 <= i <= items@.len(),
                    id == items_data(items@),
                    id.len() == items@.len(),
                    forall|j: int| 0 <= j < items@.len() ==> #[trigger] id[j] == items@[j]@,
                    clean_items(id) == items_data(out@) + clean_items(
                        id.subrange(i as int, id.len() as int),
                    ),
                decreases items@.len() - i,
            {
                let ghost suffix = id.subrange(i as int, id.len() as int);
                let ghost out0 = out@;
                proof {
                    assert(suffix[0] == id[i as int]);
                    assert(suffix.drop_first() =~= id.subrange(i + 1, id.len() as int));
                    lemma_items_data(out@);
                }
                let c = strip_whitespace_text_nodes(&items[i]);
                let drop_it = match &c {
                    Node::Obj(es) => es.len() == 0,
                    _ => false,
                };
                proof {
                    if let Node::Obj(es) = &c {
                        lemma_entries_data(es@);
                    }
                }
                if !drop_it {
                    out.push(c);
                    proof {
                        lemma_items_data(out@);
                        lemma_items_data(out0);
                        assert(items_data(out@) =~= items_data(out0) + seq![
                            spec_normalize(id[i as int])
                        ]);
                        assert(items_data(out0) + (seq![spec_normalize(id[i as int])] + clean_items(
                            suffix.drop_first(),
                        )) =~= items_data(out@) + clean_items(suffix.drop_first()));
                    }
                }
                i = i + 1;
            }
            proof {
                assert(id.subrange(i as int, id.len() as int).len() == 0);
                assert(items_data(out@) + Seq::<NodeData>::empty() =~= items_data(out@));
            }
            Node::Arr(out)
        },
        Node::Str(s) => Node::Str(s.clone()),
        Node::UInt(u) => Node::UInt(*u),
        Node::Dec(s) => Node::Dec(s.clone()),
        Node::Bool(b) => Node::Bool(*b),
        Node::Null => Node::Null,
    }
}

} // verus!

verus! {

/// Whether `entries` hold a whitespace-only string under `#text`.
pub open spec fn has_blank_text(entries: Seq<(Seq<char>, NodeData)>) -> bool {
    exists|i: int|
        #![trigger entries[i]]
        0 <= i < entries.len() && entries[i].0 == "#text"@ && is_blank_text("#text"@, entries[i].1)
}

/// Whether `entries` hold a CDATA value that is not whitespace-only.
pub open spec fn has_solid_cdata(entries: Seq<(Seq<char>, NodeData)>) -> bool {
    exists|j: int|
        #![trigger entries[j]]
        0 <= j < entries.len() && entries[j].0 == "#cdata"@ && !is_blank_text(
            "#cdata"@,
            entries[j].1,
        )
}

/// One mapping's guard: a whitespace-only text value beside CDATA content
/// and no comment must be anchored by CDATA that itself survives.
pub open spec fn blank_guard(entries: Seq<(Seq<char>, NodeData)>) -> bool {
    obj_has(entries, "#cdata"@) && !obj_has(entries, "#comment"@) && has_blank_text(entries)
        ==> has_solid_cdata(entries)
}

/// Whether a whitespace-only text value is never anchored solely by a
/// whitespace-only CDATA value.  Normalization drops a whitespace-only
/// CDATA value itself, so a whitespace-only text kept only on its account
/// would lose its anchor and fall to a second normalization; every other
/// tree normalizes to a fixed point.
pub open spec fn anchored_blanks(n: NodeData) -> bool
    decreases n,
{
    match n {
        NodeData::Obj(entries) => {
            &&& blank_guard(entries)
            &&& forall|i: int|
                #![trigger entries[i]]
                0 <= i < entries.len() ==> anchored_blanks(entries[i].1)
        },
        NodeData::Arr(items) => forall|i: int|
            #![trigger items[i]]
            0 <= i < items.len() ==> anchored_blanks(items[i]),
        _ => true,
    }
}

/// Normalization never invents or loses a comment entry.
proof fn lemma_clean_keeps_comment(entries: Seq<(Seq<char>, NodeData)>, hc: bool, hm: bool)
    ensures
        obj_has(clean_entries(entries, hc, hm), "#comment"@) == obj_has(entries, "#comment"@),
    decreases entries,
{
    reveal_strlit("#comment");
    reveal_strlit("#text");
    reveal_strlit("#cdata");
    reveal_strlit("#text-tail");
    if entries.len() > 0 {
        lemma_clean_keeps_comment(entries.drop_first(), hc, hm);
        let k = entries[0].0;
        let v = entries[0].1;
        let rest = clean_entries(entries.drop_first(), hc, hm);
        crate::node::lemma_obj_index(entries, "#comment"@);
        crate::node::lemma_obj_index(entries.drop_first(), "#comment"@);
        crate::node::lemma_obj_index(rest, "#comment"@);
        crate::node::lemma_obj_index(clean_entries(entries, hc, hm), "#comment"@);
        if k == "#comment"@ {
            let cv = spec_normalize(v);
            assert("#comment"@.len() == 8);
            assert("#text"@.len() == 5);
            assert("#cdata"@.len() == 6);
            assert("#text-tail"@.len() == 10);
            assert(!is_blank_text(k, v));
            assert(!drops_entry(k, v, hc, hm));
            assert(is_structural_key(k));
            assert(clean_entries(entries, hc, hm) == seq![(k, cv)] + rest);
            assert(obj_has(entries, "#comment"@)) by {
                assert(entries[0].0 == "#comment"@);
            }
        } else {
            assert forall|j: int|
                0 <= j < entries.len() && #[trigger] entries[j].0 == "#comment"@ implies obj_has(
                entries.drop_first(),
                "#comment"@,
            ) by {
                assert(entries.drop_first()[j - 1] == entries[j]);
            }
            if !drops_entry(k, v, hc, hm) && !(spec_normalize(v) is Null && !is_structural_key(k)) {
                let c = clean_entries(entries, hc, hm);
                assert(c == seq![(k, spec_normalize(v))] + rest);
                assert(c.drop_first() =~= rest);
                assert forall|j: int|
                    0 <= j < c.len() && #[trigger] c[j].0 == "#comment"@ implies obj_has(
                    rest,
                    "#comment"@,
                ) by {
                    assert(c.drop_first()[j - 1] == c[j]);
                }
                if obj_has(rest, "#comment"@) {
                    crate::node::lemma_obj_index(rest, "#comment"@);
                    let j = crate::node::obj_index(rest, "#comment"@);
                    assert(c[j + 1].0 == "#comment"@);
                }
            }
        }
    }
}

/// A CDATA entry that is not whitespace-only survives normalization.
proof fn lemma_clean_keeps_cdata(entries: Seq<(Seq<char>, NodeData)>, hc: bool, hm: bool)
    requires
        has_solid_cdata(entries),
    ensures
        obj_has(clean_entries(entries, hc, hm), "#cdata"@),
    decreases entries,
{
    let k = entries[0].0;
    let v = entries[0].1;
    let rest = clean_entries(entries.drop_first(), hc, hm);
    let c = clean_entries(entries, hc, hm);
    let witness = choose|j: int|
        #![trigger entries[j]]
        0 <= j < entries.len() && entries[j].0 == "#cdata"@ && !is_blank_text(
            "#cdata"@,
            entries[j].1,
        );
    assert(0 <= witness < entries.len() && entries[witness].0 == "#cdata"@ && !is_blank_text(
        "#cdata"@,
        entries[witness].1,
    ));
    if witness == 0 {
        assert(k == "#cdata"@ && !is_blank_text("#cdata"@, v));
        assert(!drops_entry(k, v, hc, hm));
        assert(is_structural_key(k));
        assert(c == seq![(k, spec_normalize(v))] + rest);
        assert(c[0].0 == "#cdata"@);
        crate::node::lemma_obj_index(c, "#cdata"@);
    } else {
        assert(entries.drop_first()[witness - 1] == entries[witness]);
        assert(has_solid_cdata(entries.drop_first()));
        lemma_clean_keeps_cdata(entries.drop_first(), hc, hm);
        crate::node::lemma_obj_index(rest, "#cdata"@);
        let j = crate::node::obj_index(rest, "#cdata"@);
        if drops_entry(k, v, hc, hm) || (spec_normalize(v) is Null && !is_structural_key(k)) {
            assert(c == rest);
        } else {
            assert(c == seq![(k, spec_normalize(v))] + rest);
            assert(c[j + 1].0 == "#cdata"@);
            crate::node::lemma_obj_index(c, "#cdata"@);
        }
    }
}

/// Entries that normalization kept are kept again by a second pass whose
/// flags still anchor them, with their values already at a fixed point.
proof fn lemma_clean_entries_stable(
    entries: Seq<(Seq<char>, NodeData)>,
    hc: bool,
    hm: bool,
    hc2: bool,
    hm2: bool,
)
    requires
        hm2 == hm,
        hc ==> hc2 || hm || !has_blank_text(entries),
        forall|i: int|
            0 <= i < entries.len() ==> #[trigger] spec_normalize(spec_normalize(entries[i].1))
                == spec_normalize(entries[i].1),
    ensures
        clean_entries(clean_entries(entries, hc, hm), hc2, hm2) == clean_entries(
            entries,
            hc,
            hm,
        ),
    decreases entries,
{
    reveal_strlit("#text");
    reveal_strlit("#cdata");
    reveal_strlit("#text-tail");
    reveal_strlit("#comment");
    if entries.len() > 0 {
        let k = entries[0].0;
        let v = entries[0].1;
        let rest0 = entries.drop_first();
        let rest = clean_entries(rest0, hc, hm);
        assert forall|i: int|
            0 <= i < rest0.len() implies #[trigger] spec_normalize(spec_normalize(rest0[i].1))
            == spec_normalize(rest0[i].1) by {
            assert(rest0[i] == entries[i + 1]);
        }
        assert(has_blank_text(rest0) ==> has_blank_text(entries)) by {
            if has_blank_text(rest0) {
                let i = choose|i: int|
                    #![trigger rest0[i]]
                    0 <= i < rest0.len() && rest0[i].0 == "#text"@ && is_blank_text(
                        "#text"@,
                        rest0[i].1,
                    );
                assert(entries[i + 1] == rest0[i]);
            }
        }
        lemma_clean_entries_stable(rest0, hc, hm, hc2, hm2);
        if drops_entry(k, v, hc, hm) {
        } else {
            let cv = spec_normalize(v);
            if cv is Null && !is_structural_key(k) {
            } else {
                let c = clean_entries(entries, hc, hm);
                assert(c == seq![(k, cv)] + rest);
                assert(c.drop_first() =~= rest);
                assert(spec_normalize(cv) == cv) by {
                    assert(entries[0].1 == v);
                }
                assert(!drops_entry(k, cv, hc2, hm2)) by {
                    if is_blank_text(k, cv) {
                        assert(cv == v);
                        if k == "#text"@ {
                            assert(hc || hm);
                            if hm {
                            } else {
                                assert(entries[0].0 == "#text"@ && is_blank_text(
                                    "#text"@,
                                    entries[0].1,
                                ));
                                assert(has_blank_text(entries));
                                assert(hc2);
                            }
                        } else if k == "#text-tail"@ {
                            assert(hm);
                        } else {
                            assert(k == "#cdata"@);
                            assert(false);
                        }
                    }
                }
                assert(!(spec_normalize(cv) is Null && !is_structural_key(k)));
                assert(clean_entries(c, hc2, hm2) == seq![(k, spec_normalize(cv))]
                    + clean_entries(rest, hc2, hm2));
                assert(clean_entries(c, hc2, hm2) =~= c);
            }
        }
    }
}

/// Items that normalization kept are kept again by a second pass.
proof fn lemma_clean_items_stable(items: Seq<NodeData>)
    requires
        forall|i: int|
            0 <= i < items.len() ==> #[trigger] spec_normalize(spec_normalize(items[i]))
                == spec_normalize(items[i]),
    ensures
        clean_items(clean_items(items)) == clean_items(items),
    decreases items,
{
    if items.len() > 0 {
        let rest0 = items.drop_first();
        assert forall|i: int|
            0 <= i < rest0.len() implies #[trigger] spec_normalize(spec_normalize(rest0[i]))
            == spec_normalize(rest0[i]) by {
            assert(rest0[i] == items[i + 1]);
        }
        lemma_clean_items_stable(rest0);
        let c = spec_normalize(items[0]);
        let rest = clean_items(rest0);
        if c matches NodeData::Obj(es) && es.len() == 0 {
        } else {
            assert(clean_items(items) == seq![c] + rest);
            assert((seq![c] + rest).drop_first() =~= rest);
            assert(spec_normalize(c) == c) by {
                assert(items[0] == items[0]);
            }
            assert(clean_items(clean_items(items)) =~= clean_items(items));
        }
    }
}

/// Normalizing a normalized tree changes nothing, wherever no
/// whitespace-only text value leans solely on a whitespace-only CDATA
/// value (see [`anchored_blanks`]).
pub proof fn lemma_normalize_idempotent(n: NodeData)
    requires
        anchored_blanks(n),
    ensures
        spec_normalize(spec_normalize(n)) == spec_normalize(n),
    decreases n,
{
    reveal_strlit("#text");
    reveal_strlit("#cdata");
    reveal_strlit("#comment");
    reveal_strlit("#text-tail");
    match n {
        NodeData::Obj(entries) => {
            let hc = obj_has(entries, "#cdata"@);
            let hm = obj_has(entries, "#comment"@);
            let c = clean_entries(entries, hc, hm);
            let hc2 = obj_has(c, "#cdata"@);
            let hm2 = obj_has(c, "#comment"@);
            lemma_clean_keeps_comment(entries, hc, hm);
            assert forall|i: int|
                0 <= i < entries.len() implies #[trigger] spec_normalize(
                spec_normalize(entries[i].1),
            ) == spec_normalize(entries[i].1) by {
                assert(entries[i] == entries[i]);
                assert(anchored_blanks(entries[i].1));
                lemma_normalize_idempotent(entries[i].1);
            }
            assert(hc ==> hc2 || hm || !has_blank_text(entries)) by {
                if hc && !hm && has_blank_text(entries) {
                    assert(has_solid_cdata(entries));
                    lemma_clean_keeps_cdata(entries, hc, hm);
                }
            }
            lemma_clean_entries_stable(entries, hc, hm, hc2, hm2);
        },
        NodeData::Arr(items) => {
            assert forall|i: int|
                0 <= i < items.len() implies #[trigger] spec_normalize(spec_normalize(items[i]))
                == spec_normalize(items[i]) by {
                assert(items[i] == items[i]);
                assert(anchored_blanks(items[i]));
                lemma_normalize_idempotent(items[i]);
            }
            lemma_clean_items_stable(items);
        },
        _ => {},
    }
}

} // verus!
