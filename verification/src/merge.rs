//! The merge engine: many parsed fragments back into one document.
//!
//! The root element's key comes from the first fragment.  Every fragment's
//! root content is folded into one accumulating mapping: a list-valued
//! child concatenates, a repeated mapping-valued child promotes the stored
//! value to a list in place, and a scalar child is kept only on first
//! sight.  A stored key order puts the merged children back into original
//! document order.

use vstd::prelude::*;

use crate::chars::chars_to_string;
use crate::chars::str_to_chars;
use crate::node::Entry;
use crate::node::Node;
use crate::node::NodeData;
use crate::node::entries_data;
use crate::node::items_data;
use crate::node::lemma_entries_data;
use crate::node::lemma_items_data;
use crate::node::obj_has;
use crate::node::obj_get;
use crate::node::obj_index;
use crate::node::obj_insert;
use crate::node::obj_insert_exec;
use crate::node::entry_index;
use crate::render::first_root_key;

verus! {

/// Folds one child of a source fragment into the accumulating mapping.
pub open spec fn merge_value(
    target: Seq<(Seq<char>, NodeData)>,
    key: Seq<char>,
    v: NodeData,
) -> Seq<(Seq<char>, NodeData)> {
    match v {
        NodeData::Arr(items) => {
            if !obj_has(target, key) {
                target.push((key, NodeData::Arr(items)))
            } else {
                match obj_get(target, key) {
                    NodeData::Arr(prev) => obj_insert(target, key, NodeData::Arr(prev + items)),
                    prev => obj_insert(target, key, NodeData::Arr(seq![prev] + items)),
                }
            }
        },
        NodeData::Obj(_) => {
            if !obj_has(target, key) {
                target.push((key, v))
            } else {
                match obj_get(target, key) {
                    NodeData::Arr(prev) => obj_insert(target, key, NodeData::Arr(prev.push(v))),
                    prev => obj_insert(target, key, NodeData::Arr(seq![prev, v])),
                }
            }
        },
        prim => {
            if !obj_has(target, key) {
                target.push((key, prim))
            } else {
                target
            }
        },
    }
}

/// Folds every child of a source mapping into the accumulating mapping,
/// in order.
pub open spec fn merge_entries(
    target: Seq<(Seq<char>, NodeData)>,
    source: Seq<(Seq<char>, NodeData)>,
) -> Seq<(Seq<char>, NodeData)>
    decreases source.len(),
{
    if source.len() == 0 {
        target
    } else {
        merge_entries(merge_value(target, source[0].0, source[0].1), source.drop_first())
    }
}

/// What one whole fragment adds: its root content's children, when the
/// fragment is a mapping whose root content is a mapping.
pub open spec fn merge_doc(
    target: Seq<(Seq<char>, NodeData)>,
    doc: NodeData,
    root_key: Seq<char>,
) -> Seq<(Seq<char>, NodeData)> {
    match doc {
        NodeData::Obj(entries) => {
            if obj_has(entries, root_key) {
                match obj_get(entries, root_key) {
                    NodeData::Obj(content) => merge_entries(target, content),
                    _ => target,
                }
            } else {
                target
            }
        },
        _ => target,
    }
}

/// The fold of every fragment into the accumulating mapping.
pub open spec fn merge_docs(
    target: Seq<(Seq<char>, NodeData)>,
    docs: Seq<NodeData>,
    root_key: Seq<char>,
) -> Seq<(Seq<char>, NodeData)>
    decreases docs.len(),
{
    if docs.len() == 0 {
        target
    } else {
        merge_docs(merge_doc(target, docs[0], root_key), docs.drop_first(), root_key)
    }
}

/// The default declaration a merged document receives when the first
/// fragment brought none.
pub open spec fn default_decl() -> NodeData {
    NodeData::Obj(
        seq![
            ("@version"@, NodeData::Str("1.0"@)),
            ("@encoding"@, NodeData::Str("UTF-8"@)),
        ],
    )
}

/// The merged document of a fragment list: nothing when the list is empty,
/// the first fragment is no mapping, or it has no key besides the
/// declaration; otherwise the declaration (the first fragment's, or the
/// default) and the root key over the folded content.
pub open spec fn spec_merge(docs: Seq<NodeData>) -> Option<NodeData> {
    if docs.len() == 0 {
        None
    } else {
        match docs[0] {
            NodeData::Obj(first_entries) => {
                match first_root_key(first_entries) {
                    Some(root_key) => {
                        let content = merge_docs(Seq::empty(), docs, root_key);
                        let decl = if obj_has(first_entries, "?xml"@) {
                            obj_get(first_entries, "?xml"@)
                        } else {
                            default_decl()
                        };
                        Some(
                            NodeData::Obj(
                                seq![
                                    ("?xml"@, decl),
                                    (root_key, NodeData::Obj(content)),
                                ],
                            ),
                        )
                    },
                    None => None,
                }
            },
            _ => None,
        }
    }
}

/// Folds one child into an entry vector, as `merge_value` describes.
fn merge_value_exec(target: &mut Vec<Entry>, key: String, v: Node)
    ensures
        entries_data(final(target)@) == merge_value(entries_data(old(target)@), key@, v@),
{
    proof {
        lemma_entries_data(target@);
        crate::node::lemma_obj_index(entries_data(target@), key@);
    }
    let ghost ed = entries_data(target@);
    let ghost vd = v@;
    let ghost kd = key@;
    match v {
        Node::Arr(items) => {
            match entry_index(target, key.as_str()) {
                None => {
                    target.push(Entry { key, val: Node::Arr(items) });
                    proof {
                        lemma_entries_data(target@);
                        assert(entries_data(target@) =~= merge_value(ed, kd, vd));
                    }
                },
                Some(i) => {
                    proof {
                        assert(obj_get(ed, kd) == target@[i as int].val@);
                    }
                    let prev = target.remove(i);
                    proof {
                        lemma_entries_data(old(target)@);
                    }
                    match prev.val {
                        Node::Arr(mut prev_items) => {
                            let ghost p0 = prev_items@;
                            let ghost add0 = items@;
                            append_nodes(&mut prev_items, items);
                            proof {
                                lemma_items_data(p0);
                                lemma_items_data(prev_items@);
                            }
                            target.insert(i, Entry { key, val: Node::Arr(prev_items) });
                            proof {
                                lemma_entries_data(target@);
                                lemma_concat_items(p0, add0);
                                assert(entries_data(target@) =~= merge_value(ed, kd, vd));
                            }
                        },
                        other => {
                            let mut combined: Vec<Node> = Vec::new();
                            let ghost od = other@;
                            combined.push(other);
                            let ghost c0 = combined@;
                            append_nodes(&mut combined, items);
                            proof {
                                lemma_items_data(c0);
                                assert(items_data(c0) =~= seq![od]);
                                lemma_concat_items(c0, items@);
                            }
                            target.insert(i, Entry { key, val: Node::Arr(combined) });
                            proof {
                                lemma_entries_data(target@);
                                assert(entries_data(target@) =~= merge_value(ed, kd, vd));
                            }
                        },
                    }
                },
            }
        },
        Node::Obj(entries2) => {
            let vv = Node::Obj(entries2);
            proof {
                assert(vv@ == vd);
            }
            match entry_index(target, key.as_str()) {
                None => {
                    target.push(Entry { key, val: vv });
                    proof {
                        lemma_entries_data(target@);
                        assert(entries_data(target@) =~= merge_value(ed, kd, vd));
                    }
                },
                Some(i) => {
                    proof {
                        assert(obj_get(ed, kd) == target@[i as int].val@);
                    }
                    let prev = target.remove(i);
                    proof {
                        lemma_entries_data(old(target)@);
                    }
                    match prev.val {
                        Node::Arr(mut prev_items) => {
                            let ghost p0 = prev_items@;
                            prev_items.push(vv);
                            proof {
                                lemma_items_data(p0);
                                lemma_items_data(prev_items@);
                                assert(items_data(prev_items@) =~= items_data(p0).push(vd));
                            }
                            target.insert(i, Entry { key, val: Node::Arr(prev_items) });
                            proof {
                                lemma_entries_data(target@);
                                assert(entries_data(target@) =~= merge_value(ed, kd, vd));
                            }
                        },
                        other => {
                            let ghost od = other@;
                            let two = Node::Arr(vec![other, vv]);
                            proof {
                                if let Node::Arr(v2) = &two {
                                    lemma_items_data(v2@);
                                    assert(items_data(v2@) =~= seq![od, vd]);
                                }
                            }
                            target.insert(i, Entry { key, val: two });
                            proof {
                                lemma_entries_data(target@);
                                assert(entries_data(target@) =~= merge_value(ed, kd, vd));
                            }
                        },
                    }
                },
            }
        },
        prim => {
            match entry_index(target, key.as_str()) {
                None => {
                    target.push(Entry { key, val: prim });
                    proof {
                        lemma_entries_data(target@);
                        assert(entries_data(target@) =~= merge_value(ed, kd, vd));
                    }
                },
                Some(_) => {
                    proof {
                        assert(entries_data(target@) =~= merge_value(ed, kd, vd));
                    }
                },
            }
        },
    }
}

/// Appends every node of `src` onto `dst`.
fn append_nodes(dst: &mut Vec<Node>, src: Vec<Node>)
    ensures
        items_data(final(dst)@) == items_data(old(dst)@) + items_data(src@),
{
    proof {
        lemma_items_data(dst@);
        lemma_items_data(src@);
    }
    let ghost d0 = dst@;
    let ghost s0 = src@;
    let mut rest = src;
    let total = rest.len();
    let mut taken: usize = 0;
    while rest.len() > 0
        invariant
            taken + rest@.len() == s0.len(),
            s0.len() == total,
            dst@ =~= d0 + s0.subrange(0, taken as int),
            rest@ =~= s0.subrange(taken as int, s0.len() as int),
        decreases rest@.len(),
    {
        let x = rest.remove(0);
        proof {
            assert(x == s0[taken as int]);
        }
        dst.push(x);
        taken = taken + 1;
        proof {
            assert(dst@ =~= d0 + s0.subrange(0, taken as int));
            assert(rest@ =~= s0.subrange(taken as int, s0.len() as int));
        }
    }
    proof {
        assert(dst@ =~= d0 + s0);
        lemma_items_data(dst@);
        lemma_concat_items(d0, s0);
    }
}

/// `items_data` distributes over concatenation.
proof fn lemma_concat_items(a: Seq<Node>, b: Seq<Node>)
    ensures
        items_data(a + b) == items_data(a) + items_data(b),
{
    lemma_items_data(a + b);
    lemma_items_data(a);
    lemma_items_data(b);
    assert(items_data(a + b) =~= items_data(a) + items_data(b));
}

} // verus!

verus! {

/// Merges the fragments into one document, as `spec_merge` describes; an
/// empty list, or a first fragment without a usable root, merges to
/// nothing.
pub fn merge_xml_elements(elements: &Vec<Node>) -> (r: Option<Node>)
    ensures
        match r {
            Some(m) => spec_merge(items_data(elements@)) == Some(m@),
            None => spec_merge(items_data(elements@)) is None,
        },
{
    proof {
        lemma_items_data(elements@);
    }
    let ghost docs = items_data(elements@);
    if elements.len() == 0 {
        return None;
    }
    let first_entries = match &elements[0] {
        Node::Obj(fe) => fe,
        _ => {
            return None;
        },
    };
    proof {
        crate::node::lemma_entries_data(first_entries@);
    }
    let root_key = match crate::render::first_root_key_exec(first_entries) {
        Some(k) => k,
        None => {
            return None;
        },
    };
    let ghost rk = root_key@;
    let mut content: Vec<Entry> = Vec::new();
    let mut d: usize = 0;
    proof {
        assert(docs.subrange(0, docs.len() as int) =~= docs);
    }
    #[verifier::loop_isolation(false)]
    while d < elements.len()
        invariant
            0 <= d <= elements@.len(),
            merge_docs(Seq::empty(), docs, rk) == merge_docs(
                entries_data(content@),
                docs.subrange(d as int, docs.len() as int),
                rk,
            ),
        decreases elements@.len() - d,
    {
        let ghost suffix = docs.subrange(d as int, docs.len() as int);
        proof {
            assert(suffix[0] == docs[d as int]);
            assert(suffix.drop_first() =~= docs.subrange(d + 1, docs.len() as int));
        }
        merge_one_doc(&mut content, &elements[d], root_key.as_str(), Ghost(rk));
        d = d + 1;
    }
    proof {
        assert(docs.subrange(d as int, docs.len() as int).len() == 0);
    }
    let decl: Node = match entry_index(first_entries, "?xml") {
        Some(i) => {
            proof {
                crate::node::lemma_obj_index(entries_data(first_entries@), "?xml"@);
                assert(obj_get(entries_data(first_entries@), "?xml"@) == first_entries@[
                    i as int].val@);
            }
            crate::node::duplicate(&first_entries[i].val)
        },
        None => {
            let mut de: Vec<Entry> = Vec::new();
            let vk = str_to_chars("@version");
            let vv = str_to_chars("1.0");
            de.push(Entry { key: chars_to_string(&vk), val: Node::Str(chars_to_string(&vv)) });
            let ek = str_to_chars("@encoding");
            let ev = str_to_chars("UTF-8");
            de.push(Entry { key: chars_to_string(&ek), val: Node::Str(chars_to_string(&ev)) });
            let dd = Node::Obj(de);
            proof {
                if let Node::Obj(dev) = &dd {
                    lemma_entries_data(dev@);
                    assert(entries_data(dev@) =~= default_decl()->Obj_0);
                }
            }
            dd
        },
    };
    let mut top: Vec<Entry> = Vec::new();
    let dk = str_to_chars("?xml");
    top.push(Entry { key: chars_to_string(&dk), val: decl });
    top.push(Entry { key: root_key, val: Node::Obj(content) });
    let result = Node::Obj(top);
    proof {
        if let Node::Obj(tv) = &result {
            lemma_entries_data(tv@);
            assert(entries_data(tv@) =~= spec_merge(docs)->0->Obj_0);
        }
    }
    Some(result)
}

/// Folds one fragment into the accumulating content, as `merge_doc`
/// describes.
fn merge_one_doc(content: &mut Vec<Entry>, doc: &Node, root_key: &str, Ghost(rk): Ghost<Seq<char>>)
    requires
        root_key@ == rk,
    ensures
        entries_data(final(content)@) == merge_doc(entries_data(old(content)@), doc@, rk),
{
    proof {
        lemma_entries_data(content@);
    }
    let ghost t0 = entries_data(content@);
    match doc {
        Node::Obj(entries) => {
            proof {
                lemma_entries_data(entries@);
                crate::node::lemma_obj_index(entries_data(entries@), rk);
            }
            match entry_index(entries, root_key) {
                Some(i) => {
                    proof {
                        assert(obj_get(entries_data(entries@), rk) == entries@[i as int].val@);
                    }
                    match &entries[i].val {
                        Node::Obj(src) => {
                            proof {
                                lemma_entries_data(src@);
                                assert(entries_data(src@).subrange(
                                    0,
                                    entries_data(src@).len() as int,
                                ) =~= entries_data(src@));
                            }
                            let ghost sd = entries_data(src@);
                            let mut j: usize = 0;
                            #[verifier::loop_isolation(false)]
                            while j < src.len()
                                invariant
                                    0 <= j <= src@.len(),
                                    merge_entries(t0, sd) == merge_entries(
                                        entries_data(content@),
                                        sd.subrange(j as int, sd.len() as int),
                                    ),
                                decreases src@.len() - j,
                            {
                                let ghost ssuffix = sd.subrange(j as int, sd.len() as int);
                                proof {
                                    assert(ssuffix[0] == sd[j as int]);
                                    assert(ssuffix.drop_first() =~= sd.subrange(
                                        j + 1,
                                        sd.len() as int,
                                    ));
                                }
                                let k = src[j].key.clone();
                                let cv = crate::node::duplicate(&src[j].val);
                                merge_value_exec(content, k, cv);
                                j = j + 1;
                            }
                            proof {
                                assert(sd.subrange(j as int, sd.len() as int).len() == 0);
                            }
                        },
                        _ => {
                            proof {
                                assert(entries_data(content@) =~= merge_doc(t0, doc@, rk));
                            }
                        },
                    }
                },
                None => {
                    proof {
                        assert(entries_data(content@) =~= merge_doc(t0, doc@, rk));
                    }
                },
            }
        },
        _ => {
            proof {
                assert(entries_data(content@) =~= merge_doc(t0, doc@, rk));
            }
        },
    }
}

} // verus!

verus! {

/// A root key that `first_root_key` names is present among the entries
/// and is not the declaration key.
pub proof fn lemma_first_root_key(entries: Seq<(Seq<char>, NodeData)>)
    ensures
        first_root_key(entries) matches Some(k) ==> obj_has(entries, k) && k != "?xml"@,
    decreases entries,
{
    if entries.len() > 0 {
        if entries[0].0 != "?xml"@ {
            crate::node::lemma_obj_index(entries, entries[0].0);
        } else {
            lemma_first_root_key(entries.drop_first());
            if first_root_key(entries) is Some {
                let k = first_root_key(entries)->0;
                crate::node::lemma_obj_index(entries.drop_first(), k);
                let j = obj_index(entries.drop_first(), k);
                assert(entries[j + 1] == entries.drop_first()[j]);
                crate::node::lemma_obj_index(entries, k);
            }
        }
    }
}

/// The children picked out of `content` in the order a stored key list
/// gives, duplicates collapsing onto their first position.
pub open spec fn reorder_picked(
    acc: Seq<(Seq<char>, NodeData)>,
    content: Seq<(Seq<char>, NodeData)>,
    key_order: Seq<Seq<char>>,
) -> Seq<(Seq<char>, NodeData)>
    decreases key_order.len(),
{
    if key_order.len() == 0 {
        acc
    } else {
        let acc2 = if obj_has(content, key_order[0]) {
            obj_insert(acc, key_order[0], obj_get(content, key_order[0]))
        } else {
            acc
        };
        reorder_picked(acc2, content, key_order.drop_first())
    }
}

/// The children of `content` not named by the key list, appended behind
/// the picked ones in their own order.
pub open spec fn reorder_appended(
    acc: Seq<(Seq<char>, NodeData)>,
    content: Seq<(Seq<char>, NodeData)>,
) -> Seq<(Seq<char>, NodeData)>
    decreases content.len(),
{
    if content.len() == 0 {
        acc
    } else {
        let acc2 = if !obj_has(acc, content[0].0) {
            acc.push(content[0])
        } else {
            acc
        };
        reorder_appended(acc2, content.drop_first())
    }
}

/// The document with its root children reordered to the stored key list:
/// listed keys first, in list order, then every remaining child.  Nothing
/// comes of a document without a mapping root.
pub open spec fn spec_reorder(doc: NodeData, key_order: Seq<Seq<char>>) -> Option<NodeData> {
    match doc {
        NodeData::Obj(entries) => {
            match first_root_key(entries) {
                Some(root_key) => {
                    match obj_get(entries, root_key) {
                        NodeData::Obj(content) => {
                            let reordered = reorder_appended(
                                reorder_picked(Seq::empty(), content, key_order),
                                content,
                            );
                            let top: Seq<(Seq<char>, NodeData)> = if obj_has(entries, "?xml"@) {
                                seq![("?xml"@, obj_get(entries, "?xml"@))]
                            } else {
                                Seq::empty()
                            };
                            Some(NodeData::Obj(top.push((root_key, NodeData::Obj(reordered)))))
                        },
                        _ => None,
                    }
                },
                None => None,
            }
        },
        _ => None,
    }
}

/// The key views of a string list.
pub open spec fn keys_data(keys: Seq<String>) -> Seq<Seq<char>>
    decreases keys,
{
    if keys.len() == 0 {
        Seq::empty()
    } else {
        seq![keys[0]@] + keys_data(keys.drop_first())
    }
}

/// `keys_data` reads key by key.
pub proof fn lemma_keys_data(keys: Seq<String>)
    ensures
        keys_data(keys).len() == keys.len(),
        forall|i: int| 0 <= i < keys.len() ==> keys_data(keys)[i] == keys[i]@,
    decreases keys,
{
    if keys.len() > 0 {
        lemma_keys_data(keys.drop_first());
        assert(keys_data(keys) == seq![keys[0]@] + keys_data(keys.drop_first()));
        assert forall|i: int| 0 <= i < keys.len() implies keys_data(keys)[i] == keys[i]@ by {
            if i > 0 {
                assert(keys.drop_first()[i - 1] == keys[i]);
                assert(keys_data(keys)[i] == keys_data(keys.drop_first())[i - 1]);
            }
        }
    }
}

/// Reorders the merged root's children to the stored key order, as
/// `spec_reorder` describes.
pub fn reorder_root_keys(element: &Node, key_order: &Vec<String>) -> (r: Option<Node>)
    ensures
        match r {
            Some(m) => spec_reorder(element@, keys_data(key_order@)) == Some(m@),
            None => spec_reorder(element@, keys_data(key_order@)) is None,
        },
{
    let ghost ks = keys_data(key_order@);
    proof {
        lemma_keys_data(key_order@);
    }
    let entries = match element {
        Node::Obj(e) => e,
        _ => {
            return None;
        },
    };
    proof {
        lemma_entries_data(entries@);
        crate::node::lemma_obj_index(entries_data(entries@), "?xml"@);
    }
    let root_key = match crate::render::first_root_key_exec(entries) {
        Some(k) => k,
        None => {
            return None;
        },
    };
    proof {
        crate::node::lemma_obj_index(entries_data(entries@), root_key@);
        lemma_first_root_key(entries_data(entries@));
    }
    let content = match entry_index(entries, root_key.as_str()) {
        Some(i) => {
            proof {
                assert(obj_get(entries_data(entries@), root_key@) == entries@[i as int].val@);
            }
            match &entries[i].val {
                Node::Obj(c) => c,
                _ => {
                    return None;
                },
            }
        },
        None => {
            proof {
                assert(false);
            }
            return None;
        },
    };
    proof {
        lemma_entries_data(content@);
    }
    let ghost cd = entries_data(content@);
    let mut reordered: Vec<Entry> = Vec::new();
    let mut i: usize = 0;
    proof {
        assert(ks.subrange(0, ks.len() as int) =~= ks);
    }
    #[verifier::loop_isolation(false)]
    while i < key_order.len()
        invariant
            0 <= i <= key_order@.len(),
            reorder_picked(Seq::empty(), cd, ks) == reorder_picked(
                entries_data(reordered@),
                cd,
                ks.subrange(i as int, ks.len() as int),
            ),
        decreases key_order@.len() - i,
    {
        let ghost suffix = ks.subrange(i as int, ks.len() as int);
        proof {
            assert(suffix[0] == ks[i as int]);
            assert(suffix.drop_first() =~= ks.subrange(i + 1, ks.len() as int));
            crate::node::lemma_obj_index(cd, ks[i as int]);
        }
        match entry_index(content, key_order[i].as_str()) {
            Some(ci) => {
                proof {
                    assert(obj_get(cd, ks[i as int]) == content@[ci as int].val@);
                }
                let v = crate::node::duplicate(&content[ci].val);
                obj_insert_exec(&mut reordered, key_order[i].clone(), v);
            },
            None => {
            },
        }
        i = i + 1;
    }
    proof {
        assert(ks.subrange(i as int, ks.len() as int).len() == 0);
    }
    let mut j: usize = 0;
    proof {
        assert(cd.subrange(0, cd.len() as int) =~= cd);
    }
    #[verifier::loop_isolation(false)]
    while j < content.len()
        invariant
            0 <= j <= content@.len(),
            reorder_appended(reorder_picked(Seq::empty(), cd, ks), cd) == reorder_appended(
                entries_data(reordered@),
                cd.subrange(j as int, cd.len() as int),
            ),
        decreases content@.len() - j,
    {
        let ghost suffix = cd.subrange(j as int, cd.len() as int);
        proof {
            assert(suffix[0] == cd[j as int]);
            assert(suffix.drop_first() =~= cd.subrange(j + 1, cd.len() as int));
            lemma_entries_data(reordered@);
            crate::node::lemma_obj_index(entries_data(reordered@), cd[j as int].0);
        }
        let ghost r0 = entries_data(reordered@);
        match entry_index(&reordered, content[j].key.as_str()) {
            Some(_) => {
            },
            None => {
                let v = crate::node::duplicate(&content[j].val);
                reordered.push(Entry { key: content[j].key.clone(), val: v });
                proof {
                    lemma_entries_data(reordered@);
                    assert(entries_data(reordered@) =~= r0.push(cd[j as int]));
                }
            },
        }
        j = j + 1;
    }
    proof {
        assert(cd.subrange(j as int, cd.len() as int).len() == 0);
    }
    let mut top: Vec<Entry> = Vec::new();
    match entry_index(entries, "?xml") {
        Some(di) => {
            proof {
                assert(obj_get(entries_data(entries@), "?xml"@) == entries@[di as int].val@);
            }
            let decl = crate::node::duplicate(&entries[di].val);
            let dk = str_to_chars("?xml");
            top.push(Entry { key: chars_to_string(&dk), val: decl });
        },
        None => {
        },
    }
    top.push(Entry { key: root_key, val: Node::Obj(reordered) });
    let result = Node::Obj(top);
    proof {
        if let Node::Obj(tv) = &result {
            lemma_entries_data(tv@);
            assert(entries_data(tv@) =~= spec_reorder(element@, ks)->0->Obj_0);
        }
    }
    Some(result)
}

} // verus!

verus! {

/// The attribute entries of a root element, flattened to strings: the
/// `@`-prefixed keys, plus a bare `xmlns` normalized to `@xmlns`.
pub open spec fn root_attrs(entries: Seq<(Seq<char>, NodeData)>) -> Seq<(Seq<char>, NodeData)>
    decreases entries.len(),
{
    if entries.len() == 0 {
        Seq::empty()
    } else {
        let k = entries[0].0;
        let v = entries[0].1;
        let rest = root_attrs(entries.drop_first());
        if crate::render::is_attr_key(k) || k == "xmlns"@ {
            let ak = if k == "xmlns"@ {
                "@xmlns"@
            } else {
                k
            };
            seq![(ak, NodeData::Str(crate::render::value_text(v)))] + rest
        } else {
            rest
        }
    }
}

/// Extracts a root element's attributes as one flat mapping of strings;
/// anything but a mapping yields an empty mapping.
pub fn extract_root_attributes(element: &Node) -> (r: Node)
    ensures
        r@ == match element@ {
            NodeData::Obj(entries) => NodeData::Obj(root_attrs(entries)),
            _ => NodeData::Obj(Seq::empty()),
        },
{
    let entries = match element {
        Node::Obj(e) => e,
        _ => {
            let out: Vec<Entry> = Vec::new();
            proof {
                assert(entries_data(out@) =~= Seq::<(Seq<char>, NodeData)>::empty());
            }
            return Node::Obj(out);
        },
    };
    proof {
        lemma_entries_data(entries@);
        assert(entries_data(entries@).subrange(0, entries_data(entries@).len() as int)
            =~= entries_data(entries@));
    }
    let ghost ed = entries_data(entries@);
    let mut out: Vec<Entry> = Vec::new();
    let mut i: usize = 0;
    #[verifier::loop_isolation(false)]
    while i < entries.len()
        invariant
            0 <= i <= entries@.len(),
            root_attrs(ed) == entries_data(out@) + root_attrs(
                ed.subrange(i as int, ed.len() as int),
            ),
        decreases entries@.len() - i,
    {
        let ghost suffix = ed.subrange(i as int, ed.len() as int);
        let ghost out0 = out@;
        proof {
            assert(suffix[0] == ed[i as int]);
            assert(suffix.drop_first() =~= ed.subrange(i + 1, ed.len() as int));
            lemma_entries_data(out@);
        }
        let k = &entries[i].key;
        let kc = str_to_chars(k.as_str());
        let is_attr = kc.len() > 0 && kc[0] == '@';
        let is_xmlns = crate::chars::str_eq(k.as_str(), "xmlns");
        if is_attr || is_xmlns {
            let ak: String = if is_xmlns {
                let a = str_to_chars("@xmlns");
                chars_to_string(&a)
            } else {
                k.clone()
            };
            let mut vt: Vec<char> = Vec::new();
            crate::render::push_value_text(&mut vt, &entries[i].val);
            out.push(Entry { key: ak, val: Node::Str(chars_to_string(&vt)) });
            proof {
                lemma_entries_data(out@);
                lemma_entries_data(out0);
                assert(entries_data(out@) =~= entries_data(out0) + seq![
                    (
                        if ed[i as int].0 == "xmlns"@ {
                            "@xmlns"@
                        } else {
                            ed[i as int].0
                        },
                        NodeData::Str(crate::render::value_text(ed[i as int].1)),
                    )
                ]);
                assert(entries_data(out0) + (seq![
                    (
                        if ed[i as int].0 == "xmlns"@ {
                            "@xmlns"@
                        } else {
                            ed[i as int].0
                        },
                        NodeData::Str(crate::render::value_text(ed[i as int].1)),
                    )
                ] + root_attrs(suffix.drop_first())) =~= entries_data(out@) + root_attrs(
                    suffix.drop_first(),
                ));
            }
        }
        i = i + 1;
    }
    proof {
        assert(ed.subrange(i as int, ed.len() as int).len() == 0);
        assert(entries_data(out@) + root_attrs(ed.subrange(i as int, ed.len() as int))
            =~= entries_data(out@));
    }
    Node::Obj(out)
}

/// A mapping with any `@xmlns` entry removed; other nodes pass unchanged.
pub open spec fn without_xmlns(n: NodeData) -> NodeData {
    match n {
        NodeData::Obj(entries) => NodeData::Obj(drop_xmlns(entries)),
        other => other,
    }
}

/// Entries with every `@xmlns` entry removed.
pub open spec fn drop_xmlns(entries: Seq<(Seq<char>, NodeData)>) -> Seq<(Seq<char>, NodeData)>
    decreases entries.len(),
{
    if entries.len() == 0 {
        Seq::empty()
    } else if entries[0].0 == "@xmlns"@ {
        drop_xmlns(entries.drop_first())
    } else {
        seq![entries[0]] + drop_xmlns(entries.drop_first())
    }
}

/// Removes `@xmlns` from a mapping, as `without_xmlns` describes.
pub fn strip_xmlns_from_value(v: &Node) -> (r: Node)
    ensures
        r@ == without_xmlns(v@),
{
    let entries = match v {
        Node::Obj(e) => e,
        _ => {
            return crate::node::duplicate(v);
        },
    };
    proof {
        lemma_entries_data(entries@);
        assert(entries_data(entries@).subrange(0, entries_data(entries@).len() as int)
            =~= entries_data(entries@));
    }
    let ghost ed = entries_data(entries@);
    let mut out: Vec<Entry> = Vec::new();
    let mut i: usize = 0;
    #[verifier::loop_isolation(false)]
    while i < entries.len()
        invariant
            0 <= i <= entries@.len(),
            drop_xmlns(ed) == entries_data(out@) + drop_xmlns(
                ed.subrange(i as int, ed.len() as int),
            ),
        decreases entries@.len() - i,
    {
        let ghost suffix = ed.subrange(i as int, ed.len() as int);
        let ghost out0 = out@;
        proof {
            assert(suffix[0] == ed[i as int]);
            assert(suffix.drop_first() =~= ed.subrange(i + 1, ed.len() as int));
            lemma_entries_data(out@);
        }
        if !crate::chars::str_eq(entries[i].key.as_str(), "@xmlns") {
            let cv = crate::node::duplicate(&entries[i].val);
            out.push(Entry { key: entries[i].key.clone(), val: cv });
            proof {
                lemma_entries_data(out@);
                lemma_entries_data(out0);
                assert(entries_data(out@) =~= entries_data(out0) + seq![ed[i as int]]);
                assert(entries_data(out0) + (seq![ed[i as int]] + drop_xmlns(suffix.drop_first()))
                    =~= entries_data(out@) + drop_xmlns(suffix.drop_first()));
            }
        }
        i = i + 1;
    }
    proof {
        assert(ed.subrange(i as int, ed.len() as int).len() == 0);
        assert(entries_data(out@) + drop_xmlns(ed.subrange(i as int, ed.len() as int))
            =~= entries_data(out@));
    }
    Node::Obj(out)
}

} // verus!
