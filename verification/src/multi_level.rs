//! Multi-level disassembly: stripping a named element out of an already
//! produced fragment so the fragment can be disassembled once more, and
//! the persisted configuration record that lets reassembly reverse it.

use vstd::prelude::*;

use crate::chars::chars_to_string;
use crate::chars::contains_chars;
use crate::chars::contains_seq;
use crate::chars::str_to_chars;
use crate::chars::str_eq;
use crate::node::Entry;
use crate::node::Node;
use crate::node::NodeData;
use crate::node::entries_data;
use crate::node::lemma_entries_data;
use crate::node::obj_has;
use crate::node::obj_get;
use crate::node::obj_insert;
use crate::node::obj_insert_exec;
use crate::node::entry_index;
use crate::merge::default_decl;
use crate::merge::lemma_first_root_key;
use crate::render::first_root_key;
use crate::render::first_root_key_exec;
use crate::render::build_xml_string;
use crate::render::spec_render_doc;

verus! {

/// One rule of a second decomposition pass: which fragment files to take
/// apart again, what element to strip out of them, and how reassembly
/// rebuilds the stripped layer.
pub struct MultiLevelRule {
    /// Any fragment file whose name holds this pattern is processed.
    pub file_pattern: String,
    /// The element stripped out: the fragment's own root, or a direct
    /// child of it.
    pub root_to_strip: String,
    /// The comma-separated identifying fields of the second pass.
    pub unique_id_elements: String,
    /// The subdirectory reassembly later looks in.
    pub path_segment: String,
    /// The element reassembly wraps the rebuilt content with.
    pub wrap_root_element: String,
    /// The namespace of the wrap element, captured when stripping.
    pub wrap_xmlns: String,
}

/// The persisted multi-level configuration: the rules a disassembly run
/// applied, for reassembly to reverse.
pub struct MultiLevelConfig {
    pub rules: Vec<MultiLevelRule>,
}

impl Default for MultiLevelConfig {
    /// An empty configuration: no second pass was applied.
    fn default() -> (r: MultiLevelConfig)
        ensures
            r.rules@.len() == 0,
    {
        MultiLevelConfig { rules: Vec::new() }
    }
}

/// Every entry of `src` stored into `acc` in order, replacing in place on
/// a repeated key.
pub open spec fn insert_all(
    acc: Seq<(Seq<char>, NodeData)>,
    src: Seq<(Seq<char>, NodeData)>,
) -> Seq<(Seq<char>, NodeData)>
    decreases src.len(),
{
    if src.len() == 0 {
        acc
    } else {
        insert_all(obj_insert(acc, src[0].0, src[0].1), src.drop_first())
    }
}

/// Stores every entry of `src` into `acc`, as `insert_all` describes.
pub fn insert_all_pub(acc: &mut Vec<Entry>, src: &Vec<Entry>)
    ensures
        entries_data(final(acc)@) == insert_all(entries_data(old(acc)@), entries_data(src@)),
{
    proof {
        lemma_entries_data(src@);
        assert(entries_data(src@).subrange(0, entries_data(src@).len() as int) =~= entries_data(
            src@,
        ));
    }
    let ghost sd = entries_data(src@);
    let ghost a0 = entries_data(acc@);
    let mut i: usize = 0;
    #[verifier::loop_isolation(false)]
    while i < src.len()
        invariant
            0 <= i <= src@.len(),
            insert_all(a0, sd) == insert_all(
                entries_data(acc@),
                sd.subrange(i as int, sd.len() as int),
            ),
        decreases src@.len() - i,
    {
        let ghost suffix = sd.subrange(i as int, sd.len() as int);
        proof {
            assert(suffix[0] == sd[i as int]);
            assert(suffix.drop_first() =~= sd.subrange(i + 1, sd.len() as int));
        }
        let v = crate::node::duplicate(&src[i].val);
        obj_insert_exec(acc, src[i].key.clone(), v);
        i = i + 1;
    }
    proof {
        assert(sd.subrange(i as int, sd.len() as int).len() == 0);
    }
}

/// The document that remains when `strip` is taken out of `doc`: if it is
/// the root, its content becomes the document; if it is a mapping-valued
/// direct child, its content splices in among the root's other children;
/// anything else strips to nothing.  The declaration is kept, or defaulted.
pub open spec fn spec_strip_root(doc: NodeData, strip: Seq<char>) -> Option<NodeData> {
    match doc {
        NodeData::Obj(entries) => {
            match first_root_key(entries) {
                Some(root_key) => {
                    match obj_get(entries, root_key) {
                        NodeData::Obj(root_entries) => {
                            let decl = if obj_has(entries, "?xml"@) {
                                obj_get(entries, "?xml"@)
                            } else {
                                default_decl()
                            };
                            if root_key == strip {
                                Some(
                                    NodeData::Obj(
                                        insert_all(seq![("?xml"@, decl)], root_entries),
                                    ),
                                )
                            } else if obj_has(root_entries, strip) && obj_get(
                                root_entries,
                                strip,
                            ) is Obj {
                                let inner = obj_get(root_entries, strip)->Obj_0;
                                let kept = keep_others(root_entries, strip);
                                let new_root = insert_all(kept, inner);
                                Some(
                                    NodeData::Obj(
                                        seq![
                                            ("?xml"@, decl),
                                            (root_key, NodeData::Obj(new_root)),
                                        ],
                                    ),
                                )
                            } else {
                                None
                            }
                        },
                        _ => None,
                    }
                },
                None => None,
            }
        },
        _ => None,
    }
}

/// The entries whose key is not `strip`, stored in order.
pub open spec fn keep_others(
    entries: Seq<(Seq<char>, NodeData)>,
    strip: Seq<char>,
) -> Seq<(Seq<char>, NodeData)>
    decreases entries.len(),
{
    if entries.len() == 0 {
        Seq::empty()
    } else if entries[0].0 == strip {
        keep_others(entries.drop_first(), strip)
    } else {
        seq![entries[0]] + keep_others(entries.drop_first(), strip)
    }
}

/// Strips `element_to_strip` out of a parsed fragment and serializes what
/// remains, as `spec_strip_root` followed by the serializer describes.
pub fn strip_root_and_build_xml(parsed: &Node, element_to_strip: &str) -> (r: Option<String>)
    ensures
        match r {
            Some(text) => spec_strip_root(parsed@, element_to_strip@) matches Some(d) && text@
                == spec_render_doc(d),
            None => spec_strip_root(parsed@, element_to_strip@) is None,
        },
{
    let entries = match parsed {
        Node::Obj(e) => e,
        _ => {
            return None;
        },
    };
    proof {
        lemma_entries_data(entries@);
        lemma_first_root_key(entries_data(entries@));
        crate::node::lemma_obj_index(entries_data(entries@), "?xml"@);
    }
    let root_key = match first_root_key_exec(entries) {
        Some(k) => k,
        None => {
            return None;
        },
    };
    proof {
        crate::node::lemma_obj_index(entries_data(entries@), root_key@);
    }
    let root_entries = match entry_index(entries, root_key.as_str()) {
        Some(i) => {
            proof {
                assert(obj_get(entries_data(entries@), root_key@) == entries@[i as int].val@);
            }
            match &entries[i].val {
                Node::Obj(re) => re,
                _ => {
                    return None;
                },
            }
        },
        None => {
            proof {
                assert(false);
            }
            return None;
        },
    };
    let decl: Node = match entry_index(entries, "?xml") {
        Some(di) => {
            proof {
                assert(obj_get(entries_data(entries@), "?xml"@) == entries@[di as int].val@);
            }
            crate::node::duplicate(&entries[di].val)
        },
        None => default_decl_exec(),
    };
    proof {
        lemma_entries_data(root_entries@);
        crate::node::lemma_obj_index(entries_data(root_entries@), element_to_strip@);
    }
    if str_eq(root_key.as_str(), element_to_strip) {
        let mut new_entries: Vec<Entry> = Vec::new();
        let dk = str_to_chars("?xml");
        new_entries.push(Entry { key: chars_to_string(&dk), val: decl });
        proof {
            lemma_entries_data(new_entries@);
            assert(entries_data(new_entries@) =~= seq![
                ("?xml"@, spec_strip_root_decl(parsed@))
            ]);
        }
        insert_all_pub(&mut new_entries, root_entries);
        let doc = Node::Obj(new_entries);
        let text = build_xml_string(&doc);
        return Some(text);
    }
    match entry_index(root_entries, element_to_strip) {
        Some(si) => {
            proof {
                assert(obj_get(entries_data(root_entries@), element_to_strip@) == root_entries@[
                    si as int].val@);
            }
            match &root_entries[si].val {
                Node::Obj(inner) => {
                    let mut kept: Vec<Entry> = Vec::new();
                    let ghost red = entries_data(root_entries@);
                    let mut j: usize = 0;
                    proof {
                        assert(red.subrange(0, red.len() as int) =~= red);
                    }
                    #[verifier::loop_isolation(false)]
                    while j < root_entries.len()
                        invariant
                            0 <= j <= root_entries@.len(),
                            entries_data(kept@) + keep_others(
                                red.subrange(j as int, red.len() as int),
                                element_to_strip@,
                            ) =~= keep_others(red, element_to_strip@),
                        decreases root_entries@.len() - j,
                    {
                        let ghost suffix = red.subrange(j as int, red.len() as int);
                        let ghost k0 = entries_data(kept@);
                        proof {
                            assert(suffix[0] == red[j as int]);
                            assert(suffix.drop_first() =~= red.subrange(j + 1, red.len() as int));
                            lemma_entries_data(kept@);
                            lemma_keep_others_cons(suffix, element_to_strip@);
                        }
                        if !str_eq(root_entries[j].key.as_str(), element_to_strip) {
                            let cv = crate::node::duplicate(&root_entries[j].val);
                            kept.push(Entry { key: root_entries[j].key.clone(), val: cv });
                            proof {
                                lemma_entries_data(kept@);
                                assert(entries_data(kept@) =~= k0.push(red[j as int]));
                                assert(entries_data(kept@) + keep_others(
                                    suffix.drop_first(),
                                    element_to_strip@,
                                ) =~= keep_others(red, element_to_strip@));
                            }
                        }
                        j = j + 1;
                    }
                    proof {
                        assert(red.subrange(j as int, red.len() as int).len() == 0);
                        assert(entries_data(kept@) + keep_others(
                            red.subrange(j as int, red.len() as int),
                            element_to_strip@,
                        ) =~= entries_data(kept@));
                    }
                    insert_all_pub(&mut kept, inner);
                    let mut top: Vec<Entry> = Vec::new();
                    let dk = str_to_chars("?xml");
                    top.push(Entry { key: chars_to_string(&dk), val: decl });
                    top.push(Entry { key: root_key, val: Node::Obj(kept) });
                    let doc = Node::Obj(top);
                    proof {
                        if let Node::Obj(tv) = &doc {
                            lemma_entries_data(tv@);
                            assert(entries_data(tv@) =~= spec_strip_root(
                                parsed@,
                                element_to_strip@,
                            )->0->Obj_0);
                        }
                    }
                    let text = build_xml_string(&doc);
                    Some(text)
                },
                _ => None,
            }
        },
        None => None,
    }
}

/// The declaration `spec_strip_root` keeps: the document's own, or the
/// default.
pub open spec fn spec_strip_root_decl(doc: NodeData) -> NodeData {
    match doc {
        NodeData::Obj(entries) => {
            if obj_has(entries, "?xml"@) {
                obj_get(entries, "?xml"@)
            } else {
                default_decl()
            }
        },
        _ => default_decl(),
    }
}

/// `keep_others` keeps a head that is not the stripped key.
proof fn lemma_keep_others_cons(entries: Seq<(Seq<char>, NodeData)>, strip: Seq<char>)
    requires
        entries.len() > 0,
    ensures
        entries[0].0 == strip ==> keep_others(entries, strip) == keep_others(
            entries.drop_first(),
            strip,
        ),
        entries[0].0 != strip ==> keep_others(entries, strip) == seq![entries[0]] + keep_others(
            entries.drop_first(),
            strip,
        ),
{
}

/// Builds the default declaration.
pub fn default_decl_exec() -> (r: Node)
    ensures
        r@ == default_decl(),
{
    let mut de: Vec<Entry> = Vec::new();
    let vk = str_to_chars("@version");
    let vv = str_to_chars("1.0");
    de.push(Entry { key: chars_to_string(&vk), val: Node::Str(chars_to_string(&vv)) });
    let ek = str_to_chars("@encoding");
    let ev = str_to_chars("UTF-8");
    de.push(Entry { key: chars_to_string(&ek), val: Node::Str(chars_to_string(&ev)) });
    let dd = Node::Obj(de);
    proof {
        if let Node::Obj(dev) = &dd {
            lemma_entries_data(dev@);
            assert(entries_data(dev@) =~= default_decl()->Obj_0);
        }
    }
    dd
}

/// The namespace on a document's root element, when one stands there as a
/// string attribute.
pub open spec fn spec_capture_xmlns(doc: NodeData) -> Option<Seq<char>> {
    match doc {
        NodeData::Obj(entries) => {
            match first_root_key(entries) {
                Some(root_key) => {
                    match obj_get(entries, root_key) {
                        NodeData::Obj(root_entries) => {
                            if obj_has(root_entries, "@xmlns"@) && obj_get(
                                root_entries,
                                "@xmlns"@,
                            ) is Str {
                                Some(obj_get(root_entries, "@xmlns"@)->Str_0)
                            } else {
                                None
                            }
                        },
                        _ => None,
                    }
                },
                None => None,
            }
        },
        _ => None,
    }
}

/// Captures the root element's namespace for the later wrap, as
/// `spec_capture_xmlns` describes.
pub fn capture_xmlns_from_root(parsed: &Node) -> (r: Option<String>)
    ensures
        match r {
            Some(x) => spec_capture_xmlns(parsed@) == Some(x@),
            None => spec_capture_xmlns(parsed@) is None,
        },
{
    let entries = match parsed {
        Node::Obj(e) => e,
        _ => {
            return None;
        },
    };
    proof {
        lemma_entries_data(entries@);
        lemma_first_root_key(entries_data(entries@));
    }
    let root_key = match first_root_key_exec(entries) {
        Some(k) => k,
        None => {
            return None;
        },
    };
    proof {
        crate::node::lemma_obj_index(entries_data(entries@), root_key@);
    }
    match entry_index(entries, root_key.as_str()) {
        Some(i) => {
            proof {
                assert(obj_get(entries_data(entries@), root_key@) == entries@[i as int].val@);
            }
            match &entries[i].val {
                Node::Obj(root_entries) => {
                    proof {
                        lemma_entries_data(root_entries@);
                        crate::node::lemma_obj_index(entries_data(root_entries@), "@xmlns"@);
                    }
                    match entry_index(root_entries, "@xmlns") {
                        Some(xi) => {
                            proof {
                                assert(obj_get(entries_data(root_entries@), "@xmlns"@)
                                    == root_entries@[xi as int].val@);
                            }
                            match &root_entries[xi].val {
                                Node::Str(x) => Some(x.clone()),
                                _ => None,
                            }
                        },
                        None => None,
                    }
                },
                _ => None,
            }
        },
        None => {
            proof {
                assert(false);
            }
            None
        },
    }
}

/// Whether a fragment file falls under a rule: a markup file whose name or
/// whole path holds the rule's pattern.
pub fn file_matches_rule(name: &str, path_str: &str, file_pattern: &str) -> (r: bool)
    ensures
        r == ({
            &&& name@.len() >= 4 && name@.subrange(name@.len() - 4, name@.len() as int)
                == ".xml"@
            &&& (contains_seq(name@, file_pattern@) || contains_seq(path_str@, file_pattern@))
        }),
{
    let nc = str_to_chars(name);
    if nc.len() < 4 {
        return false;
    }
    let tail = crate::lexer::sub_vec(&nc, nc.len() - 4, nc.len());
    if !crate::text::chars_eq_str(&tail, ".xml") {
        return false;
    }
    let pc = str_to_chars(file_pattern);
    if contains_chars(&nc, &pc) {
        return true;
    }
    let sc = str_to_chars(path_str);
    contains_chars(&sc, &pc)
}

/// Whether a parsed fragment holds the element a rule strips: as its own
/// root, or as a direct child of the root.
pub fn has_element_to_strip(parsed: &Node, root_to_strip: &str) -> (r: bool)
    ensures
        r == ({
            match parsed@ {
                NodeData::Obj(entries) => {
                    match first_root_key(entries) {
                        Some(root_key) => {
                            match obj_get(entries, root_key) {
                                NodeData::Obj(root_entries) => root_key == root_to_strip@
                                    || obj_has(root_entries, root_to_strip@),
                                _ => false,
                            }
                        },
                        None => false,
                    }
                },
                _ => false,
            }
        }),
{
    let entries = match parsed {
        Node::Obj(e) => e,
        _ => {
            return false;
        },
    };
    proof {
        lemma_entries_data(entries@);
        lemma_first_root_key(entries_data(entries@));
    }
    let root_key = match first_root_key_exec(entries) {
        Some(k) => k,
        None => {
            return false;
        },
    };
    proof {
        crate::node::lemma_obj_index(entries_data(entries@), root_key@);
    }
    match entry_index(entries, root_key.as_str()) {
        Some(i) => {
            proof {
                assert(obj_get(entries_data(entries@), root_key@) == entries@[i as int].val@);
            }
            match &entries[i].val {
                Node::Obj(root_entries) => {
                    if str_eq(root_key.as_str(), root_to_strip) {
                        return true;
                    }
                    proof {
                        lemma_entries_data(root_entries@);
                        crate::node::lemma_obj_index(
                            entries_data(root_entries@),
                            root_to_strip@,
                        );
                    }
                    entry_index(root_entries, root_to_strip).is_some()
                },
                _ => false,
            }
        },
        None => {
            proof {
                assert(false);
            }
            false
        },
    }
}

} // verus!

verus! {

/// The key-order record's tree form: a list of string keys.
pub open spec fn key_order_node(keys: Seq<Seq<char>>) -> NodeData
    decreases keys.len(),
{
    NodeData::Arr(key_order_items(keys))
}

/// The string items of a key-order record.
pub open spec fn key_order_items(keys: Seq<Seq<char>>) -> Seq<NodeData>
    decreases keys.len(),
{
    if keys.len() == 0 {
        Seq::empty()
    } else {
        seq![NodeData::Str(keys[0])] + key_order_items(keys.drop_first())
    }
}

/// Builds the key-order record as a tree, for the record writer.
pub fn key_order_to_node(keys: &Vec<String>) -> (r: Node)
    ensures
        r@ == key_order_node(crate::merge::keys_data(keys@)),
{
    proof {
        crate::merge::lemma_keys_data(keys@);
    }
    let ghost ks = crate::merge::keys_data(keys@);
    let mut items: Vec<Node> = Vec::new();
    let mut i: usize = 0;
    proof {
        assert(ks.subrange(0, ks.len() as int) =~= ks);
        assert(crate::node::items_data(items@) =~= Seq::<NodeData>::empty());
    }
    #[verifier::loop_isolation(false)]
    while i < keys.len()
        invariant
            0 <= i <= keys@.len(),
            key_order_items(ks) =~= crate::node::items_data(items@) + key_order_items(
                ks.subrange(i as int, ks.len() as int),
            ),
        decreases keys@.len() - i,
    {
        let ghost suffix = ks.subrange(i as int, ks.len() as int);
        let ghost it0 = crate::node::items_data(items@);
        proof {
            assert(suffix[0] == ks[i as int]);
            assert(suffix.drop_first() =~= ks.subrange(i + 1, ks.len() as int));
            crate::node::lemma_items_data(items@);
        }
        items.push(Node::Str(keys[i].clone()));
        i = i + 1;
        proof {
            crate::node::lemma_items_data(items@);
            assert(crate::node::items_data(items@) =~= it0.push(NodeData::Str(ks[i - 1])));
            assert(it0 + (seq![NodeData::Str(ks[i - 1])] + key_order_items(suffix.drop_first()))
                =~= crate::node::items_data(items@) + key_order_items(suffix.drop_first()));
        }
    }
    proof {
        assert(ks.subrange(i as int, ks.len() as int).len() == 0);
        assert(crate::node::items_data(items@) + key_order_items(
            ks.subrange(i as int, ks.len() as int),
        ) =~= crate::node::items_data(items@));
    }
    Node::Arr(items)
}

/// Reads a key-order record back from its tree form: a list whose items
/// are all strings; anything else reads to nothing.
pub fn key_order_from_node(n: &Node) -> (r: Option<Vec<String>>)
    ensures
        match r {
            Some(keys) => n@ == key_order_node(crate::merge::keys_data(keys@)),
            None => !(n@ is Arr) || exists|i: int|
                0 <= i < n@->Arr_0.len() && !(#[trigger] n@->Arr_0[i] is Str),
        },
{
    let items = match n {
        Node::Arr(items) => items,
        _ => {
            return None;
        },
    };
    proof {
        crate::node::lemma_items_data(items@);
        assert(crate::node::items_data(items@).subrange(
            0,
            crate::node::items_data(items@).len() as int,
        ) =~= crate::node::items_data(items@));
    }
    let ghost idd = crate::node::items_data(items@);
    let mut keys: Vec<String> = Vec::new();
    let mut i: usize = 0;
    proof {
        crate::merge::lemma_keys_data(keys@);
        assert(key_order_items(crate::merge::keys_data(keys@)) =~= Seq::<NodeData>::empty());
    }
    #[verifier::loop_isolation(false)]
    while i < items.len()
        invariant
            0 <= i <= items@.len(),
            key_order_items(crate::merge::keys_data(keys@)) =~= idd.subrange(0, i as int),
        decreases items@.len() - i,
    {
        let ghost k0 = crate::merge::keys_data(keys@);
        let ghost kv0 = keys@;
        match &items[i] {
            Node::Str(s) => {
                keys.push(s.clone());
                i = i + 1;
                proof {
                    crate::merge::lemma_keys_data(keys@);
                    assert(keys@.drop_last() =~= kv0);
                    lemma_keys_data_push(keys@, k0);
                    lemma_key_order_items_push(k0, keys@.last()@);
                    assert(key_order_items(crate::merge::keys_data(keys@)) =~= idd.subrange(
                        0,
                        i as int,
                    ));
                }
            },
            _ => {
                proof {
                    assert(n@->Arr_0 == idd);
                    assert(!(n@->Arr_0[i as int] is Str));
                }
                return None;
            },
        }
    }
    proof {
        assert(idd.subrange(0, idd.len() as int) =~= idd);
    }
    Some(keys)
}

/// A pushed key extends the key views on the end.
proof fn lemma_keys_data_push(keys: Seq<String>, prefix: Seq<Seq<char>>)
    requires
        keys.len() > 0,
        crate::merge::keys_data(keys.drop_last()) == prefix,
    ensures
        crate::merge::keys_data(keys) == prefix.push(keys.last()@),
{
    crate::merge::lemma_keys_data(keys);
    crate::merge::lemma_keys_data(keys.drop_last());
    assert(crate::merge::keys_data(keys) =~= prefix.push(keys.last()@));
}

/// One more key adds one more string item on the end.
proof fn lemma_key_order_items_push(keys: Seq<Seq<char>>, k: Seq<char>)
    ensures
        key_order_items(keys.push(k)) == key_order_items(keys).push(NodeData::Str(k)),
    decreases keys.len(),
{
    if keys.len() == 0 {
        assert(keys.push(k).drop_first() =~= Seq::<Seq<char>>::empty());
        assert(keys.push(k)[0] == k);
        assert(key_order_items(Seq::<Seq<char>>::empty()) =~= Seq::<NodeData>::empty());
        assert(key_order_items(keys) =~= Seq::<NodeData>::empty());
        assert(key_order_items(keys.push(k)) =~= key_order_items(keys).push(NodeData::Str(k)));
    } else {
        lemma_key_order_items_push(keys.drop_first(), k);
        assert(keys.push(k).drop_first() =~= keys.drop_first().push(k));
        assert(keys.push(k)[0] == keys[0]);
        assert(key_order_items(keys.push(k)) == seq![NodeData::Str(keys[0])] + key_order_items(
            keys.drop_first().push(k),
        ));
        assert(key_order_items(keys.push(k)) =~~= key_order_items(keys).push(NodeData::Str(k)));
    }
}

} // verus!

verus! {

/// What reassembly does to one rebuilt segment file so every file has the
/// canonical shape: the document root (carrying the namespace) over the
/// inner wrapper (carrying none) over the content.  A file already in
/// shape, or without a usable root, is left alone; any other parses to a
/// rewrite.
pub open spec fn spec_ensure_segment(
    doc: NodeData,
    document_root: Seq<char>,
    inner_wrapper: Seq<char>,
    xmlns: Seq<char>,
) -> Option<NodeData> {
    match doc {
        NodeData::Obj(entries) => {
            match first_root_key(entries) {
                Some(root_key) => {
                    match obj_get(entries, root_key) {
                        NodeData::Obj(root_entries) => {
                            let decl = if obj_has(entries, "?xml"@) {
                                obj_get(entries, "?xml"@)
                            } else {
                                default_decl()
                            };
                            let others = keep_others(root_entries, "@xmlns"@);
                            let single_inner = others.len() == 1 && others[0].0 == inner_wrapper;
                            let inner_content: NodeData = if root_key == document_root
                                && single_inner {
                                match obj_get(root_entries, inner_wrapper) {
                                    NodeData::Obj(ie) => NodeData::Obj(
                                        crate::merge::drop_xmlns(ie),
                                    ),
                                    _ => NodeData::Obj(Seq::empty()),
                                }
                            } else {
                                NodeData::Obj(root_entries)
                            };
                            let inner_clean = single_inner ==> (match obj_get(
                                root_entries,
                                inner_wrapper,
                            ) {
                                NodeData::Obj(ie) => !obj_has(ie, "@xmlns"@),
                                _ => true,
                            });
                            let already_correct = root_key == document_root && obj_has(
                                root_entries,
                                "@xmlns"@,
                            ) && single_inner && inner_clean;
                            if already_correct {
                                None
                            } else {
                                let new_root: Seq<(Seq<char>, NodeData)> = (if xmlns.len() > 0 {
                                    seq![("@xmlns"@, NodeData::Str(xmlns))]
                                } else {
                                    Seq::empty()
                                }).push((inner_wrapper, inner_content));
                                Some(
                                    NodeData::Obj(
                                        seq![
                                            ("?xml"@, decl),
                                            (document_root, NodeData::Obj(new_root)),
                                        ],
                                    ),
                                )
                            }
                        },
                        _ => None,
                    }
                },
                None => None,
            }
        },
        _ => None,
    }
}

/// Rewrites one segment file's tree to the canonical wrap shape and
/// serializes it, as `spec_ensure_segment` followed by the serializer
/// describes; nothing comes back when the file is already in shape or has
/// no usable root.
#[verifier::rlimit(100)]
pub fn ensure_segment_file_text(
    parsed: &Node,
    document_root: &str,
    inner_wrapper: &str,
    xmlns: &str,
) -> (r: Option<String>)
    ensures
        match r {
            Some(text) => spec_ensure_segment(
                parsed@,
                document_root@,
                inner_wrapper@,
                xmlns@,
            ) matches Some(d) && text@ == spec_render_doc(d),
            None => spec_ensure_segment(parsed@, document_root@, inner_wrapper@, xmlns@)
                is None,
        },
{
    let entries = match parsed {
        Node::Obj(e) => e,
        _ => {
            return None;
        },
    };
    proof {
        lemma_entries_data(entries@);
        lemma_first_root_key(entries_data(entries@));
        crate::node::lemma_obj_index(entries_data(entries@), "?xml"@);
    }
    let root_key = match first_root_key_exec(entries) {
        Some(k) => k,
        None => {
            return None;
        },
    };
    proof {
        crate::node::lemma_obj_index(entries_data(entries@), root_key@);
    }
    let ri = match entry_index(entries, root_key.as_str()) {
        Some(i) => i,
        None => {
            proof {
                assert(false);
            }
            return None;
        },
    };
    proof {
        assert(obj_get(entries_data(entries@), root_key@) == entries@[ri as int].val@);
    }
    let root_entries = match &entries[ri].val {
        Node::Obj(re) => re,
        _ => {
            return None;
        },
    };
    proof {
        lemma_entries_data(root_entries@);
        crate::node::lemma_obj_index(entries_data(root_entries@), "@xmlns"@);
        crate::node::lemma_obj_index(entries_data(root_entries@), inner_wrapper@);
    }
    let ghost red = entries_data(root_entries@);
    let mut others_count: usize = 0;
    let mut single_key_is_wrapper = false;
    let mut j: usize = 0;
    proof {
        assert(red.subrange(0, red.len() as int) =~= red);
        assert(keep_others(red.subrange(0, 0), "@xmlns"@) =~= Seq::<(Seq<char>, NodeData)>::empty());
    }
    #[verifier::loop_isolation(false)]
    while j < root_entries.len()
        invariant
            0 <= j <= root_entries@.len(),
            keep_others(red, "@xmlns"@) =~= keep_others(red.subrange(0, j as int), "@xmlns"@)
                + keep_others(red.subrange(j as int, red.len() as int), "@xmlns"@),
            others_count <= j,
            others_count == keep_others(red.subrange(0, j as int), "@xmlns"@).len(),
            single_key_is_wrapper == (others_count == 1 && keep_others(
                red.subrange(0, j as int),
                "@xmlns"@,
            )[0].0 == inner_wrapper@),
        decreases root_entries@.len() - j,
    {
        let ghost pre = red.subrange(0, j as int);
        let ghost suffix = red.subrange(j as int, red.len() as int);
        proof {
            assert(suffix[0] == red[j as int]);
            assert(suffix.drop_first() =~= red.subrange(j + 1, red.len() as int));
            assert(red.subrange(0, j + 1).drop_last() =~= pre);
            lemma_keep_others_snoc(red, j as int, "@xmlns"@);
        }
        if !str_eq(root_entries[j].key.as_str(), "@xmlns") {
            single_key_is_wrapper = others_count == 0 && str_eq(
                root_entries[j].key.as_str(),
                inner_wrapper,
            );
            others_count = others_count + 1;
        }
        j = j + 1;
        proof {
            assert(keep_others(red, "@xmlns"@) =~= keep_others(
                red.subrange(0, j as int),
                "@xmlns"@,
            ) + keep_others(red.subrange(j as int, red.len() as int), "@xmlns"@));
        }
    }
    proof {
        assert(red.subrange(j as int, red.len() as int).len() == 0);
        assert(red.subrange(0, j as int) =~= red);
    }
    let single_inner = others_count == 1 && single_key_is_wrapper;
    proof {
        if single_inner {
            lemma_keep_others_first_member(red, "@xmlns"@);
            crate::node::lemma_obj_index(red, inner_wrapper@);
        }
    }
    let has_root_xmlns = entry_index(root_entries, "@xmlns").is_some();
    let root_is_doc = str_eq(root_key.as_str(), document_root);
    let wi = entry_index(root_entries, inner_wrapper);
    proof {
        if let Some(i) = wi {
            assert(obj_get(red, inner_wrapper@) == root_entries@[i as int].val@);
        }
    }
    let inner_clean = if single_inner {
        match wi {
            Some(i) => {
                match &root_entries[i].val {
                    Node::Obj(ie) => {
                        proof {
                            lemma_entries_data(ie@);
                            crate::node::lemma_obj_index(entries_data(ie@), "@xmlns"@);
                        }
                        entry_index(ie, "@xmlns").is_none()
                    },
                    _ => true,
                }
            },
            None => {
                proof {
                    assert(false);
                }
                true
            },
        }
    } else {
        true
    };
    if root_is_doc && has_root_xmlns && single_inner && inner_clean {
        return None;
    }
    let inner_content: Node = if root_is_doc && single_inner {
        match wi {
            Some(i) => {
                match &root_entries[i].val {
                    Node::Obj(_) => crate::merge::strip_xmlns_from_value(&root_entries[i].val),
                    _ => {
                        let empty_obj = Node::Obj(Vec::new());
                        proof {
                            if let Node::Obj(ev) = &empty_obj {
                                assert(entries_data(ev@)
                                    =~= Seq::<(Seq<char>, NodeData)>::empty());
                            }
                        }
                        empty_obj
                    },
                }
            },
            None => {
                proof {
                    assert(false);
                }
                Node::Obj(Vec::new())
            },
        }
    } else {
        crate::node::duplicate(&entries[ri].val)
    };
    proof {
        if let Node::Obj(ic) = &inner_content {
            lemma_entries_data(ic@);
        }
    }
    let decl: Node = match entry_index(entries, "?xml") {
        Some(di) => {
            proof {
                assert(obj_get(entries_data(entries@), "?xml"@) == entries@[di as int].val@);
            }
            crate::node::duplicate(&entries[di].val)
        },
        None => default_decl_exec(),
    };
    let mut new_root: Vec<Entry> = Vec::new();
    if !xmlns.is_empty() {
        let xk = str_to_chars("@xmlns");
        let xv = str_to_chars(xmlns);
        new_root.push(Entry { key: chars_to_string(&xk), val: Node::Str(chars_to_string(&xv)) });
    }
    let wk = str_to_chars(inner_wrapper);
    new_root.push(Entry { key: chars_to_string(&wk), val: inner_content });
    let mut top: Vec<Entry> = Vec::new();
    let dk = str_to_chars("?xml");
    top.push(Entry { key: chars_to_string(&dk), val: decl });
    let drk = str_to_chars(document_root);
    top.push(Entry { key: chars_to_string(&drk), val: Node::Obj(new_root) });
    let doc = Node::Obj(top);
    proof {
        let sd = spec_ensure_segment(parsed@, document_root@, inner_wrapper@, xmlns@)->0;
        let spec_new_root: Seq<(Seq<char>, NodeData)> = (if xmlns@.len() > 0 {
            seq![("@xmlns"@, NodeData::Str(xmlns@))]
        } else {
            Seq::<(Seq<char>, NodeData)>::empty()
        }).push((inner_wrapper@, inner_content@));
        if let Node::Obj(tv) = &doc {
            lemma_entries_data(tv@);
            if let Node::Obj(nr) = &tv[1].val {
                lemma_entries_data(nr@);
                assert(entries_data(nr@) =~= spec_new_root);
            }
            assert(sd is Obj);
            assert(sd->Obj_0 =~= seq![
                ("?xml"@, decl@),
                (document_root@, NodeData::Obj(spec_new_root)),
            ]);
            assert(entries_data(tv@) =~= sd->Obj_0);
        }
    }
    Some(build_xml_string(&doc))
}

/// The first kept entry's key stands among the entries it was kept from.
proof fn lemma_keep_others_first_member(red: Seq<(Seq<char>, NodeData)>, strip: Seq<char>)
    requires
        keep_others(red, strip).len() > 0,
    ensures
        obj_has(red, keep_others(red, strip)[0].0),
    decreases red.len(),
{
    let kept = keep_others(red, strip);
    if red[0].0 == strip {
        lemma_keep_others_first_member(red.drop_first(), strip);
        crate::node::lemma_obj_index(red.drop_first(), kept[0].0);
        let i = crate::node::obj_index(red.drop_first(), kept[0].0);
        assert(red[i + 1] == red.drop_first()[i]);
        crate::node::lemma_obj_index(red, kept[0].0);
    } else {
        assert(kept[0] == red[0]);
        crate::node::lemma_obj_index(red, kept[0].0);
    }
}

/// `keep_others` of a one-longer prefix keeps or adds its last entry.
proof fn lemma_keep_others_snoc(red: Seq<(Seq<char>, NodeData)>, j: int, strip: Seq<char>)
    requires
        0 <= j < red.len(),
    ensures
        keep_others(red.subrange(0, j + 1), strip) == if red[j].0 == strip {
            keep_others(red.subrange(0, j), strip)
        } else {
            keep_others(red.subrange(0, j), strip).push(red[j])
        },
    decreases j,
{
    if j == 0 {
        assert(red.subrange(0, 1)[0] == red[0]);
        assert(red.subrange(0, 1).drop_first() =~= Seq::<(Seq<char>, NodeData)>::empty());
        assert(red.subrange(0, 0) =~= Seq::<(Seq<char>, NodeData)>::empty());
        if red[0].0 != strip {
            assert(keep_others(red.subrange(0, 1), strip) =~= keep_others(
                red.subrange(0, 0),
                strip,
            ).push(red[0]));
        }
    } else {
        lemma_keep_others_snoc(red.drop_first(), j - 1, strip);
        assert(red.subrange(0, j + 1).drop_first() =~= red.drop_first().subrange(0, j));
        assert(red.subrange(0, j).drop_first() =~= red.drop_first().subrange(0, j - 1));
        assert(red.subrange(0, j + 1)[0] == red[0]);
        assert(red.subrange(0, j)[0] == red[0]);
        assert(red.drop_first()[j - 1] == red[j]);
        if red[0].0 == strip {
        } else {
            if red[j].0 == strip {
            } else {
                assert(keep_others(red.subrange(0, j + 1), strip) =~= keep_others(
                    red.subrange(0, j),
                    strip,
                ).push(red[j]));
            }
        }
    }
}

} // verus!

verus! {

/// The root element name a parsed fragment shows, or `fallback` when the
/// fragment has none.
pub open spec fn observed_root(doc: NodeData, fallback: Seq<char>) -> Seq<char> {
    match doc {
        NodeData::Obj(entries) => match first_root_key(entries) {
            Some(k) => k,
            None => fallback,
        },
        _ => fallback,
    }
}

/// Extends the persisted configuration after one fragment was stripped and
/// disassembled again: the first such fragment records the applied rule,
/// with the path segment defaulted from the file pattern, the wrap root
/// taken from the fragment itself, and the namespace from the rule or the
/// capture; later fragments only fill a namespace the record still lacks.
pub fn extend_multi_level_config(
    config: MultiLevelConfig,
    rule: &MultiLevelRule,
    parsed: &Node,
    captured_xmlns: &str,
) -> (r: MultiLevelConfig)
    ensures
        config.rules@.len() == 0 ==> {
            &&& r.rules@.len() == 1
            &&& r.rules@[0].file_pattern@ == rule.file_pattern@
            &&& r.rules@[0].root_to_strip@ == rule.root_to_strip@
            &&& r.rules@[0].unique_id_elements@ == rule.unique_id_elements@
            &&& r.rules@[0].path_segment@ == (if rule.path_segment@.len() == 0 {
                crate::paths::spec_path_segment(rule.file_pattern@)
            } else {
                rule.path_segment@
            })
            &&& r.rules@[0].wrap_root_element@ == observed_root(
                parsed@,
                rule.wrap_root_element@,
            )
            &&& r.rules@[0].wrap_xmlns@ == (if rule.wrap_xmlns@.len() == 0 {
                captured_xmlns@
            } else {
                rule.wrap_xmlns@
            })
        },
        config.rules@.len() > 0 ==> {
            &&& r.rules@.len() == config.rules@.len()
            &&& forall|i: int| 1 <= i < r.rules@.len() ==> r.rules@[i] == config.rules@[i]
            &&& r.rules@[0].file_pattern@ == config.rules@[0].file_pattern@
            &&& r.rules@[0].root_to_strip@ == config.rules@[0].root_to_strip@
            &&& r.rules@[0].unique_id_elements@ == config.rules@[0].unique_id_elements@
            &&& r.rules@[0].path_segment@ == config.rules@[0].path_segment@
            &&& r.rules@[0].wrap_root_element@ == config.rules@[0].wrap_root_element@
            &&& r.rules@[0].wrap_xmlns@ == (if config.rules@[0].wrap_xmlns@.len() == 0 {
                captured_xmlns@
            } else {
                config.rules@[0].wrap_xmlns@
            })
        },
{
    let mut config = config;
    if config.rules.len() == 0 {
        let path_segment: String = if rule.path_segment.as_str().is_empty() {
            crate::paths::path_segment_from_file_pattern(rule.file_pattern.as_str())
        } else {
            rule.path_segment.clone()
        };
        let wrap_root: String = match parsed {
            Node::Obj(entries) => {
                proof {
                    lemma_entries_data(entries@);
                }
                match first_root_key_exec(entries) {
                    Some(k) => k,
                    None => rule.wrap_root_element.clone(),
                }
            },
            _ => rule.wrap_root_element.clone(),
        };
        let wrap_xmlns: String = if rule.wrap_xmlns.as_str().is_empty() {
            let xc = str_to_chars(captured_xmlns);
            chars_to_string(&xc)
        } else {
            rule.wrap_xmlns.clone()
        };
        config.rules.push(
            MultiLevelRule {
                file_pattern: rule.file_pattern.clone(),
                root_to_strip: rule.root_to_strip.clone(),
                unique_id_elements: rule.unique_id_elements.clone(),
                path_segment,
                wrap_root_element: wrap_root,
                wrap_xmlns,
            },
        );
        config
    } else {
        let ghost rules0 = config.rules@;
        let mut first = config.rules.remove(0);
        if first.wrap_xmlns.as_str().is_empty() {
            let xc = str_to_chars(captured_xmlns);
            first.wrap_xmlns = chars_to_string(&xc);
        }
        config.rules.insert(0, first);
        proof {
            assert(config.rules@.len() == rules0.len());
            assert(forall|i: int| 1 <= i < rules0.len() ==> config.rules@[i] == rules0[i]);
        }
        config
    }
}

} // verus!
