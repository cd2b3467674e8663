//! The decomposition engine: planning the fragment files of one document.
//!
//! The engine walks the root element's child keys in order.  Each element
//! is nested (it has element children of its own, or is a list) or a leaf.
//! Under the unique-identifier strategy every nested element becomes one
//! fragment in a subdirectory named by its key; under the grouped-by-tag
//! strategy nested elements sharing a tag are buffered into one array
//! fragment.  Leaves accumulate into a single remaining fragment.  A
//! document with only leaves is refused: splitting it would gain nothing.
//!
//! Planning is pure: it computes every fragment's place, name and content,
//! and the key order to persist, and leaves the writing to the caller.

use vstd::prelude::*;

use crate::chars::chars_to_string;
use crate::chars::str_to_chars;
use crate::chars::push_str;
use crate::node::Entry;
use crate::node::Node;
use crate::node::NodeData;
use crate::node::entries_data;
use crate::node::items_data;
use crate::node::lemma_entries_data;
use crate::node::lemma_items_data;
use crate::node::obj_has;
use crate::node::obj_get;
use crate::node::obj_insert;
use crate::node::entry_index;
use crate::merge::reorder_picked;
use crate::multi_level::insert_all;
use crate::unique_id::spec_resolve_id;
use crate::unique_id::short_hash_of;
use crate::unique_id::split_fields;
use crate::unique_id::parse_unique_id_element;

verus! {

/// Whether `k` names an element child inside an element: not a structural
/// `#` key, not an attribute, not the declaration.
pub open spec fn is_inner_child_key(k: Seq<char>) -> bool {
    &&& (k.len() == 0 || (k[0] != '#' && k[0] != '@'))
    &&& k != "?xml"@
}

/// Whether a mapping holds any element child.
pub open spec fn has_inner_child(entries: Seq<(Seq<char>, NodeData)>) -> bool
    decreases entries,
{
    if entries.len() == 0 {
        false
    } else {
        is_inner_child_key(entries[0].0) || has_inner_child(entries.drop_first())
    }
}

/// Whether an element is nested: a list, or a mapping with element
/// children of its own.
pub open spec fn is_nested_node(v: NodeData) -> bool {
    match v {
        NodeData::Arr(_) => true,
        NodeData::Obj(entries) => has_inner_child(entries),
        _ => false,
    }
}

/// Decides `is_inner_child_key`.
fn inner_child_key(k: &String) -> (r: bool)
    ensures
        r == is_inner_child_key(k@),
{
    let kc = str_to_chars(k.as_str());
    if kc.len() > 0 && (kc[0] == '#' || kc[0] == '@') {
        return false;
    }
    !crate::chars::str_eq(k.as_str(), "?xml")
}

/// Decides `is_nested_node`.
pub fn is_nested_element(v: &Node) -> (r: bool)
    ensures
        r == is_nested_node(v@),
{
    match v {
        Node::Arr(_) => true,
        Node::Obj(entries) => {
            proof {
                lemma_entries_data(entries@);
                assert(entries_data(entries@).subrange(0, entries_data(entries@).len() as int)
                    =~= entries_data(entries@));
            }
            let ghost ed = entries_data(entries@);
            let mut i: usize = 0;
            #[verifier::loop_isolation(false)]
            while i < entries.len()
                invariant
                    0 <= i <= entries@.len(),
                    has_inner_child(ed) == has_inner_child(
                        ed.subrange(i as int, ed.len() as int),
                    ),
                decreases entries@.len() - i,
            {
                let ghost suffix = ed.subrange(i as int, ed.len() as int);
                proof {
                    assert(suffix[0] == ed[i as int]);
                    assert(suffix.drop_first() =~= ed.subrange(i + 1, ed.len() as int));
                }
                if inner_child_key(&entries[i].key) {
                    return true;
                }
                i = i + 1;
            }
            proof {
                assert(ed.subrange(i as int, ed.len() as int).len() == 0);
            }
            false
        },
        _ => false,
    }
}

/// The root element's child keys in order: every key that is not an
/// attribute key.
pub open spec fn root_child_keys(entries: Seq<(Seq<char>, NodeData)>) -> Seq<Seq<char>>
    decreases entries,
{
    if entries.len() == 0 {
        Seq::empty()
    } else {
        (if !crate::render::is_attr_key(entries[0].0) {
            seq![entries[0].0]
        } else {
            Seq::empty()
        }) + root_child_keys(entries.drop_first())
    }
}

/// Collects the root element's child keys, as `root_child_keys` describes.
pub fn root_child_keys_exec(entries: &Vec<Entry>) -> (r: Vec<String>)
    ensures
        crate::merge::keys_data(r@) == root_child_keys(entries_data(entries@)),
{
    proof {
        lemma_entries_data(entries@);
        assert(entries_data(entries@).subrange(0, entries_data(entries@).len() as int)
            =~= entries_data(entries@));
    }
    let ghost ed = entries_data(entries@);
    let mut out: Vec<String> = Vec::new();
    let mut i: usize = 0;
    proof {
        crate::merge::lemma_keys_data(out@);
        assert(crate::merge::keys_data(out@) =~= Seq::<Seq<char>>::empty());
    }
    #[verifier::loop_isolation(false)]
    while i < entries.len()
        invariant
            0 <= i <= entries@.len(),
            root_child_keys(ed) == crate::merge::keys_data(out@) + root_child_keys(
                ed.subrange(i as int, ed.len() as int),
            ),
        decreases entries@.len() - i,
    {
        let ghost suffix = ed.subrange(i as int, ed.len() as int);
        let ghost out0 = out@;
        proof {
            assert(suffix[0] == ed[i as int]);
            assert(suffix.drop_first() =~= ed.subrange(i + 1, ed.len() as int));
            crate::merge::lemma_keys_data(out@);
        }
        let kc = str_to_chars(entries[i].key.as_str());
        if !(kc.len() > 0 && kc[0] == '@') {
            out.push(entries[i].key.clone());
            proof {
                crate::merge::lemma_keys_data(out@);
                crate::merge::lemma_keys_data(out0);
                assert(crate::merge::keys_data(out@) =~= crate::merge::keys_data(out0) + seq![
                    ed[i as int].0
                ]);
                assert(crate::merge::keys_data(out0) + (seq![ed[i as int].0] + root_child_keys(
                    suffix.drop_first(),
                )) =~= crate::merge::keys_data(out@) + root_child_keys(suffix.drop_first()));
            }
        }
        i = i + 1;
    }
    proof {
        assert(ed.subrange(i as int, ed.len() as int).len() == 0);
        assert(crate::merge::keys_data(out@) + root_child_keys(
            ed.subrange(i as int, ed.len() as int),
        ) =~= crate::merge::keys_data(out@));
    }
    out
}

/// A fragment wrapped as an independently valid document: the original
/// root name over the root's attributes plus the payload, under the
/// declaration when one is a mapping.
pub open spec fn wrap_fragment(
    attrs: Seq<(Seq<char>, NodeData)>,
    content: NodeData,
    wrap_key: Option<Seq<char>>,
    root_name: Seq<char>,
    decl: Option<NodeData>,
) -> NodeData {
    let inner: Seq<(Seq<char>, NodeData)> = match wrap_key {
        Some(k) => obj_insert(attrs, k, content),
        None => match content {
            NodeData::Obj(ce) => insert_all(attrs, ce),
            _ => attrs,
        },
    };
    let top: Seq<(Seq<char>, NodeData)> = match decl {
        Some(d) => if d is Obj {
            seq![("?xml"@, d)]
        } else {
            Seq::empty()
        },
        None => Seq::empty(),
    };
    NodeData::Obj(top.push((root_name, NodeData::Obj(inner))))
}

/// The ghost form of an optional declaration.
pub open spec fn opt_data(o: Option<Node>) -> Option<NodeData> {
    match o {
        Some(n) => Some(n@),
        None => None,
    }
}

/// Builds a wrapped fragment document, as `wrap_fragment` describes.
pub fn wrap_fragment_exec(
    attrs: &Vec<Entry>,
    content: Node,
    wrap_key: Option<&String>,
    root_name: &String,
    decl: &Option<Node>,
) -> (r: Node)
    ensures
        r@ == wrap_fragment(
            entries_data(attrs@),
            content@,
            match wrap_key {
                Some(k) => Some(k@),
                None => None,
            },
            root_name@,
            opt_data(*decl),
        ),
{
    proof {
        lemma_entries_data(attrs@);
    }
    let mut inner: Vec<Entry> = copy_entries(attrs);
    match wrap_key {
        Some(k) => {
            crate::node::obj_insert_exec(&mut inner, k.clone(), content);
        },
        None => {
            match content {
                Node::Obj(ce) => {
                    crate::multi_level::insert_all_pub(&mut inner, &ce);
                },
                _ => {},
            }
        },
    }
    let mut top: Vec<Entry> = Vec::new();
    match decl {
        Some(d) => {
            let is_obj = match d {
                Node::Obj(_) => true,
                _ => false,
            };
            if is_obj {
                let dk = str_to_chars("?xml");
                top.push(Entry { key: chars_to_string(&dk), val: crate::node::duplicate(d) });
                proof {
                    lemma_entries_data(top@);
                    assert(entries_data(top@) =~= seq![("?xml"@, d@)]);
                }
            }
        },
        None => {},
    }
    top.push(Entry { key: root_name.clone(), val: Node::Obj(inner) });
    let r = Node::Obj(top);
    proof {
        if let Node::Obj(tv) = &r {
            lemma_entries_data(tv@);
            assert(entries_data(tv@) =~= wrap_fragment(
                entries_data(attrs@),
                content@,
                match wrap_key {
                    Some(k) => Some(k@),
                    None => None,
                },
                root_name@,
                opt_data(*decl),
            )->Obj_0);
        }
    }
    r
}

/// An entry-by-entry copy of an entry vector.
pub fn copy_entries(src: &Vec<Entry>) -> (r: Vec<Entry>)
    ensures
        entries_data(r@) == entries_data(src@),
{
    proof {
        lemma_entries_data(src@);
        assert(entries_data(src@).subrange(0, entries_data(src@).len() as int) =~= entries_data(
            src@,
        ));
    }
    let ghost sd = entries_data(src@);
    let mut out: Vec<Entry> = Vec::new();
    let mut i: usize = 0;
    #[verifier::loop_isolation(false)]
    while i < src.len()
        invariant
            0 <= i <= src@.len(),
            entries_data(out@) =~= sd.subrange(0, i as int),
        decreases src@.len() - i,
    {
        let ghost out0 = out@;
        let cv = crate::node::duplicate(&src[i].val);
        out.push(Entry { key: src[i].key.clone(), val: cv });
        i = i + 1;
        proof {
            lemma_entries_data(out@);
            lemma_entries_data(out0);
            assert(entries_data(out@) =~= sd.subrange(0, i as int));
        }
    }
    proof {
        assert(sd.subrange(0, sd.len() as int) =~= sd);
    }
    out
}

} // verus!

verus! {

/// One planned fragment file: where it goes, what it is called, and the
/// complete wrapped document it holds.
pub struct FragmentPlan {
    /// The subdirectory under the disassembly root, when the fragment has
    /// one (a nested element's fragment goes under its key).
    pub subdirectory: Option<String>,
    /// The file name inside that directory.
    pub file_name: String,
    /// The wrapped document to serialize in the chosen format.
    pub doc: Node,
}

impl View for FragmentPlan {
    type V = (Option<Seq<char>>, Seq<char>, NodeData);

    open spec fn view(&self) -> (Option<Seq<char>>, Seq<char>, NodeData) {
        (
            match self.subdirectory {
                Some(s) => Some(s@),
                None => None,
            },
            self.file_name@,
            self.doc@,
        )
    }
}

/// The views of a fragment list, in order.
pub open spec fn frags_data(s: Seq<FragmentPlan>) -> Seq<(Option<Seq<char>>, Seq<char>, NodeData)>
    decreases s,
{
    if s.len() == 0 {
        Seq::empty()
    } else {
        frags_data(s.drop_last()).push(s.last()@)
    }
}

/// Adds one element under its tag in an ordered bucket list: a new tag
/// appends a fresh one-element list, a known tag extends its list.
pub open spec fn bucket_add(
    buckets: Seq<(Seq<char>, NodeData)>,
    tag: Seq<char>,
    el: NodeData,
) -> Seq<(Seq<char>, NodeData)> {
    if !obj_has(buckets, tag) {
        buckets.push((tag, NodeData::Arr(seq![el])))
    } else {
        match obj_get(buckets, tag) {
            NodeData::Arr(items) => obj_insert(buckets, tag, NodeData::Arr(items.push(el))),
            _ => buckets,
        }
    }
}

/// Adds one element under its tag, as `bucket_add` describes.
fn bucket_add_exec(buckets: &mut Vec<Entry>, tag: &String, el: Node)
    ensures
        entries_data(final(buckets)@) == bucket_add(entries_data(old(buckets)@), tag@, el@),
{
    proof {
        lemma_entries_data(buckets@);
        crate::node::lemma_obj_index(entries_data(buckets@), tag@);
    }
    let ghost b0 = entries_data(buckets@);
    let ghost eld = el@;
    match entry_index(buckets, tag.as_str()) {
        None => {
            let single = Node::Arr(vec![el]);
            proof {
                if let Node::Arr(sv) = &single {
                    lemma_items_data(sv@);
                    assert(items_data(sv@) =~= seq![eld]);
                }
            }
            buckets.push(Entry { key: tag.clone(), val: single });
            proof {
                lemma_entries_data(buckets@);
                assert(entries_data(buckets@) =~= bucket_add(b0, tag@, eld));
            }
        },
        Some(i) => {
            proof {
                assert(obj_get(b0, tag@) == buckets@[i as int].val@);
            }
            let prev = buckets.remove(i);
            proof {
                lemma_entries_data(old(buckets)@);
            }
            match prev.val {
                Node::Arr(mut items) => {
                    let ghost p0 = items@;
                    items.push(el);
                    proof {
                        lemma_items_data(p0);
                        lemma_items_data(items@);
                        assert(items_data(items@) =~= items_data(p0).push(eld));
                    }
                    buckets.insert(i, Entry { key: prev.key, val: Node::Arr(items) });
                    proof {
                        lemma_entries_data(buckets@);
                        assert(entries_data(buckets@) =~= bucket_add(b0, tag@, eld));
                    }
                },
                other => {
                    buckets.insert(i, Entry { key: prev.key, val: other });
                    proof {
                        lemma_entries_data(buckets@);
                        assert(entries_data(buckets@) =~= b0);
                        assert(entries_data(buckets@) =~= bucket_add(b0, tag@, eld));
                    }
                },
            }
        },
    }
}

/// The name of a nested element's fragment file: its unique identifier,
/// the wrap key, the `-meta` mark and the output format's extension.
pub open spec fn nested_file_name(
    el: NodeData,
    fields: Option<Seq<char>>,
    key: Seq<char>,
    format: Seq<char>,
) -> Seq<char> {
    let id = match fields {
        Some(f) => spec_resolve_id(el, split_fields(f)),
        None => short_hash_of(el),
    };
    id + seq!['.'] + key + "-meta."@ + format
}

/// Builds a nested element's fragment file name, as `nested_file_name`
/// describes.
fn nested_file_name_exec(
    el: &Node,
    unique_id_elements: Option<&str>,
    key: &String,
    format: &str,
) -> (r: String)
    ensures
        r@ == nested_file_name(
            el@,
            match unique_id_elements {
                Some(f) => Some(f@),
                None => None,
            },
            key@,
            format@,
        ),
{
    let id = parse_unique_id_element(el, unique_id_elements);
    let mut out: Vec<char> = Vec::new();
    push_str(&mut out, id.as_str());
    out.push('.');
    push_str(&mut out, key.as_str());
    push_str(&mut out, "-meta.");
    push_str(&mut out, format);
    proof {
        assert(out@ =~= nested_file_name(
            el@,
            match unique_id_elements {
                Some(f) => Some(f@),
                None => None,
            },
            key@,
            format@,
        ));
    }
    chars_to_string(&out)
}

} // verus!

verus! {

/// The engine's accumulating state while it walks the child keys.
#[verifier::ext_equal]
pub struct PlanSt {
    /// The nested fragments planned so far (unique-identifier strategy).
    pub frags: Seq<(Option<Seq<char>>, Seq<char>, NodeData)>,
    /// The per-tag buffers (grouped-by-tag strategy).
    pub groups: Seq<(Seq<char>, NodeData)>,
    /// The leaves accumulated per key.
    pub leaf: Seq<(Seq<char>, NodeData)>,
    /// Whether any leaf was seen.
    pub has_leaf: bool,
    /// Whether any nested element was seen.
    pub has_nested: bool,
}

/// The engine's starting state.
pub open spec fn plan_start() -> PlanSt {
    PlanSt {
        frags: Seq::empty(),
        groups: Seq::empty(),
        leaf: Seq::empty(),
        has_leaf: false,
        has_nested: false,
    }
}

/// What one element under `key` does to the state: a nested element is
/// buffered by tag or planned as its own fragment; a leaf joins the
/// remaining content.
pub open spec fn step_element(
    st: PlanSt,
    key: Seq<char>,
    el: NodeData,
    attrs: Seq<(Seq<char>, NodeData)>,
    root_name: Seq<char>,
    decl: Option<NodeData>,
    fields: Option<Seq<char>>,
    grouped: bool,
    format: Seq<char>,
) -> PlanSt {
    if is_nested_node(el) {
        if grouped {
            PlanSt { groups: bucket_add(st.groups, key, el), has_nested: true, ..st }
        } else {
            PlanSt {
                frags: st.frags.push(
                    (
                        Some(key),
                        nested_file_name(el, fields, key, format),
                        wrap_fragment(attrs, el, Some(key), root_name, decl),
                    ),
                ),
                has_nested: true,
                ..st
            }
        }
    } else {
        PlanSt { leaf: bucket_add(st.leaf, key, el), has_leaf: true, ..st }
    }
}

/// The elements one child key stands for: each item of a list, or the
/// single value itself.
pub open spec fn as_items(v: NodeData) -> Seq<NodeData> {
    match v {
        NodeData::Arr(items) => items,
        other => seq![other],
    }
}

/// Folds the elements of one key through `step_element`, in order.
pub open spec fn fold_items(
    st: PlanSt,
    key: Seq<char>,
    items: Seq<NodeData>,
    attrs: Seq<(Seq<char>, NodeData)>,
    root_name: Seq<char>,
    decl: Option<NodeData>,
    fields: Option<Seq<char>>,
    grouped: bool,
    format: Seq<char>,
) -> PlanSt
    decreases items.len(),
{
    if items.len() == 0 {
        st
    } else {
        fold_items(
            step_element(st, key, items[0], attrs, root_name, decl, fields, grouped, format),
            key,
            items.drop_first(),
            attrs,
            root_name,
            decl,
            fields,
            grouped,
            format,
        )
    }
}

/// Folds every child key of the root through the engine, in order.
pub open spec fn fold_keys(
    st: PlanSt,
    root_entries: Seq<(Seq<char>, NodeData)>,
    keys: Seq<Seq<char>>,
    attrs: Seq<(Seq<char>, NodeData)>,
    root_name: Seq<char>,
    decl: Option<NodeData>,
    fields: Option<Seq<char>>,
    grouped: bool,
    format: Seq<char>,
) -> PlanSt
    decreases keys.len(),
{
    if keys.len() == 0 {
        st
    } else {
        let st2 = if obj_has(root_entries, keys[0]) {
            fold_items(
                st,
                keys[0],
                as_items(obj_get(root_entries, keys[0])),
                attrs,
                root_name,
                decl,
                fields,
                grouped,
                format,
            )
        } else {
            st
        };
        fold_keys(
            st2,
            root_entries,
            keys.drop_first(),
            attrs,
            root_name,
            decl,
            fields,
            grouped,
            format,
        )
    }
}

/// The group buffers turned into fragments, one per tag in buffer order.
pub open spec fn group_frags(
    groups: Seq<(Seq<char>, NodeData)>,
    attrs: Seq<(Seq<char>, NodeData)>,
    root_name: Seq<char>,
    decl: Option<NodeData>,
    format: Seq<char>,
) -> Seq<(Option<Seq<char>>, Seq<char>, NodeData)>
    decreases groups.len(),
{
    if groups.len() == 0 {
        Seq::empty()
    } else {
        seq![
            (
                None,
                groups[0].0 + seq!['.'] + format,
                wrap_fragment(attrs, groups[0].1, Some(groups[0].0), root_name, decl),
            ),
        ] + group_frags(groups.drop_first(), attrs, root_name, decl, format)
    }
}

} // verus!

verus! {

/// The plan's tail: the refusal of an all-leaf document, then the nested
/// fragments, the grouped buffers and the remaining leaf fragment in order.
pub open spec fn finish_plan(
    st: PlanSt,
    attrs: Seq<(Seq<char>, NodeData)>,
    root_name: Seq<char>,
    decl: Option<NodeData>,
    keys: Seq<Seq<char>>,
    base_name: Seq<char>,
    grouped: bool,
    format: Seq<char>,
) -> Option<Seq<(Option<Seq<char>>, Seq<char>, NodeData)>> {
    if !st.has_nested && st.has_leaf {
        None
    } else {
        let with_groups = st.frags + (if grouped {
            group_frags(st.groups, attrs, root_name, decl, format)
        } else {
            Seq::empty()
        });
        let all = if st.has_leaf {
            let leaf_content: NodeData = if grouped {
                NodeData::Obj(reorder_picked(Seq::empty(), st.leaf, keys))
            } else {
                NodeData::Obj(st.leaf)
            };
            with_groups.push(
                (
                    None,
                    base_name + seq!['.'] + format,
                    wrap_fragment(attrs, leaf_content, None, root_name, decl),
                ),
            )
        } else {
            with_groups
        };
        Some(all)
    }
}

/// The full plan of one document's disassembly: the fragments in planning
/// order (nested ones first, then grouped buffers, then the remaining
/// leaf fragment) and the root child keys to persist; or nothing when the
/// text does not parse, no root stands in it, or only leaves were found.
pub open spec fn spec_plan(
    content: Seq<char>,
    base_name: Seq<char>,
    fields: Option<Seq<char>>,
    grouped: bool,
    format: Seq<char>,
) -> Option<(Seq<(Option<Seq<char>>, Seq<char>, NodeData)>, Seq<Seq<char>>)> {
    match crate::parser::spec_parse(content) {
        Some(parsed) => {
            let doc = crate::normalize::spec_normalize(parsed);
            match doc {
                NodeData::Obj(entries) => {
                    match crate::render::first_root_key(entries) {
                        Some(root_name) => {
                            let root_val = obj_get(entries, root_name);
                            let decl: Option<NodeData> = if obj_has(entries, "?xml"@) {
                                Some(obj_get(entries, "?xml"@))
                            } else {
                                crate::extract::spec_extract_decl(content)
                            };
                            let attrs0 = match root_val {
                                NodeData::Obj(re) => crate::merge::root_attrs(re),
                                _ => Seq::empty(),
                            };
                            let attrs: Seq<(Seq<char>, NodeData)> = if !obj_has(
                                attrs0,
                                "@xmlns"@,
                            ) {
                                match crate::extract::spec_extract_xmlns(content) {
                                    Some(x) => attrs0.push(("@xmlns"@, NodeData::Str(x))),
                                    None => attrs0,
                                }
                            } else {
                                attrs0
                            };
                            let root_entries: Seq<(Seq<char>, NodeData)> = match root_val {
                                NodeData::Obj(re) => re,
                                _ => Seq::empty(),
                            };
                            let keys = root_child_keys(root_entries);
                            let st = fold_keys(
                                plan_start(),
                                root_entries,
                                keys,
                                attrs,
                                root_name,
                                decl,
                                fields,
                                grouped,
                                format,
                            );
                            match finish_plan(
                                st,
                                attrs,
                                root_name,
                                decl,
                                keys,
                                base_name,
                                grouped,
                                format,
                            ) {
                                Some(all) => Some((all, keys)),
                                None => None,
                            }
                        },
                        None => None,
                    }
                },
                _ => None,
            }
        },
        None => None,
    }
}

/// Whether a strategy name selects the grouped-by-tag strategy.
pub fn is_grouped_strategy(strategy: &str) -> (r: bool)
    ensures
        r == (strategy@ == "grouped-by-tag"@),
{
    crate::chars::str_eq(strategy, "grouped-by-tag")
}

/// The caller-facing options of one document's disassembly.
pub struct BuildDisassembledFilesOptions {
    /// The source file path.
    pub file_path: String,
    /// The output directory of the fragments.
    pub disassembled_path: String,
    /// The base name of the remaining-leaves fragment.
    pub base_name: String,
    /// Whether the source file is deleted after a successful run.
    pub post_purge: bool,
    /// The output format extension.
    pub format: String,
    /// The comma-separated identifying fields, when configured.
    pub unique_id_elements: Option<String>,
    /// The decomposition strategy name.
    pub strategy: String,
}

/// The planned fragments and key order of one document's disassembly.
pub struct DisassemblyPlan {
    /// Every fragment file to write, in planning order.
    pub fragments: Vec<FragmentPlan>,
    /// The root child keys, for the key-order record.
    pub key_order: Vec<String>,
}

} // verus!

verus! {

/// The spec-level state a set of accumulators stands for.
pub open spec fn st_of(
    frags: Seq<FragmentPlan>,
    groups: Seq<Entry>,
    leaf: Seq<Entry>,
    has_leaf: bool,
    has_nested: bool,
) -> PlanSt {
    PlanSt {
        frags: frags_data(frags),
        groups: entries_data(groups),
        leaf: entries_data(leaf),
        has_leaf: has_leaf,
        has_nested: has_nested,
    }
}

/// Applies one element to the accumulators, as `step_element` describes.
#[verifier::rlimit(50)]
fn step_element_exec(
    frags: &mut Vec<FragmentPlan>,
    groups: &mut Vec<Entry>,
    leaf: &mut Vec<Entry>,
    has_leaf: &mut bool,
    has_nested: &mut bool,
    key: &String,
    el: &Node,
    attrs: &Vec<Entry>,
    root_name: &String,
    decl: &Option<Node>,
    unique_id_elements: Option<&str>,
    grouped: bool,
    format: &str,
)
    ensures
        st_of(final(frags)@, final(groups)@, final(leaf)@, *final(has_leaf), *final(has_nested))
            == step_element(
            st_of(old(frags)@, old(groups)@, old(leaf)@, *old(has_leaf), *old(has_nested)),
            key@,
            el@,
            entries_data(attrs@),
            root_name@,
            opt_data(*decl),
            match unique_id_elements {
                Some(f) => Some(f@),
                None => None,
            },
            grouped,
            format@,
        ),
{
    let ghost st0 = st_of(frags@, groups@, leaf@, *has_leaf, *has_nested);
    if is_nested_element(el) {
        if grouped {
            bucket_add_exec(groups, key, crate::node::duplicate(el));
            *has_nested = true;
            proof {
                assert(st_of(frags@, groups@, leaf@, *has_leaf, *has_nested) =~= step_element(
                    st0,
                    key@,
                    el@,
                    entries_data(attrs@),
                    root_name@,
                    opt_data(*decl),
                    match unique_id_elements {
                        Some(f) => Some(f@),
                        None => None,
                    },
                    grouped,
                    format@,
                ));
            }
        } else {
            let name = nested_file_name_exec(el, unique_id_elements, key, format);
            let doc = wrap_fragment_exec(
                attrs,
                crate::node::duplicate(el),
                Some(key),
                root_name,
                decl,
            );
            let ghost f0 = frags@;
            frags.push(FragmentPlan { subdirectory: Some(key.clone()), file_name: name, doc });
            *has_nested = true;
            proof {
                assert(frags@.drop_last() =~= f0);
                assert(frags_data(frags@) == frags_data(f0).push(frags@.last()@));
                assert(st_of(frags@, groups@, leaf@, *has_leaf, *has_nested) =~= step_element(
                    st0,
                    key@,
                    el@,
                    entries_data(attrs@),
                    root_name@,
                    opt_data(*decl),
                    match unique_id_elements {
                        Some(f) => Some(f@),
                        None => None,
                    },
                    grouped,
                    format@,
                ));
            }
        }
    } else {
        bucket_add_exec(leaf, key, crate::node::duplicate(el));
        *has_leaf = true;
        proof {
            assert(st_of(frags@, groups@, leaf@, *has_leaf, *has_nested) =~= step_element(
                st0,
                key@,
                el@,
                entries_data(attrs@),
                root_name@,
                opt_data(*decl),
                match unique_id_elements {
                    Some(f) => Some(f@),
                    None => None,
                },
                grouped,
                format@,
            ));
        }
    }
}

} // verus!

verus! {

/// Applies every element of one child key to the accumulators: the items
/// of a list value one by one, a single value once, a missing key nothing.
#[verifier::rlimit(100)]
fn process_key(
    frags: &mut Vec<FragmentPlan>,
    groups: &mut Vec<Entry>,
    leaf: &mut Vec<Entry>,
    has_leaf: &mut bool,
    has_nested: &mut bool,
    root_entries: &Vec<Entry>,
    key: &String,
    attrs: &Vec<Entry>,
    root_name: &String,
    decl: &Option<Node>,
    unique_id_elements: Option<&str>,
    grouped: bool,
    format: &str,
)
    ensures
        ({
            let red = entries_data(root_entries@);
            let st0 = st_of(
                old(frags)@,
                old(groups)@,
                old(leaf)@,
                *old(has_leaf),
                *old(has_nested),
            );
            let fields: Option<Seq<char>> = match unique_id_elements {
                Some(f) => Some(f@),
                None => None,
            };
            st_of(
                final(frags)@,
                final(groups)@,
                final(leaf)@,
                *final(has_leaf),
                *final(has_nested),
            ) == if obj_has(red, key@) {
                fold_items(
                    st0,
                    key@,
                    as_items(obj_get(red, key@)),
                    entries_data(attrs@),
                    root_name@,
                    opt_data(*decl),
                    fields,
                    grouped,
                    format@,
                )
            } else {
                st0
            }
        }),
{
    let ghost red = entries_data(root_entries@);
    let ghost st0 = st_of(frags@, groups@, leaf@, *has_leaf, *has_nested);
    let ghost attrsd = entries_data(attrs@);
    let ghost decld = opt_data(*decl);
    let ghost fields: Option<Seq<char>> = match unique_id_elements {
        Some(f) => Some(f@),
        None => None,
    };
    proof {
        lemma_entries_data(root_entries@);
        crate::node::lemma_obj_index(red, key@);
    }
    match entry_index(root_entries, key.as_str()) {
        Some(vi) => {
            proof {
                assert(obj_get(red, key@) == root_entries@[vi as int].val@);
            }
            match &root_entries[vi].val {
                Node::Arr(items) => {
                    proof {
                        lemma_items_data(items@);
                        assert(items_data(items@).subrange(0, items_data(items@).len() as int)
                            =~= items_data(items@));
                    }
                    let ghost idd = items_data(items@);
                    let mut j: usize = 0;
                    #[verifier::loop_isolation(false)]
                    while j < items.len()
                        invariant
                            0 <= j <= items@.len(),
                            fold_items(
                                st_of(frags@, groups@, leaf@, *has_leaf, *has_nested),
                                key@,
                                idd.subrange(j as int, idd.len() as int),
                                attrsd,
                                root_name@,
                                decld,
                                fields,
                                grouped,
                                format@,
                            ) == fold_items(
                                st0,
                                key@,
                                idd,
                                attrsd,
                                root_name@,
                                decld,
                                fields,
                                grouped,
                                format@,
                            ),
                        decreases items@.len() - j,
                    {
                        let ghost isuffix = idd.subrange(j as int, idd.len() as int);
                        proof {
                            assert(isuffix[0] == idd[j as int]);
                            assert(isuffix.drop_first() =~= idd.subrange(j + 1, idd.len() as int));
                        }
                        step_element_exec(
                            frags,
                            groups,
                            leaf,
                            has_leaf,
                            has_nested,
                            key,
                            &items[j],
                            attrs,
                            root_name,
                            decl,
                            unique_id_elements,
                            grouped,
                            format,
                        );
                        j = j + 1;
                    }
                    proof {
                        assert(idd.subrange(j as int, idd.len() as int).len() == 0);
                        assert(as_items(obj_get(red, key@)) == idd);
                    }
                },
                single => {
                    step_element_exec(
                        frags,
                        groups,
                        leaf,
                        has_leaf,
                        has_nested,
                        key,
                        single,
                        attrs,
                        root_name,
                        decl,
                        unique_id_elements,
                        grouped,
                        format,
                    );
                    proof {
                        let items = as_items(obj_get(red, key@));
                        assert(items == seq![root_entries@[vi as int].val@]);
                        assert(items.drop_first() =~= Seq::<NodeData>::empty());
                        let st_now = st_of(frags@, groups@, leaf@, *has_leaf, *has_nested);
                        assert(st_now == step_element(
                            st0,
                            key@,
                            items[0],
                            attrsd,
                            root_name@,
                            decld,
                            fields,
                            grouped,
                            format@,
                        ));
                        assert(fold_items(
                            st0,
                            key@,
                            items,
                            attrsd,
                            root_name@,
                            decld,
                            fields,
                            grouped,
                            format@,
                        ) == fold_items(
                            st_now,
                            key@,
                            items.drop_first(),
                            attrsd,
                            root_name@,
                            decld,
                            fields,
                            grouped,
                            format@,
                        ));
                    }
                },
            }
        },
        None => {},
    }
}

/// Plans one document's disassembly, as `spec_plan` describes: the text is
/// parsed and normalized, every nested element becomes a fragment (its own
/// file, or a grouped buffer), leaves gather into one remaining fragment,
/// and the root child keys come along for the key-order record.  Text that
/// does not parse, has no root, or holds only leaves plans to nothing.
#[verifier::rlimit(100)]
pub fn plan_disassembly(
    xml_content: &str,
    base_name: &str,
    unique_id_elements: Option<&str>,
    grouped: bool,
    format: &str,
) -> (r: Option<DisassemblyPlan>)
    ensures
        match r {
            Some(p) => spec_plan(
                xml_content@,
                base_name@,
                match unique_id_elements {
                    Some(f) => Some(f@),
                    None => None,
                },
                grouped,
                format@,
            ) matches Some(sp) && frags_data(p.fragments@) == sp.0 && crate::merge::keys_data(
                p.key_order@,
            ) == sp.1,
            None => spec_plan(
                xml_content@,
                base_name@,
                match unique_id_elements {
                    Some(f) => Some(f@),
                    None => None,
                },
                grouped,
                format@,
            ) is None,
        },
{
    let ghost fields: Option<Seq<char>> = match unique_id_elements {
        Some(f) => Some(f@),
        None => None,
    };
    let parsed = match crate::parser::parse_xml_from_str(xml_content, "") {
        Some(p) => p,
        None => {
            return None;
        },
    };
    let entries = match &parsed {
        Node::Obj(e) => e,
        _ => {
            return None;
        },
    };
    proof {
        lemma_entries_data(entries@);
        crate::merge::lemma_first_root_key(entries_data(entries@));
        crate::node::lemma_obj_index(entries_data(entries@), "?xml"@);
    }
    let root_name = match crate::render::first_root_key_exec(entries) {
        Some(k) => k,
        None => {
            return None;
        },
    };
    proof {
        crate::node::lemma_obj_index(entries_data(entries@), root_name@);
    }
    let ri = match entry_index(entries, root_name.as_str()) {
        Some(i) => i,
        None => {
            proof {
                assert(false);
            }
            return None;
        },
    };
    proof {
        assert(obj_get(entries_data(entries@), root_name@) == entries@[ri as int].val@);
    }
    let decl: Option<Node> = match entry_index(entries, "?xml") {
        Some(di) => {
            proof {
                assert(obj_get(entries_data(entries@), "?xml"@) == entries@[di as int].val@);
            }
            Some(crate::node::duplicate(&entries[di].val))
        },
        None => crate::extract::extract_xml_declaration_from_raw(xml_content),
    };
    let attrs_node = crate::merge::extract_root_attributes(&entries[ri].val);
    let mut attrs = match attrs_node {
        Node::Obj(av) => av,
        _ => {
            proof {
                assert(false);
            }
            return None;
        },
    };
    proof {
        lemma_entries_data(attrs@);
        crate::node::lemma_obj_index(entries_data(attrs@), "@xmlns"@);
    }
    if entry_index(&attrs, "@xmlns").is_none() {
        match crate::extract::extract_xmlns_from_raw(xml_content) {
            Some(x) => {
                let ghost a0 = entries_data(attrs@);
                let xk = str_to_chars("@xmlns");
                attrs.push(Entry { key: chars_to_string(&xk), val: Node::Str(x) });
                proof {
                    lemma_entries_data(attrs@);
                    assert(entries_data(attrs@) =~= a0.push(
                        ("@xmlns"@, attrs@.last().val@),
                    ));
                }
            },
            None => {},
        }
    }
    let empty_entries: Vec<Entry> = Vec::new();
    let root_entries: &Vec<Entry> = match &entries[ri].val {
        Node::Obj(re) => re,
        _ => &empty_entries,
    };
    proof {
        lemma_entries_data(root_entries@);
        if !(entries@[ri as int].val@ is Obj) {
            assert(entries_data(root_entries@) =~= Seq::<(Seq<char>, NodeData)>::empty());
        }
    }
    let ghost red = entries_data(root_entries@);
    let ghost attrsd = entries_data(attrs@);
    let ghost decld = opt_data(decl);
    let key_order = root_child_keys_exec(root_entries);
    let ghost keysd = crate::merge::keys_data(key_order@);
    proof {
        crate::merge::lemma_keys_data(key_order@);
        assert(keysd.subrange(0, keysd.len() as int) =~= keysd);
    }
    let mut frags: Vec<FragmentPlan> = Vec::new();
    let mut groups: Vec<Entry> = Vec::new();
    let mut leaf: Vec<Entry> = Vec::new();
    let mut has_leaf = false;
    let mut has_nested = false;
    proof {
        assert(st_of(frags@, groups@, leaf@, has_leaf, has_nested) =~= plan_start());
    }
    let mut ki: usize = 0;
    #[verifier::loop_isolation(false)]
    while ki < key_order.len()
        invariant
            0 <= ki <= key_order@.len(),
            fold_keys(
                st_of(frags@, groups@, leaf@, has_leaf, has_nested),
                red,
                keysd.subrange(ki as int, keysd.len() as int),
                attrsd,
                root_name@,
                decld,
                fields,
                grouped,
                format@,
            ) == fold_keys(
                plan_start(),
                red,
                keysd,
                attrsd,
                root_name@,
                decld,
                fields,
                grouped,
                format@,
            ),
        decreases key_order@.len() - ki,
    {
        let ghost ksuffix = keysd.subrange(ki as int, keysd.len() as int);
        let ghost st_before = st_of(frags@, groups@, leaf@, has_leaf, has_nested);
        proof {
            assert(ksuffix[0] == keysd[ki as int]);
            assert(ksuffix.drop_first() =~= keysd.subrange(ki + 1, keysd.len() as int));
            crate::node::lemma_obj_index(red, keysd[ki as int]);
        }
        process_key(
            &mut frags,
            &mut groups,
            &mut leaf,
            &mut has_leaf,
            &mut has_nested,
            root_entries,
            &key_order[ki],
            &attrs,
            &root_name,
            &decl,
            unique_id_elements,
            grouped,
            format,
        );
        ki = ki + 1;
        proof {
            let st_now = st_of(frags@, groups@, leaf@, has_leaf, has_nested);
            assert(fold_keys(
                st_before,
                red,
                ksuffix,
                attrsd,
                root_name@,
                decld,
                fields,
                grouped,
                format@,
            ) == fold_keys(
                st_now,
                red,
                ksuffix.drop_first(),
                attrsd,
                root_name@,
                decld,
                fields,
                grouped,
                format@,
            ));
        }
    }
    let ghost st_final = st_of(frags@, groups@, leaf@, has_leaf, has_nested);
    proof {
        assert(keysd.subrange(ki as int, keysd.len() as int).len() == 0);
        assert(st_final == fold_keys(
            plan_start(),
            red,
            keysd,
            attrsd,
            root_name@,
            decld,
            fields,
            grouped,
            format@,
        ));
    }
    let all = match assemble_plan(
        frags,
        groups,
        leaf,
        has_leaf,
        has_nested,
        &attrs,
        &root_name,
        &decl,
        &key_order,
        base_name,
        grouped,
        format,
    ) {
        Some(v) => v,
        None => {
            return None;
        },
    };
    Some(DisassemblyPlan { fragments: all, key_order })
}

/// One more group turns into one more fragment on the end.
proof fn lemma_group_frags_snoc(
    gd: Seq<(Seq<char>, NodeData)>,
    gi: int,
    attrs: Seq<(Seq<char>, NodeData)>,
    root_name: Seq<char>,
    decl: Option<NodeData>,
    format: Seq<char>,
)
    requires
        0 < gi <= gd.len(),
    ensures
        group_frags(gd.subrange(0, gi), attrs, root_name, decl, format) == group_frags(
            gd.subrange(0, gi - 1),
            attrs,
            root_name,
            decl,
            format,
        ).push(
            (
                None,
                gd[gi - 1].0 + seq!['.'] + format,
                wrap_fragment(attrs, gd[gi - 1].1, Some(gd[gi - 1].0), root_name, decl),
            ),
        ),
    decreases gi,
{
    if gi == 1 {
        assert(gd.subrange(0, 1)[0] == gd[0]);
        assert(gd.subrange(0, 1).drop_first() =~= Seq::<(Seq<char>, NodeData)>::empty());
        assert(gd.subrange(0, 0) =~= Seq::<(Seq<char>, NodeData)>::empty());
        assert(group_frags(gd.subrange(0, 1), attrs, root_name, decl, format) =~= group_frags(
            gd.subrange(0, 0),
            attrs,
            root_name,
            decl,
            format,
        ).push(
            (
                None,
                gd[0].0 + seq!['.'] + format,
                wrap_fragment(attrs, gd[0].1, Some(gd[0].0), root_name, decl),
            ),
        ));
    } else {
        lemma_group_frags_snoc(gd.drop_first(), gi - 1, attrs, root_name, decl, format);
        assert(gd.subrange(0, gi).drop_first() =~= gd.drop_first().subrange(0, gi - 1));
        assert(gd.subrange(0, gi - 1).drop_first() =~= gd.drop_first().subrange(0, gi - 2));
        assert(gd.subrange(0, gi)[0] == gd[0]);
        assert(gd.subrange(0, gi - 1)[0] == gd[0]);
        assert(gd.drop_first()[gi - 2] == gd[gi - 1]);
    }
}

} // verus!

verus! {

/// Turns the folded state into the final fragment list, as `finish_plan`
/// describes: refusing an all-leaf document, then appending the grouped
/// buffers and the remaining leaf fragment.
#[verifier::rlimit(100)]
fn assemble_plan(
    frags: Vec<FragmentPlan>,
    groups: Vec<Entry>,
    leaf: Vec<Entry>,
    has_leaf: bool,
    has_nested: bool,
    attrs: &Vec<Entry>,
    root_name: &String,
    decl: &Option<Node>,
    key_order: &Vec<String>,
    base_name: &str,
    grouped: bool,
    format: &str,
) -> (r: Option<Vec<FragmentPlan>>)
    ensures
        ({
            let st = st_of(frags@, groups@, leaf@, has_leaf, has_nested);
            match r {
                Some(v) => finish_plan(
                    st,
                    entries_data(attrs@),
                    root_name@,
                    opt_data(*decl),
                    crate::merge::keys_data(key_order@),
                    base_name@,
                    grouped,
                    format@,
                ) == Some(frags_data(v@)),
                None => finish_plan(
                    st,
                    entries_data(attrs@),
                    root_name@,
                    opt_data(*decl),
                    crate::merge::keys_data(key_order@),
                    base_name@,
                    grouped,
                    format@,
                ) is None,
            }
        }),
{
    let ghost st = st_of(frags@, groups@, leaf@, has_leaf, has_nested);
    let ghost attrsd = entries_data(attrs@);
    let ghost decld = opt_data(*decl);
    let ghost keysd = crate::merge::keys_data(key_order@);
    if !has_nested && has_leaf {
        return None;
    }
    let mut out = frags;
    if grouped {
        proof {
            lemma_entries_data(groups@);
            assert(entries_data(groups@).subrange(0, entries_data(groups@).len() as int)
                =~= entries_data(groups@));
        }
        let ghost gd = entries_data(groups@);
        let ghost f_before = frags_data(out@);
        let mut gi: usize = 0;
        proof {
            assert(gd.subrange(0, 0) =~= Seq::<(Seq<char>, NodeData)>::empty());
            assert(frags_data(out@) =~= f_before + group_frags(
                gd.subrange(0, 0),
                attrsd,
                root_name@,
                decld,
                format@,
            ));
        }
        #[verifier::loop_isolation(false)]
        while gi < groups.len()
            invariant
                0 <= gi <= groups@.len(),
                frags_data(out@) =~= f_before + group_frags(
                    gd.subrange(0, gi as int),
                    attrsd,
                    root_name@,
                    decld,
                    format@,
                ),
            decreases groups@.len() - gi,
        {
            let ghost f0 = out@;
            let mut name: Vec<char> = Vec::new();
            push_str(&mut name, groups[gi].key.as_str());
            name.push('.');
            push_str(&mut name, format);
            proof {
                assert(name@ =~= gd[gi as int].0 + seq!['.'] + format@);
            }
            let doc = wrap_fragment_exec(
                attrs,
                crate::node::duplicate(&groups[gi].val),
                Some(&groups[gi].key),
                root_name,
                decl,
            );
            out.push(FragmentPlan { subdirectory: None, file_name: chars_to_string(&name), doc });
            gi = gi + 1;
            proof {
                assert(out@.drop_last() =~= f0);
                assert(frags_data(out@) == frags_data(f0).push(out@.last()@));
                lemma_group_frags_snoc(gd, gi as int, attrsd, root_name@, decld, format@);
                assert(frags_data(out@) =~= f_before + group_frags(
                    gd.subrange(0, gi as int),
                    attrsd,
                    root_name@,
                    decld,
                    format@,
                ));
            }
        }
        proof {
            assert(gd.subrange(0, gd.len() as int) =~= gd);
        }
    }
    if has_leaf {
        let leaf_content: Node = if grouped {
            let ghost ld = entries_data(leaf@);
            proof {
                lemma_entries_data(leaf@);
                crate::merge::lemma_keys_data(key_order@);
                assert(keysd.subrange(0, keysd.len() as int) =~= keysd);
            }
            let mut picked: Vec<Entry> = Vec::new();
            let mut pi: usize = 0;
            #[verifier::loop_isolation(false)]
            while pi < key_order.len()
                invariant
                    0 <= pi <= key_order@.len(),
                    reorder_picked(Seq::empty(), ld, keysd) == reorder_picked(
                        entries_data(picked@),
                        ld,
                        keysd.subrange(pi as int, keysd.len() as int),
                    ),
                decreases key_order@.len() - pi,
            {
                let ghost psuffix = keysd.subrange(pi as int, keysd.len() as int);
                proof {
                    crate::merge::lemma_keys_data(key_order@);
                    assert(psuffix[0] == keysd[pi as int]);
                    assert(psuffix.drop_first() =~= keysd.subrange(pi + 1, keysd.len() as int));
                    crate::node::lemma_obj_index(ld, keysd[pi as int]);
                }
                match entry_index(&leaf, key_order[pi].as_str()) {
                    Some(li) => {
                        proof {
                            assert(obj_get(ld, keysd[pi as int]) == leaf@[li as int].val@);
                        }
                        let v = crate::node::duplicate(&leaf[li].val);
                        crate::node::obj_insert_exec(&mut picked, key_order[pi].clone(), v);
                    },
                    None => {},
                }
                pi = pi + 1;
            }
            proof {
                assert(keysd.subrange(pi as int, keysd.len() as int).len() == 0);
                lemma_entries_data(picked@);
                assert(entries_data(picked@) == reorder_picked(Seq::empty(), ld, keysd));
            }
            Node::Obj(picked)
        } else {
            Node::Obj(leaf)
        };
        let mut name: Vec<char> = Vec::new();
        push_str(&mut name, base_name);
        name.push('.');
        push_str(&mut name, format);
        proof {
            assert(name@ =~= base_name@ + seq!['.'] + format@);
        }
        let doc = wrap_fragment_exec(attrs, leaf_content, None, root_name, decl);
        let ghost f0 = out@;
        out.push(FragmentPlan { subdirectory: None, file_name: chars_to_string(&name), doc });
        proof {
            assert(out@.drop_last() =~= f0);
            assert(frags_data(out@) == frags_data(f0).push(out@.last()@));
            assert(frags_data(out@) =~= finish_plan(
                st,
                attrsd,
                root_name@,
                decld,
                keysd,
                base_name@,
                grouped,
                format@,
            )->0);
        }
    } else {
        proof {
            assert(frags_data(out@) =~= finish_plan(
                st,
                attrsd,
                root_name@,
                decld,
                keysd,
                base_name@,
                grouped,
                format@,
            )->0);
        }
    }
    Some(out)
}

} // verus!
