//! The reassembly engine's document logic: which fragment files count,
//! where the rebuilt document goes, how a segment directory's files become
//! one synthetic document, and the merge of every parsed fragment back
//! into one serialized document.

use vstd::prelude::*;

use crate::chars::chars_to_string;
use crate::chars::str_to_chars;
use crate::chars::push_str;
use crate::escape::scan_char;
use crate::escape::lemma_scan_char;
use crate::node::Entry;
use crate::node::Node;
use crate::node::NodeData;
use crate::node::entries_data;
use crate::node::items_data;
use crate::node::lemma_entries_data;
use crate::node::lemma_items_data;
use crate::node::obj_has;
use crate::node::obj_get;
use crate::node::entry_index;
use crate::merge::spec_merge;
use crate::merge::spec_reorder;
use crate::merge::keys_data;
use crate::merge::lemma_keys_data;
use crate::merge::without_xmlns;
use crate::merge::lemma_first_root_key;
use crate::render::first_root_key;
use crate::render::first_root_key_exec;
use crate::render::spec_render_doc;
use crate::render::build_xml_string;

verus! {

/// The lowercase form of an ASCII letter; other characters pass through.
pub open spec fn ascii_lower(c: char) -> char {
    if 'A' <= c && c <= 'Z' {
        (((c as u32) + 32) as char)
    } else {
        c
    }
}

/// Whether `s` ends with `suffix` when ASCII case is ignored (the suffix
/// is given in lowercase).
pub open spec fn ends_with_ci(s: Seq<char>, suffix: Seq<char>) -> bool {
    &&& s.len() >= suffix.len()
    &&& forall|i: int|
        0 <= i < suffix.len() ==> ascii_lower(#[trigger] s[s.len() - suffix.len() + i])
            == suffix[i]
}

/// Lowers one ASCII letter.
fn ascii_lower_exec(c: char) -> (r: char)
    ensures
        r == ascii_lower(c),
{
    if 'A' <= c && c <= 'Z' {
        match crate::escape::char_from_u32_pub((c as u32) + 32) {
            Some(l) => {
                proof {
                    vstd::utf8::char_u32_cast(l, ((c as u32) + 32) as u32);
                }
                l
            },
            None => {
                proof {
                    assert(vstd::utf8::is_scalar(((c as u32) + 32) as u32)) by {
                        vstd::utf8::char_is_scalar(c);
                    }
                    assert(false);
                }
                c
            },
        }
    } else {
        c
    }
}

/// Decides `ends_with_ci`.
fn ends_with_ci_exec(s: &Vec<char>, suffix: &str) -> (r: bool)
    ensures
        r == ends_with_ci(s@, suffix@),
{
    let sc = str_to_chars(suffix);
    if s.len() < sc.len() {
        return false;
    }
    let base = s.len() - sc.len();
    let mut i: usize = 0;
    while i < sc.len()
        invariant
            0 <= i <= sc@.len(),
            sc@ == suffix@,
            base + sc@.len() == s@.len(),
            base <= s@.len() <= usize::MAX,
            forall|j: int| 0 <= j < i ==> ascii_lower(#[trigger] s@[base + j]) == sc@[j],
        decreases sc@.len() - i,
    {
        if ascii_lower_exec(s[base + i]) != sc[i] {
            proof {
                assert(ascii_lower(s@[s@.len() - suffix@.len() + i as int]) != suffix@[i as int]);
            }
            return false;
        }
        i = i + 1;
    }
    true
}

/// The reassembly engine's pure half: deciding file names and places, and
/// rebuilding one document out of parsed fragments.
pub struct ReassembleXmlFileHandler;

impl ReassembleXmlFileHandler {
    /// A fresh handler; it carries no state.
    pub fn new() -> ReassembleXmlFileHandler {
        ReassembleXmlFileHandler
    }

    /// Whether a file name names a fragment the engine parses: one of the
    /// supported text formats, by extension, ignoring ASCII case.
    pub fn is_parsable_file(&self, file_name: &str) -> (r: bool)
        ensures
            r == (ends_with_ci(file_name@, ".xml"@) || ends_with_ci(file_name@, ".json"@)
                || ends_with_ci(file_name@, ".json5"@) || ends_with_ci(file_name@, ".yaml"@)
                || ends_with_ci(file_name@, ".yml"@)),
    {
        let cs = str_to_chars(file_name);
        ends_with_ci_exec(&cs, ".xml") || ends_with_ci_exec(&cs, ".json") || ends_with_ci_exec(
            &cs,
            ".json5",
        ) || ends_with_ci_exec(&cs, ".yaml") || ends_with_ci_exec(&cs, ".yml")
    }

    /// The output path of a rebuilt document: beside the fragment
    /// directory, under the directory's base name and the chosen
    /// extension (`xml` when none is chosen).
    pub fn get_output_path(&self, dir_path: &str, extension: Option<&str>) -> (r: String)
        ensures
            r@ == spec_output_path(
                dir_path@,
                match extension {
                    Some(e) => e@,
                    None => "xml"@,
                },
            ),
    {
        let cs = str_to_chars(dir_path);
        let ghost s = cs@;
        let mut e: usize = cs.len();
        while e > 0 && cs[e - 1] == '/'
            invariant
                0 <= e <= cs@.len(),
                forall|j: int| e <= j < cs@.len() ==> cs@[j] == '/',
            decreases e,
        {
            e = e - 1;
        }
        let mut b: usize = e;
        while b > 0 && cs[b - 1] != '/'
            invariant
                0 <= b <= e <= cs@.len(),
                forall|j: int| b <= j < e ==> cs@[j] != '/',
            decreases b,
        {
            b = b - 1;
        }
        proof {
            lemma_trimmed_end(s, e as int);
            lemma_base_start(s, e as int, b as int);
        }
        let mut out: Vec<char> = Vec::new();
        if b > 0 {
            crate::chars::push_range(&mut out, &cs, 0, b);
        }
        if e == 0 {
            push_str(&mut out, "output");
        } else {
            crate::chars::push_range(&mut out, &cs, b, e);
        }
        out.push('.');
        match extension {
            Some(ext) => push_str(&mut out, ext),
            None => push_str(&mut out, "xml"),
        }
        proof {
            assert(out@ =~= spec_output_path(
                dir_path@,
                match extension {
                    Some(ex) => ex@,
                    None => "xml"@,
                },
            ));
        }
        chars_to_string(&out)
    }
}

/// The end of a path with trailing slashes trimmed.
pub open spec fn trimmed_end(s: Seq<char>) -> int
    decreases s.len(),
{
    if s.len() > 0 && s.last() == '/' {
        trimmed_end(s.drop_last())
    } else {
        s.len() as int
    }
}

/// The start of a path's base name: just after the last slash before its
/// trimmed end.
pub open spec fn base_start(s: Seq<char>, e: int) -> int
    decreases e,
{
    if e > 0 && 0 <= e <= s.len() && s[e - 1] != '/' {
        base_start(s, e - 1)
    } else {
        e
    }
}

/// The output path rule: the directory prefix (when one stands before the
/// base name), the base name (`output` for an empty one), a dot, and the
/// extension.
pub open spec fn spec_output_path(s: Seq<char>, ext: Seq<char>) -> Seq<char> {
    let e = trimmed_end(s);
    let b = base_start(s, e);
    (if b > 0 {
        s.subrange(0, b)
    } else {
        Seq::empty()
    }) + (if e == 0 {
        "output"@
    } else {
        s.subrange(b, e)
    }) + seq!['.'] + ext
}

proof fn lemma_trimmed_end(s: Seq<char>, e: int)
    requires
        0 <= e <= s.len(),
        forall|j: int| e <= j < s.len() ==> s[j] == '/',
        e > 0 ==> s[e - 1] != '/',
    ensures
        trimmed_end(s) == e,
    decreases s.len(),
{
    if s.len() > 0 && s.last() == '/' {
        lemma_trimmed_end(s.drop_last(), e);
    }
}

proof fn lemma_base_start(s: Seq<char>, e: int, b: int)
    requires
        0 <= b <= e <= s.len(),
        forall|j: int| b <= j < e ==> s[j] != '/',
        b > 0 ==> s[b - 1] == '/',
    ensures
        base_start(s, e) == b,
    decreases e,
{
    if e > 0 && s[e - 1] != '/' {
        lemma_base_start(s, e - 1, b);
    }
}

} // verus!

verus! {

/// What one parsed segment file contributes to the synthetic document: its
/// root content, or (when the inner layer is extracted) the content under
/// the segment key with any namespace attribute removed.  Fragments
/// without a usable root contribute nothing.
pub open spec fn segment_content(doc: NodeData, segment: Seq<char>, extract_inner: bool) -> Option<
    NodeData,
> {
    match doc {
        NodeData::Obj(entries) => {
            match first_root_key(entries) {
                Some(root_key) => {
                    let root_val = obj_get(entries, root_key);
                    if extract_inner {
                        let inner = match root_val {
                            NodeData::Obj(re) => if obj_has(re, segment) {
                                obj_get(re, segment)
                            } else {
                                NodeData::Obj(Seq::empty())
                            },
                            _ => NodeData::Obj(Seq::empty()),
                        };
                        Some(without_xmlns(inner))
                    } else {
                        Some(root_val)
                    }
                },
                None => None,
            }
        },
        _ => None,
    }
}

/// The contents every parsed segment file contributes, in order.
pub open spec fn segment_contents(
    docs: Seq<NodeData>,
    segment: Seq<char>,
    extract_inner: bool,
) -> Seq<NodeData>
    decreases docs.len(),
{
    if docs.len() == 0 {
        Seq::empty()
    } else {
        (match segment_content(docs[0], segment, extract_inner) {
            Some(c) => seq![c],
            None => Seq::empty(),
        }) + segment_contents(docs.drop_first(), segment, extract_inner)
    }
}

/// The root key and declaration the first contributing segment file hands
/// the synthetic document.
pub open spec fn segment_head(docs: Seq<NodeData>, segment: Seq<char>, extract_inner: bool) -> Option<
    (Seq<char>, Option<NodeData>),
>
    decreases docs.len(),
{
    if docs.len() == 0 {
        None
    } else {
        match docs[0] {
            NodeData::Obj(entries) => {
                match first_root_key(entries) {
                    Some(root_key) => Some(
                        (
                            root_key,
                            if obj_has(entries, "?xml"@) {
                                Some(obj_get(entries, "?xml"@))
                            } else {
                                None
                            },
                        ),
                    ),
                    None => segment_head(docs.drop_first(), segment, extract_inner),
                }
            },
            _ => segment_head(docs.drop_first(), segment, extract_inner),
        }
    }
}

/// The synthetic document of one segment directory: the first file's root
/// key and declaration (defaulting to the standard declaration) over one
/// child, the segment key holding every file's contribution as a list.
pub open spec fn spec_collect_segment(
    docs: Seq<NodeData>,
    segment: Seq<char>,
    extract_inner: bool,
) -> Option<NodeData> {
    let contents = segment_contents(docs, segment, extract_inner);
    if contents.len() == 0 {
        None
    } else {
        match segment_head(docs, segment, extract_inner) {
            Some(head) => {
                let decl = match head.1 {
                    Some(d) => d,
                    None => crate::merge::default_decl(),
                };
                Some(
                    NodeData::Obj(
                        seq![
                            ("?xml"@, decl),
                            (head.0, NodeData::Obj(seq![(segment, NodeData::Arr(contents))])),
                        ],
                    ),
                )
            },
            None => None,
        }
    }
}

/// Builds the synthetic document of one segment directory from its parsed
/// files in sorted order, as `spec_collect_segment` describes.
pub fn collect_segment_as_array(docs: &Vec<Node>, segment_name: &str, extract_inner: bool) -> (r:
    Option<Node>)
    ensures
        match r {
            Some(n) => spec_collect_segment(items_data(docs@), segment_name@, extract_inner)
                == Some(n@),
            None => spec_collect_segment(items_data(docs@), segment_name@, extract_inner)
                is None,
        },
{
    proof {
        lemma_items_data(docs@);
        assert(items_data(docs@).subrange(0, items_data(docs@).len() as int) =~= items_data(
            docs@,
        ));
    }
    let ghost dd = items_data(docs@);
    let mut contents: Vec<Node> = Vec::new();
    let mut head: Option<(String, Option<Node>)> = None;
    let mut i: usize = 0;
    proof {
        assert(items_data(contents@) =~= Seq::<NodeData>::empty());
    }
    #[verifier::loop_isolation(false)]
    while i < docs.len()
        invariant
            0 <= i <= docs@.len(),
            segment_contents(dd, segment_name@, extract_inner) =~= items_data(contents@)
                + segment_contents(
                dd.subrange(i as int, dd.len() as int),
                segment_name@,
                extract_inner,
            ),
            segment_head(dd, segment_name@, extract_inner) == (match head {
                Some(h) => Some(
                    (
                        h.0@,
                        match h.1 {
                            Some(d) => Some(d@),
                            None => None,
                        },
                    ),
                ),
                None => segment_head(
                    dd.subrange(i as int, dd.len() as int),
                    segment_name@,
                    extract_inner,
                ),
            }),
        decreases docs@.len() - i,
    {
        let ghost suffix = dd.subrange(i as int, dd.len() as int);
        let ghost c0 = items_data(contents@);
        proof {
            assert(suffix[0] == dd[i as int]);
            assert(suffix.drop_first() =~= dd.subrange(i + 1, dd.len() as int));
            lemma_items_data(contents@);
        }
        match &docs[i] {
            Node::Obj(entries) => {
                proof {
                    lemma_entries_data(entries@);
                    lemma_first_root_key(entries_data(entries@));
                    crate::node::lemma_obj_index(entries_data(entries@), "?xml"@);
                }
                match first_root_key_exec(entries) {
                    Some(root_key) => {
                        proof {
                            crate::node::lemma_obj_index(entries_data(entries@), root_key@);
                        }
                        let ri = match entry_index(entries, root_key.as_str()) {
                            Some(x) => x,
                            None => {
                                proof {
                                    assert(false);
                                }
                                return None;
                            },
                        };
                        proof {
                            assert(obj_get(entries_data(entries@), root_key@) == entries@[
                                ri as int].val@);
                        }
                        let contribution: Node = if extract_inner {
                            let inner: Node = match &entries[ri].val {
                                Node::Obj(re) => {
                                    proof {
                                        lemma_entries_data(re@);
                                        crate::node::lemma_obj_index(
                                            entries_data(re@),
                                            segment_name@,
                                        );
                                    }
                                    match entry_index(re, segment_name) {
                                        Some(si) => {
                                            proof {
                                                assert(obj_get(
                                                    entries_data(re@),
                                                    segment_name@,
                                                ) == re@[si as int].val@);
                                            }
                                            crate::node::duplicate(&re[si].val)
                                        },
                                        None => Node::Obj(Vec::new()),
                                    }
                                },
                                _ => Node::Obj(Vec::new()),
                            };
                            crate::merge::strip_xmlns_from_value(&inner)
                        } else {
                            crate::node::duplicate(&entries[ri].val)
                        };
                        contents.push(contribution);
                        proof {
                            lemma_items_data(contents@);
                            assert(items_data(contents@) =~= c0.push(contents@.last()@));
                            assert(segment_content(dd[i as int], segment_name@, extract_inner)
                                == Some(contents@.last()@)) by {
                                if extract_inner {
                                    assert(entries_data(Seq::<Entry>::empty())
                                        =~= Seq::<(Seq<char>, NodeData)>::empty());
                                }
                            }
                            assert(c0 + (seq![contents@.last()@] + segment_contents(
                                suffix.drop_first(),
                                segment_name@,
                                extract_inner,
                            )) =~= items_data(contents@) + segment_contents(
                                suffix.drop_first(),
                                segment_name@,
                                extract_inner,
                            ));
                        }
                        if head.is_none() {
                            let decl: Option<Node> = match entry_index(entries, "?xml") {
                                Some(di) => {
                                    proof {
                                        assert(obj_get(entries_data(entries@), "?xml"@)
                                            == entries@[di as int].val@);
                                    }
                                    Some(crate::node::duplicate(&entries[di].val))
                                },
                                None => None,
                            };
                            head = Some((root_key, decl));
                        }
                    },
                    None => {
                        proof {
                            assert(segment_content(dd[i as int], segment_name@, extract_inner)
                                is None);
                        }
                    },
                }
            },
            _ => {
                proof {
                    assert(segment_content(dd[i as int], segment_name@, extract_inner) is None);
                }
            },
        }
        i = i + 1;
    }
    proof {
        assert(dd.subrange(i as int, dd.len() as int).len() == 0);
        lemma_items_data(contents@);
    }
    let ghost contents_d = items_data(contents@);
    proof {
        assert(contents_d == segment_contents(dd, segment_name@, extract_inner));
    }
    if contents.len() == 0 {
        return None;
    }
    let (root_key, decl_opt) = match head {
        Some(h) => h,
        None => {
            proof {
                lemma_segment_head_some(dd, segment_name@, extract_inner);
                assert(false);
            }
            return None;
        },
    };
    let decl: Node = match decl_opt {
        Some(d) => d,
        None => crate::multi_level::default_decl_exec(),
    };
    let mut inner: Vec<Entry> = Vec::new();
    let sk = str_to_chars(segment_name);
    inner.push(Entry { key: chars_to_string(&sk), val: Node::Arr(contents) });
    let mut top: Vec<Entry> = Vec::new();
    let dk = str_to_chars("?xml");
    top.push(Entry { key: chars_to_string(&dk), val: decl });
    top.push(Entry { key: root_key, val: Node::Obj(inner) });
    let result = Node::Obj(top);
    proof {
        if let Node::Obj(tv) = &result {
            lemma_entries_data(tv@);
            if let Node::Obj(iv) = &tv[1].val {
                lemma_entries_data(iv@);
                assert(entries_data(iv@) =~= seq![
                    (segment_name@, NodeData::Arr(contents_d))
                ]);
            }
            assert(entries_data(tv@) =~= spec_collect_segment(
                dd,
                segment_name@,
                extract_inner,
            )->0->Obj_0);
        }
    }
    Some(result)
}

/// A segment directory that contributed content also named a head.
proof fn lemma_segment_head_some(docs: Seq<NodeData>, segment: Seq<char>, extract_inner: bool)
    requires
        segment_contents(docs, segment, extract_inner).len() > 0,
    ensures
        segment_head(docs, segment, extract_inner) is Some,
    decreases docs.len(),
{
    if docs.len() > 0 {
        if segment_content(docs[0], segment, extract_inner) is Some {
        } else {
            lemma_segment_head_some(docs.drop_first(), segment, extract_inner);
        }
    }
}

/// Rebuilds one document out of parsed fragments: the merge, the stored
/// key order when one exists, and the serializer.
pub fn reassemble_document(parsed_objects: &Vec<Node>, key_order: Option<&Vec<String>>) -> (r:
    Option<String>)
    ensures
        match r {
            Some(text) => spec_merge(items_data(parsed_objects@)) matches Some(m) && text@
                == spec_render_doc(
                match key_order {
                    Some(ks) => match spec_reorder(m, keys_data(ks@)) {
                        Some(rd) => rd,
                        None => m,
                    },
                    None => m,
                },
            ),
            None => spec_merge(items_data(parsed_objects@)) is None,
        },
{
    let merged = match crate::merge::merge_xml_elements(parsed_objects) {
        Some(m) => m,
        None => {
            return None;
        },
    };
    let final_doc: Node = match key_order {
        Some(ks) => {
            match crate::merge::reorder_root_keys(&merged, ks) {
                Some(rd) => rd,
                None => merged,
            }
        },
        None => merged,
    };
    Some(build_xml_string(&final_doc))
}

} // verus!
