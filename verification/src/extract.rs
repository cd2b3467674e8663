//! Recovery of the declaration and the default namespace from raw markup
//! text, for converters that drop them.

use vstd::prelude::*;

use crate::chars::chars_to_string;
use crate::chars::is_ws_char;
use crate::chars::matches_at;
use crate::chars::str_to_chars;
use crate::escape::scan_char;
use crate::escape::find_char;
use crate::lexer::find_pat;
use crate::lexer::lemma_find_pat;
use crate::lexer::skip_ws_at;
use crate::lexer::lemma_skip_ws_at;
use crate::node::Entry;
use crate::node::Node;
use crate::node::NodeData;
use crate::node::entries_data;
use crate::node::lemma_entries_data;

verus! {

/// The text captured between the first occurrence of `pat` and the next
/// double quote, or nothing when `pat` never occurs or no quote closes it.
pub open spec fn quoted_capture(s: Seq<char>, pat: Seq<char>) -> Option<Seq<char>> {
    let p = find_pat(s, 0, pat);
    if matches_at(s, p, pat) {
        let vend = scan_char(s, p + pat.len(), '"');
        if vend < s.len() {
            Some(s.subrange(p + pat.len(), vend))
        } else {
            None
        }
    } else {
        None
    }
}

/// Finds a quoted capture, as `quoted_capture` describes.
fn quoted_capture_exec(v: &Vec<char>, pat: &Vec<char>, lit: &str) -> (r: Option<String>)
    requires
        pat@ == lit@,
    ensures
        match r {
            Some(c) => quoted_capture(v@, lit@) == Some(c@),
            None => quoted_capture(v@, lit@) is None,
        },
{
    let n = v.len();
    let p = crate::lexer::find_pat_exec(v, 0, pat);
    if !crate::chars::check_match(v, p, pat) {
        return None;
    }
    proof {
        assert(p + pat@.len() <= n);
    }
    let vstart = p + pat.len();
    proof {
        lemma_find_pat(v@, 0, pat@);
    }
    let vend = find_char(v, vstart, '"');
    if vend >= v.len() {
        return None;
    }
    Some(crate::lexer::sub_string(v, vstart, vend))
}

/// The default namespace in raw markup text: what stands between the first
/// `xmlns="` and the next quote.
pub open spec fn spec_extract_xmlns(s: Seq<char>) -> Option<Seq<char>> {
    quoted_capture(s, "xmlns=\""@)
}

/// Extracts the default namespace from raw markup text, as
/// `spec_extract_xmlns` describes.
pub fn extract_xmlns_from_raw(xml_content: &str) -> (r: Option<String>)
    ensures
        match r {
            Some(c) => spec_extract_xmlns(xml_content@) == Some(c@),
            None => spec_extract_xmlns(xml_content@) is None,
        },
{
    let cs = str_to_chars(xml_content);
    let pat = str_to_chars("xmlns=\"");
    quoted_capture_exec(&cs, &pat, "xmlns=\"")
}

/// The body of the declaration in raw markup text: what stands between
/// `<?xml`, at least one whitespace character, and the first question mark
/// after it, which must start `?>`.
pub open spec fn decl_body(s: Seq<char>) -> Option<Seq<char>> {
    let p = find_pat(s, 0, "<?xml"@);
    if matches_at(s, p, "<?xml"@) && p + 5 < s.len() && is_ws_char(s[p + 5]) {
        let w = skip_ws_at(s, p + 5);
        let qm = scan_char(s, w, '?');
        if w < qm && qm + 1 < s.len() && s[qm + 1] == '>' {
            Some(s.subrange(w, qm))
        } else {
            None
        }
    } else {
        None
    }
}

/// The declaration entries recovered from raw markup text: the version is
/// required; encoding and standalone come along when present.
pub open spec fn spec_extract_decl(s: Seq<char>) -> Option<NodeData> {
    match decl_body(s) {
        Some(body) => {
            match quoted_capture(body, "version=\""@) {
                Some(version) => {
                    let base = seq![("@version"@, NodeData::Str(version))];
                    let with_enc = match quoted_capture(body, "encoding=\""@) {
                        Some(e) => base.push(("@encoding"@, NodeData::Str(e))),
                        None => base,
                    };
                    let with_sa = match quoted_capture(body, "standalone=\""@) {
                        Some(e) => with_enc.push(("@standalone"@, NodeData::Str(e))),
                        None => with_enc,
                    };
                    Some(NodeData::Obj(with_sa))
                },
                None => None,
            }
        },
        None => None,
    }
}

/// Extracts the declaration from raw markup text, as `spec_extract_decl`
/// describes.
pub fn extract_xml_declaration_from_raw(xml_content: &str) -> (r: Option<Node>)
    ensures
        match r {
            Some(d) => spec_extract_decl(xml_content@) == Some(d@),
            None => spec_extract_decl(xml_content@) is None,
        },
{
    let cs = str_to_chars(xml_content);
    let n = cs.len();
    let decl_pat = str_to_chars("<?xml");
    let p = crate::lexer::find_pat_exec(&cs, 0, &decl_pat);
    proof {
        lemma_find_pat(cs@, 0, decl_pat@);
        reveal_strlit("<?xml");
    }
    if !crate::chars::check_match(&cs, p, &decl_pat) {
        return None;
    }
    if !(p + 5 < cs.len() && crate::chars::ws_char(cs[p + 5])) {
        return None;
    }
    let w = crate::lexer::skip_ws_exec(&cs, p + 5);
    let qm = find_char(&cs, w, '?');
    proof {
        assert(qm <= n);
    }
    if !(w < qm) {
        return None;
    }
    if qm >= cs.len() {
        return None;
    }
    if !(qm + 1 < cs.len() && cs[qm + 1] == '>') {
        return None;
    }
    let body = crate::lexer::sub_vec(&cs, w, qm);
    let ghost bodyd = cs@.subrange(w as int, qm as int);
    let version = match quoted_capture_exec(&body, &str_to_chars("version=\""), "version=\"") {
        Some(vv) => vv,
        None => {
            return None;
        },
    };
    let mut entries: Vec<Entry> = Vec::new();
    let vkey = str_to_chars("@version");
    entries.push(Entry { key: chars_to_string(&vkey), val: Node::Str(version) });
    let ghost base = seq![("@version"@, NodeData::Str(version@))];
    proof {
        lemma_entries_data(entries@);
        assert(entries_data(entries@) =~= base);
    }
    let enc = quoted_capture_exec(&body, &str_to_chars("encoding=\""), "encoding=\"");
    match enc {
        Some(e) => {
            let ekey = str_to_chars("@encoding");
            entries.push(Entry { key: chars_to_string(&ekey), val: Node::Str(e) });
            proof {
                lemma_entries_data(entries@);
                assert(entries_data(entries@) =~= base.push(
                    ("@encoding"@, entries@.last().val@),
                ));
            }
        },
        None => {},
    }
    let ghost with_enc = entries_data(entries@);
    let sa = quoted_capture_exec(&body, &str_to_chars("standalone=\""), "standalone=\"");
    match sa {
        Some(e) => {
            let skey = str_to_chars("@standalone");
            entries.push(Entry { key: chars_to_string(&skey), val: Node::Str(e) });
            proof {
                lemma_entries_data(entries@);
                lemma_entries_data(entries@.drop_last());
                assert(entries_data(entries@) =~= with_enc.push(
                    ("@standalone"@, entries@.last().val@),
                ));
            }
        },
        None => {},
    }
    let d = Node::Obj(entries);
    Some(d)
}

} // verus!
