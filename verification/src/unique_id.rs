//! The unique-identifier resolver that names fragment files.
//!
//! With no configured fields the identifier is the first eight hex
//! characters of a SHA-256 digest of the node's canonical serialized form.
//! With configured fields, a string field found directly on the node wins;
//! otherwise a depth-first search resolves each nested child, skipping
//! empty results and preferring any result that is not itself hash-shaped
//! (eight lowercase hex characters) over one that is.

use vstd::prelude::*;

use crate::chars::chars_to_string;
use crate::chars::is_lower_hex_digit;
use crate::chars::str_to_chars;
use crate::escape::scan_char;
use crate::escape::lemma_scan_char;
use crate::escape::find_char;
use crate::json::hex_char;
use crate::json::json_compact;
use crate::node::Entry;
use crate::node::Node;
use crate::node::NodeData;
use crate::node::entries_data;
use crate::node::items_data;
use crate::node::lemma_entries_data;
use crate::node::lemma_items_data;
use crate::node::obj_has;
use crate::node::obj_get;
use crate::node::entry_index;
use crate::text::spec_trim;
use crate::text::trim_chars;

verus! {

/// The SHA-256 digest of a byte sequence.  The digest is a function of the
/// bytes alone; nothing further is assumed of its value.
pub uninterp spec fn sha256_of(bytes: Seq<u8>) -> Seq<u8>;

/// The digest bound to its documented length: the 32 bytes of
/// `sha256_of`.  Contracts over this form carry the length with them.
pub open spec fn sha256_bytes(bytes: Seq<u8>) -> Seq<u8> {
    Seq::new(
        32,
        |i: int|
            if 0 <= i < sha256_of(bytes).len() {
                sha256_of(bytes)[i]
            } else {
                0u8
            },
    )
}

/// Relies on `sha2::Sha256` (through the `Digest` trait): the digest is
/// deterministic in the input bytes and is exactly 32 bytes long.
#[verifier::external_body]
fn sha256_digest(data: &[u8]) -> (r: Vec<u8>)
    ensures
        r@ == sha256_of(data@),
        r@ == sha256_bytes(data@),
{
    <sha2::Sha256 as sha2::Digest>::digest(data).to_vec()
}

/// The lowercase hexadecimal text of a byte sequence.
pub open spec fn hex_of(bytes: Seq<u8>) -> Seq<char>
    decreases bytes.len(),
{
    if bytes.len() == 0 {
        Seq::empty()
    } else {
        hex_of(bytes.drop_last()) + seq![
            hex_char(bytes.last() as int / 16),
            hex_char(bytes.last() as int % 16),
        ]
    }
}

/// Every character `hex_of` writes is a lowercase hexadecimal digit, and
/// each byte takes two of them.
pub proof fn lemma_hex_of(bytes: Seq<u8>)
    ensures
        hex_of(bytes).len() == 2 * bytes.len(),
        forall|i: int|
            0 <= i < hex_of(bytes).len() ==> is_lower_hex_digit(#[trigger] hex_of(bytes)[i]),
    decreases bytes.len(),
{
    if bytes.len() > 0 {
        lemma_hex_of(bytes.drop_last());
        assert forall|i: int|
            0 <= i < hex_of(bytes).len() implies is_lower_hex_digit(
            #[trigger] hex_of(bytes)[i],
        ) by {
            if i < hex_of(bytes.drop_last()).len() {
                assert(hex_of(bytes)[i] == hex_of(bytes.drop_last())[i]);
            } else {
                assert(0 <= bytes.last() as int / 16 < 16);
                assert(0 <= bytes.last() as int % 16 < 16);
            }
        }
    }
}

/// Appends the lowercase hexadecimal text of `bytes`.
fn push_hex(out: &mut Vec<char>, bytes: &Vec<u8>)
    ensures
        final(out)@ == old(out)@ + hex_of(bytes@),
{
    let mut i: usize = 0;
    while i < bytes.len()
        invariant
            0 <= i <= bytes@.len(),
            out@ == old(out)@ + hex_of(bytes@.subrange(0, i as int)),
        decreases bytes@.len() - i,
    {
        let b = bytes[i];
        out.push(crate::json::hex_char_exec((b as u32) / 16));
        out.push(crate::json::hex_char_exec((b as u32) % 16));
        i = i + 1;
        proof {
            let p = bytes@.subrange(0, i - 1);
            let q = bytes@.subrange(0, i as int);
            assert(q.drop_last() =~= p);
            assert(q.last() == b);
            assert(out@ =~= old(out)@ + hex_of(q));
        }
    }
    proof {
        assert(bytes@.subrange(0, bytes@.len() as int) =~= bytes@);
    }
}

/// The content hash of a tree: the first eight hex characters of the
/// SHA-256 digest of its canonical (compact JSON) serialized form.
pub open spec fn short_hash_of(n: NodeData) -> Seq<char> {
    hex_of(sha256_bytes(vstd::utf8::encode_utf8(json_compact(n)))).take(8)
}

/// The content hash always has the shape of a content hash.
pub proof fn lemma_short_hash_shaped(n: NodeData)
    ensures
        hash_shaped(short_hash_of(n)),
{
    let d = sha256_bytes(vstd::utf8::encode_utf8(json_compact(n)));
    lemma_hex_of(d);
    assert forall|i: int|
        0 <= i < short_hash_of(n).len() implies is_lower_hex_digit(
        #[trigger] short_hash_of(n)[i],
    ) by {
        assert(short_hash_of(n)[i] == hex_of(d)[i]);
    }
}

/// Computes the content hash of a node.
pub fn create_short_hash(element: &Node) -> (r: String)
    ensures
        r@ == short_hash_of(element@),
        hash_shaped(r@),
{
    let text = crate::json::to_json_compact(element);
    let digest = sha256_digest(text.as_str().as_bytes());
    let mut hx: Vec<char> = Vec::new();
    push_hex(&mut hx, &digest);
    proof {
        lemma_hex_of(digest@);
    }
    let mut first8: Vec<char> = Vec::new();
    crate::chars::push_range(&mut first8, &hx, 0, 8);
    proof {
        assert(first8@ =~= short_hash_of(element@));
        assert(hash_shaped(first8@)) by {
            assert(forall|i: int| 0 <= i < 8 ==> first8@[i] == #[trigger] hx@[i]);
        }
    }
    chars_to_string(&first8)
}

/// Whether `s` has the shape of a content hash: exactly eight lowercase
/// hexadecimal characters, the form the content hash itself takes.
pub open spec fn hash_shaped(s: Seq<char>) -> bool {
    s.len() == 8 && forall|i: int| 0 <= i < s.len() ==> is_lower_hex_digit(#[trigger] s[i])
}

/// Decides whether a string looks like a hash fallback rather than a real
/// identifier.
pub fn looks_like_hash(s: &str) -> (r: bool)
    ensures
        r == hash_shaped(s@),
{
    let cs = str_to_chars(s);
    if cs.len() != 8 {
        return false;
    }
    let mut i: usize = 0;
    while i < cs.len()
        invariant
            0 <= i <= cs@.len(),
            cs@ == s@,
            cs@.len() == 8,
            forall|j: int| 0 <= j < i ==> is_lower_hex_digit(#[trigger] cs@[j]),
        decreases cs@.len() - i,
    {
        if !crate::chars::lower_hex_digit(cs[i]) {
            return false;
        }
        i = i + 1;
    }
    true
}

/// The configured field names: the comma-separated pieces of `s`, each
/// trimmed of surrounding whitespace.
pub open spec fn split_fields(s: Seq<char>) -> Seq<Seq<char>>
    decreases s.len(),
    via split_fields_decreases
{
    let c = scan_char(s, 0, ',');
    if c >= s.len() {
        seq![spec_trim(s)]
    } else {
        seq![spec_trim(s.subrange(0, c))] + split_fields(s.subrange(c + 1, s.len() as int))
    }
}

#[via_fn]
proof fn split_fields_decreases(s: Seq<char>) {
    lemma_scan_char(s, 0, ',');
}

/// Splits a comma-separated field list, as `split_fields` describes.
fn split_fields_exec(s: &str) -> (r: Vec<String>)
    ensures
        r@.len() == split_fields(s@).len(),
        forall|i: int| 0 <= i < r@.len() ==> #[trigger] r@[i]@ == split_fields(s@)[i],
{
    let cs = str_to_chars(s);
    let mut out: Vec<String> = Vec::new();
    let mut at: usize = 0;
    let ghost whole = cs@;
    proof {
        assert(whole.subrange(0, whole.len() as int) =~= whole);
    }
    loop
        invariant
            0 <= at <= whole.len(),
            whole == cs@,
            cs@ == s@,
            ({
                let rest = split_fields(whole.subrange(at as int, whole.len() as int));
                let all = split_fields(whole);
                &&& all.len() == out@.len() + rest.len()
                &&& forall|i: int| 0 <= i < out@.len() ==> #[trigger] out@[i]@ == all[i]
                &&& forall|i: int|
                    0 <= i < rest.len() ==> #[trigger] rest[i] == all[out@.len() + i]
            }),
        decreases whole.len() - at + 1,
    {
        let ghost rest0 = whole.subrange(at as int, whole.len() as int);
        let c = find_char(&cs, at, ',');
        proof {
            crate::escape::lemma_scan_char(whole, at as int, ',');
            lemma_scan_window_shim(whole, at as int, c as int);
        }
        if c >= cs.len() {
            let piece = crate::lexer::sub_vec(&cs, at, cs.len());
            let t = trim_chars(&piece);
            let ghost n0 = out@.len() as int;
            out.push(chars_to_string(&t));
            proof {
                let all = split_fields(whole);
                assert(scan_char(rest0, 0, ',') == rest0.len());
                assert(split_fields(rest0) == seq![spec_trim(rest0)]);
                assert(out@.last()@ == spec_trim(rest0));
                assert(split_fields(rest0)[0] == all[n0]);
                assert forall|i: int| 0 <= i < out@.len() implies #[trigger] out@[i]@ == all[i] by {
                    if i < n0 {
                    } else {
                        assert(out@[i] == out@.last());
                    }
                }
            }
            return out;
        } else {
            let piece = crate::lexer::sub_vec(&cs, at, c);
            let t = trim_chars(&piece);
            let ghost n0 = out@.len() as int;
            out.push(chars_to_string(&t));
            proof {
                let all = split_fields(whole);
                assert(scan_char(rest0, 0, ',') == c - at);
                assert(rest0.subrange(0, c - at) =~= whole.subrange(at as int, c as int));
                assert(rest0.subrange(c - at + 1, rest0.len() as int) =~= whole.subrange(
                    c + 1,
                    whole.len() as int,
                ));
                let next_spec = split_fields(whole.subrange(c + 1, whole.len() as int));
                assert(split_fields(rest0) == seq![spec_trim(rest0.subrange(0, c - at))]
                    + next_spec);
                assert(split_fields(rest0)[0] == all[n0]);
                assert(out@.last()@ == spec_trim(rest0.subrange(0, c - at)));
                assert forall|i: int| 0 <= i < out@.len() implies #[trigger] out@[i]@ == all[i] by {
                    if i < n0 {
                    } else {
                        assert(out@[i] == out@.last());
                    }
                }
                assert forall|i: int|
                    0 <= i < next_spec.len() implies #[trigger] next_spec[i] == all[out@.len()
                    + i] by {
                    assert(split_fields(rest0)[i + 1] == next_spec[i]);
                    assert(split_fields(rest0)[i + 1] == all[n0 + 1 + i]);
                }
            }
            at = c + 1;
        }
    }
}

/// `scan_char` from any start inside the window agrees with scanning the
/// window copy from zero.
proof fn lemma_scan_window_shim(s: Seq<char>, at: int, c: int)
    requires
        0 <= at <= s.len(),
        c == scan_char(s, at, ','),
    ensures
        scan_char(s.subrange(at, s.len() as int), 0, ',') == if c < s.len() {
            c - at
        } else {
            s.len() - at
        },
{
    lemma_scan_window_rec(s, at, 0);
}

proof fn lemma_scan_window_rec(s: Seq<char>, base: int, k: int)
    requires
        0 <= base,
        0 <= k,
        base + k <= s.len(),
    ensures
        ({
            let rest = s.subrange(base, s.len() as int);
            let g = scan_char(s, base + k, ',');
            scan_char(rest, k, ',') == if g < s.len() {
                g - base
            } else {
                s.len() - base
            }
        }),
    decreases s.len() - base - k,
{
    let rest = s.subrange(base, s.len() as int);
    lemma_scan_char(s, base + k, ',');
    if base + k < s.len() {
        assert(rest[k] == s[base + k]);
        if s[base + k] != ',' {
            lemma_scan_window_rec(s, base, k + 1);
        }
    }
}

} // verus!

verus! {

/// The first configured field stored directly on the entries with a
/// string value, tried in configured order.
pub open spec fn direct_match(
    entries: Seq<(Seq<char>, NodeData)>,
    fields: Seq<Seq<char>>,
) -> Option<Seq<char>>
    decreases fields.len(),
{
    if fields.len() == 0 {
        None
    } else {
        if obj_has(entries, fields[0]) && obj_get(entries, fields[0]) is Str {
            Some(obj_get(entries, fields[0])->Str_0)
        } else {
            direct_match(entries, fields.drop_first())
        }
    }
}

/// The identifier of a node under configured fields: a direct field match,
/// else the best nested candidate, else the content hash.
pub open spec fn spec_resolve_id(n: NodeData, fields: Seq<Seq<char>>) -> Seq<char>
    decreases n, 1int,
{
    match n {
        NodeData::Obj(entries) => {
            match direct_match(entries, fields) {
                Some(s) => s,
                None => {
                    match pick_candidate(entry_candidates(entries, fields)) {
                        Some(s) => s,
                        None => short_hash_of(n),
                    }
                },
            }
        },
        _ => short_hash_of(n),
    }
}

/// The candidate identifiers the nested search collects, in visit order:
/// one for each mapping-valued child, and one for each mapping item of
/// each list-valued child; a child whose own identifier resolves to the
/// empty string contributes nothing.
pub open spec fn entry_candidates(
    entries: Seq<(Seq<char>, NodeData)>,
    fields: Seq<Seq<char>>,
) -> Seq<Seq<char>>
    decreases entries, 0int,
{
    if entries.len() == 0 {
        Seq::empty()
    } else {
        value_candidates(entries[0].1, fields) + entry_candidates(entries.drop_first(), fields)
    }
}

/// The candidates one child value contributes.
pub open spec fn value_candidates(v: NodeData, fields: Seq<Seq<char>>) -> Seq<Seq<char>>
    decreases v, 2int,
{
    match v {
        NodeData::Obj(_) => if spec_resolve_id(v, fields).len() > 0 {
            seq![spec_resolve_id(v, fields)]
        } else {
            Seq::empty()
        },
        NodeData::Arr(items) => item_candidates(items, fields),
        _ => Seq::empty(),
    }
}

/// The candidates the mapping items of a list contribute.
pub open spec fn item_candidates(items: Seq<NodeData>, fields: Seq<Seq<char>>) -> Seq<Seq<char>>
    decreases items, 3int,
{
    if items.len() == 0 {
        Seq::empty()
    } else {
        (if items[0] is Obj && spec_resolve_id(items[0], fields).len() > 0 {
            seq![spec_resolve_id(items[0], fields)]
        } else {
            Seq::empty()
        }) + item_candidates(items.drop_first(), fields)
    }
}

/// The first candidate that is not hash-shaped.
pub open spec fn first_genuine(cands: Seq<Seq<char>>) -> Option<Seq<char>>
    decreases cands.len(),
{
    if cands.len() == 0 {
        None
    } else if !hash_shaped(cands[0]) {
        Some(cands[0])
    } else {
        first_genuine(cands.drop_first())
    }
}

/// The nested search's answer: a genuine (non-hash-shaped) candidate
/// outranks every hash-shaped one; failing that, the first candidate.
pub open spec fn pick_candidate(cands: Seq<Seq<char>>) -> Option<Seq<char>> {
    match first_genuine(cands) {
        Some(s) => Some(s),
        None => if cands.len() == 0 {
            None
        } else {
            Some(cands[0])
        },
    }
}

/// `first_genuine` distributes over concatenation.
proof fn lemma_first_genuine_concat(a: Seq<Seq<char>>, b: Seq<Seq<char>>)
    ensures
        first_genuine(a + b) == match first_genuine(a) {
            Some(s) => Some(s),
            None => first_genuine(b),
        },
    decreases a.len(),
{
    if a.len() == 0 {
        assert(a + b =~= b);
    } else {
        assert((a + b)[0] == a[0]);
        if hash_shaped(a[0]) {
            lemma_first_genuine_concat(a.drop_first(), b);
            assert((a + b).drop_first() =~= a.drop_first() + b);
        }
    }
}

} // verus!

verus! {

/// Finds the first configured field with a string value directly on the
/// entries, as `direct_match` describes.
#[verifier::rlimit(50)]
fn direct_match_exec(entries: &Vec<Entry>, ids: &str, fields: &Vec<String>) -> (r: Option<String>)
    requires
        fields@.len() == split_fields(ids@).len(),
        forall|i: int| 0 <= i < fields@.len() ==> #[trigger] fields@[i]@ == split_fields(ids@)[i],
    ensures
        match r {
            Some(s) => direct_match(entries_data(entries@), split_fields(ids@)) == Some(s@),
            None => direct_match(entries_data(entries@), split_fields(ids@)) is None,
        },
{
    let ghost fs = split_fields(ids@);
    let ghost ed = entries_data(entries@);
    proof {
        lemma_entries_data(entries@);
        assert(fs.subrange(0, fs.len() as int) =~= fs);
    }
    let mut i: usize = 0;
    while i < fields.len()
        invariant
            0 <= i <= fields@.len(),
            ed == entries_data(entries@),
            ed.len() == entries@.len(),
            forall|j: int|
                0 <= j < entries@.len() ==> #[trigger] ed[j] == (
                    entries@[j].key@,
                    entries@[j].val@,
                ),
            fs == split_fields(ids@),
            fields@.len() == fs.len(),
            forall|j: int| 0 <= j < fields@.len() ==> #[trigger] fields@[j]@ == fs[j],
            direct_match(ed, fs) == direct_match(ed, fs.subrange(i as int, fs.len() as int)),
        decreases fields@.len() - i,
    {
        let ghost suffix = fs.subrange(i as int, fs.len() as int);
        proof {
            assert(suffix[0] == fs[i as int]);
            assert(suffix.drop_first() =~= fs.subrange(i + 1, fs.len() as int));
        }
        match entry_index(entries, fields[i].as_str()) {
            Some(idx) => {
                proof {
                    crate::node::lemma_obj_index(ed, fs[i as int]);
                }
                match &entries[idx].val {
                    Node::Str(t) => {
                        proof {
                            assert(obj_get(ed, fs[i as int]) == entries@[idx as int].val@);
                            assert(obj_get(ed, suffix[0]) is Str);
                            assert(direct_match(ed, suffix) == Some(
                                obj_get(ed, suffix[0])->Str_0,
                            ));
                            assert(obj_get(ed, suffix[0])->Str_0 == t@);
                        }
                        let out = t.clone();
                        proof {
                            assert(out@ == t@);
                            assert(direct_match(ed, fs) == Some(out@));
                            assert(direct_match(entries_data(entries@), split_fields(ids@))
                                == Some(out@));
                        }
                        return Some(out);
                    },
                    _ => {
                        proof {
                            assert(obj_get(ed, fs[i as int]) == entries@[idx as int].val@);
                            assert(!(obj_get(ed, suffix[0]) is Str));
                        }
                    },
                }
            },
            None => {
            },
        }
        i = i + 1;
    }
    proof {
        assert(fs.subrange(i as int, fs.len() as int).len() == 0);
    }
    None
}

/// Resolves the identifier of one node against pre-split fields.
fn resolve_with_fields(element: &Node, ids: &str, fields: &Vec<String>) -> (r: String)
    requires
        fields@.len() == split_fields(ids@).len(),
        forall|i: int| 0 <= i < fields@.len() ==> #[trigger] fields@[i]@ == split_fields(ids@)[i],
    ensures
        r@ == spec_resolve_id(element@, split_fields(ids@)),
    decreases element,
{
    let ghost fs = split_fields(ids@);
    match element {
        Node::Obj(entries) => {
            proof {
                lemma_entries_data(entries@);
            }
            match direct_match_exec(entries, ids, fields) {
                Some(s) => s,
                None => {
                    match nested_match(element, entries, ids, fields) {
                        Some(s) => s,
                        None => create_short_hash(element),
                    }
                },
            }
        },
        _ => create_short_hash(element),
    }
}

/// Searches the nested children for a candidate identifier, as
/// `pick_candidate` over `entry_candidates` describes.
#[verifier::rlimit(100)]
fn nested_match(element: &Node, entries: &Vec<Entry>, ids: &str, fields: &Vec<String>) -> (r:
    Option<String>)
    requires
        *element matches Node::Obj(es) && es == *entries,
        fields@.len() == split_fields(ids@).len(),
        forall|i: int| 0 <= i < fields@.len() ==> #[trigger] fields@[i]@ == split_fields(ids@)[i],
    ensures
        match r {
            Some(s) => pick_candidate(
                entry_candidates(entries_data(entries@), split_fields(ids@)),
            ) == Some(s@),
            None => pick_candidate(entry_candidates(entries_data(entries@), split_fields(ids@)))
                is None,
        },
    decreases element, 0int,
{
    let ghost fs = split_fields(ids@);
    let ghost ed = entries_data(entries@);
    let ghost cands = entry_candidates(ed, fs);
    proof {
        lemma_entries_data(entries@);
        assert(ed.subrange(0, ed.len() as int) =~= ed);
        assert(Seq::<Seq<char>>::empty() + entry_candidates(ed, fs) =~= entry_candidates(ed, fs));
    }
    let mut fallback: Option<String> = None;
    let ghost mut prefix: Seq<Seq<char>> = Seq::empty();
    let mut i: usize = 0;
    #[verifier::loop_isolation(false)]
    while i < entries.len()
        invariant
            0 <= i <= entries@.len(),
            cands == prefix + entry_candidates(ed.subrange(i as int, ed.len() as int), fs),
            first_genuine(prefix) is None,
            match fallback {
                Some(f) => prefix.len() > 0 && f@ == prefix[0],
                None => prefix.len() == 0,
            },
        decreases entries@.len() - i,
    {
        let ghost suffix = ed.subrange(i as int, ed.len() as int);
        proof {
            assert(suffix[0] == ed[i as int]);
            assert(suffix.drop_first() =~= ed.subrange(i + 1, ed.len() as int));
        }
        match &entries[i].val {
            Node::Obj(_) => {
                let cand = resolve_with_fields(&entries[i].val, ids, fields);
                let ghost contribution = seq![cand@];
                if cand.as_str().is_empty() {
                    proof {
                        assert(value_candidates(ed[i as int].1, fs)
                            =~= Seq::<Seq<char>>::empty());
                        assert(cands =~= prefix + entry_candidates(suffix.drop_first(), fs));
                    }
                    i = i + 1;
                    continue;
                }
                proof {
                    assert(value_candidates(ed[i as int].1, fs) == contribution);
                }
                if !looks_like_hash(cand.as_str()) {
                    proof {
                        lemma_first_genuine_concat(prefix, contribution + entry_candidates(
                            suffix.drop_first(),
                            fs,
                        ));
                        lemma_first_genuine_concat(contribution, entry_candidates(
                            suffix.drop_first(),
                            fs,
                        ));
                        assert(cands =~= prefix + (contribution + entry_candidates(
                            suffix.drop_first(),
                            fs,
                        )));
                        assert(first_genuine(cands) == Some(cand@));
                    }
                    return Some(cand);
                }
                if fallback.is_none() {
                    fallback = Some(cand);
                }
                proof {
                    let pre0 = prefix;
                    prefix = prefix + contribution;
                    lemma_first_genuine_concat(pre0, contribution);
                    assert(first_genuine(contribution) is None) by {
                        assert(contribution.drop_first() =~= Seq::<Seq<char>>::empty());
                    }
                    assert(cands =~= prefix + entry_candidates(suffix.drop_first(), fs));
                    assert(prefix[0] == if pre0.len() > 0 {
                        pre0[0]
                    } else {
                        contribution[0]
                    });
                }
            },
            Node::Arr(items) => {
                proof {
                    lemma_items_data(items@);
                    assert(value_candidates(ed[i as int].1, fs) == item_candidates(
                        items_data(items@),
                        fs,
                    ));
                    assert(items_data(items@).subrange(0, items_data(items@).len() as int)
                        =~= items_data(items@));
                }
                let ghost idd = items_data(items@);
                let mut j: usize = 0;
                #[verifier::loop_isolation(false)]
                while j < items.len()
                    invariant
                        0 <= j <= items@.len(),
                        cands == prefix + item_candidates(
                            idd.subrange(j as int, idd.len() as int),
                            fs,
                        ) + entry_candidates(suffix.drop_first(), fs),
                        first_genuine(prefix) is None,
                        match fallback {
                            Some(f) => prefix.len() > 0 && f@ == prefix[0],
                            None => prefix.len() == 0,
                        },
                    decreases items@.len() - j,
                {
                    let ghost isuffix = idd.subrange(j as int, idd.len() as int);
                    proof {
                        assert(isuffix[0] == idd[j as int]);
                        assert(isuffix.drop_first() =~= idd.subrange(j + 1, idd.len() as int));
                    }
                    match &items[j] {
                        Node::Obj(_) => {
                            let cand = resolve_with_fields(&items[j], ids, fields);
                            let ghost contribution = seq![cand@];
                            if cand.as_str().is_empty() {
                                proof {
                                    assert(cands =~= prefix + item_candidates(
                                        isuffix.drop_first(),
                                        fs,
                                    ) + entry_candidates(suffix.drop_first(), fs));
                                }
                                j = j + 1;
                                continue;
                            }
                            if !looks_like_hash(cand.as_str()) {
                                proof {
                                    let tail = contribution + (item_candidates(
                                        isuffix.drop_first(),
                                        fs,
                                    ) + entry_candidates(suffix.drop_first(), fs));
                                    lemma_first_genuine_concat(prefix, tail);
                                    lemma_first_genuine_concat(contribution, item_candidates(
                                        isuffix.drop_first(),
                                        fs,
                                    ) + entry_candidates(suffix.drop_first(), fs));
                                    assert(cands =~= prefix + tail);
                                    assert(first_genuine(cands) == Some(cand@));
                                }
                                return Some(cand);
                            }
                            if fallback.is_none() {
                                fallback = Some(cand);
                            }
                            proof {
                                let pre0 = prefix;
                                prefix = prefix + contribution;
                                lemma_first_genuine_concat(pre0, contribution);
                                assert(first_genuine(contribution) is None) by {
                                    assert(contribution.drop_first()
                                        =~= Seq::<Seq<char>>::empty());
                                }
                                assert(cands =~= prefix + item_candidates(
                                    isuffix.drop_first(),
                                    fs,
                                ) + entry_candidates(suffix.drop_first(), fs));
                                assert(prefix[0] == if pre0.len() > 0 {
                                    pre0[0]
                                } else {
                                    contribution[0]
                                });
                            }
                        },
                        _ => {
                            proof {
                                assert(cands =~= prefix + item_candidates(
                                    isuffix.drop_first(),
                                    fs,
                                ) + entry_candidates(suffix.drop_first(), fs));
                            }
                        },
                    }
                    j = j + 1;
                }
                proof {
                    assert(idd.subrange(j as int, idd.len() as int).len() == 0);
                    assert(prefix + item_candidates(idd.subrange(j as int, idd.len() as int), fs)
                        + entry_candidates(suffix.drop_first(), fs) =~= prefix + entry_candidates(
                        suffix.drop_first(),
                        fs,
                    ));
                }
            },
            _ => {
                proof {
                    assert(value_candidates(ed[i as int].1, fs) =~= Seq::<Seq<char>>::empty());
                    assert(cands =~= prefix + entry_candidates(suffix.drop_first(), fs));
                }
            },
        }
        i = i + 1;
    }
    proof {
        assert(ed.subrange(i as int, ed.len() as int).len() == 0);
        assert(cands =~= prefix);
    }
    fallback
}

/// Resolves the unique identifier of an element: configured fields first,
/// then the nested preference search, then the content hash.
pub fn parse_unique_id_element(element: &Node, unique_id_elements: Option<&str>) -> (r: String)
    ensures
        r@ == match unique_id_elements {
            Some(ids) => spec_resolve_id(element@, split_fields(ids@)),
            None => short_hash_of(element@),
        },
{
    match unique_id_elements {
        Some(ids) => {
            let fields = split_fields_exec(ids);
            resolve_with_fields(element, ids, &fields)
        },
        None => create_short_hash(element),
    }
}

} // verus!

verus! {

/// Every candidate the nested search collects is a nonempty string.
proof fn lemma_entry_candidates_nonempty(
    entries: Seq<(Seq<char>, NodeData)>,
    fields: Seq<Seq<char>>,
)
    ensures
        forall|i: int|
            0 <= i < entry_candidates(entries, fields).len()
                ==> #[trigger] entry_candidates(entries, fields)[i].len() > 0,
    decreases entries, 0int,
{
    if entries.len() > 0 {
        lemma_value_candidates_nonempty(entries[0].1, fields);
        lemma_entry_candidates_nonempty(entries.drop_first(), fields);
        assert forall|i: int|
            0 <= i < entry_candidates(entries, fields).len() implies #[trigger] entry_candidates(
            entries,
            fields,
        )[i].len() > 0 by {
            let head = value_candidates(entries[0].1, fields);
            if i >= head.len() {
                assert(entry_candidates(entries, fields)[i] == entry_candidates(
                    entries.drop_first(),
                    fields,
                )[i - head.len()]);
            }
        }
    }
}

/// Every candidate one child value contributes is a nonempty string.
proof fn lemma_value_candidates_nonempty(v: NodeData, fields: Seq<Seq<char>>)
    ensures
        forall|i: int|
            0 <= i < value_candidates(v, fields).len() ==> #[trigger] value_candidates(
                v,
                fields,
            )[i].len() > 0,
    decreases v, 2int,
{
    match v {
        NodeData::Arr(items) => {
            lemma_item_candidates_nonempty(items, fields);
            assert(value_candidates(v, fields) == item_candidates(items, fields));
            assert forall|i: int|
                0 <= i < value_candidates(v, fields).len() implies #[trigger] value_candidates(
                v,
                fields,
            )[i].len() > 0 by {
                assert(value_candidates(v, fields)[i] == item_candidates(items, fields)[i]);
            }
        },
        NodeData::Obj(_) => {
            if spec_resolve_id(v, fields).len() > 0 {
                assert(value_candidates(v, fields) == seq![spec_resolve_id(v, fields)]);
            } else {
                assert(value_candidates(v, fields) == Seq::<Seq<char>>::empty());
            }
        },
        _ => {},
    }
}

/// Every candidate the items of a list contribute is a nonempty string.
proof fn lemma_item_candidates_nonempty(items: Seq<NodeData>, fields: Seq<Seq<char>>)
    ensures
        forall|i: int|
            0 <= i < item_candidates(items, fields).len() ==> #[trigger] item_candidates(
                items,
                fields,
            )[i].len() > 0,
    decreases items, 3int,
{
    if items.len() > 0 {
        lemma_item_candidates_nonempty(items.drop_first(), fields);
        assert forall|i: int|
            0 <= i < item_candidates(items, fields).len() implies #[trigger] item_candidates(
            items,
            fields,
        )[i].len() > 0 by {
            let head: Seq<Seq<char>> = if items[0] is Obj && spec_resolve_id(
                items[0],
                fields,
            ).len() > 0 {
                seq![spec_resolve_id(items[0], fields)]
            } else {
                Seq::empty()
            };
            if i >= head.len() {
                assert(item_candidates(items, fields)[i] == item_candidates(
                    items.drop_first(),
                    fields,
                )[i - head.len()]);
            }
        }
    }
}

/// What the preference search picks is one of the candidates.
proof fn lemma_pick_is_member(cands: Seq<Seq<char>>)
    ensures
        pick_candidate(cands) matches Some(s) ==> exists|i: int|
            0 <= i < cands.len() && cands[i] == s,
    decreases cands.len(),
{
    if cands.len() > 0 && hash_shaped(cands[0]) {
        lemma_pick_is_member(cands.drop_first());
        if first_genuine(cands.drop_first()) is Some {
            let s = first_genuine(cands.drop_first())->0;
            let j = choose|j: int| 0 <= j < cands.drop_first().len() && cands.drop_first()[j] == s;
            assert(cands[j + 1] == s);
        }
    }
}

/// The resolved identifier is never the empty string, as long as no
/// configured field stands directly on the element with an empty string
/// value: the nested search skips empty results, and the content hash
/// always has eight characters.
pub proof fn lemma_resolved_id_nonempty(n: NodeData, fields: Seq<Seq<char>>)
    requires
        n matches NodeData::Obj(entries) ==> (direct_match(entries, fields) matches Some(s)
            ==> s.len() > 0),
    ensures
        spec_resolve_id(n, fields).len() > 0,
{
    lemma_short_hash_shaped(n);
    match n {
        NodeData::Obj(entries) => {
            if direct_match(entries, fields) is None {
                let cands = entry_candidates(entries, fields);
                lemma_entry_candidates_nonempty(entries, fields);
                lemma_pick_is_member(cands);
            }
        },
        _ => {},
    }
}

} // verus!
