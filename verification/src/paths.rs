//! Path-text helpers: normalization to forward slashes and the fragment
//! naming rules that connect disassembly output to reassembly input.

use vstd::prelude::*;

use crate::chars::chars_to_string;
use crate::chars::matches_at;
use crate::chars::str_to_chars;
use crate::chars::push_range;
use crate::escape::scan_char;
use crate::escape::lemma_scan_char;
use crate::escape::find_char;

verus! {

/// `s` with every repetition of the extended-path prefix `\\?\` removed
/// from the front.
pub open spec fn strip_ext_prefix(s: Seq<char>) -> Seq<char>
    decreases s.len(),
{
    if matches_at(s, 0, "\\\\?\\"@) && s.len() >= 4 {
        strip_ext_prefix(s.subrange(4, s.len() as int))
    } else {
        s
    }
}

/// `s` with every backslash replaced by a forward slash.
pub open spec fn fwd_slashes(s: Seq<char>) -> Seq<char>
    decreases s.len(),
{
    if s.len() == 0 {
        Seq::empty()
    } else {
        fwd_slashes(s.drop_last()) + seq![
            if s.last() == '\\' {
                '/'
            } else {
                s.last()
            },
        ]
    }
}

/// The normalized form of a path: the extended-path prefix stripped, and
/// every backslash turned into a forward slash.
pub open spec fn spec_normalize_path(s: Seq<char>) -> Seq<char> {
    fwd_slashes(strip_ext_prefix(s))
}

/// Normalizes a path to forward slashes, stripping the extended-path
/// prefix, as `spec_normalize_path` describes.
pub fn normalize_path_unix(path: &str) -> (r: String)
    ensures
        r@ == spec_normalize_path(path@),
{
    let cs = str_to_chars(path);
    let pat = str_to_chars("\\\\?\\");
    proof {
        reveal_strlit("\\\\?\\");
    }
    let n = cs.len();
    let mut at: usize = 0;
    proof {
        assert(cs@.subrange(0, cs@.len() as int) =~= cs@);
        assert(cs@.len() == n);
    }
    while crate::chars::check_match(&cs, at, &pat)
        invariant
            0 <= at <= cs@.len(),
            cs@ == path@,
            pat@ == "\\\\?\\"@,
            pat@.len() == 4,
            cs@.len() == n,
            strip_ext_prefix(path@) == strip_ext_prefix(cs@.subrange(at as int, cs@.len() as int)),
        decreases cs@.len() - at,
    {
        proof {
            let suffix = cs@.subrange(at as int, cs@.len() as int);
            assert(matches_at(suffix, 0, pat@)) by {
                assert(suffix.subrange(0, 4) =~= cs@.subrange(at as int, at + 4));
            }
            assert(suffix.subrange(4, suffix.len() as int) =~= cs@.subrange(
                at + 4,
                cs@.len() as int,
            ));
        }
        at = at + 4;
    }
    proof {
        let suffix = cs@.subrange(at as int, cs@.len() as int);
        if matches_at(suffix, 0, pat@) && suffix.len() >= 4 {
            assert(suffix.subrange(0, 4) =~= cs@.subrange(at as int, at + 4));
        }
        assert(strip_ext_prefix(suffix) == suffix);
    }
    let mut out: Vec<char> = Vec::new();
    let mut i: usize = at;
    while i < cs.len()
        invariant
            at <= i <= cs@.len(),
            cs@ == path@,
            out@ == fwd_slashes(cs@.subrange(at as int, i as int)),
        decreases cs@.len() - i,
    {
        let c = cs[i];
        if c == '\\' {
            out.push('/');
        } else {
            out.push(c);
        }
        i = i + 1;
        proof {
            let p = cs@.subrange(at as int, i - 1);
            let q = cs@.subrange(at as int, i as int);
            assert(q.drop_last() =~= p);
            assert(q.last() == c);
            assert(out@ =~= fwd_slashes(q));
        }
    }
    proof {
        assert(cs@.subrange(at as int, cs@.len() as int) =~= cs@.subrange(
            at as int,
            cs@.len() as int,
        ));
    }
    chars_to_string(&out)
}

/// The path segment a file pattern names: its prefix before the first
/// dash, or the whole pattern when it has none.
pub open spec fn spec_path_segment(s: Seq<char>) -> Seq<char> {
    s.subrange(0, scan_char(s, 0, '-'))
}

/// Derives the reassembly path segment from a file pattern, as
/// `spec_path_segment` describes.
pub fn path_segment_from_file_pattern(file_pattern: &str) -> (r: String)
    ensures
        r@ == spec_path_segment(file_pattern@),
{
    let cs = str_to_chars(file_pattern);
    let d = find_char(&cs, 0, '-');
    proof {
        lemma_scan_char(cs@, 0, '-');
    }
    let mut out: Vec<char> = Vec::new();
    push_range(&mut out, &cs, 0, d);
    chars_to_string(&out)
}

} // verus!
