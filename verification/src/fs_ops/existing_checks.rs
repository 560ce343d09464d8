//! Output-path policy: where a transformed file lands, and the decision
//! record for whether writing it is allowed.
use vstd::prelude::*;
use vstd::string::StrSliceExecFns;
use vstd::string::StringSliceAdditionalSpecFns;
use vstd::string::StringExecFns;
use vstd::utf8::decode_utf8;
use vstd::utf8::encode_utf8;

use crate::fs_ops::path_tools::change_extension;
use crate::fs_ops::path_tools::dot_prefix_len;
use crate::fs_ops::path_tools::spec_change_extension;

verus! {

/// Whether an output file may be written.
#[derive(Debug, Clone, Copy, PartialEq, Eq)]
pub enum WriteDecision {
    /// The target does not exist yet.
    Allow,
    /// The target existed and was removed for overwriting.
    AllowOverwrite,
    /// The target exists and overwriting was not requested.
    DenyDuplicate,
}

/// Index of the last occurrence of `c`, or -1.
pub open spec fn find_last_char(s: Seq<char>, c: char) -> int
    decreases s.len(),
{
    if s.len() == 0 {
        -1
    } else if s[s.len() - 1] == c {
        s.len() - 1
    } else {
        find_last_char(s.drop_last(), c)
    }
}

/// The final path component of `s`: everything after the last `/`.
pub open spec fn spec_file_name_chars(s: Seq<char>) -> Seq<char> {
    s.skip(find_last_char(s, '/') + 1)
}

/// A successful backwards character search lands inside the string.
proof fn lemma_find_last_char_bounds(s: Seq<char>, c: char)
    ensures
        find_last_char(s, c) == -1 || (0 <= find_last_char(s, c) < s.len() && s[find_last_char(
            s,
            c,
        )] == c),
        forall|j: int| find_last_char(s, c) < j < s.len() ==> s[j] != c,
    decreases s.len(),
{
    if s.len() > 0 && s[s.len() - 1] != c {
        lemma_find_last_char_bounds(s.drop_last(), c);
        assert(forall|j: int| 0 <= j < s.len() - 1 ==> s.drop_last()[j] == s[j]);
    }
}

/// Encoding a suffix never takes more bytes than encoding the whole.
proof fn lemma_encode_skip_len(s: Seq<char>, k: int)
    requires
        0 <= k <= s.len(),
    ensures
        encode_utf8(s.skip(k)).len() <= encode_utf8(s).len(),
    decreases k,
{
    if k > 0 {
        assert(s.skip(k) =~= s.drop_first().skip(k - 1));
        lemma_encode_skip_len(s.drop_first(), k - 1);
        assert(encode_utf8(s) == vstd::utf8::encode_scalar(s[0] as u32) + encode_utf8(
            s.drop_first(),
        ));
    } else {
        assert(s.skip(0) =~= s);
    }
}

/// Computes the output path for a transformed file inside `target_dir`:
/// the source's file name, its extension replaced, under the directory.
/// A separator is inserted only when the directory is non-empty and
/// does not already end in one.
pub fn target_path_for(source_file: &str, target_extension: &str, target_dir: &str) -> (r: String)
    requires
        source_file.spec_bytes().len() + target_extension.spec_bytes().len() + 1 <= usize::MAX,
    ensures
        r@ == target_dir@ + (if target_dir@.len() > 0 && target_dir@.last() != '/' {
            "/"@
        } else {
            Seq::<char>::empty()
        }) + decode_utf8(
            spec_change_extension(
                encode_utf8(spec_file_name_chars(source_file@)),
                target_extension.spec_bytes().skip(
                    dot_prefix_len(target_extension.spec_bytes()),
                ),
            ),
        ),
{
    let n_chars = source_file.unicode_len();
    let mut start: usize = n_chars;
    while start > 0 && source_file.get_char(start - 1) != '/'
        invariant
            start <= n_chars,
            n_chars == source_file@.len(),
            forall|j: int| start <= j < n_chars ==> source_file@[j] != '/',
        decreases start,
    {
        start = start - 1;
    }
    proof {
        lemma_find_last_char_bounds(source_file@, '/');
        assert(start as int == find_last_char(source_file@, '/') + 1);
    }
    let name_str = source_file.substring_char(start, n_chars);
    proof {
        assert(name_str@ =~= spec_file_name_chars(source_file@));
        lemma_encode_skip_len(source_file@, start as int);
    }
    let renamed = change_extension(name_str, target_extension);
    let dlen = target_dir.unicode_len();
    let needs_sep = dlen > 0 && target_dir.get_char(dlen - 1) != '/';
    let mut out = String::from_str(target_dir);
    if needs_sep {
        out.append("/");
    } else {
        proof {
            assert(out@ + Seq::<char>::empty() =~= out@);
        }
    }
    out.append(renamed.as_str());
    out
}

} // verus!
