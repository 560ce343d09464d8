//! Extension handling on file names and paths, byte-exact over the
//! UTF-8 encoding: the extension is what follows the last dot of the
//! final path component, and a dot that starts the component does not
//! begin an extension.
use vstd::prelude::*;
use vstd::string::StringSliceAdditionalSpecFns;
use vstd::utf8::decode_utf8;
use vstd::utf8::encode_utf8;
use vstd::utf8::valid_utf8;

use crate::util::string_from_utf8;

verus! {

/// A successful backwards search lands inside the buffer.
pub proof fn lemma_find_last_byte_bounds(s: Seq<u8>, t: u8)
    ensures
        find_last_byte(s, t) == -1 || (0 <= find_last_byte(s, t) < s.len() && s[find_last_byte(
            s,
            t,
        )] == t),
    decreases s.len(),
{
    if s.len() > 0 && s[s.len() - 1] != t {
        lemma_find_last_byte_bounds(s.drop_last(), t);
    }
}

/// Index of the last byte equal to `t`, or -1.
pub open spec fn find_last_byte(s: Seq<u8>, t: u8) -> int
    decreases s.len(),
{
    if s.len() == 0 {
        -1
    } else if s[s.len() - 1] == t {
        s.len() - 1
    } else {
        find_last_byte(s.drop_last(), t)
    }
}

/// Where the extension of `s` starts (the dot), or -1: the last dot
/// strictly after the start of the final path component.
pub open spec fn extension_dot(s: Seq<u8>) -> int {
    let slash = find_last_byte(s, 0x2F);
    let dot = find_last_byte(s, 0x2E);
    if dot > slash + 1 {
        dot
    } else {
        -1
    }
}

/// The bytes of `s` with its extension replaced by `ext` (which carries
/// no leading dot). A name without an extension gains one; so does a
/// path whose final component is empty (a trailing separator), is only
/// a leading-dot name, or holds no dot: the dot and `ext` are appended
/// to the bytes as they stand.
pub open spec fn spec_change_extension(s: Seq<u8>, ext: Seq<u8>) -> Seq<u8> {
    let d = extension_dot(s);
    if d >= 0 {
        s.subrange(0, d) + seq![0x2Eu8] + ext
    } else {
        s + seq![0x2Eu8] + ext
    }
}

/// Number of leading dot bytes, as `str::trim_start_matches('.')` drops.
pub open spec fn dot_prefix_len(s: Seq<u8>) -> int
    decreases s.len(),
{
    if s.len() == 0 || s[0] != 0x2E {
        0
    } else {
        1 + dot_prefix_len(s.drop_first())
    }
}

/// Dots up to `a` and a non-dot at `a` (or the end) pin the prefix.
proof fn lemma_dot_prefix_exact(s: Seq<u8>, a: int)
    requires
        0 <= a <= s.len(),
        forall|j: int| 0 <= j < a ==> s[j] == 0x2E,
        a < s.len() ==> s[a] != 0x2E,
    ensures
        dot_prefix_len(s) == a,
    decreases a,
{
    if a > 0 {
        assert(forall|j: int| 0 <= j < a - 1 ==> s.drop_first()[j] == s[j + 1]);
        lemma_dot_prefix_exact(s.drop_first(), a - 1);
    }
}

/// Scans for the last byte equal to `t`.
pub fn find_last_byte_exec(s: &[u8], t: u8) -> (r: Option<usize>)
    ensures
        r is Some <==> find_last_byte(s@, t) >= 0,
        r matches Some(i) ==> i == find_last_byte(s@, t) && i < s@.len() && s@[i as int] == t,
{
    let n = s.len();
    proof {
        assert(s@.subrange(0, n as int) =~= s@);
    }
    let mut i: usize = n;
    while i > 0
        invariant
            i <= n,
            n == s@.len(),
            find_last_byte(s@, t) == find_last_byte(s@.subrange(0, i as int), t),
        decreases i,
    {
        proof {
            assert(s@.subrange(0, i as int).drop_last() =~= s@.subrange(0, i - 1));
            assert(s@.subrange(0, i as int).last() == s@[i - 1]);
        }
        if s[i - 1] == t {
            return Some(i - 1);
        }
        i = i - 1;
    }
    proof {
        assert(s@.subrange(0, 0) =~= Seq::<u8>::empty());
    }
    None
}

/// Splitting valid UTF-8 right before an ASCII byte keeps both parts
/// decodable.
proof fn lemma_split_before_ascii(s: Seq<u8>, d: int)
    requires
        valid_utf8(s),
        0 <= d < s.len(),
        s[d] < 0x80,
    ensures
        valid_utf8(s.subrange(0, d)),
    decreases 0int,
{
    broadcast use vstd::utf8::is_char_boundary_iff_not_is_continuation_byte;
    broadcast use vstd::utf8::valid_utf8_split;

    assert(!vstd::utf8::is_continuation_byte(s[d]));
    assert(vstd::utf8::is_char_boundary(s, d));
    assert(valid_utf8(s.subrange(0, d)) && valid_utf8(s.subrange(d, s.len() as int)));
}

/// Dropping the leading dots of a valid UTF-8 extension keeps it valid.
proof fn lemma_ext_skip_valid(s: Seq<u8>)
    requires
        valid_utf8(s),
    ensures
        valid_utf8(s.skip(dot_prefix_len(s))),
{
    broadcast use vstd::utf8::valid_utf8_split;

    let d = dot_prefix_len(s);
    lemma_dot_prefix_bounds(s);
    if d == 0 {
        assert(s.skip(0) =~= s);
    } else if d == s.len() {
        assert(s.skip(d) =~= Seq::<u8>::empty());
    } else {
        assert(s[d - 1] == 0x2E) by {
            lemma_dot_prefix_dots(s, d - 1);
        }
        lemma_boundary_after_ascii(s, d);
        assert(s.skip(d) =~= s.subrange(d, s.len() as int));
    }
}

/// In valid UTF-8, the position right after an ASCII byte is a
/// character boundary.
proof fn lemma_boundary_after_ascii(s: Seq<u8>, i: int)
    requires
        vstd::utf8::valid_utf8(s),
        1 <= i <= s.len(),
        s[i - 1] < 0x80,
    ensures
        vstd::utf8::is_char_boundary(s, i),
    decreases s.len(),
{
    let len1 = vstd::utf8::length_of_first_scalar(s);
    assert(vstd::utf8::valid_first_scalar(s));
    let pop = vstd::utf8::pop_first_scalar(s);
    if i == 1 {
        assert(vstd::utf8::is_leading_byte_width_1(s[0]));
        assert(len1 == 1);
        assert(vstd::utf8::is_char_boundary(pop, 0));
    } else {
        assert(1 <= len1 <= 4);
        if i - 1 < len1 {
            assert(vstd::utf8::is_continuation_byte(s[i - 1]));
            assert(false);
        }
        assert(pop[i - 1 - len1] == s[i - 1]);
        lemma_boundary_after_ascii(pop, i - len1);
    }
}

/// A rewritten valid name re-encodes to exactly its bytes.
pub proof fn lemma_change_extension_bytes(s: Seq<u8>, ext: Seq<u8>)
    requires
        valid_utf8(s),
        valid_utf8(ext),
    ensures
        encode_utf8(decode_utf8(spec_change_extension(s, ext))) == spec_change_extension(s, ext),
{
    lemma_change_extension_valid(s, ext);
    vstd::utf8::decode_utf8_encode_utf8(spec_change_extension(s, ext));
}

/// Returns `file_path` with its extension replaced by `new_extension`
/// (leading dots of the new extension are ignored). The result's bytes
/// are exactly `spec_change_extension` over the inputs.
pub fn change_extension(file_path: &str, new_extension: &str) -> (r: String)
    requires
        file_path.spec_bytes().len() + new_extension.spec_bytes().len() + 1 <= usize::MAX,
    ensures
        r@ == decode_utf8(
            spec_change_extension(
                file_path.spec_bytes(),
                new_extension.spec_bytes().skip(
                    dot_prefix_len(new_extension.spec_bytes()),
                ),
            ),
        ),
{
    let path_bytes = file_path.as_bytes();
    let np = path_bytes.len();
    let ext_bytes_full = new_extension.as_bytes();
    let mut drop: usize = 0;
    let ne = ext_bytes_full.len();
    while drop < ne && ext_bytes_full[drop] == 0x2E
        invariant
            drop <= ne,
            ne == ext_bytes_full@.len(),
            forall|j: int| 0 <= j < drop ==> ext_bytes_full@[j] == 0x2E,
        decreases ne - drop,
    {
        drop = drop + 1;
    }
    proof {
        lemma_dot_prefix_exact(ext_bytes_full@, drop as int);
    }
    let ext_bytes = vstd::slice::slice_subrange(ext_bytes_full, drop, ne);
    proof {
        lemma_find_last_byte_bounds(file_path.spec_bytes(), 0x2E);
        lemma_find_last_byte_bounds(file_path.spec_bytes(), 0x2F);
        assert(ext_bytes@ =~= new_extension.spec_bytes().skip(
            dot_prefix_len(new_extension.spec_bytes()),
        ));
    }

    let dot: Option<usize> = match find_last_byte_exec(path_bytes, 0x2E) {
        Some(d) => {
            let keep = match find_last_byte_exec(path_bytes, 0x2F) {
                Some(sl) => d > sl + 1,
                None => d > 0,
            };
            if keep {
                Some(d)
            } else {
                None
            }
        },
        None => None,
    };
    let mut out_bytes: Vec<u8> = Vec::new();
    match dot {
        Some(d) => {
            let head = vstd::slice::slice_subrange(path_bytes, 0, d);
            crate::util::append_slice(&mut out_bytes, head);
        },
        None => {
            crate::util::append_slice(&mut out_bytes, path_bytes);
        },
    }
    out_bytes.push(0x2E);
    crate::util::append_slice(&mut out_bytes, ext_bytes);
    proof {
        assert(out_bytes@ =~= spec_change_extension(
            file_path.spec_bytes(),
            new_extension.spec_bytes().skip(
                dot_prefix_len(new_extension.spec_bytes()),
            ),
        ));
    }
    match string_from_utf8(out_bytes.as_slice()) {
        Some(s) => s,
        None => {
            proof {
                vstd::utf8::encode_utf8_valid_utf8(file_path@);
                vstd::utf8::encode_utf8_valid_utf8(new_extension@);
                lemma_ext_skip_valid(new_extension.spec_bytes());
                lemma_change_extension_valid(
                    file_path.spec_bytes(),
                    new_extension.spec_bytes().skip(
                        dot_prefix_len(new_extension.spec_bytes()),
                    ),
                );
                assert(false);
            }
            String::new()
        },
    }
}

/// The dot prefix never exceeds the string.
proof fn lemma_dot_prefix_bounds(s: Seq<u8>)
    ensures
        0 <= dot_prefix_len(s) <= s.len(),
    decreases s.len(),
{
    if s.len() > 0 && s[0] == 0x2E {
        lemma_dot_prefix_bounds(s.drop_first());
    }
}

/// Every byte below the dot prefix is a dot.
proof fn lemma_dot_prefix_dots(s: Seq<u8>, j: int)
    requires
        0 <= j < dot_prefix_len(s),
        dot_prefix_len(s) <= s.len(),
    ensures
        s[j] == 0x2E,
    decreases j,
{
    lemma_dot_prefix_bounds(s);
    if j > 0 {
        lemma_dot_prefix_bounds(s.drop_first());
        lemma_dot_prefix_dots(s.drop_first(), j - 1);
    }
}

/// The rewritten name stays valid UTF-8: the head is cut before an
/// ASCII dot of a valid string, and the appended tail is valid.
proof fn lemma_change_extension_valid(s: Seq<u8>, ext: Seq<u8>)
    requires
        valid_utf8(s),
        valid_utf8(ext),
    ensures
        valid_utf8(spec_change_extension(s, ext)),
{
    let d = extension_dot(s);
    let dotseq = seq![0x2Eu8];
    assert(valid_utf8(dotseq)) by {
        assert(dotseq.subrange(0, 0) =~= Seq::<u8>::empty());
        assert(vstd::utf8::partial_valid_utf8(dotseq, 0));
        vstd::utf8::partial_valid_utf8_extend_ascii_block(dotseq, 0, 1);
        assert(dotseq.subrange(0, 1) =~= dotseq);
    }
    if d >= 0 {
        lemma_find_last_byte_bounds(s, 0x2E);
        assert(s[d] == 0x2E);
        lemma_split_before_ascii(s, d);
        vstd::utf8::valid_utf8_concat(s.subrange(0, d), dotseq);
        vstd::utf8::valid_utf8_concat(s.subrange(0, d) + dotseq, ext);
    } else {
        vstd::utf8::valid_utf8_concat(s, dotseq);
        vstd::utf8::valid_utf8_concat(s + dotseq, ext);
    }
}


/// ASCII lower-casing of one byte.
pub open spec fn ascii_lower(b: u8) -> u8 {
    if 0x41 <= b <= 0x5A {
        (b + 0x20) as u8
    } else {
        b
    }
}

/// `s` ends with `suffix`, ASCII case-insensitively (the suffix is
/// given in lower case).
pub open spec fn ends_with_ci(s: Seq<u8>, suffix: Seq<u8>) -> bool {
    s.len() >= suffix.len() && forall|i: int|
        0 <= i < suffix.len() ==> ascii_lower(s[s.len() - suffix.len() + i]) == suffix[i]
}

/// The extension of `s` equals `ext` (lower case, no dot), ASCII
/// case-insensitively.
pub open spec fn has_extension_ci(s: Seq<u8>, ext: Seq<u8>) -> bool {
    let d = extension_dot(s);
    d >= 0 && s.len() == d + 1 + ext.len() && (forall|i: int|
        0 <= i < ext.len() ==> ascii_lower(s[d + 1 + i]) == ext[i])
}

/// Case-insensitive suffix test over bytes.
pub fn ends_with_ci_exec(s: &[u8], suffix: &[u8]) -> (r: bool)
    ensures
        r == ends_with_ci(s@, suffix@),
{
    let n = s.len();
    let m = suffix.len();
    if n < m {
        return false;
    }
    let mut i: usize = 0;
    while i < m
        invariant
            m <= n,
            n == s@.len(),
            m == suffix@.len(),
            i <= m,
            forall|j: int| 0 <= j < i ==> ascii_lower(s@[n - m + j]) == suffix@[j],
        decreases m - i,
    {
        let b = s[n - m + i];
        let lower: u8 = if 0x41 <= b && b <= 0x5A {
            b + 0x20
        } else {
            b
        };
        if lower != suffix[i] {
            return false;
        }
        i = i + 1;
    }
    true
}

/// Case-insensitive extension test over bytes.
pub fn has_extension_ci_exec(s: &[u8], ext: &[u8]) -> (r: bool)
    ensures
        r == has_extension_ci(s@, ext@),
{
    proof {
        lemma_find_last_byte_bounds(s@, 0x2E);
        lemma_find_last_byte_bounds(s@, 0x2F);
    }
    let n = s.len();
    let d = match find_last_byte_exec(s, 0x2E) {
        Some(d) => d,
        None => {
            return false;
        },
    };
    let keep = match find_last_byte_exec(s, 0x2F) {
        Some(sl) => d > sl + 1,
        None => d > 0,
    };
    if !keep {
        return false;
    }
    let m = ext.len();
    if n - d - 1 != m {
        return false;
    }
    let mut i: usize = 0;
    while i < m
        invariant
            n == s@.len(),
            m == ext@.len(),
            n == d + 1 + m,
            d < n,
            i <= m,
            forall|j: int| 0 <= j < i ==> ascii_lower(s@[d + 1 + j]) == ext@[j],
        decreases m - i,
    {
        let b = s[d + 1 + i];
        let lower: u8 = if 0x41 <= b && b <= 0x5A {
            b + 0x20
        } else {
            b
        };
        if lower != ext[i] {
            return false;
        }
        i = i + 1;
    }
    true
}

/// The file stem of `s`: everything before the extension dot, or the
/// whole name when there is none.
pub open spec fn spec_file_stem(s: Seq<u8>) -> Seq<u8> {
    let d = extension_dot(s);
    if d >= 0 {
        s.subrange(0, d)
    } else {
        s
    }
}

/// Borrows the stem of a name.
pub fn file_stem_exec<'a>(s: &'a [u8]) -> (r: &'a [u8])
    ensures
        r@ == spec_file_stem(s@),
{
    proof {
        lemma_find_last_byte_bounds(s@, 0x2E);
        lemma_find_last_byte_bounds(s@, 0x2F);
    }
    let n = s.len();
    let d: Option<usize> = match find_last_byte_exec(s, 0x2E) {
        Some(d) => {
            let keep = match find_last_byte_exec(s, 0x2F) {
                Some(sl) => d > sl + 1,
                None => d > 0,
            };
            if keep {
                Some(d)
            } else {
                None
            }
        },
        None => None,
    };
    match d {
        Some(d) => {
            let r = vstd::slice::slice_subrange(s, 0, d);
            proof {
                assert(r@ =~= spec_file_stem(s@));
            }
            r
        },
        None => {
            let r = vstd::slice::slice_subrange(s, 0, n);
            proof {
                assert(r@ =~= spec_file_stem(s@));
            }
            r
        },
    }
}


/// A backwards search in a concatenation: the second part wins when it
/// holds the byte at all.
proof fn lemma_find_last_byte_concat(a: Seq<u8>, b: Seq<u8>, t: u8)
    ensures
        find_last_byte(a + b, t) == (if find_last_byte(b, t) >= 0 {
            a.len() + find_last_byte(b, t)
        } else {
            find_last_byte(a, t)
        }),
    decreases b.len(),
{
    lemma_find_last_byte_bounds(b, t);
    lemma_find_last_byte_bounds(a, t);
    if b.len() == 0 {
        assert(a + b =~= a);
    } else {
        assert((a + b).drop_last() =~= a + b.drop_last());
        assert((a + b).last() == b.last());
        if b.last() != t {
            lemma_find_last_byte_concat(a, b.drop_last(), t);
        }
    }
}

/// Renaming a name that carries an extension twice is the same as
/// renaming it once: the intermediate extension is replaced wholesale,
/// provided it contains no dot or slash of its own.
pub proof fn lemma_change_extension_roundtrip(s: Seq<u8>, ext1: Seq<u8>, ext2: Seq<u8>)
    requires
        extension_dot(s) >= 0,
        ext1.len() > 0,
        forall|k: int| 0 <= k < ext1.len() ==> (#[trigger] ext1[k]) != 0x2E && ext1[k] != 0x2F,
    ensures
        spec_change_extension(spec_change_extension(s, ext1), ext2) == spec_change_extension(
            s,
            ext2,
        ),
{
    let d = extension_dot(s);
    lemma_find_last_byte_bounds(s, 0x2E);
    lemma_find_last_byte_bounds(s, 0x2F);
    let head = s.subrange(0, d);
    let renamed = head + seq![0x2Eu8] + ext1;
    assert(spec_change_extension(s, ext1) == renamed);
    let mid = head + seq![0x2Eu8];
    assert(renamed =~= mid + ext1);
    lemma_find_last_byte_concat(mid, ext1, 0x2E);
    lemma_find_last_byte_concat(mid, ext1, 0x2F);
    assert(find_last_byte(ext1, 0x2E) == -1) by {
        lemma_find_last_byte_bounds(ext1, 0x2E);
        if find_last_byte(ext1, 0x2E) >= 0 {
            assert(ext1[find_last_byte(ext1, 0x2E)] == 0x2E);
        }
    }
    assert(find_last_byte(ext1, 0x2F) == -1) by {
        lemma_find_last_byte_bounds(ext1, 0x2F);
        if find_last_byte(ext1, 0x2F) >= 0 {
            assert(ext1[find_last_byte(ext1, 0x2F)] == 0x2F);
        }
    }
    assert(mid =~= head.push(0x2Eu8));
    lemma_find_last_byte_concat(head, seq![0x2Eu8], 0x2E);
    lemma_find_last_byte_concat(head, seq![0x2Eu8], 0x2F);
    assert(head + seq![0x2Eu8] =~= mid);
    assert(find_last_byte(seq![0x2Eu8], 0x2E) == 0);
    assert(find_last_byte(seq![0x2Eu8], 0x2F) == -1) by {
        lemma_find_last_byte_bounds(seq![0x2Eu8], 0x2F);
        if find_last_byte(seq![0x2Eu8], 0x2F) >= 0 {
            assert(seq![0x2Eu8][find_last_byte(seq![0x2Eu8], 0x2F)] == 0x2F);
        }
    }
    assert(find_last_byte(mid, 0x2E) == d);
    assert(find_last_byte(renamed, 0x2E) == d);
    // Slashes live only in the head, below the dot.
    assert(find_last_byte(head, 0x2F) == find_last_byte(s, 0x2F)) by {
        lemma_find_last_prefix(s, d, 0x2F);
    }
    assert(find_last_byte(renamed, 0x2F) == find_last_byte(s, 0x2F));
    assert(extension_dot(renamed) == d);
    assert(renamed.subrange(0, d) =~= head);
    assert(spec_change_extension(renamed, ext2) =~= spec_change_extension(s, ext2));
}

/// A byte that occurs only before `d` is found at the same place in the
/// prefix up to `d`.
proof fn lemma_find_last_prefix(s: Seq<u8>, d: int, t: u8)
    requires
        0 <= d <= s.len(),
        find_last_byte(s, t) < d,
    ensures
        find_last_byte(s.subrange(0, d), t) == find_last_byte(s, t),
    decreases s.len(),
{
    lemma_find_last_byte_bounds(s, t);
    if d == s.len() {
        assert(s.subrange(0, d) =~= s);
    } else {
        assert(s[s.len() - 1] != t) by {
            if s[s.len() - 1] == t {
                assert(find_last_byte(s, t) == s.len() - 1);
            }
        }
        assert(s.drop_last() =~= s.subrange(0, s.len() - 1));
        assert(find_last_byte(s.drop_last(), t) == find_last_byte(s, t));
        lemma_find_last_prefix(s.drop_last(), d, t);
        assert(s.drop_last().subrange(0, d) =~= s.subrange(0, d));
    }
}

/// Replacing a name's extension with the extension it already carries
/// is the identity.
pub proof fn lemma_change_extension_identity(s: Seq<u8>)
    requires
        extension_dot(s) >= 0,
    ensures
        spec_change_extension(s, s.skip(extension_dot(s) + 1)) == s,
{
    let d = extension_dot(s);
    lemma_find_last_byte_bounds(s, 0x2E);
    assert(spec_change_extension(s, s.skip(d + 1)) =~= s);
}

} // verus!
