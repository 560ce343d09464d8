//! The NCA header analyzer and key schedule: key-file parsing, ticket
//! records, XTS header decryption, section enumeration with BKTR
//! subsection expansion, and the compression plan fed to the NCZ encoder.
use vstd::prelude::*;
use vstd::string::StringSliceAdditionalSpecFns;
use vstd::bytes::*;
use vstd::multiset::Multiset;

use crate::crypto::primitives::aes128_decrypt_block_spec;
use crate::crypto::primitives::aes_ecb_decrypt_block;
use crate::crypto::primitives::ctr_xor;
use crate::error::container_format_error;
use crate::error::NszError;

verus! {

/// Compressibility facts read from an NCA header.
#[derive(Debug, Clone, PartialEq, Eq)]
pub struct NcaCompressionMeta {
    /// Content-type byte of the header.
    pub content_type: u8,
    /// Declared NCA size.
    pub size: u64,
    /// Sections are contiguous and end exactly at `size`.
    pub packed: bool,
}

impl NcaCompressionMeta {
    /// What `is_compressible` returns: program (0x00) or data (0x05)
    /// content whose sections pack the file.
    pub open spec fn spec_is_compressible(&self) -> bool {
        (self.content_type == 0x00 || self.content_type == 0x05) && self.packed
    }

    /// An NCA is worth transcoding when it holds program or data content
    /// and its sections pack the file.
    pub fn is_compressible(&self) -> (r: bool)
        ensures
            r == self.spec_is_compressible(),
    {
        (self.content_type == 0x00 || self.content_type == 0x05) && self.packed
    }
}

/// One encryption descriptor of a compression plan.
#[derive(Debug, Clone, PartialEq, Eq)]
pub struct NcaEncryptionSection {
    /// Absolute byte offset in the NCA.
    pub offset: u64,
    /// Byte size of the range.
    pub size: u64,
    /// Normalized crypto type (BKTR's 4 becomes 3).
    pub crypto_type: u64,
    /// Key applied over the range.
    pub crypto_key: [u8; 16],
    /// Counter applied over the range.
    pub crypto_counter: [u8; 16],
}

/// The output of header analysis and key resolution.
#[derive(Debug, Clone, PartialEq, Eq)]
pub struct NcaCompressionPlan {
    /// Compressibility facts of the header.
    pub meta: NcaCompressionMeta,
    /// Absolute offset of the first section.
    pub offset_first_section: u64,
    /// Encryption descriptors, in section order.
    pub sections: Vec<NcaEncryptionSection>,
}

/// A ticket's key material for one rights id.
#[derive(Debug, Clone, PartialEq, Eq)]
pub struct TicketRecord {
    /// The rights id the ticket grants.
    pub rights_id: [u8; 16],
    /// The encrypted title key.
    pub encrypted_title_key: [u8; 16],
    /// Master-key revision byte.
    pub master_key_revision: u8,
}

// ---------------------------------------------------------------------
// Key-file model: lines, trimming, `name = hex` entries.
// ---------------------------------------------------------------------

/// ASCII whitespace as trimmed from key-file lines.
pub open spec fn is_ascii_ws(b: u8) -> bool {
    b == 0x20 || b == 0x09 || b == 0x0A || b == 0x0D || b == 0x0B || b == 0x0C
}

/// Index of the first byte equal to `t` at or after `from`, or -1.
pub open spec fn find_byte(s: Seq<u8>, t: u8, from: int) -> int
    decreases s.len() - from,
{
    if from < 0 || from >= s.len() {
        -1
    } else if s[from] == t {
        from
    } else {
        find_byte(s, t, from + 1)
    }
}

/// Number of leading whitespace bytes.
pub open spec fn ws_prefix_len(s: Seq<u8>) -> int
    decreases s.len(),
{
    if s.len() == 0 || !is_ascii_ws(s[0]) {
        0
    } else {
        1 + ws_prefix_len(s.drop_first())
    }
}

/// Number of trailing whitespace bytes.
pub open spec fn ws_suffix_len(s: Seq<u8>) -> int
    decreases s.len(),
{
    if s.len() == 0 || !is_ascii_ws(s[s.len() - 1]) {
        0
    } else {
        1 + ws_suffix_len(s.drop_last())
    }
}

/// The line with its surrounding ASCII whitespace removed.
pub open spec fn trim_bytes(s: Seq<u8>) -> Seq<u8> {
    let a = ws_prefix_len(s);
    if a == s.len() {
        Seq::<u8>::empty()
    } else {
        s.subrange(a, s.len() - ws_suffix_len(s))
    }
}

/// The `(name, value)` pair a line contributes: `None` for blank lines,
/// comments, and lines without `=`.
pub open spec fn keyfile_line_entry(line: Seq<u8>) -> Option<(Seq<u8>, Seq<u8>)> {
    let t = trim_bytes(line);
    if t.len() == 0 || t[0] == 0x23 {
        None
    } else {
        let eq = find_byte(t, 0x3D, 0);
        if eq < 0 {
            None
        } else {
            Some((trim_bytes(t.subrange(0, eq)), trim_bytes(t.subrange(eq + 1, t.len() as int))))
        }
    }
}

/// All `(name, value)` entries of a key file, in line order.
pub open spec fn keyfile_entries(s: Seq<u8>) -> Seq<(Seq<u8>, Seq<u8>)>
    decreases s.len(),
    via keyfile_entries_decreases
{
    if s.len() == 0 {
        Seq::<(Seq<u8>, Seq<u8>)>::empty()
    } else {
        let nl = find_byte(s, 0x0A, 0);
        if nl < 0 {
            match keyfile_line_entry(s) {
                Some(e) => seq![e],
                None => Seq::<(Seq<u8>, Seq<u8>)>::empty(),
            }
        } else {
            let head = match keyfile_line_entry(s.subrange(0, nl)) {
                Some(e) => seq![e],
                None => Seq::<(Seq<u8>, Seq<u8>)>::empty(),
            };
            head + keyfile_entries(s.subrange(nl + 1, s.len() as int))
        }
    }
}

#[via_fn]
proof fn keyfile_entries_decreases(s: Seq<u8>) {
    if s.len() > 0 {
        lemma_find_byte_bounds(s, 0x0A, 0);
    }
}

/// A successful byte search lands inside the buffer.
pub proof fn lemma_find_byte_bounds(s: Seq<u8>, t: u8, from: int)
    requires
        0 <= from <= s.len(),
    ensures
        find_byte(s, t, from) == -1 || from <= find_byte(s, t, from) < s.len(),
    decreases s.len() - from,
{
    if from < s.len() && s[from] != t {
        lemma_find_byte_bounds(s, t, from + 1);
    }
}

/// The value of the last entry named `name`, if any: later lines win.
pub open spec fn keyfile_lookup(entries: Seq<(Seq<u8>, Seq<u8>)>, name: Seq<u8>) -> Option<
    Seq<u8>,
>
    decreases entries.len(),
{
    if entries.len() == 0 {
        None
    } else if entries.last().0 == name {
        Some(entries.last().1)
    } else {
        keyfile_lookup(entries.drop_last(), name)
    }
}

/// Value of one hex digit, or -1.
pub open spec fn hex_nibble_val(b: u8) -> int {
    if 0x30 <= b <= 0x39 {
        b - 0x30
    } else if 0x61 <= b <= 0x66 {
        b - 0x61 + 10
    } else if 0x41 <= b <= 0x46 {
        b - 0x41 + 10
    } else {
        -1
    }
}

/// `v` is exactly `n` bytes of hex.
pub open spec fn is_hex_key(v: Seq<u8>, n: int) -> bool {
    v.len() == 2 * n && forall|i: int| 0 <= i < v.len() ==> hex_nibble_val(#[trigger] v[i]) >= 0
}

/// The bytes a hex string decodes to.
pub open spec fn hex_decode(v: Seq<u8>) -> Seq<u8> {
    Seq::new(
        (v.len() / 2) as nat,
        |i: int| (hex_nibble_val(v[2 * i]) * 16 + hex_nibble_val(v[2 * i + 1])) as u8,
    )
}

/// The numeric value of a hex string, most significant digit first.
pub open spec fn hex_fold(v: Seq<u8>) -> int
    decreases v.len(),
{
    if v.len() == 0 {
        0
    } else {
        hex_fold(v.drop_last()) * 16 + hex_nibble_val(v.last())
    }
}

/// The key index a `master_key_XX` suffix denotes: hex digits whose
/// value fits a byte.
pub open spec fn hex_u8_suffix(v: Seq<u8>) -> Option<u8> {
    if v.len() > 0 && (forall|i: int| 0 <= i < v.len() ==> hex_nibble_val(#[trigger] v[i]) >= 0)
        && hex_fold(v) <= 255 {
        Some(hex_fold(v) as u8)
    } else {
        None
    }
}

/// Scans for the first byte equal to `t` at or after `from`.
fn find_byte_exec(s: &[u8], t: u8, from: usize) -> (r: Option<usize>)
    requires
        from <= s@.len(),
    ensures
        r is Some <==> find_byte(s@, t, from as int) >= 0,
        r matches Some(i) ==> i == find_byte(s@, t, from as int) && from <= i < s@.len(),
    decreases s@.len() - from,
{
    let n = s.len();
    let mut i: usize = from;
    while i < n
        invariant
            from <= i <= n,
            n == s@.len(),
            find_byte(s@, t, from as int) == find_byte(s@, t, i as int),
        decreases n - i,
    {
        if s[i] == t {
            return Some(i);
        }
        i = i + 1;
    }
    None
}

/// Trims ASCII whitespace from both ends of a byte slice.
fn trim_bytes_exec(s: &[u8]) -> (r: Vec<u8>)
    ensures
        r@ == trim_bytes(s@),
{
    let n = s.len();
    let mut a: usize = 0;
    while a < n && (s[a] == 0x20 || s[a] == 0x09 || s[a] == 0x0A || s[a] == 0x0D || s[a] == 0x0B
        || s[a] == 0x0C)
        invariant
            a <= n,
            n == s@.len(),
            forall|j: int| 0 <= j < a ==> is_ascii_ws(#[trigger] s@[j]),
        decreases n - a,
    {
        a = a + 1;
    }
    proof {
        lemma_ws_prefix_exact(s@, a as int);
    }
    if a == n {
        proof {
            assert(trim_bytes(s@) =~= Seq::<u8>::empty());
        }
        return Vec::new();
    }
    let mut b: usize = n;
    while b > a + 1 && (s[b - 1] == 0x20 || s[b - 1] == 0x09 || s[b - 1] == 0x0A || s[b - 1]
        == 0x0D || s[b - 1] == 0x0B || s[b - 1] == 0x0C)
        invariant
            a < b <= n,
            n == s@.len(),
            !is_ascii_ws(s@[a as int]),
            forall|j: int| b <= j < n ==> is_ascii_ws(#[trigger] s@[j]),
        decreases b,
    {
        b = b - 1;
    }
    proof {
        assert(!is_ascii_ws(s@[b - 1]));
        lemma_ws_suffix_exact(s@, b as int);
        assert(trim_bytes(s@) == s@.subrange(a as int, b as int));
    }
    crate::util::copy_range(s, a, b)
}

/// Whitespace up to `a` and a non-whitespace byte at `a` (or the end)
/// pin the whitespace prefix length exactly.
proof fn lemma_ws_prefix_exact(s: Seq<u8>, a: int)
    requires
        0 <= a <= s.len(),
        forall|j: int| 0 <= j < a ==> is_ascii_ws(#[trigger] s[j]),
        a < s.len() ==> !is_ascii_ws(s[a]),
    ensures
        ws_prefix_len(s) == a,
    decreases a,
{
    if a == 0 {
    } else {
        assert(is_ascii_ws(s[0]));
        assert(forall|j: int|
            0 <= j < a - 1 ==> is_ascii_ws(#[trigger] s.drop_first()[j]) == is_ascii_ws(s[j + 1]));
        lemma_ws_prefix_exact(s.drop_first(), a - 1);
    }
}

/// Whitespace from `b` on and a non-whitespace byte at `b - 1` (or the
/// start) pin the whitespace suffix length exactly.
proof fn lemma_ws_suffix_exact(s: Seq<u8>, b: int)
    requires
        0 <= b <= s.len(),
        forall|j: int| b <= j < s.len() ==> is_ascii_ws(#[trigger] s[j]),
        b > 0 ==> !is_ascii_ws(s[b - 1]),
    ensures
        ws_suffix_len(s) == s.len() - b,
    decreases s.len() - b,
{
    if b == s.len() {
    } else {
        assert(is_ascii_ws(s[s.len() - 1]));
        assert(forall|j: int|
            b <= j < s.len() - 1 ==> is_ascii_ws(#[trigger] s.drop_last()[j]) == is_ascii_ws(
                s[j],
            ));
        lemma_ws_suffix_exact(s.drop_last(), b);
    }
}


// ---------------------------------------------------------------------
// Key-file names.
// ---------------------------------------------------------------------

/// The key-file name `"header_key"` as bytes.
pub open spec fn kf_name_header_key() -> Seq<u8> {
    seq![0x68u8, 0x65u8, 0x61u8, 0x64u8, 0x65u8, 0x72u8, 0x5Fu8, 0x6Bu8, 0x65u8, 0x79u8]
}

fn kf_bytes_header_key() -> (r: Vec<u8>)
    ensures
        r@ == kf_name_header_key(),
{
    let a: [u8; 10] = [0x68u8, 0x65u8, 0x61u8, 0x64u8, 0x65u8, 0x72u8, 0x5Fu8, 0x6Bu8, 0x65u8, 0x79u8];
    let r = vstd::slice::slice_to_vec(vstd::array::array_as_slice(&a));
    proof {
        assert(r@ =~= kf_name_header_key());
    }
    r
}

/// The key-file name `"aes_kek_generation_source"` as bytes.
pub open spec fn kf_name_aes_kek_generation_source() -> Seq<u8> {
    seq![0x61u8, 0x65u8, 0x73u8, 0x5Fu8, 0x6Bu8, 0x65u8, 0x6Bu8, 0x5Fu8, 0x67u8, 0x65u8, 0x6Eu8, 0x65u8, 0x72u8, 0x61u8, 0x74u8, 0x69u8, 0x6Fu8, 0x6Eu8, 0x5Fu8, 0x73u8, 0x6Fu8, 0x75u8, 0x72u8, 0x63u8, 0x65u8]
}

pub(crate) fn kf_bytes_aes_kek_generation_source() -> (r: Vec<u8>)
    ensures
        r@ == kf_name_aes_kek_generation_source(),
{
    let a: [u8; 25] = [0x61u8, 0x65u8, 0x73u8, 0x5Fu8, 0x6Bu8, 0x65u8, 0x6Bu8, 0x5Fu8, 0x67u8, 0x65u8, 0x6Eu8, 0x65u8, 0x72u8, 0x61u8, 0x74u8, 0x69u8, 0x6Fu8, 0x6Eu8, 0x5Fu8, 0x73u8, 0x6Fu8, 0x75u8, 0x72u8, 0x63u8, 0x65u8];
    let r = vstd::slice::slice_to_vec(vstd::array::array_as_slice(&a));
    proof {
        assert(r@ =~= kf_name_aes_kek_generation_source());
    }
    r
}

/// The key-file name `"aes_key_generation_source"` as bytes.
pub open spec fn kf_name_aes_key_generation_source() -> Seq<u8> {
    seq![0x61u8, 0x65u8, 0x73u8, 0x5Fu8, 0x6Bu8, 0x65u8, 0x79u8, 0x5Fu8, 0x67u8, 0x65u8, 0x6Eu8, 0x65u8, 0x72u8, 0x61u8, 0x74u8, 0x69u8, 0x6Fu8, 0x6Eu8, 0x5Fu8, 0x73u8, 0x6Fu8, 0x75u8, 0x72u8, 0x63u8, 0x65u8]
}

pub(crate) fn kf_bytes_aes_key_generation_source() -> (r: Vec<u8>)
    ensures
        r@ == kf_name_aes_key_generation_source(),
{
    let a: [u8; 25] = [0x61u8, 0x65u8, 0x73u8, 0x5Fu8, 0x6Bu8, 0x65u8, 0x79u8, 0x5Fu8, 0x67u8, 0x65u8, 0x6Eu8, 0x65u8, 0x72u8, 0x61u8, 0x74u8, 0x69u8, 0x6Fu8, 0x6Eu8, 0x5Fu8, 0x73u8, 0x6Fu8, 0x75u8, 0x72u8, 0x63u8, 0x65u8];
    let r = vstd::slice::slice_to_vec(vstd::array::array_as_slice(&a));
    proof {
        assert(r@ =~= kf_name_aes_key_generation_source());
    }
    r
}

/// The key-file name `"titlekek_source"` as bytes.
pub open spec fn kf_name_titlekek_source() -> Seq<u8> {
    seq![0x74u8, 0x69u8, 0x74u8, 0x6Cu8, 0x65u8, 0x6Bu8, 0x65u8, 0x6Bu8, 0x5Fu8, 0x73u8, 0x6Fu8, 0x75u8, 0x72u8, 0x63u8, 0x65u8]
}

pub(crate) fn kf_bytes_titlekek_source() -> (r: Vec<u8>)
    ensures
        r@ == kf_name_titlekek_source(),
{
    let a: [u8; 15] = [0x74u8, 0x69u8, 0x74u8, 0x6Cu8, 0x65u8, 0x6Bu8, 0x65u8, 0x6Bu8, 0x5Fu8, 0x73u8, 0x6Fu8, 0x75u8, 0x72u8, 0x63u8, 0x65u8];
    let r = vstd::slice::slice_to_vec(vstd::array::array_as_slice(&a));
    proof {
        assert(r@ =~= kf_name_titlekek_source());
    }
    r
}

/// The key-file name `"key_area_key_application_source"` as bytes.
pub open spec fn kf_name_key_area_key_application_source() -> Seq<u8> {
    seq![0x6Bu8, 0x65u8, 0x79u8, 0x5Fu8, 0x61u8, 0x72u8, 0x65u8, 0x61u8, 0x5Fu8, 0x6Bu8, 0x65u8, 0x79u8, 0x5Fu8, 0x61u8, 0x70u8, 0x70u8, 0x6Cu8, 0x69u8, 0x63u8, 0x61u8, 0x74u8, 0x69u8, 0x6Fu8, 0x6Eu8, 0x5Fu8, 0x73u8, 0x6Fu8, 0x75u8, 0x72u8, 0x63u8, 0x65u8]
}

pub(crate) fn kf_bytes_key_area_key_application_source() -> (r: Vec<u8>)
    ensures
        r@ == kf_name_key_area_key_application_source(),
{
    let a: [u8; 31] = [0x6Bu8, 0x65u8, 0x79u8, 0x5Fu8, 0x61u8, 0x72u8, 0x65u8, 0x61u8, 0x5Fu8, 0x6Bu8, 0x65u8, 0x79u8, 0x5Fu8, 0x61u8, 0x70u8, 0x70u8, 0x6Cu8, 0x69u8, 0x63u8, 0x61u8, 0x74u8, 0x69u8, 0x6Fu8, 0x6Eu8, 0x5Fu8, 0x73u8, 0x6Fu8, 0x75u8, 0x72u8, 0x63u8, 0x65u8];
    let r = vstd::slice::slice_to_vec(vstd::array::array_as_slice(&a));
    proof {
        assert(r@ =~= kf_name_key_area_key_application_source());
    }
    r
}

/// The key-file name `"master_key_"` as bytes.
pub open spec fn kf_name_master_key_prefix() -> Seq<u8> {
    seq![0x6Du8, 0x61u8, 0x73u8, 0x74u8, 0x65u8, 0x72u8, 0x5Fu8, 0x6Bu8, 0x65u8, 0x79u8, 0x5Fu8]
}

fn kf_bytes_master_key_prefix() -> (r: Vec<u8>)
    ensures
        r@ == kf_name_master_key_prefix(),
{
    let a: [u8; 11] = [0x6Du8, 0x61u8, 0x73u8, 0x74u8, 0x65u8, 0x72u8, 0x5Fu8, 0x6Bu8, 0x65u8, 0x79u8, 0x5Fu8];
    let r = vstd::slice::slice_to_vec(vstd::array::array_as_slice(&a));
    proof {
        assert(r@ =~= kf_name_master_key_prefix());
    }
    r
}

/// The key-file name `"key_area_key_application_"` as bytes.
pub open spec fn kf_name_key_area_key_application_prefix() -> Seq<u8> {
    seq![0x6Bu8, 0x65u8, 0x79u8, 0x5Fu8, 0x61u8, 0x72u8, 0x65u8, 0x61u8, 0x5Fu8, 0x6Bu8, 0x65u8, 0x79u8, 0x5Fu8, 0x61u8, 0x70u8, 0x70u8, 0x6Cu8, 0x69u8, 0x63u8, 0x61u8, 0x74u8, 0x69u8, 0x6Fu8, 0x6Eu8, 0x5Fu8]
}

fn kf_bytes_key_area_key_application_prefix() -> (r: Vec<u8>)
    ensures
        r@ == kf_name_key_area_key_application_prefix(),
{
    let a: [u8; 25] = [0x6Bu8, 0x65u8, 0x79u8, 0x5Fu8, 0x61u8, 0x72u8, 0x65u8, 0x61u8, 0x5Fu8, 0x6Bu8, 0x65u8, 0x79u8, 0x5Fu8, 0x61u8, 0x70u8, 0x70u8, 0x6Cu8, 0x69u8, 0x63u8, 0x61u8, 0x74u8, 0x69u8, 0x6Fu8, 0x6Eu8, 0x5Fu8];
    let r = vstd::slice::slice_to_vec(vstd::array::array_as_slice(&a));
    proof {
        assert(r@ =~= kf_name_key_area_key_application_prefix());
    }
    r
}

/// Compares two byte slices for equality.
pub(crate) fn bytes_eq(a: &[u8], b: &[u8]) -> (r: bool)
    ensures
        r == (a@ == b@),
{
    let n = a.len();
    if n != b.len() {
        proof {
            assert(a@.len() != b@.len());
        }
        return false;
    }
    let mut i: usize = 0;
    while i < n
        invariant
            i <= n,
            n == a@.len(),
            n == b@.len(),
            forall|j: int| 0 <= j < i ==> a@[j] == b@[j],
        decreases n - i,
    {
        if a[i] != b[i] {
            return false;
        }
        i = i + 1;
    }
    proof {
        assert(a@ =~= b@);
    }
    true
}

/// A byte search in a suffix mirrors the search in the whole buffer.
proof fn lemma_find_byte_shift(s: Seq<u8>, t: u8, p: int, j: int)
    requires
        0 <= p,
        0 <= j,
        p + j <= s.len(),
    ensures
        find_byte(s.subrange(p, s.len() as int), t, j) == (if find_byte(s, t, p + j) < 0 {
            -1
        } else {
            find_byte(s, t, p + j) - p
        }),
    decreases s.len() - p - j,
{
    let sub = s.subrange(p, s.len() as int);
    if p + j < s.len() {
        assert(sub[j] == s[p + j]);
        if s[p + j] != t {
            lemma_find_byte_shift(s, t, p, j + 1);
        }
    }
}

/// Parses all `name = value` entries of a key file, in line order.
pub(crate) fn parse_keyfile_entries(content: &[u8]) -> (r: Vec<(Vec<u8>, Vec<u8>)>)
    ensures
        kf_entries_match(r@, keyfile_entries(content@)),
{
    let n = content.len();
    let mut out: Vec<(Vec<u8>, Vec<u8>)> = Vec::new();
    let mut pos: usize = 0;
    proof {
        let done0 = Seq::<(Seq<u8>, Seq<u8>)>::empty();
        assert(content@.subrange(0, n as int) =~= content@);
        assert(done0 + keyfile_entries(content@) =~= keyfile_entries(content@));
        assert(kf_entries_match(out@, done0));
    }
    while pos < n
        invariant
            n == content@.len(),
            pos <= n,
            kf_entries_match_partial(out@, content@, pos as int),
        decreases n - pos,
    {
        let ghost suffix = content@.subrange(pos as int, n as int);
        let ghost old_out = out@;
        let (line_end, next_pos): (usize, usize) = match find_byte_exec(content, 0x0A, pos) {
            Some(nl) => (nl, nl + 1),
            None => (n, n),
        };
        proof {
            lemma_find_byte_shift(content@, 0x0A, pos as int, 0);
        }
        let line = vstd::slice::slice_subrange(content, pos, line_end);
        proof {
            assert(suffix.subrange(0, line_end - pos) =~= content@.subrange(
                pos as int,
                line_end as int,
            ));
            if line_end < n {
                assert(line@ == suffix.subrange(0, find_byte(suffix, 0x0A, 0)));
            } else {
                assert(line@ =~= suffix);
            }
        }
        let entry = keyfile_line_entry_exec(line);
        match entry {
            Some(pair) => {
                out.push(pair);
            },
            None => {},
        }
        proof {
            let head: Seq<(Seq<u8>, Seq<u8>)> = match keyfile_line_entry(line@) {
                Some(e) => seq![e],
                None => Seq::<(Seq<u8>, Seq<u8>)>::empty(),
            };
            assert(suffix.subrange(next_pos - pos, n - pos) =~= content@.subrange(
                next_pos as int,
                n as int,
            ));
            if line_end == n {
                assert(content@.subrange(n as int, n as int) =~= Seq::<u8>::empty());
                assert(keyfile_entries(content@.subrange(next_pos as int, n as int))
                    =~= Seq::<(Seq<u8>, Seq<u8>)>::empty());
                assert(keyfile_entries(suffix) =~= head);
                assert(keyfile_entries(suffix) =~= head + keyfile_entries(
                    content@.subrange(next_pos as int, n as int),
                ));
            } else {
                assert(keyfile_entries(suffix) == head + keyfile_entries(
                    suffix.subrange(next_pos - pos, n - pos),
                ));
            }
            let old_done = choose|done: Seq<(Seq<u8>, Seq<u8>)>|
                keyfile_entries(content@) == done + keyfile_entries(suffix) && kf_entries_match(
                    old_out,
                    done,
                );
            let new_done = old_done + head;
            assert(keyfile_entries(content@) =~= new_done + keyfile_entries(
                content@.subrange(next_pos as int, n as int),
            ));
            assert(kf_entries_match(out@, new_done));
        }
        pos = next_pos;
    }
    proof {
        assert(content@.subrange(n as int, n as int) =~= Seq::<u8>::empty());
        let done = choose|done: Seq<(Seq<u8>, Seq<u8>)>|
            keyfile_entries(content@) == done + keyfile_entries(
                content@.subrange(pos as int, n as int),
            ) && kf_entries_match(out@, done);
        assert(keyfile_entries(content@) =~= done);
    }
    out
}

/// The parsed vector mirrors the spec entries element for element.
pub open spec fn kf_entries_match(v: Seq<(Vec<u8>, Vec<u8>)>, e: Seq<(Seq<u8>, Seq<u8>)>) -> bool {
    &&& v.len() == e.len()
    &&& forall|i: int|
        0 <= i < v.len() ==> (#[trigger] v[i]).0@ == e[i].0 && v[i].1@ == e[i].1
}

/// The vector holds the entries of everything before `pos`, with the
/// suffix still to be scanned.
pub open spec fn kf_entries_match_partial(
    v: Seq<(Vec<u8>, Vec<u8>)>,
    content: Seq<u8>,
    pos: int,
) -> bool {
    exists|done: Seq<(Seq<u8>, Seq<u8>)>|
        {
            &&& keyfile_entries(content) == done + keyfile_entries(
                content.subrange(pos, content.len() as int),
            )
            &&& kf_entries_match(v, done)
        }
}

/// Extracts the `(name, value)` pair of one line.
fn keyfile_line_entry_exec(line: &[u8]) -> (r: Option<(Vec<u8>, Vec<u8>)>)
    ensures
        r is Some <==> keyfile_line_entry(line@) is Some,
        r matches Some(pair) ==> keyfile_line_entry(line@) matches Some(spec_pair)
            && pair.0@ == spec_pair.0 && pair.1@ == spec_pair.1,
{
    let t = trim_bytes_exec(line);
    if t.len() == 0 {
        return None;
    }
    if t[0] == 0x23 {
        return None;
    }
    let eq = match find_byte_exec(t.as_slice(), 0x3D, 0) {
        Some(eq) => eq,
        None => {
            return None;
        },
    };
    let name = trim_bytes_exec(vstd::slice::slice_subrange(t.as_slice(), 0, eq));
    let tlen = t.len();
    let value = trim_bytes_exec(vstd::slice::slice_subrange(t.as_slice(), eq + 1, tlen));
    Some((name, value))
}

/// Looks up the value of the last entry with the given name.
pub(crate) fn keyfile_lookup_exec(entries: &Vec<(Vec<u8>, Vec<u8>)>, name: &[u8], ghost_entries: Ghost<
    Seq<(Seq<u8>, Seq<u8>)>,
>) -> (r: Option<Vec<u8>>)
    requires
        kf_entries_match(entries@, ghost_entries@),
    ensures
        r is Some <==> keyfile_lookup(ghost_entries@, name@) is Some,
        r matches Some(v) ==> keyfile_lookup(ghost_entries@, name@) == Some(v@),
{
    let n = entries.len();
    let mut result: Option<Vec<u8>> = None;
    let mut i: usize = 0;
    while i < n
        invariant
            n == entries@.len(),
            kf_entries_match(entries@, ghost_entries@),
            i <= n,
            match result {
                Some(v) => keyfile_lookup(ghost_entries@.subrange(0, i as int), name@) == Some(
                    v@,
                ),
                None => keyfile_lookup(ghost_entries@.subrange(0, i as int), name@) is None,
            },
        decreases n - i,
    {
        proof {
            assert(ghost_entries@.subrange(0, i as int + 1).drop_last() =~= ghost_entries@
                .subrange(0, i as int));
            assert(ghost_entries@.subrange(0, i as int + 1).last() == ghost_entries@[i as int]);
        }
        if bytes_eq(entries[i].0.as_slice(), name) {
            result = Some(entries[i].1.clone());
        }
        i = i + 1;
    }
    proof {
        assert(ghost_entries@.subrange(0, n as int) =~= ghost_entries@);
    }
    result
}

/// Parses a hex string of exactly `n` bytes.
fn parse_hex_key_exec(v: &[u8], n: usize) -> (r: Option<Vec<u8>>)
    requires
        2 * n <= usize::MAX,
    ensures
        r is Some <==> is_hex_key(v@, n as int),
        r matches Some(k) ==> k@ == hex_decode(v@) && k@.len() == n,
{
    if v.len() != 2 * n {
        return None;
    }
    let mut out: Vec<u8> = Vec::new();
    let mut i: usize = 0;
    while i < n
        invariant
            v@.len() == 2 * n,
            2 * n <= usize::MAX,
            i <= n,
            out@.len() == i,
            forall|j: int| 0 <= j < 2 * i ==> hex_nibble_val(#[trigger] v@[j]) >= 0,
            forall|j: int|
                0 <= j < i ==> out@[j] as int == hex_nibble_val(v@[2 * j]) * 16 + hex_nibble_val(
                    v@[2 * j + 1],
                ),
        decreases n - i,
    {
        let hi = match hex_nibble_exec(v[2 * i]) {
            Some(d) => d,
            None => {
                return None;
            },
        };
        let lo = match hex_nibble_exec(v[2 * i + 1]) {
            Some(d) => d,
            None => {
                return None;
            },
        };
        out.push(hi * 16 + lo);
        i = i + 1;
    }
    proof {
        assert(out@ =~= hex_decode(v@));
    }
    Some(out)
}

/// Decodes one hex digit.
fn hex_nibble_exec(b: u8) -> (r: Option<u8>)
    ensures
        r is Some <==> hex_nibble_val(b) >= 0,
        r matches Some(d) ==> d as int == hex_nibble_val(b) && d < 16,
{
    if 0x30 <= b && b <= 0x39 {
        Some(b - 0x30)
    } else if 0x61 <= b && b <= 0x66 {
        Some(b - 0x61 + 10)
    } else if 0x41 <= b && b <= 0x46 {
        Some(b - 0x41 + 10)
    } else {
        None
    }
}

/// Valid digits only grow the numeric value of a hex string.
proof fn lemma_hex_fold_mono(v: Seq<u8>, i: int)
    requires
        0 <= i <= v.len(),
        forall|j: int| 0 <= j < v.len() ==> hex_nibble_val(#[trigger] v[j]) >= 0,
    ensures
        hex_fold(v) >= hex_fold(v.subrange(0, i)),
        hex_fold(v) >= 0,
    decreases v.len() - i,
{
    if i == v.len() {
        assert(v.subrange(0, i) =~= v);
        lemma_hex_fold_nonneg(v);
    } else {
        lemma_hex_fold_mono(v, i + 1);
        assert(v.subrange(0, i + 1).drop_last() =~= v.subrange(0, i));
        lemma_hex_fold_nonneg(v.subrange(0, i));
    }
}

/// A hex string of valid digits has a non-negative value.
proof fn lemma_hex_fold_nonneg(v: Seq<u8>)
    requires
        forall|j: int| 0 <= j < v.len() ==> hex_nibble_val(#[trigger] v[j]) >= 0,
    ensures
        hex_fold(v) >= 0,
    decreases v.len(),
{
    if v.len() > 0 {
        assert(forall|j: int|
            0 <= j < v.len() - 1 ==> hex_nibble_val(#[trigger] v.drop_last()[j]) == hex_nibble_val(
                v[j],
            ));
        lemma_hex_fold_nonneg(v.drop_last());
    }
}

/// Parses a `master_key_XX` style hex suffix into a key index.
fn hex_u8_suffix_exec(v: &[u8]) -> (r: Option<u8>)
    ensures
        r is Some <==> hex_u8_suffix(v@) is Some,
        r matches Some(d) ==> hex_u8_suffix(v@) == Some(d),
{
    let n = v.len();
    if n == 0 {
        return None;
    }
    let mut value: u32 = 0;
    let mut i: usize = 0;
    while i < n
        invariant
            n == v@.len(),
            i <= n,
            forall|j: int| 0 <= j < i ==> hex_nibble_val(#[trigger] v@[j]) >= 0,
            value as int == hex_fold(v@.subrange(0, i as int)),
            value <= 255,
        decreases n - i,
    {
        let d = match hex_nibble_exec(v[i]) {
            Some(d) => d,
            None => {
                return None;
            },
        };
        proof {
            assert(v@.subrange(0, i as int + 1).drop_last() =~= v@.subrange(0, i as int));
            assert(v@.subrange(0, i as int + 1).last() == v@[i as int]);
        }
        let next = value * 16 + d as u32;
        if next > 255 {
            proof {
                if forall|j: int| 0 <= j < v@.len() ==> hex_nibble_val(#[trigger] v@[j]) >= 0 {
                    lemma_hex_fold_mono(v@, i as int + 1);
                }
            }
            return None;
        }
        value = next;
        i = i + 1;
    }
    proof {
        assert(v@.subrange(0, n as int) =~= v@);
    }
    Some(value as u8)
}


// ---------------------------------------------------------------------
// Indexed key entries: `master_key_XX`, `key_area_key_application_XX`.
// ---------------------------------------------------------------------

/// `name` is `master_key_` followed by a hex index that fits a byte.
pub open spec fn is_master_entry_any(name: Seq<u8>) -> bool {
    name.len() > 11 && name.subrange(0, 11) == kf_name_master_key_prefix() && hex_u8_suffix(
        name.subrange(11, name.len() as int),
    ) is Some
}

/// `name` denotes the master key of index `idx`.
pub open spec fn is_master_entry_for(name: Seq<u8>, idx: u8) -> bool {
    name.len() > 11 && name.subrange(0, 11) == kf_name_master_key_prefix() && hex_u8_suffix(
        name.subrange(11, name.len() as int),
    ) == Some(idx)
}

/// `name` is `key_area_key_application_` followed by a hex byte index.
pub open spec fn is_kak_entry_any(name: Seq<u8>) -> bool {
    name.len() > 25 && name.subrange(0, 25) == kf_name_key_area_key_application_prefix()
        && hex_u8_suffix(name.subrange(25, name.len() as int)) is Some
}

/// `name` denotes the application key-area key of index `idx`.
pub open spec fn is_kak_entry_for(name: Seq<u8>, idx: u8) -> bool {
    name.len() > 25 && name.subrange(0, 25) == kf_name_key_area_key_application_prefix()
        && hex_u8_suffix(name.subrange(25, name.len() as int)) == Some(idx)
}

/// The value of the last `master_key_` entry for `idx`, if any.
pub open spec fn kf_master_value(entries: Seq<(Seq<u8>, Seq<u8>)>, idx: u8) -> Option<Seq<u8>>
    decreases entries.len(),
{
    if entries.len() == 0 {
        None
    } else if is_master_entry_for(entries.last().0, idx) {
        Some(entries.last().1)
    } else {
        kf_master_value(entries.drop_last(), idx)
    }
}

/// The value of the last `key_area_key_application_` entry for `idx`.
pub open spec fn kf_kak_value(entries: Seq<(Seq<u8>, Seq<u8>)>, idx: u8) -> Option<Seq<u8>>
    decreases entries.len(),
{
    if entries.len() == 0 {
        None
    } else if is_kak_entry_for(entries.last().0, idx) {
        Some(entries.last().1)
    } else {
        kf_kak_value(entries.drop_last(), idx)
    }
}

/// The named entry exists and its value is hex of the right width.
pub open spec fn kf_named_hex_ok(entries: Seq<(Seq<u8>, Seq<u8>)>, name: Seq<u8>, n: int) -> bool {
    match keyfile_lookup(entries, name) {
        Some(v) => is_hex_key(v, n),
        None => false,
    }
}

/// Every recognized indexed entry carries a valid 16-byte hex value.
pub open spec fn kf_indexed_entry_ok(e: (Seq<u8>, Seq<u8>)) -> bool {
    &&& (is_master_entry_any(e.0) ==> is_hex_key(e.1, 16))
    &&& (is_kak_entry_any(e.0) ==> is_hex_key(e.1, 16))
}

/// Exactly when `NcaKeySet::from_keys_str` succeeds: every required
/// named key is present with valid hex, every recognized indexed entry
/// decodes, and at least one master key exists.
pub open spec fn nca_keyset_source_ok(cb: Seq<u8>) -> bool {
    let es = keyfile_entries(cb);
    &&& kf_named_hex_ok(es, kf_name_header_key(), 32)
    &&& kf_named_hex_ok(es, kf_name_aes_kek_generation_source(), 16)
    &&& kf_named_hex_ok(es, kf_name_aes_key_generation_source(), 16)
    &&& kf_named_hex_ok(es, kf_name_titlekek_source(), 16)
    &&& kf_named_hex_ok(es, kf_name_key_area_key_application_source(), 16)
    &&& (forall|i: int| 0 <= i < es.len() ==> kf_indexed_entry_ok(#[trigger] es[i]))
    &&& (exists|i: int| 0 <= i < es.len() && is_master_entry_any((#[trigger] es[i]).0))
}

/// First-match lookup in a duplicate-free association vector.
pub open spec fn assoc_lookup(s: Seq<(u8, [u8; 16])>, k: u8) -> Option<[u8; 16]>
    decreases s.len(),
{
    if s.len() == 0 {
        None
    } else if s.first().0 == k {
        Some(s.first().1)
    } else {
        assoc_lookup(s.drop_first(), k)
    }
}

/// The key material needed to analyze and transcode NCAs: the XTS header
/// key, the derivation sources, and the indexed master and key-area keys.
#[derive(Debug, Clone)]
pub struct NcaKeySet {
    /// The 32-byte XTS key pair for the NCA header.
    pub header_key: [u8; 32],
    aes_kek_generation_source: [u8; 16],
    aes_key_generation_source: [u8; 16],
    titlekek_source: [u8; 16],
    key_area_key_application_source: [u8; 16],
    master_keys: Vec<(u8, [u8; 16])>,
    key_area_keys_application: Vec<(u8, [u8; 16])>,
}

impl NcaKeySet {
    /// The XTS header key pair.
    pub closed spec fn spec_header_key(&self) -> Seq<u8> {
        self.header_key@
    }

    /// Borrows the XTS header key pair.
    pub fn header_key_bytes(&self) -> (r: &[u8; 32])
        ensures
            r@ == self.spec_header_key(),
    {
        &self.header_key
    }

    /// The KEK-generation source entry.
    pub closed spec fn spec_kek_gen_source(&self) -> Seq<u8> {
        self.aes_kek_generation_source@
    }

    /// The key-generation source entry.
    pub closed spec fn spec_key_gen_source(&self) -> Seq<u8> {
        self.aes_key_generation_source@
    }

    /// The title-KEK source entry.
    pub closed spec fn spec_titlekek_source(&self) -> Seq<u8> {
        self.titlekek_source@
    }

    /// The application key-area source entry.
    pub closed spec fn spec_kak_source(&self) -> Seq<u8> {
        self.key_area_key_application_source@
    }

    /// The master key stored for `idx`, if any.
    pub closed spec fn spec_master_key(&self, idx: u8) -> Option<Seq<u8>> {
        match assoc_lookup(self.master_keys@, idx) {
            Some(k) => Some(k@),
            None => None,
        }
    }

    /// The explicit key-area key stored for `idx`, if any.
    pub closed spec fn spec_kak_override(&self, idx: u8) -> Option<Seq<u8>> {
        match assoc_lookup(self.key_area_keys_application@, idx) {
            Some(k) => Some(k@),
            None => None,
        }
    }
}

/// Replaces the value stored for `k`, or appends it.
fn assoc_upsert(v: &mut Vec<(u8, [u8; 16])>, k: u8, val: [u8; 16])
    ensures
        forall|x: u8|
            #[trigger] assoc_lookup(final(v)@, x) == (if x == k {
                Some(val)
            } else {
                assoc_lookup(old(v)@, x)
            }),
{
    let n = v.len();
    let mut i: usize = 0;
    while i < n
        invariant
            n == v@.len(),
            i <= n,
            v@ == old(v)@,
            forall|j: int| 0 <= j < i ==> (#[trigger] v@[j]).0 != k,
        decreases n - i,
    {
        if v[i].0 == k {
            *vstd::std_specs::vec::vec_index_mut(v, i) = (k, val);
            proof {
                assert forall|x: u8| #[trigger]
                    assoc_lookup(v@, x) == (if x == k {
                        Some(val)
                    } else {
                        assoc_lookup(old(v)@, x)
                    }) by {
                    lemma_assoc_update(old(v)@, v@, i as int, k, val, x);
                }
            }
            return ;
        }
        i = i + 1;
    }
    v.push((k, val));
    proof {
        assert forall|x: u8| #[trigger]
            assoc_lookup(v@, x) == (if x == k {
                Some(val)
            } else {
                assoc_lookup(old(v)@, x)
            }) by {
            lemma_assoc_append(old(v)@, k, val, x);
        }
    }
}

/// Updating the first slot holding `k` rewrites exactly that binding.
proof fn lemma_assoc_update(
    before: Seq<(u8, [u8; 16])>,
    after: Seq<(u8, [u8; 16])>,
    i: int,
    k: u8,
    val: [u8; 16],
    x: u8,
)
    requires
        0 <= i < before.len(),
        after == before.update(i, (k, val)),
        before[i].0 == k,
        forall|j: int| 0 <= j < i ==> (#[trigger] before[j]).0 != k,
    ensures
        assoc_lookup(after, x) == (if x == k {
            Some(val)
        } else {
            assoc_lookup(before, x)
        }),
    decreases i,
{
    if i == 0 {
        assert(after.first() == (k, val));
        assert(after.drop_first() =~= before.drop_first());
    } else {
        assert(after.first() == before.first());
        assert(after.drop_first() =~= before.drop_first().update(i - 1, (k, val)));
        lemma_assoc_update(before.drop_first(), after.drop_first(), i - 1, k, val, x);
    }
}

/// Appending a fresh binding adds exactly that key.
proof fn lemma_assoc_append(before: Seq<(u8, [u8; 16])>, k: u8, val: [u8; 16], x: u8)
    requires
        forall|j: int| 0 <= j < before.len() ==> (#[trigger] before[j]).0 != k,
    ensures
        assoc_lookup(before.push((k, val)), x) == (if x == k {
            Some(val)
        } else {
            assoc_lookup(before, x)
        }),
    decreases before.len(),
{
    let p = before.push((k, val));
    if before.len() == 0 {
        assert(p.first() == (k, val));
        assert(p.drop_first() =~= Seq::<(u8, [u8; 16])>::empty());
        if x == k {
            assert(assoc_lookup(p, x) == Some(val));
        } else {
            assert(assoc_lookup(p, x) == assoc_lookup(p.drop_first(), x));
            assert(assoc_lookup(p.drop_first(), x) is None);
            assert(assoc_lookup(before, x) is None);
        }
    } else {
        assert(p.first() == before.first());
        assert(p.drop_first() =~= before.drop_first().push((k, val)));
        lemma_assoc_append(before.drop_first(), k, val, x);
        assert(before.first().0 != k);
        if x == before.first().0 {
            assert(assoc_lookup(p, x) == Some(before.first().1));
            assert(assoc_lookup(before, x) == Some(before.first().1));
        } else {
            assert(assoc_lookup(p, x) == assoc_lookup(p.drop_first(), x));
            assert(assoc_lookup(before, x) == assoc_lookup(before.drop_first(), x));
        }
    }
}

/// A master entry at position `i` forces a last-wins value to exist.
proof fn lemma_master_entry_found(es: Seq<(Seq<u8>, Seq<u8>)>, i: int, idx: u8)
    requires
        0 <= i < es.len(),
        is_master_entry_for(es[i].0, idx),
    ensures
        kf_master_value(es, idx) is Some,
    decreases es.len(),
{
    if i + 1 < es.len() {
        if !is_master_entry_for(es.last().0, idx) {
            lemma_master_entry_found(es.drop_last(), i, idx);
        }
    }
}


/// What the keyset stores for the required named keys and indexed maps,
/// expressed over the key-file entries.
pub open spec fn nca_keyset_parses_to(ks: NcaKeySet, cb: Seq<u8>) -> bool {
    let es = keyfile_entries(cb);
    &&& ks.spec_header_key() == hex_decode(keyfile_lookup(es, kf_name_header_key()).unwrap())
    &&& ks.spec_kek_gen_source() == hex_decode(
        keyfile_lookup(es, kf_name_aes_kek_generation_source()).unwrap(),
    )
    &&& ks.spec_key_gen_source() == hex_decode(
        keyfile_lookup(es, kf_name_aes_key_generation_source()).unwrap(),
    )
    &&& ks.spec_titlekek_source() == hex_decode(
        keyfile_lookup(es, kf_name_titlekek_source()).unwrap(),
    )
    &&& ks.spec_kak_source() == hex_decode(
        keyfile_lookup(es, kf_name_key_area_key_application_source()).unwrap(),
    )
    &&& forall|idx: u8|
        #[trigger] ks.spec_master_key(idx) == (match kf_master_value(es, idx) {
            Some(v) => Some(hex_decode(v)),
            None => None,
        })
    &&& forall|idx: u8|
        #[trigger] ks.spec_kak_override(idx) == (match kf_kak_value(es, idx) {
            Some(v) => Some(hex_decode(v)),
            None => None,
        })
}

impl NcaKeySet {
    /// Parses a key file of `name = hex` lines.
    ///
    /// Succeeds exactly when every required named key is present with
    /// valid hex, every recognized `master_key_XX` and
    /// `key_area_key_application_XX` entry decodes, and at least one
    /// master key exists; the stored keys are then the decoded values,
    /// later duplicate lines winning.
    pub fn from_keys_str(content: &str) -> (r: Result<NcaKeySet, NszError>)
        ensures
            r is Ok <==> nca_keyset_source_ok(content.spec_bytes()),
            r matches Ok(ks) ==> nca_keyset_parses_to(ks, content.spec_bytes()),
    {
        let bytes = content.as_bytes();
        let entries = parse_keyfile_entries(bytes);
        let ghost es = keyfile_entries(content.spec_bytes());

        let header_key_vec = match lookup_named_hex(&entries, Ghost(es), 32) {
            Some(v) => v,
            None => {
                return Err(container_format_error("keys file missing or invalid header_key"));
            },
        };
        let kek_gen_vec = match lookup_named_hex(&entries, Ghost(es), 33) {
            Some(v) => v,
            None => {
                return Err(
                    container_format_error(
                        "keys file missing or invalid aes_kek_generation_source",
                    ),
                );
            },
        };
        let key_gen_vec = match lookup_named_hex(&entries, Ghost(es), 34) {
            Some(v) => v,
            None => {
                return Err(
                    container_format_error(
                        "keys file missing or invalid aes_key_generation_source",
                    ),
                );
            },
        };
        let titlekek_vec = match lookup_named_hex(&entries, Ghost(es), 35) {
            Some(v) => v,
            None => {
                return Err(
                    container_format_error("keys file missing or invalid titlekek_source"),
                );
            },
        };
        let kak_source_vec = match lookup_named_hex(&entries, Ghost(es), 36) {
            Some(v) => v,
            None => {
                return Err(
                    container_format_error(
                        "keys file missing or invalid key_area_key_application_source",
                    ),
                );
            },
        };

        let mut master_keys: Vec<(u8, [u8; 16])> = Vec::new();
        let mut key_area_keys_application: Vec<(u8, [u8; 16])> = Vec::new();
        let n_entries = entries.len();
        let master_prefix = kf_bytes_master_key_prefix();
        let kak_prefix = kf_bytes_key_area_key_application_prefix();
        let mut i: usize = 0;
        while i < n_entries
            invariant
                n_entries == entries@.len(),
                es == keyfile_entries(content.spec_bytes()),
                kf_entries_match(entries@, es),
                master_prefix@ == kf_name_master_key_prefix(),
                kak_prefix@ == kf_name_key_area_key_application_prefix(),
                i <= n_entries,
                forall|j: int| 0 <= j < i ==> kf_indexed_entry_ok(#[trigger] es[j]),
                forall|idx: u8|
                    #[trigger] assoc_lookup(master_keys@, idx) matches Some(k) ==> Some(k@)
                        == (match kf_master_value(es.subrange(0, i as int), idx) {
                        Some(v) => Some(hex_decode(v)),
                        None => None,
                    }),
                forall|idx: u8|
                    (#[trigger] assoc_lookup(master_keys@, idx)) is None <==> kf_master_value(
                        es.subrange(0, i as int),
                        idx,
                    ) is None,
                forall|idx: u8|
                    #[trigger] assoc_lookup(key_area_keys_application@, idx) matches Some(k)
                        ==> Some(k@) == (match kf_kak_value(es.subrange(0, i as int), idx) {
                        Some(v) => Some(hex_decode(v)),
                        None => None,
                    }),
                forall|idx: u8|
                    (#[trigger] assoc_lookup(key_area_keys_application@, idx)) is None
                        <==> kf_kak_value(es.subrange(0, i as int), idx) is None,
            decreases n_entries - i,
        {
            proof {
                assert(es.subrange(0, i as int + 1).drop_last() =~= es.subrange(0, i as int));
                assert(es.subrange(0, i as int + 1).last() == es[i as int]);
            }
            let name_len = entries[i].0.len();
            if name_len > 11 {
                let prefix = vstd::slice::slice_subrange(entries[i].0.as_slice(), 0, 11);
                if bytes_eq(prefix, master_prefix.as_slice()) {
                    let suffix = vstd::slice::slice_subrange(
                        entries[i].0.as_slice(),
                        11,
                        name_len,
                    );
                    match hex_u8_suffix_exec(suffix) {
                        Some(idx) => {
                            let key_vec = match parse_hex_key_exec(
                                entries[i].1.as_slice(),
                                16,
                            ) {
                                Some(v) => v,
                                None => {
                                    proof {
                                        assert(entries@[i as int].0@ == es[i as int].0);
                                        assert(es[i as int].0.subrange(0, 11)
                                            == kf_name_master_key_prefix());
                                        assert(is_master_entry_any(es[i as int].0));
                                        assert(entries@[i as int].1@ == es[i as int].1);
                                        assert(!is_hex_key(es[i as int].1, 16));
                                        assert(!kf_indexed_entry_ok(es[i as int]));
                                    }
                                    return Err(
                                        container_format_error(
                                            "invalid hex value for master key entry",
                                        ),
                                    );
                                },
                            };
                            let key = crate::util::bytes_to_array::<16>(key_vec.as_slice());
                            assoc_upsert(&mut master_keys, idx, key);
                        },
                        None => {},
                    }
                }
            }
            if name_len > 25 {
                let prefix = vstd::slice::slice_subrange(entries[i].0.as_slice(), 0, 25);
                if bytes_eq(prefix, kak_prefix.as_slice()) {
                    let suffix = vstd::slice::slice_subrange(
                        entries[i].0.as_slice(),
                        25,
                        name_len,
                    );
                    match hex_u8_suffix_exec(suffix) {
                        Some(idx) => {
                            let key_vec = match parse_hex_key_exec(
                                entries[i].1.as_slice(),
                                16,
                            ) {
                                Some(v) => v,
                                None => {
                                    proof {
                                        assert(entries@[i as int].0@ == es[i as int].0);
                                        assert(es[i as int].0.subrange(0, 25)
                                            == kf_name_key_area_key_application_prefix());
                                        assert(is_kak_entry_any(es[i as int].0));
                                        assert(entries@[i as int].1@ == es[i as int].1);
                                        assert(!is_hex_key(es[i as int].1, 16));
                                        assert(!kf_indexed_entry_ok(es[i as int]));
                                    }
                                    return Err(
                                        container_format_error(
                                            "invalid hex value for key area key entry",
                                        ),
                                    );
                                },
                            };
                            let key = crate::util::bytes_to_array::<16>(key_vec.as_slice());
                            assoc_upsert(&mut key_area_keys_application, idx, key);
                        },
                        None => {},
                    }
                }
            }
            i = i + 1;
        }
        proof {
            assert(es.subrange(0, n_entries as int) =~= es);
        }

        if master_keys.len() == 0 {
            proof {
                if exists|j: int| 0 <= j < es.len() && is_master_entry_any((#[trigger] es[j]).0) {
                    let j = choose|j: int|
                        0 <= j < es.len() && is_master_entry_any((#[trigger] es[j]).0);
                    let idx = hex_u8_suffix(es[j].0.subrange(11, es[j].0.len() as int)).unwrap();
                    lemma_master_entry_found(es, j, idx);
                    assert(assoc_lookup(master_keys@, idx) is None);
                }
            }
            return Err(
                container_format_error("keys file does not contain any master_key_XX entries"),
            );
        }
        proof {
            let k0 = master_keys@.first().0;
            assert(assoc_lookup(master_keys@, k0) is Some);
            assert(kf_master_value(es, k0) is Some);
            lemma_master_value_has_entry(es, k0);
        }

        let header_key = crate::util::bytes_to_array::<32>(header_key_vec.as_slice());
        let aes_kek_generation_source = crate::util::bytes_to_array::<16>(kek_gen_vec.as_slice());
        let aes_key_generation_source = crate::util::bytes_to_array::<16>(key_gen_vec.as_slice());
        let titlekek_source = crate::util::bytes_to_array::<16>(titlekek_vec.as_slice());
        let key_area_key_application_source = crate::util::bytes_to_array::<16>(
            kak_source_vec.as_slice(),
        );
        Ok(
            NcaKeySet {
                header_key,
                aes_kek_generation_source,
                aes_key_generation_source,
                titlekek_source,
                key_area_key_application_source,
                master_keys,
                key_area_keys_application,
            },
        )
    }
}

/// A stored last-wins master value comes from some master entry.
proof fn lemma_master_value_has_entry(es: Seq<(Seq<u8>, Seq<u8>)>, idx: u8)
    requires
        kf_master_value(es, idx) is Some,
    ensures
        exists|j: int| 0 <= j < es.len() && is_master_entry_any((#[trigger] es[j]).0),
    decreases es.len(),
{
    if es.len() > 0 {
        if is_master_entry_for(es.last().0, idx) {
            assert(is_master_entry_any(es[es.len() - 1].0));
        } else {
            lemma_master_value_has_entry(es.drop_last(), idx);
            let j = choose|j: int|
                0 <= j < es.drop_last().len() && is_master_entry_any(
                    (#[trigger] es.drop_last()[j]).0,
                );
            assert(is_master_entry_any(es[j].0));
        }
    }
}

/// Looks up one required named key and decodes its hex value. The
/// `which` selector picks the name, so one verified body serves all
/// required entries.
fn lookup_named_hex(entries: &Vec<(Vec<u8>, Vec<u8>)>, ghost_entries: Ghost<
    Seq<(Seq<u8>, Seq<u8>)>,
>, which: u8) -> (r: Option<Vec<u8>>)
    requires
        kf_entries_match(entries@, ghost_entries@),
        32 <= which <= 36,
    ensures
        ({
            let name = spec_named_key_name(which);
            let n: int = if which == 32 {
                32
            } else {
                16
            };
            &&& (r is Some <==> kf_named_hex_ok(ghost_entries@, name, n))
            &&& (r matches Some(v) ==> v@ == hex_decode(
                keyfile_lookup(ghost_entries@, name).unwrap(),
            ) && v@.len() == n)
        }),
{
    let name: Vec<u8> = if which == 32 {
        kf_bytes_header_key()
    } else if which == 33 {
        kf_bytes_aes_kek_generation_source()
    } else if which == 34 {
        kf_bytes_aes_key_generation_source()
    } else if which == 35 {
        kf_bytes_titlekek_source()
    } else {
        kf_bytes_key_area_key_application_source()
    };
    let width: usize = if which == 32 {
        32
    } else {
        16
    };
    let value = match keyfile_lookup_exec(entries, name.as_slice(), ghost_entries) {
        Some(v) => v,
        None => {
            return None;
        },
    };
    parse_hex_key_exec(value.as_slice(), width)
}

/// The byte name selected by `which` in `lookup_named_hex`.
pub open spec fn spec_named_key_name(which: u8) -> Seq<u8> {
    if which == 32 {
        kf_name_header_key()
    } else if which == 33 {
        kf_name_aes_kek_generation_source()
    } else if which == 34 {
        kf_name_aes_key_generation_source()
    } else if which == 35 {
        kf_name_titlekek_source()
    } else {
        kf_name_key_area_key_application_source()
    }
}


// ---------------------------------------------------------------------
// Key derivations.
// ---------------------------------------------------------------------

/// The derived application key-area key for one master key: the ECB
/// decryption chain over the three sources.
pub open spec fn kak_chain_spec(ks: NcaKeySet, master: Seq<u8>) -> Seq<u8> {
    aes128_decrypt_block_spec(
        aes128_decrypt_block_spec(
            aes128_decrypt_block_spec(master, ks.spec_kek_gen_source()),
            ks.spec_kak_source(),
        ),
        ks.spec_key_gen_source(),
    )
}

impl NcaKeySet {
    /// Returns the stored master key of `master_index`.
    fn master_key(&self, master_index: u8) -> (r: Result<[u8; 16], NszError>)
        ensures
            r is Ok <==> self.spec_master_key(master_index) is Some,
            r matches Ok(k) ==> Some(k@) == self.spec_master_key(master_index),
    {
        let n = self.master_keys.len();
        proof {
            assert(self.master_keys@.subrange(0, n as int) =~= self.master_keys@);
        }
        let mut i: usize = 0;
        while i < n
            invariant
                n == self.master_keys@.len(),
                i <= n,
                assoc_lookup(self.master_keys@, master_index) == assoc_lookup(
                    self.master_keys@.subrange(i as int, n as int),
                    master_index,
                ),
            decreases n - i,
        {
            proof {
                let tail = self.master_keys@.subrange(i as int, n as int);
                assert(tail.first() == self.master_keys@[i as int]);
                assert(tail.drop_first() =~= self.master_keys@.subrange(i as int + 1, n as int));
            }
            if self.master_keys[i].0 == master_index {
                return Ok(self.master_keys[i].1);
            }
            i = i + 1;
        }
        proof {
            assert(self.master_keys@.subrange(n as int, n as int) =~= Seq::<(u8, [u8; 16])>::empty());
        }
        Err(container_format_error("missing master key entry"))
    }

    /// Returns the stored key-area-key override of `master_index`.
    fn kak_override(&self, master_index: u8) -> (r: Option<[u8; 16]>)
        ensures
            r is Some <==> self.spec_kak_override(master_index) is Some,
            r matches Some(k) ==> Some(k@) == self.spec_kak_override(master_index),
    {
        let n = self.key_area_keys_application.len();
        proof {
            assert(self.key_area_keys_application@.subrange(0, n as int)
                =~= self.key_area_keys_application@);
        }
        let mut i: usize = 0;
        while i < n
            invariant
                n == self.key_area_keys_application@.len(),
                i <= n,
                assoc_lookup(self.key_area_keys_application@, master_index) == assoc_lookup(
                    self.key_area_keys_application@.subrange(i as int, n as int),
                    master_index,
                ),
            decreases n - i,
        {
            proof {
                let tail = self.key_area_keys_application@.subrange(i as int, n as int);
                assert(tail.first() == self.key_area_keys_application@[i as int]);
                assert(tail.drop_first() =~= self.key_area_keys_application@.subrange(
                    i as int + 1,
                    n as int,
                ));
            }
            if self.key_area_keys_application[i].0 == master_index {
                return Some(self.key_area_keys_application[i].1);
            }
            i = i + 1;
        }
        proof {
            assert(self.key_area_keys_application@.subrange(n as int, n as int)
                =~= Seq::<(u8, [u8; 16])>::empty());
        }
        None
    }

    /// Derives the title KEK of `master_index`:
    /// `AES_ECB_dec(master_key, titlekek_source)`.
    fn title_kek(&self, master_index: u8) -> (r: Result<[u8; 16], NszError>)
        ensures
            r is Ok <==> self.spec_master_key(master_index) is Some,
            r matches Ok(k) ==> k@ == aes128_decrypt_block_spec(
                self.spec_master_key(master_index).unwrap(),
                self.spec_titlekek_source(),
            ),
    {
        let master = match self.master_key(master_index) {
            Ok(k) => k,
            Err(e) => {
                return Err(e);
            },
        };
        let out = aes_ecb_decrypt_block(
            vstd::array::array_as_slice(&master),
            vstd::array::array_as_slice(&self.titlekek_source),
        );
        Ok(crate::util::bytes_to_array::<16>(out.as_slice()))
    }

    /// Resolves the application key-area key of `master_index`: the
    /// explicit override when present, else the three-step ECB chain
    /// from the master key.
    fn key_area_key_application(&self, master_index: u8) -> (r: Result<[u8; 16], NszError>)
        ensures
            r is Ok <==> (self.spec_kak_override(master_index) is Some || self.spec_master_key(
                master_index,
            ) is Some),
            r matches Ok(k) ==> k@ == (match self.spec_kak_override(master_index) {
                Some(v) => v,
                None => kak_chain_spec(*self, self.spec_master_key(master_index).unwrap()),
            }),
    {
        match self.kak_override(master_index) {
            Some(k) => Ok(k),
            None => {
                let master = match self.master_key(master_index) {
                    Ok(k) => k,
                    Err(e) => {
                        return Err(e);
                    },
                };
                let k1 = aes_ecb_decrypt_block(
                    vstd::array::array_as_slice(&master),
                    vstd::array::array_as_slice(&self.aes_kek_generation_source),
                );
                let k2 = aes_ecb_decrypt_block(
                    k1.as_slice(),
                    vstd::array::array_as_slice(&self.key_area_key_application_source),
                );
                let k3 = aes_ecb_decrypt_block(
                    k2.as_slice(),
                    vstd::array::array_as_slice(&self.aes_key_generation_source),
                );
                Ok(crate::util::bytes_to_array::<16>(k3.as_slice()))
            },
        }
    }
}

// ---------------------------------------------------------------------
// Tickets.
// ---------------------------------------------------------------------

/// Signature size for a ticket signature type, or -1 when unsupported.
pub open spec fn ticket_sig_size(sig_type: u32) -> int {
    if sig_type == 0x010000 || sig_type == 0x010003 {
        0x200
    } else if sig_type == 0x010001 || sig_type == 0x010004 {
        0x100
    } else if sig_type == 0x010002 || sig_type == 0x010005 {
        0x3C
    } else {
        -1
    }
}

/// Start of the ticket payload: the 4-byte type, the signature, and
/// padding to the next 0x40 boundary.
pub open spec fn ticket_base(sig_size: int) -> int {
    4 + sig_size + (0x40 - ((sig_size + 4) % 0x40))
}

/// A ticket parses: known signature type and a complete payload.
pub open spec fn ticket_wf(data: Seq<u8>) -> bool {
    &&& data.len() >= 4
    &&& ticket_sig_size(spec_u32_from_le_bytes(data.subrange(0, 4)) as u32) >= 0
    &&& data.len() >= ticket_base(
        ticket_sig_size(spec_u32_from_le_bytes(data.subrange(0, 4)) as u32),
    ) + 0x174
}

/// The master-key revision of a ticket: the byte at `base + 0x145`, or
/// its neighbour at `base + 0x146` when that byte is zero.
pub open spec fn ticket_revision(data: Seq<u8>, base: int) -> u8 {
    if data[base + 0x145] == 0 {
        data[base + 0x146]
    } else {
        data[base + 0x145]
    }
}

/// `t` holds exactly the fields of the ticket `data`.
pub open spec fn ticket_parses_to(t: TicketRecord, data: Seq<u8>) -> bool {
    let base = ticket_base(ticket_sig_size(spec_u32_from_le_bytes(data.subrange(0, 4)) as u32));
    &&& t.rights_id@ == data.subrange(base + 0x160, base + 0x170)
    &&& t.encrypted_title_key@ == data.subrange(base + 0x40, base + 0x50)
    &&& t.master_key_revision == ticket_revision(data, base)
}

/// Extracts the rights id, encrypted title key and master-key revision
/// from a variable-signature ticket.
///
/// Succeeds exactly when `ticket_wf` holds of the bytes, and then the
/// record `ticket_parses_to` is pinned down.
pub fn parse_ticket_record(data: &[u8]) -> (r: Result<TicketRecord, NszError>)
    ensures
        r is Ok <==> ticket_wf(data@),
        r matches Ok(t) ==> ticket_parses_to(t, data@),
{
    let n = data.len();
    if n < 4 {
        return Err(container_format_error("ticket data too short"));
    }
    let signature_type = crate::util::read_u32_le(data, 0);
    let signature_size: usize = if signature_type == 0x010000 || signature_type == 0x010003 {
        0x200
    } else if signature_type == 0x010001 || signature_type == 0x010004 {
        0x100
    } else if signature_type == 0x010002 || signature_type == 0x010005 {
        0x3C
    } else {
        return Err(container_format_error("unsupported ticket signature type"));
    };
    let signature_padding = 0x40 - ((signature_size + 4) % 0x40);
    let base = 4 + signature_size + signature_padding;
    proof {
        assert(base as int == ticket_base(signature_size as int));
    }
    if n < base + 0x174 {
        return Err(container_format_error("ticket data truncated"));
    }

    let etk_slice = vstd::slice::slice_subrange(data, base + 0x40, base + 0x50);
    let encrypted_title_key: [u8; 16] = crate::util::bytes_to_array(etk_slice);
    let rid_slice = vstd::slice::slice_subrange(data, base + 0x160, base + 0x170);
    let rights_id: [u8; 16] = crate::util::bytes_to_array(rid_slice);
    let mut master_key_revision = data[base + 0x145];
    if master_key_revision == 0 {
        master_key_revision = data[base + 0x146];
    }
    Ok(TicketRecord { rights_id, encrypted_title_key, master_key_revision })
}

/// The last ticket whose rights id equals `rid`, if any: tickets
/// collected later in a container win.
pub open spec fn ticket_lookup(tickets: Seq<TicketRecord>, rid: Seq<u8>) -> Option<TicketRecord>
    decreases tickets.len(),
{
    if tickets.len() == 0 {
        None
    } else if tickets.last().rights_id@ == rid {
        Some(tickets.last())
    } else {
        ticket_lookup(tickets.drop_last(), rid)
    }
}

/// Finds the last ticket for `rid`.
fn ticket_lookup_exec(tickets: &[TicketRecord], rid: &[u8; 16]) -> (r: Option<TicketRecord>)
    ensures
        r == ticket_lookup(tickets@, rid@),
{
    let n = tickets.len();
    let mut result: Option<TicketRecord> = None;
    let mut i: usize = 0;
    while i < n
        invariant
            n == tickets@.len(),
            i <= n,
            result == ticket_lookup(tickets@.subrange(0, i as int), rid@),
        decreases n - i,
    {
        proof {
            assert(tickets@.subrange(0, i as int + 1).drop_last() =~= tickets@.subrange(
                0,
                i as int,
            ));
            assert(tickets@.subrange(0, i as int + 1).last() == tickets@[i as int]);
        }
        let cand = &tickets[i];
        if bytes_eq(
            vstd::array::array_as_slice(&cand.rights_id),
            vstd::array::array_as_slice(rid),
        ) {
            let copied = TicketRecord {
                rights_id: cand.rights_id,
                encrypted_title_key: cand.encrypted_title_key,
                master_key_revision: cand.master_key_revision,
            };
            proof {
                assert(copied == tickets@[i as int]);
            }
            result = Some(copied);
        }
        i = i + 1;
    }
    proof {
        assert(tickets@.subrange(0, n as int) =~= tickets@);
    }
    result
}


// ---------------------------------------------------------------------
// NCA header analysis.
// ---------------------------------------------------------------------

/// The XTS-decrypted 0xC00-byte header of an NCA.
pub open spec fn nca_plain_header(data: Seq<u8>, hk: Seq<u8>) -> Seq<u8> {
    crate::crypto::xts::xts_decrypt_spec(
        hk.subrange(0, 16),
        hk.subrange(16, 32),
        data.subrange(0, 0xC00),
    )
}

/// The header parses: long enough and `NCA2` or `NCA3` after decryption.
pub open spec fn nca_header_wf(data: Seq<u8>, hk: Seq<u8>) -> bool {
    let hdr = nca_plain_header(data, hk);
    &&& data.len() >= 0xC00
    &&& (hdr.subrange(0x200, 0x204) == seq![0x4Eu8, 0x43u8, 0x41u8, 0x32u8] || hdr.subrange(
        0x200,
        0x204,
    ) == seq![0x4Eu8, 0x43u8, 0x41u8, 0x33u8])
}

/// Content-type byte of a plaintext header.
pub open spec fn nca_content_type(hdr: Seq<u8>) -> u8 {
    hdr[0x205]
}

/// First crypto-type byte.
pub open spec fn nca_crypto_type(hdr: Seq<u8>) -> u8 {
    hdr[0x206]
}

/// Declared NCA size.
pub open spec fn nca_size(hdr: Seq<u8>) -> u64 {
    spec_u64_from_le_bytes(hdr.subrange(0x208, 0x210))
}

/// Second crypto-type byte.
pub open spec fn nca_crypto_type2(hdr: Seq<u8>) -> u8 {
    hdr[0x220]
}

/// The rights id.
pub open spec fn nca_rights_id(hdr: Seq<u8>) -> Seq<u8> {
    hdr.subrange(0x230, 0x240)
}

/// The 64-byte encrypted key block.
pub open spec fn nca_key_block(hdr: Seq<u8>) -> Seq<u8> {
    hdr.subrange(0x300, 0x340)
}

/// Media-unit start of slot `k`, in bytes.
pub open spec fn nca_slot_offset(hdr: Seq<u8>, k: int) -> int {
    spec_u32_from_le_bytes(hdr.subrange(0x240 + 0x10 * k, 0x240 + 0x10 * k + 4)) * 0x200
}

/// Media-unit end of slot `k`, in bytes.
pub open spec fn nca_slot_end(hdr: Seq<u8>, k: int) -> int {
    spec_u32_from_le_bytes(hdr.subrange(0x240 + 0x10 * k + 4, 0x240 + 0x10 * k + 8)) * 0x200
}

/// Slot `k` declares a non-empty range inside the declared size.
pub open spec fn nca_slot_valid(hdr: Seq<u8>, k: int) -> bool {
    nca_slot_end(hdr, k) > nca_slot_offset(hdr, k) && nca_slot_end(hdr, k) <= nca_size(hdr)
}

/// Per-slot crypto-type byte from the section sub-header.
pub open spec fn nca_slot_crypto_type(hdr: Seq<u8>, k: int) -> u8 {
    hdr[0x400 + 0x200 * k + 0x4]
}

/// The CTR initial value of slot `k`: the 8 counter-prefix bytes land
/// reversed in the low half, the high half is zero.
pub open spec fn nca_slot_counter(hdr: Seq<u8>, k: int) -> Seq<u8> {
    Seq::new(
        16,
        |i: int|
            if i < 8 {
                hdr[0x400 + 0x200 * k + 0x140 + 7 - i]
            } else {
                0u8
            },
    )
}

/// BKTR subsection-table offset of slot `k`.
pub open spec fn nca_slot_bktr_offset(hdr: Seq<u8>, k: int) -> u64 {
    spec_u64_from_le_bytes(hdr.subrange(0x400 + 0x200 * k + 0x120, 0x400 + 0x200 * k + 0x128))
}

/// BKTR subsection-table size of slot `k`.
pub open spec fn nca_slot_bktr_size(hdr: Seq<u8>, k: int) -> u64 {
    spec_u64_from_le_bytes(hdr.subrange(0x400 + 0x200 * k + 0x128, 0x400 + 0x200 * k + 0x130))
}

/// One enumerated NCA section.
#[derive(Debug, Clone, PartialEq, Eq)]
pub struct NcaSectionInfo {
    /// Absolute byte offset.
    pub offset: u64,
    /// Byte size.
    pub size: u64,
    /// Per-section crypto type.
    pub crypto_type: u8,
    /// CTR initial value.
    pub crypto_counter: [u8; 16],
    /// BKTR subsection-table offset, section-relative.
    pub bktr_subsection_offset: u64,
    /// BKTR subsection-table size; zero when absent.
    pub bktr_subsection_size: u64,
}

/// The parsed plaintext header: scalar fields and the sorted sections.
#[derive(Debug, Clone, PartialEq, Eq)]
pub struct NcaHeaderInfo {
    /// Content-type byte.
    pub content_type: u8,
    /// First crypto-type byte.
    pub crypto_type: u8,
    /// Declared NCA size.
    pub size: u64,
    /// Second crypto-type byte.
    pub crypto_type2: u8,
    /// Rights id.
    pub rights_id: [u8; 16],
    /// Encrypted 64-byte key block.
    pub encrypted_key_block: [u8; 64],
    /// Valid sections, sorted by offset.
    pub sections: Vec<NcaSectionInfo>,
}

/// `s` holds exactly the fields of slot `k`.
pub open spec fn nca_slot_section_matches(s: NcaSectionInfo, hdr: Seq<u8>, k: int) -> bool {
    &&& s.offset as int == nca_slot_offset(hdr, k)
    &&& s.size as int == nca_slot_end(hdr, k) - nca_slot_offset(hdr, k)
    &&& s.crypto_type == nca_slot_crypto_type(hdr, k)
    &&& s.crypto_counter@ == nca_slot_counter(hdr, k)
    &&& s.bktr_subsection_offset == nca_slot_bktr_offset(hdr, k)
    &&& s.bktr_subsection_size == nca_slot_bktr_size(hdr, k)
}

/// `u` lists exactly the valid slots below `k`, in slot order.
pub open spec fn nca_slots_match_upto(u: Seq<NcaSectionInfo>, hdr: Seq<u8>, k: int) -> bool
    decreases k,
{
    if k <= 0 {
        u.len() == 0
    } else if nca_slot_valid(hdr, k - 1) {
        u.len() > 0 && nca_slot_section_matches(u.last(), hdr, k - 1) && nca_slots_match_upto(
            u.drop_last(),
            hdr,
            k - 1,
        )
    } else {
        nca_slots_match_upto(u, hdr, k - 1)
    }
}

/// Non-decreasing section offsets.
pub open spec fn nca_sections_sorted(secs: Seq<NcaSectionInfo>) -> bool {
    forall|i: int, j: int| 0 <= i < j < secs.len() ==> #[trigger] secs[i].offset <= #[trigger] secs[j].offset
}

/// `secs` is a sorted permutation of the valid slots of `hdr`.
pub open spec fn nca_sections_of_header(secs: Seq<NcaSectionInfo>, hdr: Seq<u8>) -> bool {
    &&& nca_sections_sorted(secs)
    &&& exists|u: Seq<NcaSectionInfo>|
        nca_slots_match_upto(u, hdr, 4) && secs.to_multiset() == u.to_multiset()
}

/// The sections tile `[next, size)` without gaps, in order.
pub open spec fn nca_sections_contiguous_from(
    secs: Seq<NcaSectionInfo>,
    i: int,
    next: int,
    size: int,
) -> bool
    decreases secs.len() - i,
{
    if i >= secs.len() {
        next == size
    } else {
        secs[i].offset == next && nca_sections_contiguous_from(
            secs,
            i + 1,
            secs[i].offset + secs[i].size,
            size,
        )
    }
}

/// The header's sections pack the declared size: none, or contiguous
/// from the first section to exactly `size`.
pub open spec fn nca_sections_packed(secs: Seq<NcaSectionInfo>, size: u64) -> bool {
    if secs.len() == 0 {
        true
    } else {
        nca_sections_contiguous_from(secs, 0, secs[0].offset as int, size as int)
    }
}

/// `h` is a parse of the plaintext header `hdr`.
pub open spec fn nca_header_parses_to(h: NcaHeaderInfo, hdr: Seq<u8>) -> bool {
    &&& h.content_type == nca_content_type(hdr)
    &&& h.crypto_type == nca_crypto_type(hdr)
    &&& h.size == nca_size(hdr)
    &&& h.crypto_type2 == nca_crypto_type2(hdr)
    &&& h.rights_id@ == nca_rights_id(hdr)
    &&& h.encrypted_key_block@ == nca_key_block(hdr)
    &&& nca_sections_of_header(h.sections@, hdr)
}

/// Sorts sections by offset: a sorted permutation of the input.
fn sort_sections(v: Vec<NcaSectionInfo>) -> (r: Vec<NcaSectionInfo>)
    ensures
        nca_sections_sorted(r@),
        r@.to_multiset() == v@.to_multiset(),
{
    broadcast use vstd::seq_lib::group_to_multiset_ensures;

    let mut work = v;
    let mut out: Vec<NcaSectionInfo> = Vec::new();
    while work.len() > 0
        invariant
            out@.to_multiset().add(work@.to_multiset()) == v@.to_multiset(),
            nca_sections_sorted(out@),
            forall|i: int, j: int|
                0 <= i < out@.len() && 0 <= j < work@.len() ==> #[trigger] out@[i].offset
                    <= #[trigger] work@[j].offset,
        decreases work@.len(),
    {
        let n = work.len();
        let mut min_idx: usize = 0;
        let mut i: usize = 1;
        while i < n
            invariant
                n == work@.len(),
                min_idx < i <= n,
                forall|j: int| 0 <= j < i ==> work@[min_idx as int].offset <= #[trigger] work@[j].offset,
            decreases n - i,
        {
            if work[i].offset < work[min_idx].offset {
                min_idx = i;
            }
            i = i + 1;
        }
        let ghost before = work@;
        let ghost out_before = out@;
        let picked = work.remove(min_idx);
        out.push(picked);
        proof {
            broadcast use vstd::multiset::group_multiset_axioms;
            broadcast use vstd::seq_lib::group_to_multiset_ensures;

            assert(work@ == before.remove(min_idx as int));
            vstd::seq_lib::to_multiset_remove(before, min_idx as int);
            vstd::seq_lib::to_multiset_build(out_before, picked);
            assert(work@ =~= before.subrange(0, min_idx as int) + before.subrange(
                min_idx + 1,
                before.len() as int,
            ));
            assert(forall|j: int|
                0 <= j < work@.len() ==> #[trigger] work@[j] == (if j < min_idx {
                    before[j]
                } else {
                    before[j + 1]
                }));
            assert(picked == before[min_idx as int]);
            assert(work@.to_multiset() =~= before.to_multiset().remove(picked));
            assert(out@ == out_before.push(picked));
            assert(out@.to_multiset() =~= out_before.to_multiset().insert(picked));
            assert(out@.to_multiset().add(work@.to_multiset()) =~= v@.to_multiset());
            assert(forall|j: int|
                0 <= j < out_before.len() ==> #[trigger] out_before[j].offset <= picked.offset);
            assert(nca_sections_sorted(out@));
            assert(forall|i: int, j: int|
                0 <= i < out@.len() && 0 <= j < work@.len() ==> #[trigger] out@[i].offset
                    <= #[trigger] work@[j].offset);
        }
    }
    proof {
        broadcast use vstd::multiset::group_multiset_axioms;

        assert(work@.to_multiset() =~= Multiset::<NcaSectionInfo>::empty());
        assert(out@.to_multiset() =~= v@.to_multiset());
    }
    out
}


/// Decrypts and parses the NCA header: scalar fields and the valid
/// sections, sorted by offset.
///
/// Succeeds exactly when `nca_header_wf` holds: the buffer reaches
/// 0xC00 bytes and the decrypted magic is `NCA2` or `NCA3`.
pub fn parse_nca_header(data: &[u8], header_key: &[u8; 32]) -> (r: Result<
    NcaHeaderInfo,
    NszError,
>)
    ensures
        r is Ok <==> nca_header_wf(data@, header_key@),
        r matches Ok(h) ==> nca_header_parses_to(h, nca_plain_header(data@, header_key@)),
{
    let n = data.len();
    if n < 0xC00 {
        return Err(container_format_error("NCA data too short for header analysis"));
    }
    let hdr_slice = vstd::slice::slice_subrange(data, 0, 0xC00);
    let header = match crate::crypto::xts::decrypt_nca_header_xts(hdr_slice, header_key) {
        Ok(h) => h,
        Err(e) => {
            proof {
                assert(false);
            }
            return Err(e);
        },
    };
    let ghost hdr = nca_plain_header(data@, header_key@);
    proof {
        assert(header@ == hdr);
    }
    let hs = header.as_slice();
    if !(hs[0x200] == 0x4E && hs[0x201] == 0x43 && hs[0x202] == 0x41 && (hs[0x203] == 0x32
        || hs[0x203] == 0x33)) {
        proof {
            assert(hdr.subrange(0x200, 0x204) =~= seq![
                hdr[0x200],
                hdr[0x201],
                hdr[0x202],
                hdr[0x203],
            ]);
        }
        return Err(container_format_error("NCA header magic mismatch after XTS decryption"));
    }
    proof {
        assert(hdr.subrange(0x200, 0x204) =~= seq![hdr[0x200], hdr[0x201], hdr[0x202], hdr[0x203]]);
    }

    let content_type = hs[0x205];
    let crypto_type = hs[0x206];
    let size = crate::util::read_u64_le(hs, 0x208);
    let crypto_type2 = hs[0x220];
    let rights_id: [u8; 16] = crate::util::bytes_to_array(
        vstd::slice::slice_subrange(hs, 0x230, 0x240),
    );
    let encrypted_key_block: [u8; 64] = crate::util::bytes_to_array(
        vstd::slice::slice_subrange(hs, 0x300, 0x340),
    );

    let mut slots: Vec<NcaSectionInfo> = Vec::new();
    let mut k: usize = 0;
    while k < 4
        invariant
            header@ == hdr,
            hdr.len() == 0xC00,
            size == nca_size(hdr),
            k <= 4,
            nca_slots_match_upto(slots@, hdr, k as int),
        decreases 4 - k,
    {
        let hs2 = header.as_slice();
        let table_cursor = 0x240 + 0x10 * k;
        let media_offset = crate::util::read_u32_le(hs2, table_cursor) as u64;
        let media_end = crate::util::read_u32_le(hs2, table_cursor + 4) as u64;
        let offset = media_offset * 0x200;
        let end = media_end * 0x200;
        let ghost slots_before = slots@;
        if end > offset && end <= size {
            let sub_start = 0x400 + 0x200 * k;
            let crypto_type_section = hs2[sub_start + 0x4];
            let mut counter_bytes: Vec<u8> = Vec::new();
            let mut ci: usize = 0;
            while ci < 16
                invariant
                    header@ == hdr,
                    hdr.len() == 0xC00,
                    k < 4,
                    sub_start == 0x400 + 0x200 * k,
                    ci <= 16,
                    counter_bytes@.len() == ci,
                    forall|i: int|
                        0 <= i < ci ==> counter_bytes@[i] == nca_slot_counter(hdr, k as int)[i],
                decreases 16 - ci,
            {
                let b: u8 = if ci < 8 {
                    header.as_slice()[sub_start + 0x140 + 7 - ci]
                } else {
                    0u8
                };
                counter_bytes.push(b);
                ci = ci + 1;
            }
            proof {
                assert(counter_bytes@ =~= nca_slot_counter(hdr, k as int));
            }
            let crypto_counter: [u8; 16] = crate::util::bytes_to_array(counter_bytes.as_slice());
            let bktr_subsection_offset = crate::util::read_u64_le(hs2, sub_start + 0x120);
            let bktr_subsection_size = crate::util::read_u64_le(hs2, sub_start + 0x128);
            slots.push(
                NcaSectionInfo {
                    offset,
                    size: end - offset,
                    crypto_type: crypto_type_section,
                    crypto_counter,
                    bktr_subsection_offset,
                    bktr_subsection_size,
                },
            );
            proof {
                assert(slots@.drop_last() =~= slots_before);
                assert(nca_slot_valid(hdr, k as int));
                assert(nca_slot_section_matches(slots@.last(), hdr, k as int));
            }
        } else {
            proof {
                assert(!nca_slot_valid(hdr, k as int));
            }
        }
        k = k + 1;
    }

    let ghost unsorted = slots@;
    let sections = sort_sections(slots);
    proof {
        assert(nca_sections_of_header(sections@, hdr)) by {
            assert(nca_slots_match_upto(unsorted, hdr, 4) && sections@.to_multiset()
                == unsorted.to_multiset());
        }
    }
    Ok(
        NcaHeaderInfo {
            content_type,
            crypto_type,
            size,
            crypto_type2,
            rights_id,
            encrypted_key_block,
            sections,
        },
    )
}

impl NcaHeaderInfo {
    /// The compressibility facts of this header: the content type, the
    /// declared size, and whether the sections pack it exactly.
    pub fn meta(&self) -> (r: NcaCompressionMeta)
        ensures
            r.content_type == self.content_type,
            r.size == self.size,
            r.packed == nca_sections_packed(self.sections@, self.size),
    {
        let n = self.sections.len();
        let packed: bool = if n == 0 {
            true
        } else {
            let mut next: u64 = self.sections[0].offset;
            let mut contiguous = true;
            let mut i: usize = 0;
            while i < n && contiguous
                invariant
                    n == self.sections@.len(),
                    n > 0,
                    i <= n,
                    contiguous ==> nca_sections_packed(self.sections@, self.size)
                        == nca_sections_contiguous_from(
                        self.sections@,
                        i as int,
                        next as int,
                        self.size as int,
                    ),
                    !contiguous ==> !nca_sections_packed(self.sections@, self.size),
                decreases n - i,
            {
                if self.sections[i].offset != next {
                    contiguous = false;
                } else {
                    let off = self.sections[i].offset;
                    let sz = self.sections[i].size;
                    if sz > u64::MAX - off {
                        // The chain leaves u64 range: it cannot end at the
                        // declared size, which is a u64.
                        proof {
                            lemma_contiguous_unreachable(
                                self.sections@,
                                i as int + 1,
                                off + sz,
                                self.size as int,
                            );
                        }
                        contiguous = false;
                    } else {
                        next = off + sz;
                    }
                }
                i = i + 1;
            }
            contiguous && next == self.size
        };
        NcaCompressionMeta { content_type: self.content_type, size: self.size, packed }
    }
}

/// A chain position beyond `u64::MAX` can never land on a u64 size.
proof fn lemma_contiguous_unreachable(secs: Seq<NcaSectionInfo>, i: int, next: int, size: int)
    requires
        next > u64::MAX,
        0 <= size <= u64::MAX,
        0 <= i,
    ensures
        !nca_sections_contiguous_from(secs, i, next, size),
    decreases secs.len() - i,
{
    if i < secs.len() {
        if secs[i].offset == next {
        }
    }
}

/// XTS-decrypts the header and reports the compression facts.
///
/// Succeeds exactly when `nca_header_wf` holds of the bytes under the
/// given key.
pub fn analyze_for_compression(data: &[u8], header_key: &[u8; 32]) -> (r: Result<
    NcaCompressionMeta,
    NszError,
>)
    ensures
        r is Ok <==> nca_header_wf(data@, header_key@),
        r matches Ok(m) ==> exists|h: NcaHeaderInfo|
            {
                &&& nca_header_parses_to(h, nca_plain_header(data@, header_key@))
                &&& m.content_type == h.content_type
                &&& m.size == h.size
                &&& m.packed == nca_sections_packed(h.sections@, h.size)
            },
{
    let header = match parse_nca_header(data, header_key) {
        Ok(h) => h,
        Err(e) => {
            return Err(e);
        },
    };
    let meta = header.meta();
    proof {
        let h = header;
        assert(nca_header_parses_to(h, nca_plain_header(data@, header_key@)) && meta.content_type
            == h.content_type && meta.size == h.size && meta.packed == nca_sections_packed(
            h.sections@,
            h.size,
        ));
    }
    Ok(meta)
}


// ---------------------------------------------------------------------
// BKTR subsection tables and the compression plan.
// ---------------------------------------------------------------------

/// Saturating u64 addition.
pub open spec fn sat_add_u64(a: u64, b: u64) -> u64 {
    if a + b > u64::MAX {
        u64::MAX
    } else {
        (a + b) as u64
    }
}

/// Saturating u64 subtraction.
pub open spec fn sat_sub_u64(a: u64, b: u64) -> u64 {
    if a >= b {
        (a - b) as u64
    } else {
        0
    }
}

/// A read of `[rel, rel + len)` out of a section fits the section and
/// the file.
pub open spec fn nca_read_ok(data: Seq<u8>, sec_off: u64, sec_size: u64, rel: int, len: int) -> bool {
    &&& rel + len <= sec_size
    &&& sec_off + rel + len <= data.len()
}

/// The decrypted bytes of `[rel, rel + len)` in a section: AES-CTR is
/// applied for crypto types 3 and 4, seeked to the absolute offset.
pub open spec fn nca_read(
    data: Seq<u8>,
    sec_off: u64,
    ctype: u8,
    counter: Seq<u8>,
    key: Seq<u8>,
    rel: int,
    len: int,
) -> Seq<u8> {
    let raw = data.subrange(sec_off + rel, sec_off + rel + len);
    if ctype == 3 || ctype == 4 {
        ctr_xor(key, counter, sec_off + rel, raw)
    } else {
        raw
    }
}

/// The `(virtual offset, size, ctr)` triples of one bucket: sizes come
/// from the next entry's offset, the last from the bucket end.
pub open spec fn bktr_bucket_entries(eb: Seq<u8>, entry_count: int, end_offset: u64) -> Seq<
    (u64, u64, u32),
> {
    Seq::new(
        entry_count as nat,
        |i: int|
            {
                let voff = spec_u64_from_le_bytes(eb.subrange(0x10 * i, 0x10 * i + 8));
                let ctr = spec_u32_from_le_bytes(eb.subrange(0x10 * i + 12, 0x10 * i + 16));
                let next = if i + 1 < entry_count {
                    spec_u64_from_le_bytes(eb.subrange(0x10 * (i + 1), 0x10 * (i + 1) + 8))
                } else {
                    end_offset
                };
                (voff, sat_sub_u64(next, voff), ctr)
            },
    )
}

/// Walks `remaining` buckets from `cursor`, collecting their entries, or
/// `None` when a bucket header or entry block leaves the section.
pub open spec fn bktr_buckets(
    data: Seq<u8>,
    sec_off: u64,
    sec_size: u64,
    ctype: u8,
    counter: Seq<u8>,
    key: Seq<u8>,
    cursor: int,
    remaining: int,
) -> Option<Seq<(u64, u64, u32)>>
    decreases remaining,
{
    if remaining <= 0 {
        Some(Seq::<(u64, u64, u32)>::empty())
    } else if !nca_read_ok(data, sec_off, sec_size, cursor, 0x10) {
        None
    } else {
        let bh = nca_read(data, sec_off, ctype, counter, key, cursor, 0x10);
        let entry_count = spec_u32_from_le_bytes(bh.subrange(4, 8)) as int;
        let end_offset = spec_u64_from_le_bytes(bh.subrange(8, 16));
        let ecur = cursor + 0x10;
        if !nca_read_ok(data, sec_off, sec_size, ecur, 0x10 * entry_count) {
            None
        } else {
            let eb = nca_read(data, sec_off, ctype, counter, key, ecur, 0x10 * entry_count);
            match bktr_buckets(
                data,
                sec_off,
                sec_size,
                ctype,
                counter,
                key,
                ecur + 0x10 * entry_count,
                remaining - 1,
            ) {
                None => None,
                Some(rest) => Some(bktr_bucket_entries(eb, entry_count, end_offset) + rest),
            }
        }
    }
}

/// The expanded BKTR entries of a section, or `None` when the table
/// leaves the section bounds.
pub open spec fn bktr_entries_spec(
    data: Seq<u8>,
    sec_off: u64,
    sec_size: u64,
    ctype: u8,
    counter: Seq<u8>,
    key: Seq<u8>,
    bktr_off: u64,
) -> Option<Seq<(u64, u64, u32)>> {
    if bktr_off + 0x4000 > sec_size {
        None
    } else if !nca_read_ok(data, sec_off, sec_size, bktr_off as int, 0x4000) {
        None
    } else {
        let hb = nca_read(data, sec_off, ctype, counter, key, bktr_off as int, 0x4000);
        let bucket_count = spec_u32_from_le_bytes(hb.subrange(4, 8)) as int;
        bktr_buckets(
            data,
            sec_off,
            sec_size,
            ctype,
            counter,
            key,
            bktr_off + 0x4000,
            bucket_count,
        )
    }
}

/// The counter of one expanded BKTR range: the high half zeroed and the
/// entry's 32-bit value written big-endian into bytes 7..4.
pub open spec fn set_bktr_counter_spec(base: Seq<u8>, v: u32) -> Seq<u8> {
    Seq::new(
        16,
        |i: int|
            if i >= 8 {
                0u8
            } else if i >= 4 {
                ((v >> (8 * (7 - i)) as u32) & 0xff) as u8
            } else {
                base[i]
            },
    )
}

/// Reads `[rel, rel + len)` of a section, decrypted as the section
/// demands. Succeeds exactly when the range fits the section and file.
fn read_section_range(
    data: &[u8],
    sec: &NcaSectionInfo,
    title_key: &[u8; 16],
    rel: u64,
    len: u64,
) -> (r: Result<Vec<u8>, NszError>)
    ensures
        r is Ok <==> nca_read_ok(data@, sec.offset, sec.size, rel as int, len as int),
        r matches Ok(v) ==> v@ == nca_read(
            data@,
            sec.offset,
            sec.crypto_type,
            sec.crypto_counter@,
            title_key@,
            rel as int,
            len as int,
        ),
{
    let n = data.len();
    if len > u64::MAX - rel {
        return Err(container_format_error("section read outside bounds"));
    }
    let end_relative = rel + len;
    if end_relative > sec.size {
        return Err(container_format_error("section read outside bounds"));
    }
    if rel > u64::MAX - sec.offset || end_relative > u64::MAX - sec.offset {
        return Err(container_format_error("section read exceeds NCA file size"));
    }
    let absolute = sec.offset + rel;
    let end_absolute = sec.offset + end_relative;
    if end_absolute > n as u64 {
        return Err(container_format_error("section read exceeds NCA file size"));
    }
    let mut bytes = crate::util::copy_range(data, absolute as usize, end_absolute as usize);
    if sec.crypto_type == 3 || sec.crypto_type == 4 {
        crate::crypto::primitives::aes_ctr_transform(
            &mut bytes,
            vstd::array::array_as_slice(title_key),
            vstd::array::array_as_slice(&sec.crypto_counter),
            absolute,
        );
    }
    Ok(bytes)
}

/// Parses the BKTR subsection table of a section into expanded
/// `(virtual offset, size, ctr)` triples.
fn parse_bktr_subsection_entries(data: &[u8], sec: &NcaSectionInfo, title_key: &[u8; 16]) -> (r:
    Result<Vec<(u64, u64, u32)>, NszError>)
    ensures
        r is Ok <==> bktr_entries_spec(
            data@,
            sec.offset,
            sec.size,
            sec.crypto_type,
            sec.crypto_counter@,
            title_key@,
            sec.bktr_subsection_offset,
        ) is Some,
        r matches Ok(v) ==> Some(v@) == bktr_entries_spec(
            data@,
            sec.offset,
            sec.size,
            sec.crypto_type,
            sec.crypto_counter@,
            title_key@,
            sec.bktr_subsection_offset,
        ),
{
    let bk_off = sec.bktr_subsection_offset;
    if bk_off > u64::MAX - 0x4000 || bk_off + 0x4000 > sec.size {
        return Err(container_format_error("BKTR subsection header outside section bounds"));
    }
    let header = match read_section_range(data, sec, title_key, bk_off, 0x4000) {
        Ok(h) => h,
        Err(e) => {
            return Err(e);
        },
    };
    let bucket_count = crate::util::read_u32_le(header.as_slice(), 4) as usize;
    let ghost spec_full = bktr_entries_spec(
        data@,
        sec.offset,
        sec.size,
        sec.crypto_type,
        sec.crypto_counter@,
        title_key@,
        sec.bktr_subsection_offset,
    );

    let mut out: Vec<(u64, u64, u32)> = Vec::new();
    let mut cursor: u64 = bk_off + 0x4000;
    let mut b: usize = 0;
    proof {
        assert(out@ + bktr_buckets(
            data@,
            sec.offset,
            sec.size,
            sec.crypto_type,
            sec.crypto_counter@,
            title_key@,
            cursor as int,
            bucket_count as int,
        ).unwrap() =~= bktr_buckets(
            data@,
            sec.offset,
            sec.size,
            sec.crypto_type,
            sec.crypto_counter@,
            title_key@,
            cursor as int,
            bucket_count as int,
        ).unwrap());
    }
    while b < bucket_count
        invariant
            b <= bucket_count,
            spec_full == bktr_entries_spec(
                data@,
                sec.offset,
                sec.size,
                sec.crypto_type,
                sec.crypto_counter@,
                title_key@,
                sec.bktr_subsection_offset,
            ),
            spec_full == (match bktr_buckets(
                data@,
                sec.offset,
                sec.size,
                sec.crypto_type,
                sec.crypto_counter@,
                title_key@,
                cursor as int,
                (bucket_count - b) as int,
            ) {
                None => None::<Seq<(u64, u64, u32)>>,
                Some(rest) => Some(out@ + rest),
            }),
        decreases bucket_count - b,
    {
        let bucket_header = match read_section_range(data, sec, title_key, cursor, 0x10) {
            Ok(h) => h,
            Err(e) => {
                return Err(e);
            },
        };
        let entry_count = crate::util::read_u32_le(bucket_header.as_slice(), 4) as usize;
        let end_offset = crate::util::read_u64_le(bucket_header.as_slice(), 8);
        let ecur = cursor + 0x10;
        let eb = match read_section_range(
            data,
            sec,
            title_key,
            ecur,
            0x10 * (entry_count as u64),
        ) {
            Ok(h) => h,
            Err(e) => {
                return Err(e);
            },
        };
        let ghost bucket = bktr_bucket_entries(eb@, entry_count as int, end_offset);
        let ghost out_before = out@;
        let eb_len = eb.len();
        proof {
            assert(entry_count * 0x10 <= usize::MAX);
        }
        let mut j: usize = 0;
        while j < entry_count
            invariant
                entry_count * 0x10 == eb@.len(),
                entry_count * 0x10 <= usize::MAX,
                entry_count <= u32::MAX,
                j <= entry_count,
                bucket == bktr_bucket_entries(eb@, entry_count as int, end_offset),
                out@ == out_before + bucket.subrange(0, j as int),
            decreases entry_count - j,
        {
            let voff = crate::util::read_u64_le(eb.as_slice(), 0x10 * j);
            let ctr = crate::util::read_u32_le(eb.as_slice(), 0x10 * j + 12);
            let next: u64 = if j + 1 < entry_count {
                crate::util::read_u64_le(eb.as_slice(), 0x10 * (j + 1))
            } else {
                end_offset
            };
            let size: u64 = if next >= voff {
                next - voff
            } else {
                0
            };
            out.push((voff, size, ctr));
            j = j + 1;
            proof {
                assert(out@ =~= out_before + bucket.subrange(0, j as int));
            }
        }
        proof {
            assert(bucket.subrange(0, entry_count as int) =~= bucket);
        }
        cursor = ecur + 0x10 * (entry_count as u64);
        b = b + 1;
        proof {
            assert(forall|rest: Seq<(u64, u64, u32)>|
                out_before + (bucket + rest) =~= (out_before + bucket) + rest);
        }
    }
    proof {
        assert(out@ + Seq::<(u64, u64, u32)>::empty() =~= out@);
    }
    Ok(out)
}


/// The all-zero rights id.
pub open spec fn zeros16() -> Seq<u8> {
    Seq::new(16, |i: int| 0u8)
}

/// The master-key index a header selects: the larger crypto-type byte,
/// saturating one below.
pub open spec fn nca_master_index_of(h: NcaHeaderInfo) -> u8 {
    let m = if h.crypto_type >= h.crypto_type2 {
        h.crypto_type
    } else {
        h.crypto_type2
    };
    if m == 0 {
        0
    } else {
        (m - 1) as u8
    }
}

/// Exactly when a title key can be resolved for a header: a ticket and
/// master key for rights-id content, else any key-area key path.
pub open spec fn nca_resolve_ok(ks: NcaKeySet, h: NcaHeaderInfo, tickets: Seq<TicketRecord>) -> bool {
    let idx = nca_master_index_of(h);
    if h.rights_id@ != zeros16() {
        ticket_lookup(tickets, h.rights_id@) is Some && ks.spec_master_key(idx) is Some
    } else {
        ks.spec_kak_override(idx) is Some || ks.spec_master_key(idx) is Some
    }
}

/// The resolved title key: the ticket key unwrapped under the title KEK,
/// or bytes 0x20..0x30 of the key block decrypted under the key-area key.
pub open spec fn nca_resolve_value(ks: NcaKeySet, h: NcaHeaderInfo, tickets: Seq<TicketRecord>) -> Seq<u8> {
    let idx = nca_master_index_of(h);
    if h.rights_id@ != zeros16() {
        let kek = aes128_decrypt_block_spec(
            ks.spec_master_key(idx).unwrap(),
            ks.spec_titlekek_source(),
        );
        aes128_decrypt_block_spec(
            kek,
            ticket_lookup(tickets, h.rights_id@).unwrap().encrypted_title_key@,
        )
    } else {
        let kak = match ks.spec_kak_override(idx) {
            Some(v) => v,
            None => kak_chain_spec(ks, ks.spec_master_key(idx).unwrap()),
        };
        aes128_decrypt_block_spec(kak, h.encrypted_key_block@.subrange(0x20, 0x30))
    }
}

impl NcaKeySet {
    /// Resolves the 16-byte title key for a parsed header.
    fn resolve_title_key(&self, header: &NcaHeaderInfo, tickets: &[TicketRecord]) -> (r: Result<
        [u8; 16],
        NszError,
    >)
        ensures
            r is Ok <==> nca_resolve_ok(*self, *header, tickets@),
            r matches Ok(k) ==> k@ == nca_resolve_value(*self, *header, tickets@),
    {
        let mi = if header.crypto_type >= header.crypto_type2 {
            header.crypto_type
        } else {
            header.crypto_type2
        };
        let master_index: u8 = if mi == 0 {
            0
        } else {
            mi - 1
        };
        let zeros = [0u8; 16];
        proof {
            assert(zeros@ =~= zeros16());
        }
        let rights_nonzero = !bytes_eq(
            vstd::array::array_as_slice(&header.rights_id),
            vstd::array::array_as_slice(&zeros),
        );
        if rights_nonzero {
            let ticket = match ticket_lookup_exec(tickets, &header.rights_id) {
                Some(t) => t,
                None => {
                    return Err(container_format_error("missing ticket for rights id"));
                },
            };
            let title_kek = match self.title_kek(master_index) {
                Ok(k) => k,
                Err(e) => {
                    return Err(e);
                },
            };
            let out = aes_ecb_decrypt_block(
                vstd::array::array_as_slice(&title_kek),
                vstd::array::array_as_slice(&ticket.encrypted_title_key),
            );
            Ok(crate::util::bytes_to_array::<16>(out.as_slice()))
        } else {
            let key_area_key = match self.key_area_key_application(master_index) {
                Ok(k) => k,
                Err(e) => {
                    return Err(e);
                },
            };
            let block = vstd::slice::slice_subrange(
                vstd::array::array_as_slice(&header.encrypted_key_block),
                0x20,
                0x30,
            );
            let out = aes_ecb_decrypt_block(vstd::array::array_as_slice(&key_area_key), block);
            Ok(crate::util::bytes_to_array::<16>(out.as_slice()))
        }
    }
}

/// The normalized on-wire crypto type: BKTR's 4 becomes 3.
pub open spec fn nca_norm_type(t: u8) -> u64 {
    if t == 4 {
        3
    } else {
        t as u64
    }
}

/// The encryption descriptors one section contributes: itself for plain
/// sections, the expanded subsection ranges plus the trailing gap for
/// BKTR sections, or `None` when the BKTR table does not parse.
pub open spec fn plan_descs_for_section(data: Seq<u8>, sec: NcaSectionInfo, key: Seq<u8>) -> Option<
    Seq<(u64, u64, u64, Seq<u8>)>,
> {
    let norm = nca_norm_type(sec.crypto_type);
    if sec.bktr_subsection_size > 0 {
        match bktr_entries_spec(
            data,
            sec.offset,
            sec.size,
            sec.crypto_type,
            sec.crypto_counter@,
            key,
            sec.bktr_subsection_offset,
        ) {
            None => None,
            Some(es) => {
                if es.len() == 0 {
                    Some(seq![(sec.offset, sec.size, norm, sec.crypto_counter@)])
                } else {
                    let mapped = Seq::new(
                        es.len(),
                        |i: int|
                            (
                                sat_add_u64(sec.offset, es[i].0),
                                es[i].1,
                                norm,
                                set_bktr_counter_spec(sec.crypto_counter@, es[i].2),
                            ),
                    );
                    let next = sat_add_u64(mapped.last().0, mapped.last().1);
                    let send = sat_add_u64(sec.offset, sec.size);
                    Some(mapped.push((next, sat_sub_u64(send, next), norm, sec.crypto_counter@)))
                }
            },
        }
    } else {
        Some(seq![(sec.offset, sec.size, norm, sec.crypto_counter@)])
    }
}

/// The descriptors of the first `i` sections, concatenated.
pub open spec fn plan_descs(data: Seq<u8>, secs: Seq<NcaSectionInfo>, key: Seq<u8>, i: int) -> Option<
    Seq<(u64, u64, u64, Seq<u8>)>,
>
    decreases i,
{
    if i <= 0 {
        Some(Seq::<(u64, u64, u64, Seq<u8>)>::empty())
    } else {
        match plan_descs(data, secs, key, i - 1) {
            None => None,
            Some(acc) => match plan_descs_for_section(data, secs[i - 1], key) {
                None => None,
                Some(d) => Some(acc + d),
            },
        }
    }
}

/// The built descriptor vector mirrors the spec tuples, all under `key`.
pub open spec fn plan_sections_match(
    ps: Seq<NcaEncryptionSection>,
    descs: Seq<(u64, u64, u64, Seq<u8>)>,
    key: Seq<u8>,
) -> bool {
    &&& ps.len() == descs.len()
    &&& forall|i: int|
        0 <= i < ps.len() ==> {
            let p = #[trigger] ps[i];
            p.offset == descs[i].0 && p.size == descs[i].1 && p.crypto_type == descs[i].2
                && p.crypto_counter@ == descs[i].3 && p.crypto_key@ == key
        }
}

/// Extending matched descriptor lists by one matching pair keeps them
/// matched.
proof fn lemma_psm_push(
    ps: Seq<NcaEncryptionSection>,
    ds: Seq<(u64, u64, u64, Seq<u8>)>,
    key: Seq<u8>,
    p: NcaEncryptionSection,
    d: (u64, u64, u64, Seq<u8>),
)
    requires
        plan_sections_match(ps, ds, key),
        p.offset == d.0,
        p.size == d.1,
        p.crypto_type == d.2,
        p.crypto_counter@ == d.3,
        p.crypto_key@ == key,
    ensures
        plan_sections_match(ps.push(p), ds.push(d), key),
{
    assert forall|i: int| 0 <= i < ps.push(p).len() implies {
        let q = #[trigger] ps.push(p)[i];
        q.offset == ds.push(d)[i].0 && q.size == ds.push(d)[i].1 && q.crypto_type == ds.push(
            d,
        )[i].2 && q.crypto_counter@ == ds.push(d)[i].3 && q.crypto_key@ == key
    } by {
        if i < ps.len() {
            assert(ps.push(p)[i] == ps[i]);
            assert(ds.push(d)[i] == ds[i]);
        } else {
            assert(ps.push(p)[i] == p);
            assert(ds.push(d)[i] == d);
        }
    }
}

/// Builds one expanded BKTR counter.
fn set_bktr_counter(base: &[u8; 16], v: u32) -> (r: [u8; 16])
    ensures
        r@ == set_bktr_counter_spec(base@, v),
{
    proof {
        assert(forall|sh: u32| sh < 32 ==> ((v >> sh) & 0xff) < 256) by (bit_vector);
    }
    let mut tmp: Vec<u8> = Vec::new();
    let mut i: usize = 0;
    while i < 16
        invariant
            i <= 16,
            tmp@.len() == i,
            forall|j: int| 0 <= j < i ==> tmp@[j] == set_bktr_counter_spec(base@, v)[j],
        decreases 16 - i,
    {
        let b: u8 = if i >= 8 {
            0
        } else if i >= 4 {
            proof {
                assert(((v >> ((8 * (7 - i as int)) as u32)) & 0xff) < 256) by (bit_vector);
            }
            ((v >> ((8 * (7 - i)) as u32)) & 0xff) as u8
        } else {
            base[i]
        };
        tmp.push(b);
        i = i + 1;
    }
    proof {
        assert(tmp@ =~= set_bktr_counter_spec(base@, v));
    }
    crate::util::bytes_to_array(tmp.as_slice())
}

/// Mirror of `nca_master_index_of`, read directly from the plain header
/// bytes.
pub open spec fn nca_master_index_bytes(hdr: Seq<u8>) -> u8 {
    let m = if nca_crypto_type(hdr) >= nca_crypto_type2(hdr) {
        nca_crypto_type(hdr)
    } else {
        nca_crypto_type2(hdr)
    };
    if m == 0 {
        0
    } else {
        (m - 1) as u8
    }
}

/// Mirror of `nca_resolve_ok`, read directly from the plain header bytes.
pub open spec fn nca_resolve_ok_bytes(
    ks: NcaKeySet,
    hdr: Seq<u8>,
    tickets: Seq<TicketRecord>,
) -> bool {
    let idx = nca_master_index_bytes(hdr);
    if nca_rights_id(hdr) != zeros16() {
        ticket_lookup(tickets, nca_rights_id(hdr)) is Some && ks.spec_master_key(idx) is Some
    } else {
        ks.spec_kak_override(idx) is Some || ks.spec_master_key(idx) is Some
    }
}

/// Mirror of `nca_resolve_value`, read directly from the plain header
/// bytes.
pub open spec fn nca_resolve_value_bytes(
    ks: NcaKeySet,
    hdr: Seq<u8>,
    tickets: Seq<TicketRecord>,
) -> Seq<u8> {
    let idx = nca_master_index_bytes(hdr);
    if nca_rights_id(hdr) != zeros16() {
        let kek = aes128_decrypt_block_spec(
            ks.spec_master_key(idx).unwrap(),
            ks.spec_titlekek_source(),
        );
        aes128_decrypt_block_spec(
            kek,
            ticket_lookup(tickets, nca_rights_id(hdr)).unwrap().encrypted_title_key@,
        )
    } else {
        let kak = match ks.spec_kak_override(idx) {
            Some(v) => v,
            None => kak_chain_spec(ks, ks.spec_master_key(idx).unwrap()),
        };
        aes128_decrypt_block_spec(kak, nca_key_block(hdr).subrange(0x20, 0x30))
    }
}

/// Key resolution depends only on header fields that parsing pins, so
/// any header parsed from `hdr` resolves exactly as the bytes say.
pub proof fn lemma_nca_resolve_bytes(
    ks: NcaKeySet,
    h: NcaHeaderInfo,
    hdr: Seq<u8>,
    tickets: Seq<TicketRecord>,
)
    requires
        nca_header_parses_to(h, hdr),
    ensures
        nca_resolve_ok(ks, h, tickets) == nca_resolve_ok_bytes(ks, hdr, tickets),
        nca_resolve_value(ks, h, tickets) == nca_resolve_value_bytes(ks, hdr, tickets),
{
    assert(nca_master_index_of(h) == nca_master_index_bytes(hdr));
}

/// `plan_descs` is `Some` over a prefix exactly when every section of
/// the prefix has `Some` descriptors.
pub proof fn lemma_plan_descs_some_iff(
    data: Seq<u8>,
    secs: Seq<NcaSectionInfo>,
    key: Seq<u8>,
    n: int,
)
    requires
        0 <= n <= secs.len(),
    ensures
        plan_descs(data, secs, key, n) is Some <==> (forall|i: int|
            0 <= i < n ==> (#[trigger] plan_descs_for_section(data, secs[i], key)) is Some),
    decreases n,
{
    if n > 0 {
        lemma_plan_descs_some_iff(data, secs, key, n - 1);
    }
}

/// The slot list of a header is unique: `nca_slots_match_upto` pins
/// every entry.
pub proof fn lemma_nca_slots_match_unique(
    u1: Seq<NcaSectionInfo>,
    u2: Seq<NcaSectionInfo>,
    hdr: Seq<u8>,
    k: int,
)
    requires
        nca_slots_match_upto(u1, hdr, k),
        nca_slots_match_upto(u2, hdr, k),
    ensures
        u1 == u2,
    decreases k,
{
    broadcast use vstd::array::group_array_axioms;

    if k <= 0 {
        assert(u1 =~= u2);
    } else if nca_slot_valid(hdr, k - 1) {
        lemma_nca_slots_match_unique(u1.drop_last(), u2.drop_last(), hdr, k - 1);
        assert(u1.last().crypto_counter =~= u2.last().crypto_counter);
        assert(u1.last() == u2.last());
        assert(u1 =~= u2) by {
            assert(u1.len() == u2.len());
            assert(forall|i: int|
                0 <= i < u1.len() - 1 ==> #[trigger] u1[i] == u1.drop_last()[i]
                    && u2[i] == u2.drop_last()[i]);
        }
    } else {
        lemma_nca_slots_match_unique(u1, u2, hdr, k - 1);
    }
}

/// Exactly when a compression plan can be built: the header parses, a
/// title key resolves, and every section's descriptor list (its BKTR
/// subsection table where one is declared) parses.
pub open spec fn nca_plan_ok(data: Seq<u8>, ks: NcaKeySet, tickets: Seq<TicketRecord>) -> bool {
    let hdr = nca_plain_header(data, ks.spec_header_key());
    &&& nca_header_wf(data, ks.spec_header_key())
    &&& nca_resolve_ok_bytes(ks, hdr, tickets)
    &&& (forall|u: Seq<NcaSectionInfo>, i: int|
        nca_slots_match_upto(u, hdr, 4) && 0 <= i < u.len() ==> (#[trigger] plan_descs_for_section(
            data,
            u[i],
            nca_resolve_value_bytes(ks, hdr, tickets),
        )) is Some)
}

/// Analyzes the header, resolves the title key, and lists the encrypted
/// ranges of the NCA: one descriptor per plain section, and one per BKTR
/// subsection entry plus the trailing gap for patch sections.
///
/// On success the header parsed (`nca_header_wf`), the key resolved, and
/// the returned plan carries the header's compressibility facts, the
/// first section offset, and exactly the descriptors `plan_descs` lists.
pub fn build_compression_plan(data: &[u8], keys: &NcaKeySet, tickets: &[TicketRecord]) -> (r:
    Result<NcaCompressionPlan, NszError>)
    ensures
        r is Ok <==> nca_plan_ok(data@, *keys, tickets@),
        r is Ok ==> nca_header_wf(data@, keys.spec_header_key()),
        r matches Ok(p) ==> exists|h: NcaHeaderInfo|
            {
                &&& nca_header_parses_to(h, nca_plain_header(data@, keys.spec_header_key()))
                &&& nca_resolve_ok(*keys, h, tickets@)
                &&& p.meta.content_type == h.content_type
                &&& p.meta.size == h.size
                &&& p.meta.packed == nca_sections_packed(h.sections@, h.size)
                &&& p.offset_first_section == (if h.sections@.len() == 0 {
                    0x4000u64
                } else {
                    h.sections@[0].offset
                })
                &&& (plan_descs(
                    data@,
                    h.sections@,
                    nca_resolve_value(*keys, h, tickets@),
                    h.sections@.len() as int,
                ) matches Some(descs) && plan_sections_match(
                    p.sections@,
                    descs,
                    nca_resolve_value(*keys, h, tickets@),
                ))
            },
{
    let header = match parse_nca_header(data, &keys.header_key) {
        Ok(h) => h,
        Err(e) => {
            return Err(e);
        },
    };
    proof {
        assert(keys.header_key@ == keys.spec_header_key());
    }
    let title_key = match keys.resolve_title_key(&header, tickets) {
        Ok(k) => k,
        Err(e) => {
            proof {
                lemma_nca_resolve_bytes(
                    *keys,
                    header,
                    nca_plain_header(data@, keys.spec_header_key()),
                    tickets@,
                );
                assert(!nca_plan_ok(data@, *keys, tickets@));
            }
            return Err(e);
        },
    };
    let meta = header.meta();
    let n_secs = header.sections.len();
    let offset_first_section: u64 = if n_secs == 0 {
        0x4000
    } else {
        header.sections[0].offset
    };

    let mut sections: Vec<NcaEncryptionSection> = Vec::new();
    let mut i: usize = 0;
    while i < n_secs
        invariant
            n_secs == header.sections@.len(),
            nca_header_wf(data@, keys.spec_header_key()),
            nca_header_parses_to(header, nca_plain_header(data@, keys.spec_header_key())),
            nca_resolve_ok(*keys, header, tickets@),
            title_key@ == nca_resolve_value(*keys, header, tickets@),
            i <= n_secs,
            plan_descs(data@, header.sections@, title_key@, i as int) matches Some(d)
                && plan_sections_match(sections@, d, title_key@),
        decreases n_secs - i,
    {
        let ghost descs_before = plan_descs(
            data@,
            header.sections@,
            title_key@,
            i as int,
        ).unwrap();
        let ghost sections_before = sections@;
        let sec_offset = header.sections[i].offset;
        let sec_size = header.sections[i].size;
        let sec_ctype = header.sections[i].crypto_type;
        let sec_counter = header.sections[i].crypto_counter;
        let sec_bktr_size = header.sections[i].bktr_subsection_size;
        let normalized: u64 = if sec_ctype == 4 {
            3
        } else {
            sec_ctype as u64
        };
        if sec_bktr_size > 0 {
            let sec_ref = &header.sections[i];
            let entries = match parse_bktr_subsection_entries(data, sec_ref, &title_key) {
                Ok(es) => es,
                Err(e) => {
                    proof {
                        broadcast use vstd::seq_lib::group_to_multiset_ensures;

                        let hdr = nca_plain_header(data@, keys.spec_header_key());
                        lemma_nca_resolve_bytes(*keys, header, hdr, tickets@);
                        let key_b = nca_resolve_value_bytes(*keys, hdr, tickets@);
                        assert(title_key@ == key_b);
                        let sec = header.sections@[i as int];
                        assert(plan_descs_for_section(data@, sec, key_b) is None);
                        if nca_plan_ok(data@, *keys, tickets@) {
                            let u1 = choose|u1: Seq<NcaSectionInfo>|
                                nca_slots_match_upto(u1, hdr, 4) && header.sections@.to_multiset()
                                    == u1.to_multiset();
                            assert(header.sections@.contains(sec));
                            assert(u1.to_multiset().contains(sec));
                            assert(u1.contains(sec));
                            let j = choose|j: int| 0 <= j < u1.len() && u1[j] == sec;
                            assert(plan_descs_for_section(data@, u1[j], key_b) is Some);
                            assert(false);
                        }
                        assert(!nca_plan_ok(data@, *keys, tickets@));
                    }
                    return Err(e);
                },
            };
            let n_entries = entries.len();
            if n_entries == 0 {
                sections.push(
                    NcaEncryptionSection {
                        offset: sec_offset,
                        size: sec_size,
                        crypto_type: normalized,
                        crypto_key: title_key,
                        crypto_counter: sec_counter,
                    },
                );
            } else {
                let ghost es = entries@;
                let ghost mapped = Seq::new(
                    es.len(),
                    |k: int|
                        (
                            sat_add_u64(sec_offset, es[k].0),
                            es[k].1,
                            normalized,
                            set_bktr_counter_spec(sec_counter@, es[k].2),
                        ),
                );
                let mut j: usize = 0;
                while j < n_entries
                    invariant
                        n_entries == entries@.len(),
                        n_entries > 0,
                        es == entries@,
                        i < n_secs,
                        n_secs == header.sections@.len(),
                        header.sections@[i as int].offset == sec_offset,
                        header.sections@[i as int].size == sec_size,
                        header.sections@[i as int].crypto_type == sec_ctype,
                        header.sections@[i as int].crypto_counter == sec_counter,
                        header.sections@[i as int].bktr_subsection_size == sec_bktr_size,
                        sec_bktr_size > 0,
                        normalized == nca_norm_type(sec_ctype),
                        Some(es) == bktr_entries_spec(
                            data@,
                            sec_offset,
                            sec_size,
                            sec_ctype,
                            sec_counter@,
                            title_key@,
                            header.sections@[i as int].bktr_subsection_offset,
                        ),
                        mapped == Seq::new(
                            es.len(),
                            |k: int|
                                (
                                    sat_add_u64(sec_offset, es[k].0),
                                    es[k].1,
                                    normalized,
                                    set_bktr_counter_spec(sec_counter@, es[k].2),
                                ),
                        ),
                        title_key@ == nca_resolve_value(*keys, header, tickets@),
                        j <= n_entries,
                        sections@.len() == sections_before.len() + j,
                        sections@.subrange(0, sections_before.len() as int) == sections_before,
                        plan_sections_match(
                            sections@.subrange(
                                sections_before.len() as int,
                                sections@.len() as int,
                            ),
                            mapped.subrange(0, j as int),
                            title_key@,
                        ),
                    decreases n_entries - j,
                {
                    let voff = entries[j].0;
                    let esize = entries[j].1;
                    let ectr = entries[j].2;
                    let eoff: u64 = if voff > u64::MAX - sec_offset {
                        u64::MAX
                    } else {
                        sec_offset + voff
                    };
                    let counter = set_bktr_counter(&sec_counter, ectr);
                    let ghost secs_old = sections@;
                    let pushed = NcaEncryptionSection {
                        offset: eoff,
                        size: esize,
                        crypto_type: normalized,
                        crypto_key: title_key,
                        crypto_counter: counter,
                    };
                    sections.push(pushed);
                    j = j + 1;
                    proof {
                        let pre = sections_before.len() as int;
                        assert(sections@ == secs_old.push(pushed));
                        assert(sections@.subrange(0, pre) =~= sections_before);
                        assert(sections@.subrange(pre, sections@.len() as int) =~= secs_old
                            .subrange(pre, secs_old.len() as int).push(pushed));
                        assert(mapped.subrange(0, j as int) =~= mapped.subrange(
                            0,
                            j - 1,
                        ).push(mapped[j - 1]));
                        assert(pushed.offset == mapped[j - 1].0 && pushed.size == mapped[j
                            - 1].1 && pushed.crypto_type == mapped[j - 1].2
                            && pushed.crypto_counter@ == mapped[j - 1].3 && pushed.crypto_key@
                            == title_key@);
                        lemma_psm_push(
                            secs_old.subrange(pre, secs_old.len() as int),
                            mapped.subrange(0, j - 1),
                            title_key@,
                            pushed,
                            mapped[j - 1],
                        );
                    }
                }
                let last_off = sections[sections.len() - 1].offset;
                let last_size = sections[sections.len() - 1].size;
                let next_offset: u64 = if last_size > u64::MAX - last_off {
                    u64::MAX
                } else {
                    last_off + last_size
                };
                let section_end: u64 = if sec_size > u64::MAX - sec_offset {
                    u64::MAX
                } else {
                    sec_offset + sec_size
                };
                let gap_size: u64 = if section_end >= next_offset {
                    section_end - next_offset
                } else {
                    0
                };
                let ghost secs_old = sections@;
                let gap_section = NcaEncryptionSection {
                    offset: next_offset,
                    size: gap_size,
                    crypto_type: normalized,
                    crypto_key: title_key,
                    crypto_counter: sec_counter,
                };
                sections.push(gap_section);
                proof {
                    let pre = sections_before.len() as int;
                    assert(mapped.subrange(0, es.len() as int) =~= mapped);
                    assert(secs_old.subrange(pre, secs_old.len() as int).last().offset
                        == mapped.last().0);
                    assert(secs_old.subrange(pre, secs_old.len() as int).last().size
                        == mapped.last().1);
                    assert(secs_old.last() == secs_old.subrange(
                        pre,
                        secs_old.len() as int,
                    ).last());
                    let gap_tuple = (
                        next_offset,
                        gap_size,
                        normalized,
                        header.sections@[i as int].crypto_counter@,
                    );
                    let full = mapped.push(gap_tuple);
                    assert(next_offset == sat_add_u64(mapped.last().0, mapped.last().1));
                    assert(gap_size == sat_sub_u64(
                        sat_add_u64(sec_offset, sec_size),
                        next_offset,
                    ));
                    assert(plan_descs_for_section(
                        data@,
                        header.sections@[i as int],
                        title_key@,
                    ) == Some(full));
                    assert(sections@ == secs_old.push(gap_section));
                    assert(sections@.subrange(0, pre) =~= sections_before);
                    assert(sections@.subrange(pre, sections@.len() as int) =~= secs_old
                        .subrange(pre, secs_old.len() as int).push(gap_section));
                    lemma_psm_push(
                        secs_old.subrange(pre, secs_old.len() as int),
                        mapped,
                        title_key@,
                        gap_section,
                        gap_tuple,
                    );
                }
            }
        } else {
            sections.push(
                NcaEncryptionSection {
                    offset: sec_offset,
                    size: sec_size,
                    crypto_type: normalized,
                    crypto_key: title_key,
                    crypto_counter: sec_counter,
                },
            );
        }
        i = i + 1;
        proof {
            let d_prev = plan_descs(data@, header.sections@, title_key@, i - 1).unwrap();
            let d_sec = plan_descs_for_section(
                data@,
                header.sections@[i - 1],
                title_key@,
            ).unwrap();
            assert(plan_descs(data@, header.sections@, title_key@, i as int) == Some(
                d_prev + d_sec,
            ));
            assert(sections@.subrange(0, sections_before.len() as int) =~= sections_before);
            assert(sections@ =~= sections_before + sections@.subrange(
                sections_before.len() as int,
                sections@.len() as int,
            ));
            assert(plan_sections_match(sections@, d_prev + d_sec, title_key@));
        }
    }

    let plan = NcaCompressionPlan { meta, offset_first_section, sections };
    proof {
        broadcast use vstd::seq_lib::group_to_multiset_ensures;

        let hdr = nca_plain_header(data@, keys.spec_header_key());
        lemma_nca_resolve_bytes(*keys, header, hdr, tickets@);
        let key_b = nca_resolve_value_bytes(*keys, hdr, tickets@);
        let secs = header.sections@;
        lemma_plan_descs_some_iff(data@, secs, key_b, secs.len() as int);
        let u1 = choose|u1: Seq<NcaSectionInfo>|
            nca_slots_match_upto(u1, hdr, 4) && secs.to_multiset() == u1.to_multiset();
        assert forall|u: Seq<NcaSectionInfo>, i2: int|
            nca_slots_match_upto(u, hdr, 4) && 0 <= i2 < u.len() implies (
        #[trigger] plan_descs_for_section(data@, u[i2], key_b)) is Some by {
            lemma_nca_slots_match_unique(u, u1, hdr, 4);
            assert(u[i2] == u1[i2]);
            assert(u1.contains(u1[i2]));
            assert(u1.to_multiset().contains(u1[i2]));
            assert(secs.contains(u1[i2]));
            let j = choose|j: int| 0 <= j < secs.len() && secs[j] == u1[i2];
            assert(plan_descs_for_section(data@, secs[j], key_b) is Some);
        }
        assert(nca_plan_ok(data@, *keys, tickets@));
        let h = header;
        assert(nca_header_parses_to(h, nca_plain_header(data@, keys.spec_header_key()))
            && nca_resolve_ok(*keys, h, tickets@) && plan.meta.content_type == h.content_type
            && plan.meta.size == h.size && plan.meta.packed == nca_sections_packed(
            h.sections@,
            h.size,
        ) && plan.offset_first_section == (if h.sections@.len() == 0 {
            0x4000u64
        } else {
            h.sections@[0].offset
        }) && (plan_descs(
            data@,
            h.sections@,
            nca_resolve_value(*keys, h, tickets@),
            h.sections@.len() as int,
        ) matches Some(descs) && plan_sections_match(
            plan.sections@,
            descs,
            nca_resolve_value(*keys, h, tickets@),
        )));
    }
    Ok(plan)
}

} // verus!
