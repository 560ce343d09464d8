//! The plain key-file loader: collects `name = value` lines and checks
//! that the entries every operation relies on are present.
use vstd::prelude::*;
use vstd::string::StringSliceAdditionalSpecFns;
use vstd::string::StringExecFns;
use vstd::utf8::decode_utf8;
use vstd::utf8::valid_utf8;

use crate::container::nca::keyfile_entries;
use crate::container::nca::keyfile_lookup;
use crate::container::nca::kf_name_aes_kek_generation_source;
use crate::container::nca::kf_name_aes_key_generation_source;
use crate::container::nca::kf_name_titlekek_source;
use crate::container::nca::kf_name_key_area_key_application_source;
use crate::error::NszError;

verus! {

/// The key-file name `"key_area_key_ocean_source"` as bytes.
pub open spec fn lk_name_key_area_key_ocean_source() -> Seq<u8> {
    seq![0x6Bu8, 0x65u8, 0x79u8, 0x5Fu8, 0x61u8, 0x72u8, 0x65u8, 0x61u8, 0x5Fu8, 0x6Bu8, 0x65u8, 0x79u8, 0x5Fu8, 0x6Fu8, 0x63u8, 0x65u8, 0x61u8, 0x6Eu8, 0x5Fu8, 0x73u8, 0x6Fu8, 0x75u8, 0x72u8, 0x63u8, 0x65u8]
}

fn lk_bytes_key_area_key_ocean_source() -> (r: Vec<u8>)
    ensures
        r@ == lk_name_key_area_key_ocean_source(),
{
    let a: [u8; 25] = [0x6Bu8, 0x65u8, 0x79u8, 0x5Fu8, 0x61u8, 0x72u8, 0x65u8, 0x61u8, 0x5Fu8, 0x6Bu8, 0x65u8, 0x79u8, 0x5Fu8, 0x6Fu8, 0x63u8, 0x65u8, 0x61u8, 0x6Eu8, 0x5Fu8, 0x73u8, 0x6Fu8, 0x75u8, 0x72u8, 0x63u8, 0x65u8];
    let r = vstd::slice::slice_to_vec(vstd::array::array_as_slice(&a));
    proof {
        assert(r@ =~= lk_name_key_area_key_ocean_source());
    }
    r
}

/// The key-file name `"key_area_key_system_source"` as bytes.
pub open spec fn lk_name_key_area_key_system_source() -> Seq<u8> {
    seq![0x6Bu8, 0x65u8, 0x79u8, 0x5Fu8, 0x61u8, 0x72u8, 0x65u8, 0x61u8, 0x5Fu8, 0x6Bu8, 0x65u8, 0x79u8, 0x5Fu8, 0x73u8, 0x79u8, 0x73u8, 0x74u8, 0x65u8, 0x6Du8, 0x5Fu8, 0x73u8, 0x6Fu8, 0x75u8, 0x72u8, 0x63u8, 0x65u8]
}

fn lk_bytes_key_area_key_system_source() -> (r: Vec<u8>)
    ensures
        r@ == lk_name_key_area_key_system_source(),
{
    let a: [u8; 26] = [0x6Bu8, 0x65u8, 0x79u8, 0x5Fu8, 0x61u8, 0x72u8, 0x65u8, 0x61u8, 0x5Fu8, 0x6Bu8, 0x65u8, 0x79u8, 0x5Fu8, 0x73u8, 0x79u8, 0x73u8, 0x74u8, 0x65u8, 0x6Du8, 0x5Fu8, 0x73u8, 0x6Fu8, 0x75u8, 0x72u8, 0x63u8, 0x65u8];
    let r = vstd::slice::slice_to_vec(vstd::array::array_as_slice(&a));
    proof {
        assert(r@ =~= lk_name_key_area_key_system_source());
    }
    r
}

/// All names a key file must define to be loadable.
pub open spec fn loaded_keys_required_ok(cb: Seq<u8>) -> bool {
    let es = keyfile_entries(cb);
    &&& keyfile_lookup(es, kf_name_aes_kek_generation_source()) is Some
    &&& keyfile_lookup(es, kf_name_aes_key_generation_source()) is Some
    &&& keyfile_lookup(es, kf_name_titlekek_source()) is Some
    &&& keyfile_lookup(es, kf_name_key_area_key_application_source()) is Some
    &&& keyfile_lookup(es, lk_name_key_area_key_ocean_source()) is Some
    &&& keyfile_lookup(es, lk_name_key_area_key_system_source()) is Some
}

/// The name the loader reports when a required entry is absent: the
/// first missing one, in the fixed checking order.
pub open spec fn spec_missing_key_name(cb: Seq<u8>) -> Seq<char> {
    let es = keyfile_entries(cb);
    if keyfile_lookup(es, kf_name_aes_kek_generation_source()) is None {
        "aes_kek_generation_source"@
    } else if keyfile_lookup(es, kf_name_aes_key_generation_source()) is None {
        "aes_key_generation_source"@
    } else if keyfile_lookup(es, kf_name_titlekek_source()) is None {
        "titlekek_source"@
    } else if keyfile_lookup(es, kf_name_key_area_key_application_source()) is None {
        "key_area_key_application_source"@
    } else if keyfile_lookup(es, lk_name_key_area_key_ocean_source()) is None {
        "key_area_key_ocean_source"@
    } else {
        "key_area_key_system_source"@
    }
}

/// The raw `name = value` pairs of a key file, in line order.
#[derive(Debug, Clone)]
pub struct LoadedKeys {
    /// Every parsed entry, names and values as given.
    pub values: Vec<(String, String)>,
}

/// `lk` mirrors the key-file entries: names and values decoded.
pub open spec fn loaded_keys_parses_to(lk: LoadedKeys, cb: Seq<u8>) -> bool {
    let es = keyfile_entries(cb);
    &&& lk.values@.len() == es.len()
    &&& forall|i: int|
        0 <= i < es.len() ==> ((valid_utf8((#[trigger] es[i]).0) && valid_utf8(es[i].1))
            ==> lk.values@[i].0@ == decode_utf8(es[i].0) && lk.values@[i].1@ == decode_utf8(
            es[i].1,
        ))
}

/// Parses a key file of `name = value` lines.
///
/// Succeeds exactly when every required derivation source is present,
/// and then returns every entry in line order.
pub fn load_from_str(content: &str) -> (r: Result<LoadedKeys, NszError>)
    ensures
        r is Ok <==> loaded_keys_required_ok(content.spec_bytes()),
        r matches Ok(lk) ==> loaded_keys_parses_to(lk, content.spec_bytes()),
        r matches Err(e) ==> e matches NszError::MissingRequiredKey { key } && key@
            == spec_missing_key_name(content.spec_bytes()),
{
    let bytes = content.as_bytes();
    let entries = crate::container::nca::parse_keyfile_entries(bytes);
    let ghost es = keyfile_entries(content.spec_bytes());

    let name0 = crate::container::nca::kf_bytes_aes_kek_generation_source();
    if crate::container::nca::keyfile_lookup_exec(&entries, name0.as_slice(), Ghost(es))
        .is_none() {
        return Err(
            NszError::MissingRequiredKey { key: String::from_str("aes_kek_generation_source") },
        );
    }
    let name1 = crate::container::nca::kf_bytes_aes_key_generation_source();
    if crate::container::nca::keyfile_lookup_exec(&entries, name1.as_slice(), Ghost(es))
        .is_none() {
        return Err(
            NszError::MissingRequiredKey { key: String::from_str("aes_key_generation_source") },
        );
    }
    let name2 = crate::container::nca::kf_bytes_titlekek_source();
    if crate::container::nca::keyfile_lookup_exec(&entries, name2.as_slice(), Ghost(es))
        .is_none() {
        return Err(NszError::MissingRequiredKey { key: String::from_str("titlekek_source") });
    }
    let name3 = crate::container::nca::kf_bytes_key_area_key_application_source();
    if crate::container::nca::keyfile_lookup_exec(&entries, name3.as_slice(), Ghost(es))
        .is_none() {
        return Err(
            NszError::MissingRequiredKey {
                key: String::from_str("key_area_key_application_source"),
            },
        );
    }
    let name4 = lk_bytes_key_area_key_ocean_source();
    if crate::container::nca::keyfile_lookup_exec(&entries, name4.as_slice(), Ghost(es))
        .is_none() {
        return Err(
            NszError::MissingRequiredKey { key: String::from_str("key_area_key_ocean_source") },
        );
    }
    let name5 = lk_bytes_key_area_key_system_source();
    if crate::container::nca::keyfile_lookup_exec(&entries, name5.as_slice(), Ghost(es))
        .is_none() {
        return Err(
            NszError::MissingRequiredKey { key: String::from_str("key_area_key_system_source") },
        );
    }

    let n = entries.len();
    let mut values: Vec<(String, String)> = Vec::new();
    let mut i: usize = 0;
    while i < n
        invariant
            n == entries@.len(),
            crate::container::nca::kf_entries_match(entries@, es),
            i <= n,
            values@.len() == i,
            forall|j: int|
                0 <= j < i ==> ((valid_utf8((#[trigger] es[j]).0) && valid_utf8(es[j].1))
                    ==> values@[j].0@ == decode_utf8(es[j].0) && values@[j].1@ == decode_utf8(
                    es[j].1,
                )),
        decreases n - i,
    {
        let name = match crate::util::string_from_utf8(entries[i].0.as_slice()) {
            Some(s) => s,
            None => String::new(),
        };
        let value = match crate::util::string_from_utf8(entries[i].1.as_slice()) {
            Some(s) => s,
            None => String::new(),
        };
        values.push((name, value));
        i = i + 1;
    }
    Ok(LoadedKeys { values })
}

} // verus!
