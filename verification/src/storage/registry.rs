//! The installed-pack registry: its rows, and the rules each row must meet.

use vstd::prelude::*;
use vstd::string::{StrSliceExecFns, StringExecFns, StringSliceAdditionalSpecFns};
use vstd::utf8::encode_utf8;

use super::{fingerprint_name, is_fingerprint_name, is_reserved_pack_id, reserved_pack_id, StorageError, StorageErrorKind};
use crate::domain::puzzle::{id_error, validate_id, IdentityPart};
use crate::packs::format::{license_bad, texts, text_option};
use crate::packs::{contains_control, has_control, ValidatedPack, MAX_EXTRACTED_BYTES, MAX_MANAGED_BYTES};

verus! {

/// One installed pack as the registry lists it.
#[derive(Clone, Debug, PartialEq, Eq)]
pub struct RegisteredPack {
    pub id: String,
    pub title: String,
    pub description: Option<String>,
    pub authors: String,
    pub license: String,
    pub fingerprint: [u8; 32],
    pub extracted_bytes: u64,
    pub installed_at_unix_seconds: i64,
}

#[derive(Clone, Debug, PartialEq, Eq)]
pub enum InstallOutcome {
    Installed(RegisteredPack),
    AlreadyPresent(RegisteredPack),
}

/// A Unicode white-space character.
pub open spec fn is_whitespace(c: char) -> bool {
    let u = c as u32;
    ||| 0x09 <= u <= 0x0d
    ||| u == 0x20
    ||| u == 0x85
    ||| u == 0xa0
    ||| u == 0x1680
    ||| 0x2000 <= u <= 0x200a
    ||| u == 0x2028
    ||| u == 0x2029
    ||| u == 0x202f
    ||| u == 0x205f
    ||| u == 0x3000
}

fn char_is_whitespace(c: char) -> (r: bool)
    ensures
        r == is_whitespace(c),
{
    let u = c as u32;
    (0x09 <= u && u <= 0x0d) || u == 0x20 || u == 0x85 || u == 0xa0 || u == 0x1680 || (0x2000 <= u && u <= 0x200a)
        || u == 0x2028 || u == 0x2029 || u == 0x202f || u == 0x205f || u == 0x3000
}

/// Stored display text: something besides white space, at most `max` scalars, no control character.
pub open spec fn stored_display_valid(value: Seq<char>, max: nat) -> bool {
    &&& exists|i: int| 0 <= i < value.len() && !is_whitespace(#[trigger] value[i])
    &&& value.len() <= max
    &&& !has_control(value)
}

fn has_visible(value: &str) -> (r: bool)
    ensures
        r == exists|i: int| 0 <= i < value@.len() && !is_whitespace(#[trigger] value@[i]),
{
    broadcast use vstd::string::group_string_axioms;

    let mut found = false;
    for c in it: value.chars()
        invariant
            it.seq() == value@,
            found == exists|i: int| 0 <= i < it.index() && !is_whitespace(#[trigger] value@[i]),
    {
        assert(c == value@[it.index() as int]);
        if !char_is_whitespace(c) {
            found = true;
        }
    }
    found
}

fn stored_display_is_valid(value: &str, max: usize) -> (r: bool)
    ensures
        r == stored_display_valid(value@, max as nat),
{
    has_visible(value) && value.unicode_len() <= max && !contains_control(value)
}

/// Every rule a registry row meets when the registry is intact.
pub open spec fn registered_pack_valid(pack: RegisteredPack, managed_name: Seq<u8>) -> bool {
    &&& id_error(encode_utf8(pack.id@)) is None
    &&& !reserved_pack_id(pack.id@)
    &&& stored_display_valid(pack.title@, 80)
    &&& (pack.description matches Some(d) ==> stored_display_valid(d@, 512))
    &&& pack.authors@.len() <= 1310
    &&& !has_control(pack.authors@)
    &&& !has_control(pack.license@)
    &&& !license_bad(pack.license@)
    &&& pack.extracted_bytes <= 16777216
    &&& fingerprint_name(managed_name)
}

/// Whether a stored license is still a bounded SPDX expression.
pub fn license_is_valid(license: &str) -> (r: bool)
    ensures
        r == !license_bad(license@),
{
    crate::packs::format::license_accepted(license)
}

pub fn validate_registered_pack(pack: &RegisteredPack, managed_name: &str) -> (r: Result<(), StorageError>)
    ensures
        r is Ok <==> registered_pack_valid(*pack, managed_name.spec_bytes()),
        r is Err ==> r->Err_0.kind() == StorageErrorKind::Corrupt,
{
    let description_invalid = match &pack.description {
        Some(d) => !stored_display_is_valid(d.as_str(), 512),
        None => false,
    };
    if validate_id(pack.id.as_str(), IdentityPart::Pack).is_err() || is_reserved_pack_id(pack.id.as_str())
        || !stored_display_is_valid(pack.title.as_str(), 80) || description_invalid || pack.authors.as_str().unicode_len()
        > 1310 || contains_control(pack.authors.as_str()) || contains_control(pack.license.as_str())
        || !license_is_valid(pack.license.as_str()) || pack.extracted_bytes > MAX_EXTRACTED_BYTES
        || !is_fingerprint_name(managed_name) {
        return Err(StorageError::Corrupt);
    }
    Ok(())
}

/// The texts joined with `, ` between neighbours.
pub open spec fn joined(parts: Seq<Seq<char>>) -> Seq<char>
    decreases parts.len(),
{
    if parts.len() == 0 {
        Seq::empty()
    } else if parts.len() == 1 {
        parts[0]
    } else {
        joined(parts.drop_last()) + ", "@ + parts.last()
    }
}

fn join_authors(authors: &[String]) -> (r: String)
    ensures
        r@ == joined(texts(authors@)),
{
    let ghost all = texts(authors@);
    let mut text = String::new();
    let mut i: usize = 0;
    while i < authors.len()
        invariant
            all == texts(authors@),
            i <= authors@.len(),
            text@ == joined(all.subrange(0, i as int)),
        decreases authors@.len() - i,
    {
        if i > 0 {
            text.append(", ");
        }
        text.append(authors[i].as_str());
        proof {
            assert(all.subrange(0, i + 1).drop_last() =~= all.subrange(0, i as int));
            if i == 0 {
                assert(all.subrange(0, 0) =~= Seq::<Seq<char>>::empty());
                assert(text@ =~= joined(all.subrange(0, 1)));
            }
        }
        i = i + 1;
    }
    assert(all.subrange(0, authors@.len() as int) =~= all);
    text
}

/// The registry row of a validated pack.
pub fn registered_summary(pack: &ValidatedPack, installed_at_unix_seconds: i64) -> (r: RegisteredPack)
    ensures
        r.id@ == pack.metadata_value().view().id,
        r.title@ == pack.metadata_value().view().title,
        text_option(r.description) == pack.metadata_value().view().description,
        r.authors@ == joined(pack.metadata_value().view().authors),
        r.license@ == pack.metadata_value().view().license,
        r.fingerprint@ == pack.fingerprint_value(),
        r.extracted_bytes == pack.extracted_value(),
        r.installed_at_unix_seconds == installed_at_unix_seconds,
{
    let metadata = pack.metadata();
    let description = match metadata.description() {
        Some(d) => Some(d.to_owned()),
        None => None,
    };
    RegisteredPack {
        id: metadata.id().to_owned(),
        title: metadata.title().to_owned(),
        description,
        authors: join_authors(metadata.authors()),
        license: metadata.license().to_owned(),
        fingerprint: pack.fingerprint(),
        extracted_bytes: pack.extracted_bytes(),
        installed_at_unix_seconds,
    }
}

/// Room for one more installed pack of `extracted` bytes.
pub fn check_install_capacity(count: u64, installed_bytes: u64, extracted: u64) -> (r: Result<(), StorageError>)
    ensures
        r is Ok <==> (count < 32 && installed_bytes + extracted <= MAX_MANAGED_BYTES),
        r is Err ==> r->Err_0.kind() == StorageErrorKind::ResourceLimit,
{
    if count >= super::MAX_INSTALLED_PACKS_DB {
        return Err(StorageError::ResourceLimit);
    }
    match installed_bytes.checked_add(extracted) {
        Some(total) => {
            if total > MAX_MANAGED_BYTES {
                return Err(StorageError::ResourceLimit);
            }
        },
        None => {
            return Err(StorageError::ResourceLimit);
        },
    }
    Ok(())
}

/// A stored fingerprint of exactly thirty-two bytes.
pub fn fingerprint_array(bytes: &[u8]) -> (r: Result<[u8; 32], StorageError>)
    ensures
        r is Ok <==> bytes@.len() == 32,
        r matches Ok(a) ==> a@ == bytes@,
        r is Err ==> r->Err_0.kind() == StorageErrorKind::Corrupt,
{
    if bytes.len() != 32 {
        return Err(StorageError::Corrupt);
    }
    let mut array = [0u8; 32];
    let mut i: usize = 0;
    while i < 32
        invariant
            bytes@.len() == 32,
            i <= 32,
            array@.len() == 32,
            forall|j: int| 0 <= j < i ==> array@[j] == bytes@[j],
        decreases 32 - i,
    {
        array.set(i, bytes[i]);
        i = i + 1;
    }
    assert(array@ =~= bytes@);
    Ok(array)
}

} // verus!
