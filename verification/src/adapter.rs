//! The adapter for segmented presentations.
//!
//! A presentation is many files. The provenance box of a representation is
//! carried by its initialization segment; the adapter says which file that
//! is, and hands every operation on it to the box engine unchanged.

use vstd::prelude::*;
use vstd::string::StringSliceAdditionalSpecFns;
use crate::error::Error;
use crate::hashing::{covers, hash_ranges, hash_ranges_now, total_length, HashObjectPosition};
use crate::header::{KIND_REFERENCE, KIND_STORE};
use crate::locator::{read_store, stored};
use crate::presentation::{find_representation, lookup, DashManifest};
use crate::tree::valid;
use crate::writer::{
    embed_remote_reference, patch_store, patched, read_reference, reference_payload, referenced,
    remove_store, removed, write_store, written, ReferenceKind,
};

verus! {

/// The asset types that the adapter handles: the presentation itself and
/// the kinds of segment it is made of.
pub open spec fn supported(asset_type: Seq<char>) -> bool {
    asset_type == "dash"@ || asset_type == "m4s"@ || asset_type == "cmfv"@ || asset_type
        == "cmfa"@ || asset_type == "cmft"@
}

/// The name of the initialization segment of the representation listed
/// under `id`, for an adapter made for `asset_type`.
pub open spec fn resolved(asset_type: Seq<char>, manifest: DashManifest, id: Seq<char>) -> Result<
    Seq<char>,
    Error,
> {
    if !supported(asset_type) {
        Err(Error::UnsupportedAssetType)
    } else {
        match lookup(manifest, id) {
            None => Err(Error::UnsupportedAssetType),
            Some(rep) => match rep.segment_template {
                None => Err(Error::UnsupportedAssetType),
                Some(template) => Ok(template.initialization@),
            },
        }
    }
}

/// Whether the adapter handles this asset type.
pub fn is_supported(asset_type: &str) -> (b: bool)
    ensures
        b == supported(asset_type@),
{
    let given: String = asset_type.to_owned();
    given == "dash".to_owned() || given == "m4s".to_owned() || given == "cmfv".to_owned() || given
        == "cmfa".to_owned() || given == "cmft".to_owned()
}

/// The adapter for one asset of a segmented presentation.
#[derive(Debug, Clone)]
pub struct DashIO {
    asset_type: String,
}

impl DashIO {
    /// The asset type that the adapter was made for.
    pub closed spec fn kind(&self) -> Seq<char> {
        self.asset_type@
    }

    /// Makes the adapter for an asset of this type.
    pub fn new(asset_type: &str) -> (io: Self)
        ensures
            io.kind() == asset_type@,
    {
        Self { asset_type: asset_type.to_owned() }
    }

    /// The asset type that the adapter was made for.
    pub fn asset_type(&self) -> (t: &str)
        ensures
            t@ == self.kind(),
    {
        self.asset_type.as_str()
    }

    /// The asset types that the adapter handles.
    pub fn supported_types(&self) -> (types: Vec<&'static str>)
        ensures
            types@.len() == 5,
            types@[0]@ == "dash"@,
            types@[1]@ == "m4s"@,
            types@[2]@ == "cmfv"@,
            types@[3]@ == "cmfa"@,
            types@[4]@ == "cmft"@,
            forall|t: Seq<char>|
                supported(t) <==> exists|i: int| 0 <= i < 5 && (#[trigger] types@[i])@ == t,
    {
        let mut types: Vec<&'static str> = Vec::new();
        types.push("dash");
        types.push("m4s");
        types.push("cmfv");
        types.push("cmfa");
        types.push("cmft");
        proof {
            assert forall|t: Seq<char>| supported(t) implies exists|i: int|
                0 <= i < 5 && (#[trigger] types@[i])@ == t by {
                if t == "dash"@ {
                    assert(types@[0]@ == t);
                } else if t == "m4s"@ {
                    assert(types@[1]@ == t);
                } else if t == "cmfv"@ {
                    assert(types@[2]@ == t);
                } else if t == "cmfa"@ {
                    assert(types@[3]@ == t);
                } else {
                    assert(types@[4]@ == t);
                }
            }
        }
        types
    }

    /// Says which file carries the provenance box of the representation
    /// listed under `id`: its initialization segment.
    ///
    /// `UnsupportedAssetType` where the adapter was made for a type it does
    /// not handle, where the presentation lists no representation under
    /// `id`, and where the representation names no segments.
    pub fn resolve_segment<'a>(&self, manifest: &'a DashManifest, id: &str) -> (res: Result<
        &'a str,
        Error,
    >)
        ensures
            match res {
                Ok(name) => resolved(self.kind(), *manifest, id@) == Ok::<Seq<char>, Error>(name@),
                Err(e) => resolved(self.kind(), *manifest, id@) == Err::<Seq<char>, Error>(e),
            },
    {
        if !is_supported(self.asset_type.as_str()) {
            return Err(Error::UnsupportedAssetType);
        }
        match find_representation(manifest, id) {
            None => Err(Error::UnsupportedAssetType),
            Some(rep) => match &rep.segment_template {
                None => Err(Error::UnsupportedAssetType),
                Some(template) => Ok(template.initialization.as_str()),
            },
        }
    }

    /// Reads the store of the segment.
    pub fn read_cai(&self, data: &[u8]) -> (res: Result<Vec<u8>, Error>)
        ensures
            match res {
                Ok(bytes) => stored(data@) == Ok::<Seq<u8>, Error>(bytes@),
                Err(e) => stored(data@) == Err::<Seq<u8>, Error>(e),
            },
    {
        read_store(data)
    }

    /// Reads the reference that the segment carries.
    pub fn read_reference(&self, data: &[u8]) -> (res: Result<(ReferenceKind, Vec<u8>), Error>)
        ensures
            match res {
                Ok((kind, uri)) => referenced(data@) == Ok::<(ReferenceKind, Seq<u8>), Error>(
                    (kind, uri@),
                ),
                Err(e) => referenced(data@) == Err::<(ReferenceKind, Seq<u8>), Error>(e),
            },
    {
        read_reference(data)
    }

    /// Embeds `store` in the segment and gives the segment as it is then.
    pub fn write_cai(&self, data: &[u8], store: &[u8]) -> (res: Result<Vec<u8>, Error>)
        requires
            data@.len() + store@.len() + 16 <= usize::MAX,
        ensures
            match res {
                Ok(out) => {
                    &&& written(data@, KIND_STORE, store@) == Ok::<Seq<u8>, Error>(out@)
                    &&& valid(out@, 0, out@.len() as int)
                    &&& stored(out@) == Ok::<Seq<u8>, Error>(store@)
                },
                Err(e) => written(data@, KIND_STORE, store@) == Err::<Seq<u8>, Error>(e),
            },
    {
        write_store(data, store)
    }

    /// Overwrites the store of the segment in place.
    pub fn patch_cai_store(&self, data: &mut Vec<u8>, store: &[u8]) -> (res: Result<(), Error>)
        ensures
            match res {
                Ok(()) => {
                    &&& patched(old(data)@, store@) == Ok::<Seq<u8>, Error>(final(data)@)
                    &&& final(data)@.len() == old(data)@.len()
                    &&& valid(final(data)@, 0, final(data)@.len() as int) == valid(
                        old(data)@,
                        0,
                        old(data)@.len() as int,
                    )
                },
                Err(e) => patched(old(data)@, store@) == Err::<Seq<u8>, Error>(e) && final(data)@
                    == old(data)@,
            },
    {
        patch_store(data, store)
    }

    /// The ranges of the segment to hash, and the one to skip.
    pub fn get_object_locations_from_stream(&self, data: &[u8]) -> (res: Result<
        Vec<HashObjectPosition>,
        Error,
    >)
        ensures
            match res {
                Ok(ranges) => hash_ranges_now(data@) == Ok::<Seq<HashObjectPosition>, Error>(
                    ranges@,
                ) && covers(ranges@, 0, data@.len() as int) && total_length(ranges@)
                    == data@.len(),
                Err(e) => hash_ranges_now(data@) == Err::<Seq<HashObjectPosition>, Error>(e),
            },
    {
        hash_ranges(data)
    }

    /// Removes the provenance box of the segment and gives the segment as it
    /// is then.
    pub fn remove_cai_store_from_stream(&self, data: &[u8]) -> (res: Result<Vec<u8>, Error>)
        ensures
            match res {
                Ok(out) => removed(data@) == Ok::<Seq<u8>, Error>(out@) && valid(
                    out@,
                    0,
                    out@.len() as int,
                ),
                Err(e) => removed(data@) == Err::<Seq<u8>, Error>(e),
            },
    {
        remove_store(data)
    }

    /// Embeds a reference to a store kept at `uri` and gives the segment as
    /// it is then.
    pub fn embed_reference_to_stream(&self, data: &[u8], kind: ReferenceKind, uri: &str) -> (res:
        Result<Vec<u8>, Error>)
        requires
            data@.len() + uri.spec_bytes().len() + 17 <= usize::MAX,
        ensures
            match res {
                Ok(out) => written(
                    data@,
                    KIND_REFERENCE,
                    reference_payload(kind, uri.spec_bytes()),
                ) == Ok::<Seq<u8>, Error>(out@) && valid(out@, 0, out@.len() as int)
                    && referenced(out@) == Ok::<(ReferenceKind, Seq<u8>), Error>(
                    (kind, uri.spec_bytes()),
                ),
                Err(e) => written(data@, KIND_REFERENCE, reference_payload(kind, uri.spec_bytes()))
                    == Err::<Seq<u8>, Error>(e),
            },
    {
        embed_remote_reference(data, kind, uri.as_bytes())
    }
}

} // verus!
