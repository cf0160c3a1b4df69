//! The object store: compressed objects under two-level fan-out paths, the
//! decisions of a write, and reading objects back.

use std::io::Read;
use std::io::Write;
use vstd::prelude::*;
use crate::bytes::copy_range;
use crate::codec::{ObjectError, ObjectId, StoredObject, ObjectKind, decode, decoded, encoded};
use crate::hex::hex_of;

verus! {

/// The zlib stream that the store writes for these bytes.
pub uninterp spec fn zlib_of(b: Seq<u8>) -> Seq<u8>;

/// The bytes that a zlib stream inflates to.
pub uninterp spec fn inflated(z: Seq<u8>) -> Seq<u8>;

/// Relies on flate2::write::ZlibEncoder at the default compression level:
/// a zlib stream of `b`, the same for the same bytes.
#[verifier::external_body]
fn compress(b: &[u8]) -> (r: Vec<u8>)
    ensures
        r@ == zlib_of(b@),
{
    let mut enc = flate2::write::ZlibEncoder::new(Vec::new(), flate2::Compression::default());
    enc.write_all(b).unwrap();
    enc.finish().unwrap()
}

/// Relies on flate2::read::ZlibDecoder: it inflates a zlib stream in full,
/// gives back exactly the bytes that were compressed, and fails on bytes
/// that are no zlib stream.
#[verifier::external_body]
fn decompress(z: &[u8]) -> (r: Option<Vec<u8>>)
    ensures
        r is Some ==> r->Some_0@ == inflated(z@),
        forall|x: Seq<u8>| z@ == zlib_of(x) ==> r is Some && r->Some_0@ == x,
{
    let mut out = Vec::new();
    match flate2::read::ZlibDecoder::new(z).read_to_end(&mut out) {
        Ok(_) => Some(out),
        Err(_) => None,
    }
}

/// The store as a map from the hexadecimal text of an address to the bytes
/// of the file that holds the object.
pub open spec fn after_write(store: Map<Seq<u8>, Seq<u8>>, id: Seq<u8>, data: Seq<u8>) -> Map<Seq<u8>, Seq<u8>> {
    if store.contains_key(hex_of(id)) {
        store
    } else {
        store.insert(hex_of(id), zlib_of(data))
    }
}

/// What a write does to the store.
pub enum WriteAction {
    /// The object is there already: touch nothing.
    Skip,
    /// Create directory `dir` if it is missing and write `bytes` to file
    /// `file` in it.
    Create { dir: Vec<u8>, file: Vec<u8>, bytes: Vec<u8> },
}

/// The store after an action: a file `dir`/`file` stands under the key
/// `dir + file`.
pub open spec fn applied(store: Map<Seq<u8>, Seq<u8>>, a: WriteAction) -> Map<Seq<u8>, Seq<u8>> {
    match a {
        WriteAction::Skip => store,
        WriteAction::Create { dir, file, bytes } => store.insert(dir@ + file@, bytes@),
    }
}

/// Decides how to write the encoded object `data` under `id`, given whether
/// a file is there already. An object that exists is never written again.
pub fn plan_write(id: &ObjectId, data: &[u8], exists: bool) -> (r: WriteAction)
    requires
        id.well_formed(),
    ensures
        exists <==> r is Skip,
        r matches WriteAction::Create { dir, file, bytes } ==> dir@ == hex_of(id@).subrange(0, 2)
            && file@ == hex_of(id@).subrange(2, 40) && bytes@ == zlib_of(data@),
        forall|store: Map<Seq<u8>, Seq<u8>>| store.contains_key(hex_of(id@)) == exists
            ==> applied(store, r) == after_write(store, id@, data@),
{
    if exists {
        return WriteAction::Skip;
    }
    proof {
        ObjectId::lemma_len(id);
    }
    let h = id.to_hex();
    let dir = copy_range(h.as_slice(), 0, 2);
    let file = copy_range(h.as_slice(), 2, 40);
    assert(dir@ + file@ =~= hex_of(id@));
    let bytes = compress(data);
    WriteAction::Create { dir, file, bytes }
}

/// Writing one object twice leaves the store as writing it once, and the
/// second write touches nothing.
pub proof fn lemma_write_idempotent(store: Map<Seq<u8>, Seq<u8>>, id: Seq<u8>, data: Seq<u8>)
    ensures
        after_write(after_write(store, id, data), id, data) == after_write(store, id, data),
        after_write(store, id, data).contains_key(hex_of(id)),
{
}

/// The payload of the object stored as the zlib stream `z`, if it inflates
/// to a well-framed object.
pub open spec fn stored_payload(z: Seq<u8>) -> Option<Seq<u8>> {
    match decoded(inflated(z)) {
        Some((k, p)) => Some(p),
        None => None,
    }
}

/// The payload of a stored object, byte for byte, from the bytes of its
/// file. Fails with `Io` where they do not inflate and with `Format` where
/// they inflate to no object.
pub fn cat_file(z: &[u8]) -> (r: Result<Vec<u8>, ObjectError>)
    ensures
        r matches Ok(p) ==> stored_payload(z@) == Some(p@),
        r matches Err(e) ==> e == ObjectError::Io || (e == ObjectError::Format && stored_payload(z@) is None),
        forall|k: ObjectKind, c: Seq<u8>| z@ == zlib_of(#[trigger] encoded(k, c)) ==> (r matches Ok(p) && p@ == c),
{
    match decompress(z) {
        None => Err(ObjectError::Io),
        Some(raw) => {
            proof {
                assert forall|k: ObjectKind, c: Seq<u8>| z@ == zlib_of(#[trigger] encoded(k, c)) implies raw@ == encoded(k, c) by {}
            }
            match decode(raw.as_slice()) {
                Ok((k, p)) => {
                    proof {
                        assert forall|k2: ObjectKind, c: Seq<u8>| z@ == zlib_of(#[trigger] encoded(k2, c)) implies p@ == c by {
                            crate::codec::lemma_decode_encode(k2, c);
                        }
                    }
                    Ok(p)
                },
                Err(e) => {
                    proof {
                        assert forall|k2: ObjectKind, c: Seq<u8>| z@ == zlib_of(#[trigger] encoded(k2, c)) implies false by {
                            crate::codec::lemma_decode_encode(k2, c);
                        }
                    }
                    Err(e)
                },
            }
        },
    }
}

/// Hashes a file's bytes as a blob.
pub fn hash_object(content: &[u8]) -> (r: StoredObject)
    ensures
        r.data@ == encoded(ObjectKind::Blob, content@),
        r.id@ == crate::codec::address_of(ObjectKind::Blob, content@),
        r.id.well_formed(),
{
    crate::codec::make_object(ObjectKind::Blob, content)
}

} // verus!
