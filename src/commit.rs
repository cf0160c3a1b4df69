//! Commit objects.

use vstd::prelude::*;
use crate::bytes::append_bytes;
use crate::codec::{ObjectId, ObjectKind, StoredObject, address_of, decimal, encoded, make_object};
use crate::hex::hex_of;

verus! {

/// Who makes commits: a name, an e-mail address and a time-zone offset such
/// as `+0100`, supplied by the caller.
pub struct Identity {
    pub name: Vec<u8>,
    pub email: Vec<u8>,
    pub timezone: Vec<u8>,
}

/// `"<role> <name> <<email>> <seconds> <timezone>\n"`.
pub open spec fn signature_line(role: Seq<u8>, who: Identity, seconds: u64) -> Seq<u8> {
    role + seq![32u8] + who.name@ + seq![32u8, 60u8] + who.email@ + seq![62u8, 32u8] + decimal(seconds as nat)
        + seq![32u8] + who.timezone@ + seq![10u8]
}

/// The ASCII text `author`.
pub open spec fn author_word() -> Seq<u8> {
    seq![97u8, 117u8, 116u8, 104u8, 111u8, 114u8]
}

/// The ASCII text `committer`.
pub open spec fn committer_word() -> Seq<u8> {
    seq![99u8, 111u8, 109u8, 109u8, 105u8, 116u8, 116u8, 101u8, 114u8]
}

/// The payload of a commit: the tree line, the parent line if there is a
/// parent, the author and committer lines, a blank line, and the message
/// with a final newline.
pub open spec fn commit_payload(
    tree: Seq<u8>,
    parent: Option<Seq<u8>>,
    who: Identity,
    seconds: u64,
    message: Seq<u8>,
) -> Seq<u8> {
    let tree_line = seq![116u8, 114u8, 101u8, 101u8, 32u8] + hex_of(tree) + seq![10u8];
    let parent_line = match parent {
        Some(p) => seq![112u8, 97u8, 114u8, 101u8, 110u8, 116u8, 32u8] + hex_of(p) + seq![10u8],
        None => Seq::empty(),
    };
    tree_line + parent_line + signature_line(author_word(), who, seconds) + signature_line(
        committer_word(),
        who,
        seconds,
    ) + seq![10u8] + message + seq![10u8]
}

/// Appends the decimal text of `n` to `out`.
fn push_decimal_u64(out: &mut Vec<u8>, n: u64)
    ensures
        final(out)@ == old(out)@ + decimal(n as nat),
    decreases n,
{
    if n >= 10 {
        push_decimal_u64(out, n / 10);
    }
    out.push(48 + (n % 10) as u8);
    proof {
        if n >= 10 {
            assert(decimal(n as nat) == decimal((n / 10) as nat).push((48 + n % 10) as u8));
        }
        assert(final(out)@ =~= old(out)@ + decimal(n as nat));
    }
}

/// The raw bytes of an optional address.
pub open spec fn id_opt(parent: Option<&ObjectId>) -> Option<Seq<u8>> {
    match parent {
        Some(p) => Some(p@),
        None => None,
    }
}

fn push_signature(out: &mut Vec<u8>, role: &[u8], who: &Identity, seconds: u64)
    ensures
        final(out)@ == old(out)@ + signature_line(role@, *who, seconds),
{
    append_bytes(out, role);
    out.push(32);
    append_bytes(out, who.name.as_slice());
    out.push(32);
    out.push(60);
    append_bytes(out, who.email.as_slice());
    out.push(62);
    out.push(32);
    push_decimal_u64(out, seconds);
    out.push(32);
    append_bytes(out, who.timezone.as_slice());
    out.push(10);
    assert(final(out)@ =~= old(out)@ + signature_line(role@, *who, seconds));
}

/// The commit object for a tree, an optional parent, an author who is also
/// the committer, a time in Unix seconds, and a message.
pub fn build_commit(
    tree: &ObjectId,
    parent: Option<&ObjectId>,
    who: &Identity,
    seconds: u64,
    message: &[u8],
) -> (r: StoredObject)
    requires
        tree.well_formed(),
        parent matches Some(p) ==> p.well_formed(),
    ensures
        r.data@ == encoded(ObjectKind::Commit, commit_payload(tree@, id_opt(parent), *who, seconds, message@)),
        r.id@ == address_of(ObjectKind::Commit, commit_payload(tree@, id_opt(parent), *who, seconds, message@)),
        r.id.well_formed(),
{
    let mut out: Vec<u8> = Vec::new();
    out.push(116);
    out.push(114);
    out.push(101);
    out.push(101);
    out.push(32);
    let th = tree.to_hex();
    append_bytes(&mut out, th.as_slice());
    out.push(10);
    let ghost head = out@;
    match parent {
        Some(p) => {
            out.push(112);
            out.push(97);
            out.push(114);
            out.push(101);
            out.push(110);
            out.push(116);
            out.push(32);
            let ph = p.to_hex();
            append_bytes(&mut out, ph.as_slice());
            out.push(10);
        },
        None => {},
    }
    let author: [u8; 6] = [97, 117, 116, 104, 111, 114];
    let committer: [u8; 9] = [99, 111, 109, 109, 105, 116, 116, 101, 114];
    assert(author@ =~= author_word());
    assert(committer@ =~= committer_word());
    push_signature(&mut out, author.as_slice(), who, seconds);
    push_signature(&mut out, committer.as_slice(), who, seconds);
    out.push(10);
    append_bytes(&mut out, message);
    out.push(10);
    assert(out@ =~= commit_payload(tree@, id_opt(parent), *who, seconds, message@));
    make_object(ObjectKind::Commit, out.as_slice())
}

} // verus!
