//! The object framing `"<kind> <length>\0<payload>"` and object addresses.

use sha1::Digest;
use vstd::prelude::*;
use crate::bytes::{append_bytes, copy_range, find_zero, starts_with};
use crate::hex::{bytes_to_hex, hex_of, hex_to_bytes, hex_decoded, is_hex_char};

verus! {

/// The three kinds of stored object.
#[derive(Clone, Copy, Debug, PartialEq, Eq, Structural)]
pub enum ObjectKind {
    Blob,
    Tree,
    Commit,
}

/// The ASCII name of a kind, as it stands in an object header.
pub open spec fn kind_name(k: ObjectKind) -> Seq<u8> {
    match k {
        ObjectKind::Blob => seq![98u8, 108u8, 111u8, 98u8],
        ObjectKind::Tree => seq![116u8, 114u8, 101u8, 101u8],
        ObjectKind::Commit => seq![99u8, 111u8, 109u8, 109u8, 105u8, 116u8],
    }
}

/// The decimal ASCII text of `n`, without leading zeros.
pub open spec fn decimal(n: nat) -> Seq<u8>
    decreases n,
{
    if n < 10 {
        seq![(48 + n) as u8]
    } else {
        decimal(n / 10).push((48 + n % 10) as u8)
    }
}

/// The header `"<kind> <n>\0"` of an object whose payload has `n` bytes.
pub open spec fn header(k: ObjectKind, n: nat) -> Seq<u8> {
    kind_name(k) + seq![32u8] + decimal(n) + seq![0u8]
}

/// The encoded form of an object: its header, then its payload.
pub open spec fn encoded(k: ObjectKind, p: Seq<u8>) -> Seq<u8> {
    header(k, p.len()) + p
}

/// What `raw` decodes to: the kind and payload whose encoding it is, if any.
pub open spec fn decoded(raw: Seq<u8>) -> Option<(ObjectKind, Seq<u8>)> {
    if exists|kp: (ObjectKind, Seq<u8>)| raw == encoded(kp.0, kp.1) {
        Some(choose|kp: (ObjectKind, Seq<u8>)| raw == encoded(kp.0, kp.1))
    } else {
        None
    }
}

/// The SHA-1 digest of a byte sequence.
pub uninterp spec fn sha1_of(b: Seq<u8>) -> Seq<u8>;

/// The raw address of an object: the digest of its encoding.
pub open spec fn address_of(k: ObjectKind, p: Seq<u8>) -> Seq<u8> {
    sha1_of(encoded(k, p))
}

/// Decimal text holds digits only.
pub proof fn lemma_decimal_digits(n: nat)
    ensures
        decimal(n).len() >= 1,
        forall|i: int| 0 <= i < decimal(n).len() ==> 48 <= #[trigger] decimal(n)[i] <= 57,
    decreases n,
{
    if n >= 10 {
        lemma_decimal_digits(n / 10);
    }
}

/// A header holds no zero byte but its last.
pub proof fn lemma_header_zero(k: ObjectKind, n: nat)
    ensures
        header(k, n).len() >= 2,
        header(k, n)[header(k, n).len() - 1] == 0,
        forall|i: int| 0 <= i < header(k, n).len() - 1 ==> #[trigger] header(k, n)[i] != 0,
{
    lemma_decimal_digits(n);
    let h = header(k, n);
    let kn = kind_name(k);
    assert forall|i: int| 0 <= i < h.len() - 1 implies #[trigger] h[i] != 0 by {
        if i < kn.len() {
            assert(h[i] == kn[i]);
        } else if i == kn.len() {
            assert(h[i] == 32);
        } else {
            assert(h[i] == decimal(n)[i - kn.len() - 1]);
        }
    }
}

/// Two objects with one encoding are the same object.
pub proof fn lemma_encoded_injective(k1: ObjectKind, p1: Seq<u8>, k2: ObjectKind, p2: Seq<u8>)
    requires
        encoded(k1, p1) == encoded(k2, p2),
    ensures
        k1 == k2,
        p1 == p2,
{
    let h1 = header(k1, p1.len());
    let h2 = header(k2, p2.len());
    let raw = encoded(k1, p1);
    lemma_header_zero(k1, p1.len());
    lemma_header_zero(k2, p2.len());
    if h1.len() < h2.len() {
        assert(raw[h1.len() - 1] == h1[h1.len() - 1]);
        assert(raw[h1.len() - 1] == h2[h1.len() - 1]);
    } else if h2.len() < h1.len() {
        assert(raw[h2.len() - 1] == h2[h2.len() - 1]);
        assert(raw[h2.len() - 1] == h1[h2.len() - 1]);
    }
    assert(p1 =~= raw.subrange(h1.len() as int, raw.len() as int));
    assert(p2 =~= raw.subrange(h2.len() as int, raw.len() as int));
    assert(raw[0] == h1[0] && raw[0] == h2[0]);
}

/// Decoding an encoded object gives back its kind and payload.
pub proof fn lemma_decode_encode(k: ObjectKind, p: Seq<u8>)
    ensures
        decoded(encoded(k, p)) == Some((k, p)),
{
    let raw = encoded(k, p);
    assert(raw == encoded((k, p).0, (k, p).1));
    let kp = choose|kp: (ObjectKind, Seq<u8>)| raw == encoded(kp.0, kp.1);
    lemma_encoded_injective(kp.0, kp.1, k, p);
}

/// Appends the decimal text of `n` to `out`.
pub fn push_decimal(out: &mut Vec<u8>, n: usize)
    ensures
        final(out)@ == old(out)@ + decimal(n as nat),
    decreases n,
{
    if n >= 10 {
        push_decimal(out, n / 10);
    }
    out.push(48 + (n % 10) as u8);
    proof {
        if n >= 10 {
            assert(decimal(n as nat) == decimal((n / 10) as nat).push((48 + n % 10) as u8));
        }
        assert(final(out)@ =~= old(out)@ + decimal(n as nat));
    }
}

fn push_kind_name(out: &mut Vec<u8>, k: ObjectKind)
    ensures
        final(out)@ == old(out)@ + kind_name(k),
{
    match k {
        ObjectKind::Blob => {
            out.push(98);
            out.push(108);
            out.push(111);
            out.push(98);
        },
        ObjectKind::Tree => {
            out.push(116);
            out.push(114);
            out.push(101);
            out.push(101);
        },
        ObjectKind::Commit => {
            out.push(99);
            out.push(111);
            out.push(109);
            out.push(109);
            out.push(105);
            out.push(116);
        },
    }
    assert(final(out)@ =~= old(out)@ + kind_name(k));
}

/// The header `"<kind> <n>\0"`.
pub fn make_header(k: ObjectKind, n: usize) -> (r: Vec<u8>)
    ensures
        r@ == header(k, n as nat),
{
    let mut out: Vec<u8> = Vec::new();
    push_kind_name(&mut out, k);
    out.push(32);
    push_decimal(&mut out, n);
    out.push(0);
    assert(out@ =~= header(k, n as nat));
    out
}

/// Encodes an object as its header followed by its payload.
pub fn encode(kind: ObjectKind, payload: &[u8]) -> (r: Vec<u8>)
    ensures
        r@ == encoded(kind, payload@),
{
    let mut out = make_header(kind, payload.len());
    append_bytes(&mut out, payload);
    out
}

/// Why a stored object could not be produced or read.
#[derive(Clone, Copy, Debug, PartialEq, Eq, Structural)]
pub enum ObjectError {
    /// No object is stored under the address.
    NotFound,
    /// The bytes break the object framing or the tree record framing.
    Format,
    /// The file system or the compressed stream failed.
    Io,
}

/// Splits an encoded object into its kind and payload.
/// Fails with `Format` exactly when `raw` is the encoding of no object.
pub fn decode(raw: &[u8]) -> (r: Result<(ObjectKind, Vec<u8>), ObjectError>)
    ensures
        match r {
            Ok((k, p)) => decoded(raw@) == Some((k, p@)),
            Err(e) => e == ObjectError::Format && decoded(raw@) is None,
        },
{
    let z = find_zero(raw, 0);
    match z {
        None => {
            proof {
                if decoded(raw@) is Some {
                    let kp = choose|kp: (ObjectKind, Seq<u8>)| raw@ == encoded(kp.0, kp.1);
                    lemma_header_zero(kp.0, kp.1.len());
                    let h = header(kp.0, kp.1.len());
                    assert(raw@[h.len() - 1] == h[h.len() - 1]);
                }
            }
            Err(ObjectError::Format)
        },
        Some(i) => {
            let n: usize = raw.len() - i - 1;
            let kinds = [ObjectKind::Blob, ObjectKind::Tree, ObjectKind::Commit];
            let mut j: usize = 0;
            while j < 3
                invariant
                    j <= 3,
                    n == raw@.len() - i - 1,
                    i < raw@.len(),
                    kinds@ == seq![ObjectKind::Blob, ObjectKind::Tree, ObjectKind::Commit],
                    forall|m: int| 0 <= m < j ==> !(raw@.subrange(0, i + 1) == #[trigger] header(kinds@[m], n as nat)),
                decreases 3 - j,
            {
                let k = kinds[j];
                let h = make_header(k, n);
                if h.len() == raw.len() - n && starts_with(raw, h.as_slice()) {
                    let p = copy_range(raw, i + 1, raw.len());
                    proof {
                        assert(raw@ =~= encoded(k, p@));
                        lemma_decode_encode(k, p@);
                    }
                    return Ok((k, p));
                }
                j = j + 1;
            }
            proof {
                if decoded(raw@) is Some {
                    let kp = choose|kp: (ObjectKind, Seq<u8>)| raw@ == encoded(kp.0, kp.1);
                    lemma_header_zero(kp.0, kp.1.len());
                    let h = header(kp.0, kp.1.len());
                    if h.len() - 1 < i {
                        assert(raw@[h.len() - 1] == h[h.len() - 1]);
                    } else if i < h.len() - 1 {
                        assert(raw@[i as int] == h[i as int]);
                    }
                    assert(raw@.subrange(0, i + 1) =~= h);
                    let m: int = match kp.0 {
                        ObjectKind::Blob => 0,
                        ObjectKind::Tree => 1,
                        ObjectKind::Commit => 2,
                    };
                    assert(kinds@[m] == kp.0);
                }
            }
            Err(ObjectError::Format)
        },
    }
}

/// Relies on sha1::Sha1 through digest::Digest::digest: the SHA-1 digest of
/// `b`, twenty bytes.
#[verifier::external_body]
fn sha1_digest(b: &[u8]) -> (r: Vec<u8>)
    ensures
        r@ == sha1_of(b@),
        r@.len() == 20,
{
    sha1::Sha1::digest(b).to_vec()
}

/// An encoded object together with its address, ready to be stored.
pub struct StoredObject {
    pub id: ObjectId,
    pub data: Vec<u8>,
}

/// Encodes an object and computes its address.
pub fn make_object(kind: ObjectKind, payload: &[u8]) -> (r: StoredObject)
    ensures
        r.data@ == encoded(kind, payload@),
        r.id@ == address_of(kind, payload@),
        r.id.well_formed(),
{
    let data = encode(kind, payload);
    let id = ObjectId::of_encoded(data.as_slice());
    StoredObject { id, data }
}

/// The address of an object: twenty raw bytes, written as forty lowercase
/// hexadecimal digits.
pub struct ObjectId {
    raw: Vec<u8>,
}

impl View for ObjectId {
    type V = Seq<u8>;

    closed spec fn view(&self) -> Seq<u8> {
        self.raw@
    }
}

/// Whether `c` is a lowercase hexadecimal digit.
pub open spec fn is_lower_hex_char(c: char) -> bool {
    ('0' <= c && c <= '9') || ('a' <= c && c <= 'f')
}

/// Whether `s` is the text of an address: forty lowercase hexadecimal digits.
pub open spec fn is_address_text(s: Seq<char>) -> bool {
    &&& s.len() == 40
    &&& forall|i: int| 0 <= i < s.len() ==> is_lower_hex_char(#[trigger] s[i])
}

impl ObjectId {
    /// Every address has twenty bytes.
    pub closed spec fn well_formed(&self) -> bool {
        self.raw@.len() == 20
    }

    /// Every address has twenty bytes.
    pub broadcast proof fn lemma_len(id: &ObjectId)
        requires
            #[trigger] id.well_formed(),
        ensures
            id@.len() == 20,
    {
    }

    /// The address of the object with this encoding.
    pub fn of_encoded(data: &[u8]) -> (r: ObjectId)
        ensures
            r@ == sha1_of(data@),
            r.well_formed(),
    {
        ObjectId { raw: sha1_digest(data) }
    }

    /// A second value of the same address.
    pub fn copy(&self) -> (r: ObjectId)
        ensures
            r@ == self@,
            r.well_formed() == self.well_formed(),
    {
        let raw = copy_range(self.raw.as_slice(), 0, self.raw.len());
        assert(raw@ =~= self.raw@);
        ObjectId { raw }
    }

    /// Whether the two addresses are the same.
    pub fn same(&self, other: &ObjectId) -> (r: bool)
        ensures
            r == (self@ == other@),
    {
        if self.raw.len() != other.raw.len() {
            return false;
        }
        let r = starts_with(self.raw.as_slice(), other.raw.as_slice());
        assert(self.raw@.subrange(0, self.raw@.len() as int) =~= self.raw@);
        r
    }

    /// The twenty raw bytes of the address.
    pub fn as_bytes(&self) -> (r: &[u8])
        ensures
            r@ == self@,
    {
        self.raw.as_slice()
    }

    /// The forty lowercase hexadecimal digits of the address, as ASCII bytes.
    pub fn to_hex(&self) -> (r: Vec<u8>)
        requires
            self.well_formed(),
        ensures
            r@ == hex_of(self@),
    {
        bytes_to_hex(self.raw.as_slice())
    }

    /// Reads an address from its text; `None` unless the text is forty
    /// lowercase hexadecimal digits.
    pub fn parse(s: &str) -> (r: Option<ObjectId>)
        ensures
            match r {
                Some(id) => is_address_text(s@) && id.well_formed() && id@ == hex_decoded(s@),
                None => !is_address_text(s@),
            },
    {
        if !s.is_ascii() {
            proof {
                if is_address_text(s@) {
                    assert forall|i: int| 0 <= i < s@.len() implies '\0' <= #[trigger] s@[i] <= '\u{7f}' by {
                        assert(is_lower_hex_char(s@[i]));
                    }
                    assert(vstd::string::is_ascii(s));
                }
            }
            return None;
        }
        proof {
            broadcast use vstd::string::is_ascii_spec_bytes;
        }
        let b = s.as_bytes();
        assert(b@ =~= Seq::new(s@.len(), |i| s@[i] as u8));
        if b.len() != 40 {
            return None;
        }
        let mut i: usize = 0;
        while i < 40
            invariant
                i <= 40,
                b@.len() == 40,
                s@.len() == 40,
                vstd::string::is_ascii(s),
                b@ == Seq::new(s@.len(), |i| s@[i] as u8),
                forall|j: int| 0 <= j < i ==> is_lower_hex_char(#[trigger] s@[j]),
            decreases 40 - i,
        {
            let c = b[i];
            proof {
                assert('\0' <= s@[i as int] <= '\u{7f}');
            }
            if !((48 <= c && c <= 57) || (97 <= c && c <= 102)) {
                return None;
            }
            i = i + 1;
        }
        proof {
            assert forall|j: int| 0 <= j < s@.len() implies is_hex_char(#[trigger] s@[j]) by {
                assert(is_lower_hex_char(s@[j]));
            }
        }
        let raw = hex_to_bytes(s);
        Some(ObjectId { raw })
    }
}

} // verus!
