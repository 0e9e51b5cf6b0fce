//! Namespace records of the two-bank (v5) layout and the naming rule shared by
//! every layout.
use vstd::prelude::*;
use vstd::bytes::*;
use vstd::slice::slice_subrange;
use crate::codec::{holds, zero_range, put, put_u16, put_u32, put_u64, get_u16, get_u32, get_u64, is_zero};
use crate::{Error, MAX_FILE};

verus! {

#[derive(Clone, Copy, Debug, PartialEq, Eq, Structural)]
pub enum Kind {
    Empty,
    File,
    Directory,
}

/// The byte a kind is stored as.
pub open spec fn kind_code(kind: Kind) -> u8 {
    match kind {
        Kind::Empty => 0u8,
        Kind::File => 1u8,
        Kind::Directory => 2u8,
    }
}

pub fn kind_byte(kind: Kind) -> (r: u8)
    ensures
        r == kind_code(kind),
{
    match kind {
        Kind::Empty => 0,
        Kind::File => 1,
        Kind::Directory => 2,
    }
}

/// A byte a name may hold: ASCII letters, digits, `.`, `_` and `-`.
pub open spec fn name_byte(b: u8) -> bool {
    (48 <= b <= 57) || (65 <= b <= 90) || (97 <= b <= 122) || b == 46 || b == 95 || b == 45
}

/// The naming rule: 1 to 31 permitted bytes, and neither `.` nor `..`.
pub open spec fn spec_valid_name(name: Seq<u8>) -> bool {
    &&& 1 <= name.len() <= 31
    &&& name != seq![46u8]
    &&& name != seq![46u8, 46u8]
    &&& forall|i: int| 0 <= i < name.len() ==> name_byte(#[trigger] name[i])
}

/// `Ok` exactly for a valid name, `Invalid` otherwise.
pub fn valid_name(name: &[u8]) -> (r: Result<(), Error>)
    ensures
        r is Ok <==> spec_valid_name(name@),
        r is Err ==> r == Err::<(), Error>(Error::Invalid),
{
    if name.len() == 0 || name.len() > 31 {
        return Err(Error::Invalid);
    }
    if name.len() == 1 && name[0] == 46 {
        assert(name@ =~= seq![46u8]);
        return Err(Error::Invalid);
    }
    if name.len() == 2 && name[0] == 46 && name[1] == 46 {
        assert(name@ =~= seq![46u8, 46u8]);
        return Err(Error::Invalid);
    }
    let mut i: usize = 0;
    while i < name.len()
        invariant
            0 <= i <= name@.len(),
            forall|k: int| 0 <= k < i ==> name_byte(#[trigger] name@[k]),
        decreases name@.len() - i,
    {
        let b = name[i];
        if !((48 <= b && b <= 57) || (65 <= b && b <= 90) || (97 <= b && b <= 122) || b == 46 || b
            == 95 || b == 45) {
            return Err(Error::Invalid);
        }
        i = i + 1;
    }
    Ok(())
}

/// A v5 control record: 64 bytes on disk, naming one object and, for a file,
/// which data bank holds its bytes and their checksum.
#[derive(Clone, Copy, Debug)]
pub struct Node {
    pub id: u32,
    pub parent: u32,
    pub version: u64,
    pub length: u16,
    pub kind: Kind,
    pub space: u8,
    pub bank: u8,
    pub checksum: u32,
    pub name: [u8; 32],
    pub name_length: u8,
}

/// The empty slot.
pub open spec fn empty_node() -> Node {
    Node {
        id: 0,
        parent: 0,
        version: 0,
        length: 0,
        kind: Kind::Empty,
        space: 0,
        bank: 0,
        checksum: 0,
        name: spec_array_from(Seq::new(32, |i: int| 0u8)),
        name_length: 0,
    }
}

impl Node {
    pub open spec fn spec_name(&self) -> Seq<u8> {
        self.name@.take(self.name_length as int)
    }

    /// The name field holds the name and zeros after it.
    pub open spec fn name_padded(&self) -> bool {
        &&& self.name_length <= 32
        &&& zero_range(self.name@, self.name_length as int, 32)
    }

    pub fn empty() -> (r: Self)
        ensures
            r == empty_node(),
    {
        let name = [0u8; 32];
        assert(name@ =~= Seq::new(32, |i: int| 0u8));
        proof {
            lemma_array_from(name);
        }
        Node {
            id: 0,
            parent: 0,
            version: 0,
            length: 0,
            kind: Kind::Empty,
            space: 0,
            bank: 0,
            checksum: 0,
            name,
            name_length: 0,
        }
    }

    /// A fresh record with an empty payload; refuses an invalid name.
    pub fn new(id: u32, parent: u32, space: u8, kind: Kind, name: &[u8], version: u64) -> (r:
        Result<Self, Error>)
        ensures
            r is Ok <==> spec_valid_name(name@),
            r is Err ==> r == Err::<Node, Error>(Error::Invalid),
            r matches Ok(n) ==> {
                &&& n.id == id
                &&& n.parent == parent
                &&& n.space == space
                &&& n.kind == kind
                &&& n.version == version
                &&& n.length == 0
                &&& n.bank == 0
                &&& n.checksum == 0
                &&& n.spec_name() == name@
                &&& n.name_padded()
            },
    {
        valid_name(name)?;
        let mut field = [0u8; 32];
        put(&mut field, 0, name);
        let r = Node {
            id,
            parent,
            version,
            length: 0,
            kind,
            space,
            bank: 0,
            checksum: 0,
            name: field,
            name_length: name.len() as u8,
        };
        assert(r.spec_name() =~= name@);
        Ok(r)
    }

    pub fn name(&self) -> (r: &[u8])
        requires
            self.name_length <= 32,
        ensures
            r@ == self.spec_name(),
    {
        slice_subrange(self.name.as_slice(), 0, self.name_length as usize)
    }

    /// The 64-byte record.
    pub fn encode(&self) -> (r: [u8; 64])
        ensures
            encodes_node(r@, *self),
    {
        let mut b = [0u8; 64];
        b[0] = kind_byte(self.kind);
        b[1] = self.space;
        b[2] = self.bank;
        b[3] = self.name_length;
        put_u32(&mut b, 4, self.parent);
        put_u32(&mut b, 8, self.id);
        put_u16(&mut b, 12, self.length);
        put_u64(&mut b, 16, self.version);
        put_u32(&mut b, 24, self.checksum);
        put(&mut b, 32, self.name.as_slice());
        proof {
            assert(b@.subrange(4, 8) =~= spec_u32_to_le_bytes(self.parent));
            assert(b@.subrange(8, 12) =~= spec_u32_to_le_bytes(self.id));
            assert(b@.subrange(12, 14) =~= spec_u16_to_le_bytes(self.length));
            assert(b@.subrange(16, 24) =~= spec_u64_to_le_bytes(self.version));
            assert(b@.subrange(24, 28) =~= spec_u32_to_le_bytes(self.checksum));
            assert(b@.subrange(32, 64) =~= self.name@);
        }
        b
    }

    /// Strict decoding of one 64-byte record; an all-zero record is the empty
    /// slot, and every other refusal is `Corrupt`.
    pub fn decode(b: &[u8]) -> (r: Result<Self, Error>)
        ensures
            r == spec_decode_node(b@),
    {
        if b.len() != 64 {
            return Err(Error::Corrupt);
        }
        let mut a = [0u8; 64];
        put(&mut a, 0, b);
        assert(a@ =~= b@);
        if is_zero(&a, 0, 64) {
            return Ok(Node::empty());
        }
        let kind = if a[0] == 1 {
            Kind::File
        } else if a[0] == 2 {
            Kind::Directory
        } else {
            return Err(Error::Corrupt);
        };
        let length = get_u16(&a, 12);
        let name_length = a[3];
        if !(1 <= a[1] && a[1] <= 4) || a[2] > 1 || !(1 <= name_length && name_length <= 31)
            || length as usize > MAX_FILE || !is_zero(&a, 14, 16) || !is_zero(&a, 28, 32)
            || !is_zero(&a, 32 + name_length as usize, 64) {
            return Err(Error::Corrupt);
        }
        let name = slice_subrange(a.as_slice(), 32, 32 + name_length as usize);
        let id = get_u32(&a, 8);
        let parent = get_u32(&a, 4);
        let version = get_u64(&a, 16);
        let mut node = match Node::new(id, parent, a[1], kind, name, version) {
            Ok(n) => n,
            Err(_) => return Err(Error::Corrupt),
        };
        node.length = length;
        node.bank = a[2];
        node.checksum = get_u32(&a, 24);
        if node.id == 0 || node.version == 0 || (kind == Kind::Directory && (node.length != 0
            || node.checksum != 0 || node.bank != 0)) {
            return Err(Error::Corrupt);
        }
        proof {
            assert(node.name@ =~= a@.subrange(32, 64));
            lemma_array_from(node.name);
        }
        Ok(node)
    }
}

/// `b` is the 64-byte image of `n`.
pub open spec fn encodes_node(b: Seq<u8>, n: Node) -> bool {
    &&& b.len() == 64
    &&& b[0] == kind_code(n.kind)
    &&& b[1] == n.space
    &&& b[2] == n.bank
    &&& b[3] == n.name_length
    &&& b.subrange(4, 8) == spec_u32_to_le_bytes(n.parent)
    &&& b.subrange(8, 12) == spec_u32_to_le_bytes(n.id)
    &&& b.subrange(12, 14) == spec_u16_to_le_bytes(n.length)
    &&& zero_range(b, 14, 16)
    &&& b.subrange(16, 24) == spec_u64_to_le_bytes(n.version)
    &&& b.subrange(24, 28) == spec_u32_to_le_bytes(n.checksum)
    &&& zero_range(b, 28, 32)
    &&& b.subrange(32, 64) == n.name@
}

/// What a stored record decodes to.
pub open spec fn spec_decode_node(b: Seq<u8>) -> Result<Node, Error> {
    let nl = b[3] as int;
    let length = spec_u16_from_le_bytes(b.subrange(12, 14));
    let kind = if b[0] == 1 {
        Kind::File
    } else {
        Kind::Directory
    };
    let node = Node {
        id: spec_u32_from_le_bytes(b.subrange(8, 12)),
        parent: spec_u32_from_le_bytes(b.subrange(4, 8)),
        version: spec_u64_from_le_bytes(b.subrange(16, 24)),
        length,
        kind,
        space: b[1],
        bank: b[2],
        checksum: spec_u32_from_le_bytes(b.subrange(24, 28)),
        name: spec_array_from(b.subrange(32, 64)),
        name_length: b[3],
    };
    if b.len() != 64 {
        Err(Error::Corrupt)
    } else if zero_range(b, 0, 64) {
        Ok(empty_node())
    } else if (b[0] != 1 && b[0] != 2) || !(1 <= b[1] <= 4) || b[2] > 1 || !(1 <= nl <= 31)
        || length > MAX_FILE || !zero_range(b, 14, 16) || !zero_range(b, 28, 32)
        || !zero_range(b, 32 + nl, 64) || !spec_valid_name(b.subrange(32, 32 + nl))
        || node.id == 0 || node.version == 0 || (kind == Kind::Directory && (length != 0
        || node.checksum != 0 || node.bank != 0)) {
        Err(Error::Corrupt)
    } else {
        Ok(node)
    }
}

/// The 32-byte array whose view is `s`.
pub open spec fn spec_array_from(s: Seq<u8>) -> [u8; 32] {
    choose|a: [u8; 32]| a@ == s
}

/// An array is the array of its own view.
pub proof fn lemma_array_from(a: [u8; 32])
    ensures
        spec_array_from(a@) == a,
{
    broadcast use vstd::array::group_array_axioms;

    let c = spec_array_from(a@);
    assert(c@ == a@);
    assert forall|i: int| 0 <= i < 32 implies c[i] == a[i] by {
        assert(c@[i] == a@[i]);
    }
    assert(c =~= a);
}

} // verus!

verus! {

/// The naming rule spelled out: a name is valid exactly when it
/// holds 1 to 31 bytes, each an ASCII digit or letter or one of `.`, `_`
/// and `-`, and is neither `.` nor `..` (byte values: digits 48 to 57, capitals 65 to
/// 90, small letters 97 to 122, `.` 46, `_` 95, `-` 45).
pub proof fn lemma_valid_name_bytes(name: Seq<u8>)
    ensures
        spec_valid_name(name) <==> {
            &&& 1 <= name.len() <= 31
            &&& name != seq![46u8]
            &&& name != seq![46u8, 46u8]
            &&& forall|i: int| 0 <= i < name.len() ==> {
                let c = #[trigger] name[i];
                (48u8 <= c <= 57u8) || (65u8 <= c <= 90u8) || (97u8 <= c <= 122u8) || c == 46u8 || c == 95u8 || c == 45u8
            }
        },
{
}

/// Dotted file names, `notes.txt` and `readme.md`, are valid.
pub proof fn lemma_dotted_name_valid()
    ensures
        spec_valid_name(seq![110u8, 111u8, 116u8, 101u8, 115u8, 46u8, 116u8, 120u8, 116u8]),
        spec_valid_name(seq![114u8, 101u8, 97u8, 100u8, 109u8, 101u8, 46u8, 109u8, 100u8]),
{
    lemma_valid_name_bytes(seq![110u8, 111u8, 116u8, 101u8, 115u8, 46u8, 116u8, 120u8, 116u8]);
    lemma_valid_name_bytes(seq![114u8, 101u8, 97u8, 100u8, 109u8, 101u8, 46u8, 109u8, 100u8]);
}

} // verus!
