//! The two-bank (v5) metadata generation: 32 control records, a sequence, the
//! next object identity and an optional recovery area, with the rules a stored
//! generation must meet and the ordered commands that publish one.
use vstd::prelude::*;
use vstd::bytes::*;
use crate::codec::{put, slices_equal};
use crate::namespace::{Kind, Node, empty_node, encodes_node, spec_valid_name};
use crate::recovery::Recovery;
use crate::{Error, OBJECTS};

verus! {

/// One published metadata generation.
#[derive(Clone, Copy)]
pub struct Metadata {
    pub sequence: u64,
    pub next: u32,
    pub nodes: [Node; OBJECTS],
    pub recovery: Option<Recovery>,
}

/// `n` is the live record of object `id`.
pub open spec fn holds_id(n: Node, id: u32) -> bool {
    n.id == id && n.kind != Kind::Empty
}

/// The first slot at or after `from` holding object `id`.
pub open spec fn find_id(nodes: Seq<Node>, id: u32, from: int) -> Option<int>
    decreases nodes.len() - from,
{
    if from < 0 || from >= nodes.len() {
        None
    } else if holds_id(nodes[from], id) {
        Some(from)
    } else {
        find_id(nodes, id, from + 1)
    }
}

pub proof fn lemma_find_id(nodes: Seq<Node>, id: u32, from: int)
    requires
        0 <= from,
    ensures
        find_id(nodes, id, from) matches Some(i) ==> from <= i < nodes.len() && holds_id(
            nodes[i],
            id,
        ) && forall|j: int| from <= j < i ==> !holds_id(#[trigger] nodes[j], id),
        find_id(nodes, id, from) is None ==> forall|j: int|
            from <= j < nodes.len() ==> !holds_id(#[trigger] nodes[j], id),
    decreases nodes.len() - from,
{
    if from < nodes.len() && !holds_id(nodes[from], id) {
        lemma_find_id(nodes, id, from + 1);
    }
}

/// What `index` answers: the slot of the live object, or `NotFound`.
pub open spec fn spec_index(nodes: Seq<Node>, id: u32) -> Result<usize, Error> {
    match find_id(nodes, id, 0) {
        Some(i) => Ok(i as usize),
        None => Err(Error::NotFound),
    }
}

/// The name of root directory `id`: system, data, config, workspaces.
pub open spec fn root_name(id: u32) -> Seq<u8> {
    if id == 1 {
        seq![115u8, 121, 115, 116, 101, 109]
    } else if id == 2 {
        seq![100u8, 97, 116, 97]
    } else if id == 3 {
        seq![99u8, 111, 110, 102, 105, 103]
    } else {
        seq![119u8, 111, 114, 107, 115, 112, 97, 99, 101, 115]
    }
}

/// Walking up from `ancestor` reaches a root within the table's depth without
/// meeting `id` again.
pub open spec fn chain_ok(nodes: Seq<Node>, id: u32, ancestor: u32, depth: nat) -> bool
    decreases 32 - depth,
{
    if depth >= 31 || ancestor == id {
        false
    } else {
        match find_id(nodes, ancestor, 0) {
            None => false,
            Some(i) => nodes[i].parent == 0 || chain_ok(nodes, id, nodes[i].parent, depth + 1),
        }
    }
}

/// Two live records that may not coexist: the same identity, or the same name
/// under the same parent.
pub open spec fn clashes(n: Node, node: Node) -> bool {
    n.kind != Kind::Empty && (n.id == node.id || (n.parent == node.parent && n.spec_name()
        == node.spec_name()))
}

/// The parent of a non-root record is a live directory of the same space.
pub open spec fn parent_ok(nodes: Seq<Node>, node: Node) -> bool {
    match find_id(nodes, node.parent, 0) {
        None => false,
        Some(p) => nodes[p].kind == Kind::Directory && nodes[p].space == node.space,
    }
}

/// A root record is one of the four fixed directories.
pub open spec fn root_ok(node: Node) -> bool {
    &&& 1 <= node.id <= 4
    &&& node.kind == Kind::Directory
    &&& node.space == node.id
    &&& node.spec_name() == root_name(node.id)
}

/// The record in slot `index` is empty or sound.
pub open spec fn node_ok(nodes: Seq<Node>, next: u32, sequence: u64, index: int) -> bool {
    let node = nodes[index];
    node.kind == Kind::Empty || {
        &&& node.id < next
        &&& node.version <= sequence
        &&& if node.parent == 0 {
            root_ok(node)
        } else {
            parent_ok(nodes, node) && chain_ok(nodes, node.id, node.parent, 0)
        }
        &&& forall|j: int| 0 <= j < index ==> !clashes(#[trigger] nodes[j], node)
    }
}

/// Root `id` is present as a root.
pub open spec fn root_present(nodes: Seq<Node>, id: u32) -> bool {
    match find_id(nodes, id, 0) {
        None => false,
        Some(i) => nodes[i].parent == 0,
    }
}

impl Metadata {
    /// A generation a mount may accept.
    pub open spec fn valid(&self) -> bool {
        &&& self.sequence != 0
        &&& self.next >= 5
        &&& forall|i: int| 0 <= i < OBJECTS ==> #[trigger] node_ok(self.nodes@, self.next, self.sequence, i)
        &&& forall|id: u32| 1 <= id <= 4 ==> #[trigger] root_present(self.nodes@, id)
    }

    /// Every record's fields stay inside their stored widths.
    pub open spec fn inv(&self) -> bool {
        &&& forall|i: int| 0 <= i < OBJECTS ==> (#[trigger] self.nodes@[i]).name_length <= 32
            && self.nodes@[i].length <= crate::MAX_FILE && self.nodes@[i].bank <= 1
        &&& self.recovery matches Some(r) ==> r.inv()
    }

    /// The slot of live object `id`; `NotFound` if there is none.
    pub fn index(&self, id: u32) -> (r: Result<usize, Error>)
        ensures
            r == spec_index(self.nodes@, id),
            r matches Ok(i) ==> i < OBJECTS && holds_id(self.nodes@[i as int], id) && find_id(self.nodes@, id, 0) == Some(i as int),
            r is Err ==> find_id(self.nodes@, id, 0) is None,
    {
        proof {
            lemma_find_id(self.nodes@, id, 0);
        }
        let mut i: usize = 0;
        while i < OBJECTS
            invariant
                0 <= i <= OBJECTS,
                find_id(self.nodes@, id, 0) == find_id(self.nodes@, id, i as int),
            decreases OBJECTS - i,
        {
            if self.nodes[i].id == id && self.nodes[i].kind != Kind::Empty {
                return Ok(i);
            }
            i = i + 1;
        }
        Err(Error::NotFound)
    }
}

} // verus!

verus! {

/// The names of the four roots.
pub const SYSTEM: [u8; 6] = [115, 121, 115, 116, 101, 109];
pub const DATA: [u8; 4] = [100, 97, 116, 97];
pub const CONFIG: [u8; 6] = [99, 111, 110, 102, 105, 103];
pub const WORKSPACES: [u8; 10] = [119, 111, 114, 107, 115, 112, 97, 99, 101, 115];

/// The fixed name of root `id`, 1 to 4.
pub(crate) fn root_name_bytes(id: u32) -> (r: &'static [u8])
    requires
        1 <= id <= 4,
    ensures
        r@ == root_name(id),
        spec_valid_name(r@),
{
    if id == 1 {
        let r = SYSTEM.as_slice();
        assert(r@ =~= root_name(id));
        r
    } else if id == 2 {
        let r = DATA.as_slice();
        assert(r@ =~= root_name(id));
        r
    } else if id == 3 {
        let r = CONFIG.as_slice();
        assert(r@ =~= root_name(id));
        r
    } else {
        let r = WORKSPACES.as_slice();
        assert(r@ =~= root_name(id));
        r
    }
}

/// The record of root `id` in a fresh volume.
pub open spec fn is_fresh_root(n: Node, id: u32) -> bool {
    &&& n.id == id
    &&& n.parent == 0
    &&& n.space == id
    &&& n.kind == Kind::Directory
    &&& n.version == 1
    &&& n.length == 0
    &&& n.bank == 0
    &&& n.checksum == 0
    &&& n.spec_name() == root_name(id)
    &&& n.name_padded()
}

/// `b` holds the 64-byte image of each record in turn.
pub open spec fn encodes_nodes(b: Seq<u8>, nodes: Seq<Node>) -> bool {
    &&& b.len() == 2048
    &&& nodes.len() == OBJECTS
    &&& forall|i: int| 0 <= i < OBJECTS ==> #[trigger] encodes_node(b.subrange(64 * i, 64 * i + 64), nodes[i])
}

impl Metadata {
    /// The generation of a fresh volume: the four roots at sequence 1.
    pub open spec fn is_initial(&self) -> bool {
        &&& self.sequence == 1
        &&& self.next == 5
        &&& self.recovery is None
        &&& forall|i: int| 0 <= i < 4 ==> is_fresh_root(#[trigger] self.nodes@[i], (i + 1) as u32)
        &&& forall|i: int| 4 <= i < OBJECTS ==> #[trigger] self.nodes@[i] == empty_node()
    }

    /// The generation a fresh volume starts from: the four roots at sequence 1.
    pub fn initial() -> (r: Self)
        ensures
            r.is_initial(),
            r.inv(),
    {
        let e = Node::empty();
        let mut nodes = [e; OBJECTS];
        let mut i: usize = 0;
        while i < 4
            invariant
                0 <= i <= 4,
                nodes@.len() == OBJECTS,
                forall|k: int| 0 <= k < i ==> is_fresh_root(#[trigger] nodes@[k], (k + 1) as u32),
                forall|k: int| i <= k < OBJECTS ==> #[trigger] nodes@[k] == empty_node(),
            decreases 4 - i,
        {
            let id = (i + 1) as u32;
            let name = root_name_bytes(id);
            let n = match Node::new(id, 0, id as u8, Kind::Directory, name, 1) {
                Ok(n) => n,
                Err(_) => {
                    assert(false);
                    e
                },
            };
            nodes[i] = n;
            i = i + 1;
        }
        let r = Self { sequence: 1, next: 5, nodes, recovery: None };
        assert forall|k: int| 0 <= k < OBJECTS implies (#[trigger] r.nodes@[k]).name_length <= 32
            && r.nodes@[k].length <= crate::MAX_FILE && r.nodes@[k].bank <= 1 by {
            if k >= 4 {
                assert(r.nodes@[k] == empty_node());
            } else {
                assert(is_fresh_root(r.nodes@[k], (k + 1) as u32));
            }
        }
        r
    }

    /// The 2048-byte record table.
    pub fn bytes(&self) -> (r: [u8; 2048])
        ensures
            encodes_nodes(r@, self.nodes@),
    {
        let mut b = [0u8; 2048];
        let mut i: usize = 0;
        while i < OBJECTS
            invariant
                0 <= i <= OBJECTS,
                b@.len() == 2048,
                forall|k: int| 0 <= k < i ==> #[trigger] encodes_node(b@.subrange(64 * k, 64 * k + 64), self.nodes@[k]),
            decreases OBJECTS - i,
        {
            let chunk = self.nodes[i].encode();
            let ghost before = b@;
            put(&mut b, 64 * i, chunk.as_slice());
            proof {
                assert forall|k: int| 0 <= k < i + 1 implies #[trigger] encodes_node(b@.subrange(64 * k, 64 * k + 64), self.nodes@[k]) by {
                    if k < i {
                        assert(b@.subrange(64 * k, 64 * k + 64) =~= before.subrange(64 * k, 64 * k + 64));
                    } else {
                        assert(b@.subrange(64 * k, 64 * k + 64) =~= chunk@);
                    }
                }
            }
            i = i + 1;
        }
        b
    }
}

} // verus!

verus! {

impl Metadata {
    /// Whether walking up from `start` reaches a root without meeting `id`.
    fn chain_sound(&self, id: u32, start: u32) -> (r: bool)
        ensures
            r == chain_ok(self.nodes@, id, start, 0),
    {
        let mut ancestor = start;
        let mut depth: usize = 0;
        loop
            invariant
                depth <= 31,
                chain_ok(self.nodes@, id, start, 0) == chain_ok(self.nodes@, id, ancestor, depth as nat),
            decreases 32 - depth,
        {
            if ancestor == id || depth == 31 {
                return false;
            }
            match self.index(ancestor) {
                Err(_) => {
                    return false;
                },
                Ok(i) => {
                    if self.nodes[i].parent == 0 {
                        return true;
                    }
                    ancestor = self.nodes[i].parent;
                },
            }
            depth = depth + 1;
        }
    }

    /// Whether the record in slot `index` is empty or sound.
    fn node_sound(&self, index: usize) -> (r: bool)
        requires
            index < OBJECTS,
            self.inv(),
        ensures
            r == node_ok(self.nodes@, self.next, self.sequence, index as int),
    {
        let node = self.nodes[index];
        assert(node.name_length <= 32);
        if node.kind == Kind::Empty {
            return true;
        }
        if node.id >= self.next || node.version > self.sequence {
            return false;
        }
        if node.parent == 0 {
            if node.id < 1 || node.id > 4 || node.kind != Kind::Directory || node.space as u32 != node.id {
                return false;
            }
            if !slices_equal(node.name(), root_name_bytes(node.id)) {
                return false;
            }
        } else {
            match self.index(node.parent) {
                Err(_) => {
                    return false;
                },
                Ok(p) => {
                    if self.nodes[p].kind != Kind::Directory || self.nodes[p].space != node.space {
                        return false;
                    }
                },
            }
            if !self.chain_sound(node.id, node.parent) {
                return false;
            }
        }
        let mut j: usize = 0;
        while j < index
            invariant
                0 <= j <= index < OBJECTS,
                self.inv(),
                node == self.nodes@[index as int],
                node.kind != Kind::Empty,
                node.name_length <= 32,
                forall|k: int| 0 <= k < j ==> !clashes(#[trigger] self.nodes@[k], node),
            decreases index - j,
        {
            let n = self.nodes[j];
            assert(n.name_length <= 32);
            if n.kind != Kind::Empty && (n.id == node.id || (n.parent == node.parent && slices_equal(n.name(), node.name()))) {
                assert(clashes(self.nodes@[j as int], self.nodes@[index as int]));
                assert(!node_ok(self.nodes@, self.next, self.sequence, index as int));
                return false;
            }
            j = j + 1;
        }
        true
    }

    /// `Ok` exactly for a generation a mount may accept; every refusal is `Corrupt`.
    pub fn validate(&self) -> (r: Result<(), Error>)
        requires
            self.inv(),
        ensures
            r is Ok <==> self.valid(),
            r is Err ==> r == Err::<(), Error>(Error::Corrupt),
    {
        if self.sequence == 0 || self.next < 5 {
            return Err(Error::Corrupt);
        }
        let mut index: usize = 0;
        while index < OBJECTS
            invariant
                0 <= index <= OBJECTS,
                self.inv(),
                forall|k: int| 0 <= k < index ==> #[trigger] node_ok(self.nodes@, self.next, self.sequence, k),
            decreases OBJECTS - index,
        {
            if !self.node_sound(index) {
                return Err(Error::Corrupt);
            }
            index = index + 1;
        }
        let mut id: u32 = 1;
        while id <= 4
            invariant
                1 <= id <= 5,
                forall|k: u32| 1 <= k < id ==> #[trigger] root_present(self.nodes@, k),
            decreases 5 - id,
        {
            match self.index(id) {
                Err(_) => {
                    assert(!root_present(self.nodes@, id));
                    return Err(Error::Corrupt);
                },
                Ok(i) => {
                    if self.nodes[i].parent != 0 {
                        assert(!root_present(self.nodes@, id));
                        return Err(Error::Corrupt);
                    }
                    assert(root_present(self.nodes@, id));
                },
            }
            id = id + 1;
        }
        Ok(())
    }
}

} // verus!

verus! {

use crate::checksum::{crc, spec_crc};
use crate::codec::{zero_range, zeroed, get_u32, get_u64, is_zero, all_zero, copy_zeroed, matches_at, lemma_array_view_eq};
use crate::namespace::spec_decode_node;
use crate::recovery::{spec_decode_recovery, RECOVERY_BYTES};

/// The magic of a two-bank header.
pub const MAGIC5: [u8; 8] = [82, 85, 83, 84, 70, 83, 49, 0];

/// The record each 64-byte chunk of a table decodes to.
pub open spec fn table_chunk(nb: Seq<u8>, i: int) -> Seq<u8> {
    nb.subrange(64 * i, 64 * i + 64)
}

/// Every chunk of a record table decodes.
pub open spec fn table_decodes(nb: Seq<u8>) -> bool {
    forall|i: int| 0 <= i < OBJECTS ==> #[trigger] spec_decode_node(table_chunk(nb, i)) is Ok
}

/// The records a decodable table holds.
pub open spec fn table_nodes(nb: Seq<u8>) -> Seq<Node> {
    Seq::new(OBJECTS as nat, |i: int| spec_decode_node(table_chunk(nb, i)).unwrap())
}

/// The array whose view is `s`.
pub open spec fn node_array(s: Seq<Node>) -> [Node; OBJECTS] {
    choose|a: [Node; OBJECTS]| #![trigger a@] a@ == s
}

/// The feature level a header names: 1 without recovery, then 2 to 5 for
/// recovery, scoped operations, admissions and prevention causes.
pub open spec fn header_version(m: Metadata) -> u8 {
    match m.recovery {
        None => 1u8,
        Some(r) => if r.reasons {
            5u8
        } else if r.admissions {
            4u8
        } else if r.scoped {
            3u8
        } else {
            2u8
        },
    }
}

/// The header's own fields and both checksums it carries over itself and the table hold.
pub open spec fn header_sound(h: Seq<u8>, nb: Seq<u8>) -> bool {
    let version = h[8];
    !(h.subrange(0, 8) != MAGIC5@ || !(1 <= version <= 5) || h[9] != 0 || h[10] != 0
        || h[11] != 2 || !zero_range(h, 36, 512) || (version == 1 && !zero_range(h, 32, 36))
        || spec_u32_from_le_bytes(h.subrange(28, 32)) != spec_crc(zeroed(h, 28, 32))
        || spec_crc(nb) != spec_u32_from_le_bytes(h.subrange(24, 28)))
}

/// What a header sector, a record table and a recovery area decode to.
pub open spec fn spec_decode_generation(h: Seq<u8>, nb: Seq<u8>, rb: Seq<u8>) -> Result<Metadata, Error> {
    let version = h[8];
    let sequence = spec_u64_from_le_bytes(h.subrange(12, 20));
    let next = spec_u32_from_le_bytes(h.subrange(20, 24));
    let recovery = spec_decode_recovery(rb, sequence, next, version);
    if zero_range(h, 0, 512) {
        Err(Error::Empty)
    } else if !header_sound(h, nb) || !table_decodes(nb) {
        Err(Error::Corrupt)
    } else if version >= 2 && (spec_crc(rb) != spec_u32_from_le_bytes(h.subrange(32, 36))
        || recovery is Err) {
        Err(Error::Corrupt)
    } else {
        let m = Metadata {
            sequence,
            next,
            nodes: node_array(table_nodes(nb)),
            recovery: if version >= 2 {
                Some(recovery.unwrap())
            } else {
                None
            },
        };
        if m.valid() {
            Ok(m)
        } else {
            Err(Error::Corrupt)
        }
    }
}

impl Metadata {
    /// Strictly decode a generation from its header sector, record table and
    /// recovery area (read only when the header names one). An all-zero header
    /// is `Empty`; every other refusal is `Corrupt`.
    pub fn decode(h: &[u8; 512], nb: &[u8; 2048], rb: &[u8; RECOVERY_BYTES]) -> (r: Result<Self, Error>)
        ensures
            r == spec_decode_generation(h@, nb@, rb@),
            r matches Ok(m) ==> m.inv(),
    {
        if all_zero(h) {
            return Err(Error::Empty);
        }
        let version = h[8];
        if !matches_at(h, 0, MAGIC5.as_slice()) || version < 1 || version > 5 || h[9] != 0 || h[10] != 0
            || h[11] != 2 || !is_zero(h, 36, 512) || (version == 1 && !is_zero(h, 32, 36)) {
            return Err(Error::Corrupt);
        }
        let body = copy_zeroed(h, 28, 32);
        if get_u32(h, 28) != crc(body.as_slice()) || crc(nb.as_slice()) != get_u32(h, 24) {
            return Err(Error::Corrupt);
        }
        assert(header_sound(h@, nb@));
        let e = Node::empty();
        let mut nodes = [e; OBJECTS];
        let mut i: usize = 0;
        while i < OBJECTS
            invariant
                0 <= i <= OBJECTS,
                header_sound(h@, nb@),
                !zero_range(h@, 0, 512),
                nodes@.len() == OBJECTS,
                forall|k: int| 0 <= k < i ==> #[trigger] spec_decode_node(table_chunk(nb@, k)) == Ok::<Node, Error>(nodes@[k]),
            decreases OBJECTS - i,
        {
            let chunk = vstd::slice::slice_subrange(nb.as_slice(), 64 * i, 64 * i + 64);
            assert(chunk@ == table_chunk(nb@, i as int));
            match Node::decode(chunk) {
                Ok(n) => {
                    nodes[i] = n;
                },
                Err(_) => {
                    assert(!table_decodes(nb@));
                    return Err(Error::Corrupt);
                },
            }
            i = i + 1;
        }
        assert(table_decodes(nb@));
        assert(nodes@ =~= table_nodes(nb@));
        proof {
            lemma_array_view_eq(nodes, node_array(table_nodes(nb@)));
        }
        let sequence = get_u64(h, 12);
        let next = get_u32(h, 20);
        let recovery = if version >= 2 {
            if crc(rb.as_slice()) != get_u32(h, 32) {
                return Err(Error::Corrupt);
            }
            match Recovery::decode(rb, sequence, next, version) {
                Ok(r) => Some(r),
                Err(_) => {
                    return Err(Error::Corrupt);
                },
            }
        } else {
            None
        };
        let m = Self { sequence, next, nodes, recovery };
        proof {
            assert forall|k: int| 0 <= k < OBJECTS implies (#[trigger] m.nodes@[k]).name_length <= 32
                && m.nodes@[k].length <= crate::MAX_FILE && m.nodes@[k].bank <= 1 by {
                assert(spec_decode_node(table_chunk(nb@, k)) == Ok::<Node, Error>(nodes@[k]));
            }
        }
        m.validate()?;
        Ok(m)
    }
}

} // verus!

verus! {

use crate::recovery::{encodes_recovery, slot_holds, encodes_record, Record};
use crate::storage::Disk;
use crate::codec::{put_u16, put_u32, put_u64, take_array, lemma_le16};

/// Two images agree on `[a, c)` when they agree there as ranges.
pub proof fn lemma_agree(b1: Seq<u8>, b2: Seq<u8>, a: int, c: int)
    requires
        0 <= a <= c <= b1.len(),
        c <= b2.len(),
        b1.subrange(a, c) == b2.subrange(a, c),
    ensures
        forall|i: int| a <= i < c ==> b1[i] == b2[i],
{
    assert forall|i: int| a <= i < c implies b1[i] == b2[i] by {
        assert(b1.subrange(a, c)[i - a] == b1[i]);
        assert(b2.subrange(a, c)[i - a] == b2[i]);
    }
}

/// A record has one image.
pub proof fn lemma_node_image_unique(b1: Seq<u8>, b2: Seq<u8>, n: Node)
    requires
        encodes_node(b1, n),
        encodes_node(b2, n),
    ensures
        b1 == b2,
{
    lemma_agree(b1, b2, 4, 8);
    lemma_agree(b1, b2, 8, 12);
    lemma_agree(b1, b2, 12, 14);
    lemma_agree(b1, b2, 16, 24);
    lemma_agree(b1, b2, 24, 28);
    lemma_agree(b1, b2, 32, 64);
    assert(b1 =~= b2);
}

/// A record table has one image.
pub proof fn lemma_nodes_image_unique(b1: Seq<u8>, b2: Seq<u8>, ns: Seq<Node>)
    requires
        encodes_nodes(b1, ns),
        encodes_nodes(b2, ns),
    ensures
        b1 == b2,
{
    assert forall|i: int| 0 <= i < 2048 implies b1[i] == b2[i] by {
        let k = i / 64;
        assert(0 <= k < OBJECTS);
        assert(encodes_node(b1.subrange(64 * k, 64 * k + 64), ns[k]));
        assert(encodes_node(b2.subrange(64 * k, 64 * k + 64), ns[k]));
        lemma_node_image_unique(b1.subrange(64 * k, 64 * k + 64), b2.subrange(64 * k, 64 * k + 64), ns[k]);
        lemma_agree(b1, b2, 64 * k, 64 * k + 64);
    }
    assert(b1 =~= b2);
}

/// A retained record has one image.
pub proof fn lemma_record_image_unique(p1: Seq<u8>, p2: Seq<u8>, r: Record)
    requires
        encodes_record(p1, r),
        encodes_record(p2, r),
    ensures
        p1 == p2,
{
    lemma_agree(p1, p2, 0, 8);
    lemma_agree(p1, p2, 8, 16);
    lemma_agree(p1, p2, 16, 24);
    lemma_agree(p1, p2, 24, 28);
    lemma_agree(p1, p2, 28, 30);
    lemma_agree(p1, p2, 32, 40);
    lemma_agree(p1, p2, 40, 48);
    if r.namespace is Some {
        lemma_agree(p1, p2, 48, 52);
        lemma_agree(p1, p2, 56, 64);
    }
    if r.admission is Some {
        lemma_agree(p1, p2, 64, 72);
        lemma_agree(p1, p2, 72, 80);
    }
    lemma_agree(p1, p2, 512, 1536);
    assert(p1 =~= p2);
}

proof fn lemma_slot_agree(b1: Seq<u8>, b2: Seq<u8>, v: Recovery, k: int)
    requires
        encodes_recovery(b1, v),
        encodes_recovery(b2, v),
        0 <= k < 2,
    ensures
        b1.subrange(512 + 1536 * k, 2048 + 1536 * k) == b2.subrange(512 + 1536 * k, 2048 + 1536 * k),
{
    let p1 = b1.subrange(512 + 1536 * k, 2048 + 1536 * k);
    let p2 = b2.subrange(512 + 1536 * k, 2048 + 1536 * k);
    assert(slot_holds(p1, v.records@[k]));
    assert(slot_holds(p2, v.records@[k]));
    match v.records@[k] {
        Some(r) => {
            lemma_record_image_unique(p1, p2, r);
        },
        None => {
            assert(p1 =~= p2);
        },
    }
}

/// A recovery area has one image.
pub proof fn lemma_recovery_image_unique(b1: Seq<u8>, b2: Seq<u8>, v: Recovery)
    requires
        encodes_recovery(b1, v),
        encodes_recovery(b2, v),
    ensures
        b1 == b2,
{
    lemma_agree(b1, b2, 0, 8);
    lemma_agree(b1, b2, 8, 24);
    lemma_agree(b1, b2, 24, 32);
    lemma_slot_agree(b1, b2, v, 0);
    lemma_slot_agree(b1, b2, v, 1);
    assert forall|i: int| 512 <= i < 3584 implies b1[i] == b2[i] by {
        let k: int = if i < 2048 { 0 } else { 1 };
        lemma_agree(b1, b2, 512 + 1536 * k, 2048 + 1536 * k);
    }
    assert(b1 =~= b2);
}

/// The image of a record table.
pub open spec fn nodes_image(ns: Seq<Node>) -> Seq<u8> {
    choose|b: Seq<u8>| encodes_nodes(b, ns)
}

/// The image of a recovery area.
pub open spec fn recovery_image(v: Recovery) -> Seq<u8> {
    choose|b: Seq<u8>| encodes_recovery(b, v)
}

pub proof fn lemma_nodes_image(b: Seq<u8>, ns: Seq<Node>)
    requires
        encodes_nodes(b, ns),
    ensures
        nodes_image(ns) == b,
{
    lemma_nodes_image_unique(nodes_image(ns), b, ns);
}

pub proof fn lemma_recovery_image(b: Seq<u8>, v: Recovery)
    requires
        encodes_recovery(b, v),
    ensures
        recovery_image(v) == b,
{
    lemma_recovery_image_unique(recovery_image(v), b, v);
}

/// The checksum a header carries for the recovery area; zero without one.
pub open spec fn recovery_crc(m: Metadata) -> u32 {
    match m.recovery {
        None => 0u32,
        Some(v) => spec_crc(recovery_image(v)),
    }
}

/// `h` is the publication header of `m`.
pub open spec fn encodes_header(h: Seq<u8>, m: Metadata) -> bool {
    &&& h.len() == 512
    &&& h.subrange(0, 8) == MAGIC5@
    &&& h[8] == header_version(m)
    &&& h[9] == 0
    &&& h[10] == 0
    &&& h[11] == 2
    &&& h.subrange(12, 20) == spec_u64_to_le_bytes(m.sequence)
    &&& h.subrange(20, 24) == spec_u32_to_le_bytes(m.next)
    &&& h.subrange(24, 28) == spec_u32_to_le_bytes(spec_crc(nodes_image(m.nodes@)))
    &&& h.subrange(28, 32) == spec_u32_to_le_bytes(spec_crc(zeroed(h, 28, 32)))
    &&& h.subrange(32, 36) == spec_u32_to_le_bytes(recovery_crc(m))
    &&& zero_range(h, 36, 512)
}

/// The publication header of `m`.
pub open spec fn header_image(m: Metadata) -> Seq<u8> {
    choose|h: Seq<u8>| encodes_header(h, m)
}

pub proof fn lemma_header_image_unique(h1: Seq<u8>, h2: Seq<u8>, m: Metadata)
    requires
        encodes_header(h1, m),
        encodes_header(h2, m),
    ensures
        h1 == h2,
{
    lemma_agree(h1, h2, 0, 8);
    lemma_agree(h1, h2, 12, 20);
    lemma_agree(h1, h2, 20, 24);
    lemma_agree(h1, h2, 24, 28);
    lemma_agree(h1, h2, 32, 36);
    assert(zeroed(h1, 28, 32) =~= zeroed(h2, 28, 32));
    lemma_agree(h1, h2, 28, 32);
    assert(h1 =~= h2);
}

/// First sector of a bank's header and record table.
pub open spec fn spec_header_sector(bank: u8) -> u64 {
    (8 + bank * 5) as u64
}

/// First sector of a bank's recovery area.
pub open spec fn spec_recovery_sector(bank: u8) -> u64 {
    (160 + bank * 7) as u64
}

/// First sector of a slot's data in a bank.
pub open spec fn spec_data_sector(slot: int, bank: u8) -> u64 {
    (32 + slot * 4 + bank * 2) as u64
}

pub fn header_sector(bank: u8) -> (r: u64)
    ensures
        r == spec_header_sector(bank),
{
    8 + bank as u64 * 5
}

pub fn data_sector(slot: usize, bank: u8) -> (r: u64)
    requires
        slot < OBJECTS,
    ensures
        r == spec_data_sector(slot as int, bank),
{
    32 + slot as u64 * 4 + bank as u64 * 2
}

/// One settled device command of a publication.
pub enum Command {
    Write(u64, [u8; 512]),
    Flush,
}

/// What a command leaves on a device whose contents were `c`.
pub open spec fn effect(c: Map<u64, Seq<u8>>, e: Option<(u64, Seq<u8>)>) -> Map<u64, Seq<u8>> {
    match e {
        Some((s, b)) => c.insert(s, b),
        None => c,
    }
}

/// What a command writes: a sector and its bytes, or nothing for a flush.
pub open spec fn command_effect(cmd: Command) -> Option<(u64, Seq<u8>)> {
    match cmd {
        Command::Write(s, b) => Some((s, b@)),
        Command::Flush => None,
    }
}

impl Command {
    /// Submit the command and wait for it to settle.
    pub fn execute<D: Disk>(&self, disk: &mut D) -> (r: Result<(), Error>)
        ensures
            r is Ok ==> final(disk).contents() == effect(old(disk).contents(), command_effect(*self)),
            final(disk).dependable() == old(disk).dependable(),
            old(disk).dependable() && (command_effect(*self) matches Some(w) ==> old(disk).contents().dom().contains(w.0)) ==> r is Ok,
    {
        match self {
            Command::Write(sector, bytes) => disk.write(*sector, bytes),
            Command::Flush => disk.flush(),
        }
    }
}

/// Commands a generation's publication takes: the recovery area, the record
/// table, a flush, the header, a flush.
pub open spec fn spec_write_steps(m: Metadata) -> nat {
    if m.recovery is Some {
        14
    } else {
        7
    }
}

/// The command at `step` of publishing `m` to `bank`.
pub open spec fn step_effect(m: Metadata, bank: u8, step: int) -> Option<(u64, Seq<u8>)> {
    let records: int = if m.recovery is Some { 7 } else { 0 };
    if step < records {
        Some(((spec_recovery_sector(bank) + step) as u64, recovery_image(m.recovery.unwrap()).subrange(512 * step, 512 * step + 512)))
    } else if step - records < 4 {
        let k = step - records;
        Some(((spec_header_sector(bank) + 1 + k) as u64, nodes_image(m.nodes@).subrange(512 * k, 512 * k + 512)))
    } else if step - records == 5 {
        Some((spec_header_sector(bank), header_image(m)))
    } else {
        None
    }
}

/// Every sector publishing `m` to `bank` writes is one the device holds.
pub open spec fn steps_present(c: Map<u64, Seq<u8>>, m: Metadata, bank: u8) -> bool {
    forall|step: int| 0 <= step < spec_write_steps(m) ==> (#[trigger] step_effect(m, bank, step) matches Some(w) ==> c.dom().contains(w.0))
}

/// The device holds every sector of the layout.
pub open spec fn disk_present5(c: Map<u64, Seq<u8>>) -> bool {
    forall|s: u64| s < crate::SECTORS ==> #[trigger] c.dom().contains(s)
}

/// Every sector a publication writes lies in the layout.
pub proof fn lemma_steps_inside(c: Map<u64, Seq<u8>>, m: Metadata, bank: u8)
    requires
        disk_present5(c),
        bank <= 1,
    ensures
        steps_present(c, m, bank),
{
    assert forall|step: int| 0 <= step < spec_write_steps(m) implies (#[trigger] step_effect(m, bank, step) matches Some(w) ==> c.dom().contains(w.0)) by {
        match step_effect(m, bank, step) {
            Some(w) => {
                assert(w.0 < crate::SECTORS);
            },
            None => {},
        }
    }
}

/// The device after the first `n` commands of publishing `m` to `bank`.
pub open spec fn apply_steps(c: Map<u64, Seq<u8>>, m: Metadata, bank: u8, n: nat) -> Map<u64, Seq<u8>>
    decreases n,
{
    if n == 0 {
        c
    } else {
        effect(apply_steps(c, m, bank, (n - 1) as nat), step_effect(m, bank, n - 1))
    }
}

impl Metadata {
    /// The publication header of this generation.
    pub fn publication_header(&self) -> (r: [u8; 512])
        ensures
            r@ == header_image(*self),
    {
        let mut b = [0u8; 512];
        put(&mut b, 0, MAGIC5.as_slice());
        let version: u8 = match &self.recovery {
            None => 1,
            Some(r) => if r.reasons {
                5
            } else if r.admissions {
                4
            } else if r.scoped {
                3
            } else {
                2
            },
        };
        b[8] = version;
        b[11] = 2;
        put_u64(&mut b, 12, self.sequence);
        put_u32(&mut b, 20, self.next);
        let table = self.bytes();
        proof {
            lemma_nodes_image(table@, self.nodes@);
        }
        put_u32(&mut b, 24, crc(table.as_slice()));
        let rc = match &self.recovery {
            None => 0,
            Some(r) => {
                let image = r.encode();
                proof {
                    lemma_recovery_image(image@, *r);
                }
                crc(image.as_slice())
            },
        };
        put_u32(&mut b, 32, rc);
        let ghost before = b@;
        let hash = crc(b.as_slice());
        put_u32(&mut b, 28, hash);
        proof {
            assert(b@.subrange(0, 8) =~= MAGIC5@);
            assert(b@.subrange(12, 20) =~= spec_u64_to_le_bytes(self.sequence));
            assert(b@.subrange(20, 24) =~= spec_u32_to_le_bytes(self.next));
            assert(b@.subrange(24, 28) =~= spec_u32_to_le_bytes(spec_crc(nodes_image(self.nodes@))));
            assert(b@.subrange(32, 36) =~= spec_u32_to_le_bytes(recovery_crc(*self)));
            assert(zeroed(b@, 28, 32) =~= before);
            assert(b@.subrange(28, 32) =~= spec_u32_to_le_bytes(spec_crc(zeroed(b@, 28, 32))));
            assert(encodes_header(b@, *self));
            lemma_header_image_unique(header_image(*self), b@, *self);
        }
        b
    }
}

} // verus!

verus! {

/// The bytes sectors `start..start + n` hold, in order.
pub open spec fn sectors_from(c: Map<u64, Seq<u8>>, start: u64, n: nat) -> Seq<u8>
    decreases n,
{
    if n == 0 {
        Seq::empty()
    } else {
        sectors_from(c, start, (n - 1) as nat) + c[(start + n - 1) as u64]
    }
}

/// Sectors `start..start + n` exist and hold a full sector each.
pub open spec fn sectors_present(c: Map<u64, Seq<u8>>, start: u64, n: nat) -> bool {
    forall|k: int| 0 <= k < n ==> c.dom().contains(#[trigger] ((start + k) as u64)) && c[(start + k) as u64].len() == 512
}

/// The recovery area a header's version tells a reader to load.
pub open spec fn recovery_read(c: Map<u64, Seq<u8>>, bank: u8) -> Seq<u8> {
    let h = c[spec_header_sector(bank)];
    if 2 <= h[8] <= 5 {
        sectors_from(c, spec_recovery_sector(bank), 7)
    } else {
        Seq::new(3584, |i: int| 0u8)
    }
}

/// Every sector a read of `bank` loads is present.
pub open spec fn generation_present(c: Map<u64, Seq<u8>>, bank: u8) -> bool {
    &&& sectors_present(c, spec_header_sector(bank), 5)
    &&& (2 <= c[spec_header_sector(bank)][8] <= 5 ==> sectors_present(c, spec_recovery_sector(bank), 7))
}

/// What the generation stored in `bank` decodes to.
pub open spec fn generation_at(c: Map<u64, Seq<u8>>, bank: u8) -> Result<Metadata, Error> {
    spec_decode_generation(
        c[spec_header_sector(bank)],
        sectors_from(c, (spec_header_sector(bank) + 1) as u64, 4),
        recovery_read(c, bank),
    )
}

/// Read `n` consecutive sectors into `b`; disk errors pass through.
pub fn read_sectors<D: Disk, const N: usize>(disk: &mut D, start: u64, n: usize, b: &mut [u8; N]) -> (r: Result<(), Error>)
    requires
        512 * n == N,
        start + n <= u64::MAX,
    ensures
        final(disk).contents() == old(disk).contents(),
        r is Ok ==> sectors_present(old(disk).contents(), start, n as nat) && final(b)@ == sectors_from(old(disk).contents(), start, n as nat),
        old(disk).dependable() && sectors_present(old(disk).contents(), start, n as nat) ==> r is Ok,
        final(disk).dependable() == old(disk).dependable(),
{
    let ghost c = disk.contents();
    let mut i: usize = 0;
    while i < n
        invariant
            512 * n == N,
            start + n <= u64::MAX,
            0 <= i <= n,
            disk.dependable() == old(disk).dependable(),
            disk.contents() == c,
            c == old(disk).contents(),
            b@.len() == N,
            sectors_present(c, start, i as nat),
            b@.subrange(0, 512 * i) == sectors_from(c, start, i as nat),
        decreases n - i,
    {
        let mut s = [0u8; 512];
        proof {
            if sectors_present(c, start, n as nat) {
                assert(c.dom().contains(((start + i as int) as u64)));
            }
        }
        disk.read(start + i as u64, &mut s)?;
        let ghost before = b@;
        put(b, 512 * i, s.as_slice());
        proof {
            assert(b@.subrange(0, 512 * i) =~= before.subrange(0, 512 * i));
            assert(b@.subrange(0, 512 * (i + 1)) =~= sectors_from(c, start, i as nat) + s@);
            assert(sectors_from(c, start, (i + 1) as nat) == sectors_from(c, start, i as nat) + c[(start + i) as u64]);
            assert forall|k: int| 0 <= k < i + 1 implies c.dom().contains(#[trigger] ((start + k) as u64)) && c[(start + k) as u64].len() == 512 by {
                if k < i {
                    assert(c.dom().contains((start + k) as u64));
                }
            }
        }
        i = i + 1;
    }
    assert(b@.subrange(0, 512 * n) =~= b@);
    Ok(())
}

impl Metadata {
    /// Commands publishing this generation takes.
    pub fn write_steps(&self) -> (r: usize)
        ensures
            r == spec_write_steps(*self),
    {
        if self.recovery.is_some() {
            14
        } else {
            7
        }
    }

    /// The command at `step` of publishing this generation to `bank`; past the
    /// last step, `Invalid`.
    pub fn command(&self, bank: u8, step: usize) -> (r: Result<Command, Error>)
        ensures
            step < spec_write_steps(*self) ==> (r matches Ok(c) && command_effect(c) == step_effect(*self, bank, step as int)),
            step >= spec_write_steps(*self) ==> r == Err::<Command, Error>(Error::Invalid),
    {
        let records: usize = if self.recovery.is_some() { 7 } else { 0 };
        if step < records {
            let image = match &self.recovery {
                Some(v) => {
                    let image = v.encode();
                    proof {
                        lemma_recovery_image(image@, *v);
                    }
                    image
                },
                None => {
                    return Err(Error::Invalid);
                },
            };
            let chunk: [u8; 512] = take_array(&image, 512 * step);
            return Ok(Command::Write(160 + bank as u64 * 7 + step as u64, chunk));
        }
        let k = step - records;
        if k < 4 {
            let table = self.bytes();
            proof {
                lemma_nodes_image(table@, self.nodes@);
            }
            let chunk: [u8; 512] = take_array(&table, 512 * k);
            Ok(Command::Write(header_sector(bank) + 1 + k as u64, chunk))
        } else if k == 4 || k == 6 {
            Ok(Command::Flush)
        } else if k == 5 {
            Ok(Command::Write(header_sector(bank), self.publication_header()))
        } else {
            Err(Error::Invalid)
        }
    }

    /// Publish this generation to `bank`: the recovery area and record table,
    /// a flush, the header, a flush. Each successful step settles one command;
    /// a failure may leave any prefix of them behind.
    pub fn write<D: Disk>(&self, disk: &mut D, bank: u8) -> (r: Result<(), Error>)
        ensures
            r is Ok ==> final(disk).contents() == apply_steps(old(disk).contents(), *self, bank, spec_write_steps(*self)),
            old(disk).dependable() && steps_present(old(disk).contents(), *self, bank) ==> r is Ok,
            final(disk).dependable() == old(disk).dependable(),
    {
        let ghost c = disk.contents();
        let steps = self.write_steps();
        let mut step: usize = 0;
        while step < steps
            invariant
                steps == spec_write_steps(*self),
                0 <= step <= steps,
                disk.contents() == apply_steps(c, *self, bank, step as nat),
                disk.dependable() == old(disk).dependable(),
                c == old(disk).contents(),
                forall|s: u64| #[trigger] c.dom().contains(s) ==> disk.contents().dom().contains(s),
            decreases steps - step,
        {
            let cmd = self.command(bank, step)?;
            let ghost before = disk.contents();
            proof {
                if steps_present(c, *self, bank) {
                    assert(step_effect(*self, bank, step as int) matches Some(w) ==> c.dom().contains(w.0));
                    match command_effect(cmd) {
                        Some(w) => {
                            assert(c.dom().contains(w.0));
                            assert(before.dom().contains(w.0));
                        },
                        None => {},
                    }
                }
            }
            cmd.execute(disk)?;
            proof {
                assert forall|s: u64| #[trigger] c.dom().contains(s) implies disk.contents().dom().contains(s) by {
                    assert(before.dom().contains(s));
                }
            }
            step = step + 1;
        }
        Ok(())
    }

    /// Load and decode the generation in `bank`. Disk errors pass through;
    /// a decoded generation is exactly what the stored sectors hold.
    pub fn read<D: Disk>(disk: &mut D, bank: u8) -> (r: Result<Self, Error>)
        requires
            bank <= 1,
        ensures
            final(disk).contents() == old(disk).contents(),
            r matches Ok(m) ==> generation_present(old(disk).contents(), bank) && generation_at(old(disk).contents(), bank) == Ok::<Metadata, Error>(m) && m.inv(),
            generation_present(old(disk).contents(), bank) && generation_at(old(disk).contents(), bank) is Err ==> r is Err,
            old(disk).dependable() && generation_present(old(disk).contents(), bank) ==> r == generation_at(old(disk).contents(), bank),
            final(disk).dependable() == old(disk).dependable(),
    {
        let ghost c = disk.contents();
        let mut h = [0u8; 512];
        let first = header_sector(bank);
        proof {
            if generation_present(c, bank) {
                assert(c.dom().contains(((first + 0int) as u64)));
                assert forall|k: int| 0 <= k < 4 implies c.dom().contains(#[trigger] ((first + 1 + k) as u64)) && c[((first + 1 + k) as u64)].len() == 512 by {
                    assert(c.dom().contains(((first + (k + 1)) as u64)));
                }
            }
        }
        let got = disk.read(first, &mut h);
        if got.is_err() {
            return Err(got.unwrap_err());
        }
        if all_zero(&h) {
            return Err(Error::Empty);
        }
        let mut nb = [0u8; 2048];
        read_sectors(disk, first + 1, 4, &mut nb)?;
        let mut rb = [0u8; RECOVERY_BYTES];
        if h[8] >= 2 && h[8] <= 5 {
            proof {
                if generation_present(c, bank) {
                    assert(h@ == c[spec_header_sector(bank)]);
                    assert(sectors_present(c, spec_recovery_sector(bank), 7));
                }
            }
            read_sectors(disk, 160 + bank as u64 * 7, 7, &mut rb)?;
        } else {
            assert(rb@ =~= Seq::new(3584, |i: int| 0u8));
        }
        proof {
            assert(sectors_present(c, first, 5)) by {
                assert forall|k: int| 0 <= k < 5 implies c.dom().contains(#[trigger] ((first + k) as u64)) && c[(first + k) as u64].len() == 512 by {
                    if k >= 1 {
                        assert(((first + 1) + (k - 1)) as u64 == (first + k) as u64);
                    }
                }
            }
        }
        Self::decode(&h, &nb, &rb)
    }
}

} // verus!
