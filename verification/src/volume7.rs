//! The in-place owner of a v7 volume: provisioning, mounting, namespace
//! queries, bounded payload reads and copy-on-write namespace mutations.
//!
//! Mount verifies both header copies, the aggregate checksums, the decoded
//! generation and every live or retained payload checksum. Accessors answer
//! `Uncertain` while the owner is fenced: before a successful provision or
//! mount, and after any failure that may have left the medium ahead of the
//! decoded state.
use vstd::prelude::*;
use crate::extent::{MAP_WORDS, DATA_SECTORS};
use crate::format7::{Header7, NODES, Node7, RETAINED, Record7};
use crate::format7::node::empty_node7;
use crate::namespace::Kind;
use crate::Error;
use crate::volume7::stage::{StageSlot, STAGES, slot_wf};

pub mod payload;
pub mod namespace;
pub mod read;
pub mod mount;
pub mod publication;
pub mod provision;
pub mod replacement;
pub mod maintenance;
pub mod stage;
pub mod upgrade;
pub mod poll;
pub mod admission;

verus! {

/// Scoped retry identity for one direct file replacement. The service owns the
/// meaning of these identifiers; the volume persists them and enforces their
/// nonzero and version-domain constraints.
#[derive(Clone, Copy, Debug, PartialEq, Eq, Structural)]
pub struct WriteIdentity7 {
    pub subject: u64,
    pub workspace: u32,
    pub object: u32,
    pub instance: u64,
    pub retry_epoch: u64,
    pub retry_key: u64,
}

/// A v7 volume owner: the selected header, the node table, the retained
/// records, the allocation map (a set bit is allocated) and a validator
/// workspace of the same size.
pub struct Volume7 {
    pub header: Header7,
    pub nodes: [Node7; NODES],
    pub records: [Option<Record7>; RETAINED],
    pub map: Vec<u64>,
    pub validation: Vec<u64>,
    pub recovered_from_header: bool,
    /// Set while the decoded state may not describe the medium.
    pub fenced: bool,
    /// Open streamed stages and their reservations.
    pub stages: [Option<StageSlot>; STAGES],
    /// This owner's identity in stage tokens; zero until it opens one.
    pub stage_owner: u64,
    /// The nonce of the last stage opened.
    pub stage_nonce: u64,
}

/// `n` is the live record of object `id`.
pub open spec fn live7(n: Node7, id: u32) -> bool {
    n.kind != Kind::Empty && n.id == id
}

/// The first slot at or after `from` that holds object `id`.
pub open spec fn find7(nodes: Seq<Node7>, id: u32, from: int) -> Option<int>
    decreases nodes.len() - from,
{
    if from < 0 || from >= nodes.len() {
        None
    } else if live7(nodes[from], id) {
        Some(from)
    } else {
        find7(nodes, id, from + 1)
    }
}

pub proof fn lemma_find7(nodes: Seq<Node7>, id: u32, from: int)
    requires
        0 <= from,
    ensures
        find7(nodes, id, from) matches Some(i) ==> from <= i < nodes.len() && live7(nodes[i], id)
            && forall|j: int| from <= j < i ==> !live7(#[trigger] nodes[j], id),
        find7(nodes, id, from) is None ==> forall|j: int| from <= j < nodes.len() ==> !live7(#[trigger] nodes[j], id),
    decreases nodes.len() - from,
{
    if from < nodes.len() && !live7(nodes[from], id) {
        lemma_find7(nodes, id, from + 1);
    }
}

/// The record of object `id`, if one is live.
pub open spec fn record_of7(nodes: Seq<Node7>, id: u32) -> Option<Node7> {
    match find7(nodes, id, 0) {
        Some(i) => Some(nodes[i]),
        None => None,
    }
}

/// Whether set bit `s` of the map marks an allocated sector.
pub open spec fn allocated7(words: Seq<u64>, s: int) -> bool {
    crate::extent::bit(words, s)
}

impl Volume7 {
    /// The map and the validator workspace cover the payload region, and every
    /// name and run list fits its field.
    pub open spec fn wf(&self) -> bool {
        &&& self.map@.len() == MAP_WORDS
        &&& self.validation@.len() == MAP_WORDS
        &&& forall|i: int| 0 <= i < NODES ==> (#[trigger] self.nodes@[i]).name_length <= 32 && self.nodes@[i].extents_used <= 8
        &&& forall|k: int| 0 <= k < RETAINED ==> (#[trigger] self.records@[k] matches Some(r) ==> r.extents_used <= 8)
        &&& forall|k: int| 0 <= k < STAGES ==> (#[trigger] self.stages@[k] matches Some(s) ==> slot_wf(s))
    }

    /// Empty fenced storage for in-place provisioning or mounting.
    pub fn empty() -> (r: Self)
        ensures
            r.wf(),
            r.fenced,
            !r.recovered_from_header,
            r.header == Header7::spec_initial(r.header.lineage),
            r.header.lineage@ == Seq::new(16, |i: int| 0u8),
            forall|i: int| 0 <= i < NODES ==> #[trigger] r.nodes@[i] == empty_node7(),
            forall|i: int| 0 <= i < RETAINED ==> #[trigger] r.records@[i] is None,
            r.map@ == Seq::new(MAP_WORDS as nat, |i: int| 0u64),
            r.validation@ == Seq::new(MAP_WORDS as nat, |i: int| 0u64),
            forall|k: int| 0 <= k < STAGES ==> #[trigger] r.stages@[k] is None,
    {
        let e = Node7::empty();
        let lineage = [0u8; 16];
        assert(lineage@ =~= Seq::new(16, |i: int| 0u8));
        Volume7 {
            header: Header7::initial(lineage),
            nodes: [e; NODES],
            records: [None; RETAINED],
            map: zero_words(),
            validation: zero_words(),
            recovered_from_header: false,
            fenced: true,
            stages: [None; STAGES],
            stage_owner: 0,
            stage_nonce: 0,
        }
    }

    /// `Uncertain` while fenced.
    pub fn ready(&self) -> (r: Result<(), Error>)
        ensures
            r is Ok <==> !self.fenced,
            r is Err ==> r == Err::<(), Error>(Error::Uncertain),
    {
        if self.fenced {
            Err(Error::Uncertain)
        } else {
            Ok(())
        }
    }

    /// Drop partial or stale state; the fence stays as it was.
    pub fn clear(&mut self)
        ensures
            final(self).wf(),
            final(self).fenced == old(self).fenced,
            !final(self).recovered_from_header,
            final(self).header == Header7::spec_initial(final(self).header.lineage),
            final(self).header.lineage@ == Seq::new(16, |i: int| 0u8),
            forall|i: int| 0 <= i < NODES ==> #[trigger] final(self).nodes@[i] == empty_node7(),
            forall|i: int| 0 <= i < RETAINED ==> #[trigger] final(self).records@[i] is None,
            final(self).map@ == Seq::new(MAP_WORDS as nat, |i: int| 0u64),
            final(self).validation@ == Seq::new(MAP_WORDS as nat, |i: int| 0u64),
            forall|k: int| 0 <= k < STAGES ==> #[trigger] final(self).stages@[k] is None,
            final(self).stage_owner == old(self).stage_owner,
            final(self).stage_nonce == old(self).stage_nonce,
    {
        let fresh = Self::empty();
        self.header = fresh.header;
        self.nodes = fresh.nodes;
        self.records = fresh.records;
        self.map = fresh.map;
        self.validation = fresh.validation;
        self.recovered_from_header = false;
        self.stages = [None; STAGES];
    }

    /// The verified selected header.
    pub fn header(&self) -> (r: Result<&Header7, Error>)
        ensures
            self.fenced ==> r == Err::<&Header7, Error>(Error::Uncertain),
            !self.fenced ==> r == Ok::<&Header7, Error>(&self.header),
    {
        self.ready()?;
        Ok(&self.header)
    }

    /// Every node slot, including canonical empty slots.
    pub fn nodes(&self) -> (r: Result<&[Node7; NODES], Error>)
        ensures
            self.fenced ==> r == Err::<&[Node7; NODES], Error>(Error::Uncertain),
            !self.fenced ==> r == Ok::<&[Node7; NODES], Error>(&self.nodes),
    {
        self.ready()?;
        Ok(&self.nodes)
    }

    /// The first slot holding object `id`.
    pub(crate) fn position(&self, id: u32) -> (r: Option<usize>)
        ensures
            r == (match find7(self.nodes@, id, 0) {
                Some(i) => Some(i as usize),
                None => None::<usize>,
            }),
            r matches Some(i) ==> i < NODES && live7(self.nodes@[i as int], id),
    {
        proof {
            lemma_find7(self.nodes@, id, 0);
        }
        let mut i: usize = 0;
        while i < NODES
            invariant
                0 <= i <= NODES,
                find7(self.nodes@, id, 0) == find7(self.nodes@, id, i as int),
            decreases NODES - i,
        {
            if self.nodes[i].kind != Kind::Empty && self.nodes[i].id == id {
                return Some(i);
            }
            i = i + 1;
        }
        None
    }

    /// The live node of object `id`.
    pub fn node(&self, id: u32) -> (r: Result<Option<&Node7>, Error>)
        ensures
            self.fenced ==> r == Err::<Option<&Node7>, Error>(Error::Uncertain),
            !self.fenced ==> (r matches Ok(found) && match found {
                Some(n) => record_of7(self.nodes@, id) == Some(*n),
                None => record_of7(self.nodes@, id) is None,
            }),
    {
        self.ready()?;
        proof {
            lemma_find7(self.nodes@, id, 0);
        }
        match self.position(id) {
            Some(i) => Ok(Some(&self.nodes[i])),
            None => Ok(None),
        }
    }

    /// The retained record slots, including empty ones.
    pub fn retained_records(&self) -> (r: Result<&[Option<Record7>; RETAINED], Error>)
        ensures
            self.fenced ==> r == Err::<&[Option<Record7>; RETAINED], Error>(Error::Uncertain),
            !self.fenced ==> r == Ok::<&[Option<Record7>; RETAINED], Error>(&self.records),
    {
        self.ready()?;
        Ok(&self.records)
    }

    /// The allocation bitmap, where a set bit means allocated.
    pub fn allocation_map(&self) -> (r: Result<&[u64], Error>)
        ensures
            self.fenced ==> r is Err && r == Err::<&[u64], Error>(Error::Uncertain),
            !self.fenced ==> (r matches Ok(words) && words@ == self.map@),
    {
        self.ready()?;
        Ok(self.map.as_slice())
    }

    /// Payload sectors the map leaves free.
    pub fn free_sectors(&self) -> (r: Result<u64, Error>)
        requires
            self.wf(),
        ensures
            self.fenced ==> r == Err::<u64, Error>(Error::Uncertain),
            !self.fenced ==> r == Ok::<u64, Error>(crate::volume6::free_upto(self.map@, DATA_SECTORS as nat) as u64),
    {
        self.ready()?;
        let mut count: u64 = 0;
        let mut s: u64 = 0;
        while s < DATA_SECTORS
            invariant
                self.map@.len() == MAP_WORDS,
                0 <= s <= DATA_SECTORS,
                count == crate::volume6::free_upto(self.map@, s as nat),
                count <= s,
            decreases DATA_SECTORS - s,
        {
            let word = self.map[(s / 64) as usize];
            if word & (1u64 << (s % 64)) == 0 {
                count = count + 1;
            }
            s = s + 1;
        }
        Ok(count)
    }

    /// Whether a nonzero invalid header copy was ignored during the last
    /// successful mount.
    pub fn recovered_from_header(&self) -> (r: Result<bool, Error>)
        ensures
            self.fenced ==> r == Err::<bool, Error>(Error::Uncertain),
            !self.fenced ==> r == Ok::<bool, Error>(self.recovered_from_header),
    {
        self.ready()?;
        Ok(self.recovered_from_header)
    }
}

/// A map of free words.
pub(crate) fn zero_words() -> (r: Vec<u64>)
    ensures
        r@ == Seq::new(MAP_WORDS as nat, |i: int| 0u64),
{
    let mut v: Vec<u64> = Vec::new();
    while v.len() < MAP_WORDS
        invariant
            v.len() <= MAP_WORDS,
            v@ == Seq::new(v.len() as nat, |i: int| 0u64),
        decreases MAP_WORDS - v.len(),
    {
        v.push(0);
        assert(v@ =~= Seq::new(v.len() as nat, |i: int| 0u64));
    }
    v
}

} // verus!
