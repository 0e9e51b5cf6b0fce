//! Namespace queries over the mounted node table.
use vstd::prelude::*;
use crate::codec::slices_equal;
use crate::format7::{NODES, Node7};
use crate::namespace::{Kind, valid_name, spec_valid_name};
use crate::volume7::{Volume7, find7, lemma_find7, record_of7};
use crate::Error;

verus! {

/// The name a record holds.
pub open spec fn name7(n: Node7) -> Seq<u8> {
    n.name@.take(n.name_length as int)
}

/// `n` is a live record under `parent` named `name`.
pub open spec fn child7(n: Node7, parent: u32, name: Seq<u8>) -> bool {
    n.kind != Kind::Empty && n.parent == parent && name7(n) == name
}

/// The first slot at or after `from` holding such a child.
pub open spec fn find_child7(nodes: Seq<Node7>, parent: u32, name: Seq<u8>, from: int) -> Option<int>
    decreases nodes.len() - from,
{
    if from < 0 || from >= nodes.len() {
        None
    } else if child7(nodes[from], parent, name) {
        Some(from)
    } else {
        find_child7(nodes, parent, name, from + 1)
    }
}

/// A live record under `parent`, whatever its name.
pub open spec fn listed7(n: Node7, parent: u32) -> bool {
    n.kind != Kind::Empty && n.parent == parent
}

/// Where the first child of `parent` named `name` from `from` is, or that
/// there is none.
proof fn lemma_find_child_at7(nodes: Seq<Node7>, parent: u32, name: Seq<u8>, from: int)
    requires
        0 <= from <= nodes.len(),
    ensures
        find_child7(nodes, parent, name, from) matches Some(i) ==> from <= i < nodes.len() && child7(nodes[i], parent, name),
        find_child7(nodes, parent, name, from) is None ==> forall|j: int| from <= j < nodes.len() ==> !child7(#[trigger] nodes[j], parent, name),
    decreases nodes.len() - from,
{
    if from < nodes.len() {
        lemma_find_child_at7(nodes, parent, name, from + 1);
    }
}

/// Where the first child of `parent` from `from` is, or that there is none.
proof fn lemma_find_listed(nodes: Seq<Node7>, parent: u32, from: int)
    requires
        0 <= from <= nodes.len(),
    ensures
        find_listed7(nodes, parent, from) matches Some(i) ==> from <= i < nodes.len() && listed7(nodes[i], parent)
            && forall|j: int| from <= j < i ==> !listed7(#[trigger] nodes[j], parent),
        find_listed7(nodes, parent, from) is None ==> forall|j: int| from <= j < nodes.len() ==> !listed7(#[trigger] nodes[j], parent),
    decreases nodes.len() - from,
{
    if from < nodes.len() {
        lemma_find_listed(nodes, parent, from + 1);
    }
}

/// The first slot at or after `from` holding a record under `parent`.
pub open spec fn find_listed7(nodes: Seq<Node7>, parent: u32, from: int) -> Option<int>
    decreases nodes.len() - from,
{
    if from < 0 || from >= nodes.len() {
        None
    } else if listed7(nodes[from], parent) {
        Some(from)
    } else {
        find_listed7(nodes, parent, from + 1)
    }
}

impl Volume7 {
    /// What `stat` answers.
    pub open spec fn spec_stat(&self, id: u32) -> Result<Node7, Error> {
        if self.fenced {
            Err(Error::Uncertain)
        } else {
            match record_of7(self.nodes@, id) {
                Some(n) => Ok(n),
                None => Err(Error::NotFound),
            }
        }
    }

    /// `parent` may hold children: zero (the roots) or a live directory.
    /// `Ok` carries nothing; the error is what a lookup or a list answers.
    pub open spec fn spec_parent(&self, parent: u32) -> Result<(), Error> {
        if parent == 0 {
            Ok(())
        } else {
            match self.spec_stat(parent) {
                Err(e) => Err(e),
                Ok(p) => if p.kind != Kind::Directory {
                    Err(Error::NotDirectory)
                } else {
                    Ok(())
                },
            }
        }
    }

    /// What `lookup` answers.
    pub open spec fn spec_lookup(&self, parent: u32, name: Seq<u8>) -> Result<Node7, Error> {
        if self.fenced {
            Err(Error::Uncertain)
        } else if !spec_valid_name(name) {
            Err(Error::Invalid)
        } else if self.spec_parent(parent) is Err {
            Err(self.spec_parent(parent)->Err_0)
        } else {
            match find_child7(self.nodes@, parent, name, 0) {
                Some(i) => Ok(self.nodes@[i]),
                None => Err(Error::NotFound),
            }
        }
    }

    /// What `list` answers.
    pub open spec fn spec_list(&self, parent: u32, cursor: usize) -> Result<Option<(usize, Node7)>, Error> {
        if self.fenced {
            Err(Error::Uncertain)
        } else if cursor > NODES {
            Err(Error::Invalid)
        } else if self.spec_parent(parent) is Err {
            Err(self.spec_parent(parent)->Err_0)
        } else {
            match find_listed7(self.nodes@, parent, cursor as int) {
                Some(i) => Ok(Some(((i + 1) as usize, self.nodes@[i]))),
                None => Ok(None),
            }
        }
    }

    /// A lookup finds by name: what it returns is a live record under
    /// `parent` carrying `name`, and `NotFound` for a valid name under a
    /// usable parent means no live record under `parent` carries it.
    pub proof fn lemma_lookup_finds(&self, parent: u32, name: Seq<u8>)
        ensures
            self.spec_lookup(parent, name) matches Ok(n) ==> n.kind != Kind::Empty && n.parent == parent && name7(n) == name
                && exists|i: int| 0 <= i < NODES && self.nodes@[i] == n,
            self.spec_lookup(parent, name) == Err::<Node7, Error>(Error::NotFound) && spec_valid_name(name)
                && self.spec_parent(parent) is Ok ==> forall|j: int| 0 <= j < NODES
                ==> !((#[trigger] self.nodes@[j]).kind != Kind::Empty && self.nodes@[j].parent == parent && name7(self.nodes@[j]) == name),
    {
        lemma_find_child_at7(self.nodes@, parent, name, 0);
        if self.spec_lookup(parent, name) is Ok {
            let i = find_child7(self.nodes@, parent, name, 0)->Some_0;
            assert(0 <= i < NODES && self.nodes@[i] == self.spec_lookup(parent, name)->Ok_0);
        }
        if self.spec_lookup(parent, name) == Err::<Node7, Error>(Error::NotFound) && spec_valid_name(name) && self.spec_parent(parent) is Ok {
            assert forall|j: int| 0 <= j < NODES implies !((#[trigger] self.nodes@[j]).kind != Kind::Empty
                && self.nodes@[j].parent == parent && name7(self.nodes@[j]) == name) by {
                assert(!child7(self.nodes@[j], parent, name));
            }
        }
    }

    /// Listing steps through the children in slot order: a listed record is
    /// live, under `parent`, in the slot just before the returned cursor, at
    /// or after `cursor`, with no other child of `parent` between; `None`
    /// means no child of `parent` lies at or after `cursor`. Starting at zero
    /// and following the cursors therefore lists every child exactly once.
    pub proof fn lemma_list_steps(&self, parent: u32, cursor: usize)
        ensures
            self.spec_list(parent, cursor) matches Ok(Some((next, n))) ==> {
                &&& cursor < next <= NODES
                &&& n == self.nodes@[next - 1]
                &&& n.kind != Kind::Empty && n.parent == parent
                &&& forall|j: int| cursor <= j < next - 1 ==> !((#[trigger] self.nodes@[j]).kind != Kind::Empty && self.nodes@[j].parent == parent)
            },
            self.spec_list(parent, cursor) == Ok::<Option<(usize, Node7)>, Error>(None) ==> forall|j: int| cursor <= j < NODES
                ==> !((#[trigger] self.nodes@[j]).kind != Kind::Empty && self.nodes@[j].parent == parent),
    {
        if self.spec_list(parent, cursor) is Ok {
            lemma_find_listed(self.nodes@, parent, cursor as int);
        }
    }

    /// The live record of object `id`.
    pub fn stat(&self, id: u32) -> (r: Result<Node7, Error>)
        ensures
            r == self.spec_stat(id),
    {
        self.ready()?;
        proof {
            lemma_find7(self.nodes@, id, 0);
        }
        match self.position(id) {
            Some(i) => Ok(self.nodes[i]),
            None => Err(Error::NotFound),
        }
    }

    fn check_parent(&self, parent: u32) -> (r: Result<(), Error>)
        requires
            !self.fenced,
        ensures
            r == self.spec_parent(parent),
    {
        if parent != 0 {
            let p = self.stat(parent)?;
            if p.kind != Kind::Directory {
                return Err(Error::NotDirectory);
            }
        }
        Ok(())
    }

    /// The live record under `parent` (0 for the roots) named `name`.
    pub fn lookup(&self, parent: u32, name: &[u8]) -> (r: Result<Node7, Error>)
        requires
            self.wf(),
        ensures
            r == self.spec_lookup(parent, name@),
    {
        self.ready()?;
        valid_name(name)?;
        self.check_parent(parent)?;
        let mut i: usize = 0;
        while i < NODES
            invariant
                0 <= i <= NODES,
                self.wf(),
                !self.fenced,
                spec_valid_name(name@),
                self.spec_parent(parent) is Ok,
                find_child7(self.nodes@, parent, name@, 0) == find_child7(self.nodes@, parent, name@, i as int),
            decreases NODES - i,
        {
            let n = self.nodes[i];
            assert(n == self.nodes@[i as int]);
            if n.kind != Kind::Empty && n.parent == parent && slices_equal(n.name(), name) {
                assert(child7(self.nodes@[i as int], parent, name@));
                return Ok(n);
            }
            i = i + 1;
        }
        Err(Error::NotFound)
    }

    /// The first live record under `parent` at or after slot `cursor`, with the
    /// cursor that continues after it; `None` past the last.
    pub fn list(&self, parent: u32, cursor: usize) -> (r: Result<Option<(usize, Node7)>, Error>)
        ensures
            r == self.spec_list(parent, cursor),
    {
        self.ready()?;
        if cursor > NODES {
            return Err(Error::Invalid);
        }
        self.check_parent(parent)?;
        let mut i: usize = cursor;
        while i < NODES
            invariant
                cursor <= i <= NODES,
                !self.fenced,
                self.spec_parent(parent) is Ok,
                find_listed7(self.nodes@, parent, cursor as int) == find_listed7(self.nodes@, parent, i as int),
            decreases NODES - i,
        {
            let n = self.nodes[i];
            assert(n == self.nodes@[i as int]);
            if n.kind != Kind::Empty && n.parent == parent {
                return Ok(Some((i + 1, n)));
            }
            i = i + 1;
        }
        Ok(None)
    }
}

} // verus!

verus! {

use crate::codec::put;
use crate::extent::{Extent, DATA_SECTORS, MAP_WORDS, bit, used_run, marked};
use crate::format7::{Header7, Record7, RETAINED, NEXT_EXHAUSTED, overlap};
use crate::format7::node::{empty_node7, node7_valid};
use crate::format7::validation::generation_valid7;
use crate::storage::Disk;
use crate::volume7::publication::{candidate_of7, with_sums7, published7};
use crate::volume7::mount::{cleared7, nodes_base7};
use crate::volume7::payload::release_run;

/// The first empty slot at or after `from`.
pub open spec fn find_empty7(nodes: Seq<Node7>, from: int) -> Option<int>
    decreases nodes.len() - from,
{
    if from < 0 || from >= nodes.len() {
        None
    } else if nodes[from].kind == Kind::Empty {
        Some(from)
    } else {
        find_empty7(nodes, from + 1)
    }
}

/// The record a create writes: a fresh identity with the next version, no
/// payload, the name zero-padded, in its directory's space.
pub open spec fn created7(n: Node7, id: u32, parent: u32, name: Seq<u8>, kind: Kind, version: u64, space: u8) -> bool {
    &&& n.id == id
    &&& n.parent == parent
    &&& n.version == version
    &&& n.length == 0
    &&& n.kind == kind
    &&& n.space == space
    &&& n.extents_used == 0
    &&& n.extents == empty_node7().extents
    &&& n.name_length == name.len()
    &&& n.name@ == name + Seq::new((32 - name.len()) as nat, |i: int| 0u8)
    &&& n.payload_crc32 == 0
}

/// What a commit of the staged structures in `after` leaves: the owner
/// unfenced on the header it published, the medium holding that generation.
pub open spec fn committed7(c0: Map<u64, Seq<u8>>, c1: Map<u64, Seq<u8>>, staged: Header7, after: Volume7) -> bool {
    let h = after.header;
    &&& !after.fenced
    &&& exists|sums: (u32, u32, u32)| h == #[trigger] with_sums7(candidate_of7(staged), candidate_of7(staged).generation, sums)
    &&& published7(c1, h, after)
    &&& forall|s: u64| !(nodes_base7(h.generation) <= s < nodes_base7(h.generation) + 100) && s != 8 + h.generation
        ==> #[trigger] c1[s] == c0[s]
}

/// Run `run` shares a sector with a retained record's snapshot.
pub open spec fn retained_owns7(records: Seq<Option<Record7>>, run: Extent) -> bool {
    exists|k: int, j: int| 0 <= k < records.len() && records[k] is Some && 0 <= j < records[k]->Some_0.extents_used
        && overlap(run, #[trigger] records[k]->Some_0.extents@[j])
}

/// Sector `s` is in one of the first `k` runs of `n` that no retained record
/// still owns.
pub open spec fn freed7(n: Node7, records: Seq<Option<Record7>>, k: int, s: int) -> bool {
    exists|j: int| 0 <= j < k && !retained_owns7(records, n.extents@[j])
        && #[trigger] n.extents@[j].start <= s < n.extents@[j].start + n.extents@[j].sectors
}

impl Volume7 {
    /// What a create refuses before it stages anything, if anything.
    pub open spec fn create_refusal(&self, parent: u32, name: Seq<u8>, kind: Kind) -> Option<Error> {
        if self.fenced {
            Some(Error::Uncertain)
        } else if !spec_valid_name(name) || kind == Kind::Empty {
            Some(Error::Invalid)
        } else if self.spec_stat(parent) is Err {
            Some(self.spec_stat(parent)->Err_0)
        } else if self.spec_stat(parent).unwrap().space == 1 {
            Some(Error::ReadOnly)
        } else if self.spec_stat(parent).unwrap().kind != Kind::Directory {
            Some(Error::NotDirectory)
        } else if self.spec_lookup(parent, name) is Ok {
            Some(Error::Exists)
        } else if self.spec_lookup(parent, name) != Err::<Node7, Error>(Error::NotFound) {
            Some(self.spec_lookup(parent, name)->Err_0)
        } else if find_empty7(self.nodes@, 0) is None {
            Some(Error::Full)
        } else if self.header.next == NEXT_EXHAUSTED || self.header.sequence == u64::MAX {
            Some(Error::Exhausted)
        } else {
            None
        }
    }

    /// Commit the staged structures, adopting the published header; any
    /// failure clears the owner and leaves it fenced.
    fn publish_namespace<D: Disk>(&mut self, disk: &mut D) -> (r: Result<(), Error>)
        requires
            old(self).wf(),
            old(self).header.sequence < u64::MAX,
        ensures
            final(self).wf(),
            r is Ok ==> {
                &&& final(self).nodes == old(self).nodes
                &&& final(self).records == old(self).records
                &&& final(self).map == old(self).map
                &&& committed7(old(disk).contents(), final(disk).contents(), old(self).header, *final(self))
            },
            r is Err ==> cleared7(*final(self)),
            r is Err ==> r == Err::<(), Error>(Error::Corrupt) || r == Err::<(), Error>(Error::Uncertain),
            !generation_valid7(candidate_of7(old(self).header), old(self).nodes@, old(self).records@, old(self).map@)
                ==> r == Err::<(), Error>(Error::Corrupt) && final(disk).contents() == old(disk).contents(),
            generation_valid7(candidate_of7(old(self).header), old(self).nodes@, old(self).records@, old(self).map@)
                ==> r is Ok || r == Err::<(), Error>(Error::Uncertain),
    {
        match self.publish_candidate(disk) {
            Ok(header) => {
                self.header = header;
                self.fenced = false;
                Ok(())
            },
            Err(error) => {
                self.clear();
                self.fenced = true;
                Err(error)
            },
        }
    }

    /// Create a file or directory with a new, never-reused identity in the
    /// first empty slot, and publish it.
    pub fn create<D: Disk>(&mut self, disk: &mut D, parent: u32, name: &[u8], kind: Kind) -> (r: Result<Node7, Error>)
        requires
            old(self).wf(),
        ensures
            final(self).wf(),
            old(self).create_refusal(parent, name@, kind) matches Some(e) ==> r == Err::<Node7, Error>(e)
                && *final(self) == *old(self) && final(disk).contents() == old(disk).contents(),
            old(self).create_refusal(parent, name@, kind) is None ==> {
                let slot = find_empty7(old(self).nodes@, 0)->Some_0;
                let id = old(self).header.next;
                let space = old(self).spec_stat(parent).unwrap().space;
                let staged = Header7 { next: (id + 1) as u32, ..old(self).header };
                &&& r matches Ok(n) ==> {
                    &&& created7(n, id, parent, name@, kind, (old(self).header.sequence + 1) as u64, space)
                    &&& final(self).nodes@ == old(self).nodes@.update(slot, n)
                    &&& final(self).records == old(self).records
                    &&& final(self).map == old(self).map
                    &&& committed7(old(disk).contents(), final(disk).contents(), staged, *final(self))
                }
                &&& r is Err ==> cleared7(*final(self)) && (r == Err::<Node7, Error>(Error::Corrupt) || r == Err::<Node7, Error>(Error::Uncertain))
            },
    {
        self.ready()?;
        valid_name(name)?;
        if kind == Kind::Empty {
            return Err(Error::Invalid);
        }
        let directory = self.stat(parent)?;
        if directory.space == 1 {
            return Err(Error::ReadOnly);
        }
        if directory.kind != Kind::Directory {
            return Err(Error::NotDirectory);
        }
        match self.lookup(parent, name) {
            Ok(_) => {
                return Err(Error::Exists);
            },
            Err(Error::NotFound) => {},
            Err(error) => {
                return Err(error);
            },
        }
        let mut slot: usize = 0;
        while slot < NODES && self.nodes[slot].kind != Kind::Empty
            invariant
                0 <= slot <= NODES,
                find_empty7(self.nodes@, 0) == find_empty7(self.nodes@, slot as int),
            decreases NODES - slot,
        {
            slot = slot + 1;
        }
        if slot == NODES {
            return Err(Error::Full);
        }
        let id = self.header.next_id()?;
        if self.header.sequence == u64::MAX {
            return Err(Error::Exhausted);
        }
        let next_id = id + 1;
        let version = self.header.sequence + 1;
        let mut field = [0u8; 32];
        let zero = [0u8; 32];
        proof {
            assert(zero@ =~= Seq::new(32, |i: int| 0u8));
            assert(field@ == Seq::new(32, |i: int| 0u8));
        }
        put(&mut field, 0, name);
        let node = Node7 {
            id,
            parent,
            version,
            length: 0,
            kind,
            space: directory.space,
            extents_used: 0,
            extents: Node7::empty().extents,
            name_length: name.len() as u8,
            name: field,
            payload_crc32: 0,
        };
        proof {
            assert(node.name@ =~= name@ + Seq::new((32 - name@.len()) as nat, |i: int| 0u8));
            assert(find_empty7(self.nodes@, slot as int) == Some(slot as int));
        }
        self.fenced = true;
        let ghost before = self.nodes@;
        self.nodes[slot] = node;
        self.header.next = next_id;
        proof {
            assert(self.nodes@ == before.update(slot as int, node));
            assert forall|i: int| 0 <= i < NODES implies (#[trigger] self.nodes@[i]).name_length <= 32 by {
                if i != slot {
                    assert(self.nodes@[i] == before[i]);
                }
            }
        }
        self.publish_namespace(disk)?;
        Ok(node)
    }
}

} // verus!

verus! {

/// Whether run `run` shares a sector with a retained record's snapshot.
pub fn retained_owns_run(records: &[Option<Record7>; RETAINED], run: Extent) -> (r: bool)
    requires
        forall|k: int| 0 <= k < RETAINED ==> (#[trigger] records@[k] matches Some(rec) ==> rec.extents_used <= 8),
    ensures
        r == retained_owns7(records@, run),
{
    let mut k: usize = 0;
    while k < RETAINED
        invariant
            0 <= k <= RETAINED,
            forall|m: int| 0 <= m < RETAINED ==> (#[trigger] records@[m] matches Some(rec) ==> rec.extents_used <= 8),
            forall|m: int, j: int| 0 <= m < k && records@[m] is Some && 0 <= j < records@[m]->Some_0.extents_used
                ==> !overlap(run, #[trigger] records@[m]->Some_0.extents@[j]),
        decreases RETAINED - k,
    {
        let slot = records[k];
        assert(slot == records@[k as int]);
        if let Some(record) = slot {
            let mut j: usize = 0;
            while j < record.extents_used as usize
                invariant
                    0 <= j <= record.extents_used,
                    0 <= k < RETAINED,
                    record.extents_used <= 8,
                    records@[k as int] == Some(record),
                    forall|i: int| 0 <= i < j ==> !overlap(run, #[trigger] record.extents@[i]),
                decreases record.extents_used - j,
            {
                let owned = record.extents[j];
                if (run.start as u128) < (owned.start as u128) + (owned.sectors as u128)
                    && (owned.start as u128) < (run.start as u128) + (run.sectors as u128) {
                    assert(overlap(run, records@[k as int]->Some_0.extents@[j as int]));
                    return true;
                }
                j = j + 1;
            }
        }
        k = k + 1;
    }
    false
}

impl Volume7 {
    /// What a remove refuses before it stages anything, if anything.
    pub open spec fn remove_refusal(&self, id: u32) -> Option<Error> {
        if self.fenced {
            Some(Error::Uncertain)
        } else if find7(self.nodes@, id, 0) is None {
            Some(Error::NotFound)
        } else if ({
            let n = self.nodes@[find7(self.nodes@, id, 0)->Some_0];
            n.space == 1 || n.parent == 0
        }) {
            Some(Error::ReadOnly)
        } else if exists|i: int| 0 <= i < NODES && #[trigger] listed7(self.nodes@[i], id) {
            Some(Error::NotEmpty)
        } else if self.header.sequence == u64::MAX {
            Some(Error::Exhausted)
        } else {
            None
        }
    }

    /// Remove a file or an empty directory, returning the runs no retained
    /// snapshot still owns to the map, and publish the change.
    pub fn remove<D: Disk>(&mut self, disk: &mut D, id: u32) -> (r: Result<(), Error>)
        requires
            old(self).wf(),
        ensures
            final(self).wf(),
            old(self).remove_refusal(id) matches Some(e) ==> r == Err::<(), Error>(e)
                && *final(self) == *old(self) && final(disk).contents() == old(disk).contents(),
            old(self).remove_refusal(id) is None ==> {
                let index = find7(old(self).nodes@, id, 0)->Some_0;
                let n = old(self).nodes@[index];
                &&& r is Ok ==> {
                    &&& final(self).nodes@ == old(self).nodes@.update(index, empty_node7())
                    &&& final(self).records == old(self).records
                    &&& forall|s: int| 0 <= s < DATA_SECTORS ==> #[trigger] bit(final(self).map@, s)
                        == (bit(old(self).map@, s) && !freed7(n, old(self).records@, n.extents_used as int, s))
                    &&& committed7(old(disk).contents(), final(disk).contents(), old(self).header, *final(self))
                }
                &&& r is Err ==> cleared7(*final(self)) && (r == Err::<(), Error>(Error::Corrupt) || r == Err::<(), Error>(Error::Uncertain))
            },
    {
        self.ready()?;
        proof {
            lemma_find7(self.nodes@, id, 0);
        }
        let index = match self.position(id) {
            Some(i) => i,
            None => {
                return Err(Error::NotFound);
            },
        };
        let node = self.nodes[index];
        if node.space == 1 || node.parent == 0 {
            return Err(Error::ReadOnly);
        }
        let mut i: usize = 0;
        while i < NODES
            invariant
                0 <= i <= NODES,
                *self == *old(self),
                self.wf(),
                !self.fenced,
                index < NODES,
                find7(self.nodes@, id, 0) == Some(index as int),
                node == self.nodes@[index as int],
                !(node.space == 1 || node.parent == 0),
                forall|j: int| 0 <= j < i ==> !#[trigger] listed7(self.nodes@[j], id),
            decreases NODES - i,
        {
            if self.nodes[i].kind != Kind::Empty && self.nodes[i].parent == id {
                assert(listed7(self.nodes@[i as int], id));
                return Err(Error::NotEmpty);
            }
            i = i + 1;
        }
        if self.header.sequence == u64::MAX {
            return Err(Error::Exhausted);
        }
        self.fenced = true;
        assert(node == self.nodes@[index as int]);
        let ghost m0 = self.map@;
        let ghost s0 = *self;
        let mut k: usize = 0;
        while k < node.extents_used as usize
            invariant
                0 <= k <= node.extents_used <= 8,
                self.wf(),
                self.fenced,
                self.header == s0.header,
                self.nodes == s0.nodes,
                self.records == s0.records,
                self.recovered_from_header == s0.recovered_from_header,
                self.validation == s0.validation,
                s0.wf(),
                old(self).remove_refusal(id) is None,
                node == old(self).nodes@[find7(old(self).nodes@, id, 0)->Some_0],
                s0.nodes == old(self).nodes,
                s0.records == old(self).records,
                s0.header == old(self).header,
                m0 == old(self).map@,
                forall|s: int| 0 <= s < DATA_SECTORS ==> #[trigger] bit(self.map@, s) == (bit(m0, s) && !freed7(node, self.records@, k as int, s)),
            decreases node.extents_used - k,
        {
            let run = node.extents[k];
            let owned = retained_owns_run(&self.records, run);
            if !owned {
                let ghost before = self.map@;
                let mut words: Vec<u64> = Vec::new();
                core::mem::swap(&mut words, &mut self.map);
                let released = release_run(&mut words, run);
                self.map = words;
                if released.is_err() {
                    self.clear();
                    self.fenced = true;
                    return Err(Error::Corrupt);
                }
                assert forall|s: int| 0 <= s < DATA_SECTORS implies #[trigger] bit(self.map@, s) == (bit(m0, s) && !freed7(node, self.records@, k + 1, s)) by {
                    assert(bit(self.map@, s) == if run.start <= s < run.start + run.sectors { false } else { bit(before, s) });
                    if freed7(node, self.records@, k + 1, s) && !(run.start <= s < run.start + run.sectors) {
                        let j = choose|j: int| 0 <= j < k + 1 && !retained_owns7(self.records@, node.extents@[j])
                            && #[trigger] node.extents@[j].start <= s < node.extents@[j].start + node.extents@[j].sectors;
                        assert(j != k);
                        assert(freed7(node, self.records@, k as int, s));
                    }
                    if run.start <= s < run.start + run.sectors {
                        assert(node.extents@[k as int] == run);
                        assert(freed7(node, self.records@, k + 1, s));
                    }
                    if freed7(node, self.records@, k as int, s) {
                        let j = choose|j: int| 0 <= j < k && !retained_owns7(self.records@, node.extents@[j])
                            && #[trigger] node.extents@[j].start <= s < node.extents@[j].start + node.extents@[j].sectors;
                        assert(freed7(node, self.records@, k + 1, s));
                    }
                }
            } else {
                assert forall|s: int| 0 <= s < DATA_SECTORS implies #[trigger] bit(self.map@, s) == (bit(m0, s) && !freed7(node, self.records@, k + 1, s)) by {
                    if freed7(node, self.records@, k + 1, s) {
                        let j = choose|j: int| 0 <= j < k + 1 && !retained_owns7(self.records@, node.extents@[j])
                            && #[trigger] node.extents@[j].start <= s < node.extents@[j].start + node.extents@[j].sectors;
                        assert(node.extents@[k as int] == run);
                        assert(j != k);
                        assert(freed7(node, self.records@, k as int, s));
                    }
                    if freed7(node, self.records@, k as int, s) {
                        let j = choose|j: int| 0 <= j < k && !retained_owns7(self.records@, node.extents@[j])
                            && #[trigger] node.extents@[j].start <= s < node.extents@[j].start + node.extents@[j].sectors;
                        assert(freed7(node, self.records@, k + 1, s));
                    }
                }
            }
            k = k + 1;
        }
        let ghost before = self.nodes@;
        self.nodes[index] = Node7::empty();
        proof {
            assert(self.nodes@ == before.update(index as int, empty_node7()));
            assert forall|i: int| 0 <= i < NODES implies (#[trigger] self.nodes@[i]).name_length <= 32 by {
                if i != index {
                    assert(self.nodes@[i] == before[i]);
                }
            }
        }
        self.publish_namespace(disk)
    }
}

} // verus!
