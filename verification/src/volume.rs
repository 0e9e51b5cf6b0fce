//! The two-bank (v5) volume: one live generation, the bank it was read from,
//! and a fence that a failed or unfinished publication leaves up.
use vstd::prelude::*;
use crate::checksum::{crc, spec_crc};
use crate::codec::{slices_equal, zero_range, all_zero};
use crate::format::{
    Metadata, apply_steps, spec_write_steps, find_id, spec_index, generation_at, generation_present,
    nodes_image, sectors_from, sectors_present, spec_data_sector, data_sector, lemma_find_id, step_effect, steps_present, disk_present5,
};
use crate::namespace::{Kind, Node, spec_valid_name, valid_name, empty_node};
use crate::storage::Disk;
use crate::publication::{Publication, PublicationPhase, Plan, plan_total, apply_plan, is_live};
use crate::{Error, MAX_FILE, OBJECTS, SECTORS};

verus! {

/// The live v5 volume.
pub struct Volume {
    metadata: Metadata,
    bank: u8,
    poisoned: bool,
}

/// A live record under `parent` named `name`.
pub open spec fn child_at(n: Node, parent: u32, name: Seq<u8>) -> bool {
    n.kind != Kind::Empty && n.parent == parent && n.spec_name() == name
}

/// The first slot at or after `from` holding such a child.
pub open spec fn find_child(nodes: Seq<Node>, parent: u32, name: Seq<u8>, from: int) -> Option<int>
    decreases nodes.len() - from,
{
    if from < 0 || from >= nodes.len() {
        None
    } else if child_at(nodes[from], parent, name) {
        Some(from)
    } else {
        find_child(nodes, parent, name, from + 1)
    }
}

/// A live record under `parent`, whatever its name.
pub open spec fn listed(n: Node, parent: u32) -> bool {
    n.kind != Kind::Empty && n.parent == parent
}

/// The first slot at or after `from` holding a record under `parent`.
pub open spec fn find_listed(nodes: Seq<Node>, parent: u32, from: int) -> Option<int>
    decreases nodes.len() - from,
{
    if from < 0 || from >= nodes.len() {
        None
    } else if listed(nodes[from], parent) {
        Some(from)
    } else {
        find_listed(nodes, parent, from + 1)
    }
}

/// A live record that is a child of `id`.
pub open spec fn has_child(nodes: Seq<Node>, id: u32) -> bool {
    exists|i: int| 0 <= i < nodes.len() && #[trigger] listed(nodes[i], id)
}

/// Sector `s` exists and reads back zero.
pub open spec fn sector_zero(c: Map<u64, Seq<u8>>, s: u64) -> bool {
    c.dom().contains(s) && zero_range(c[s], 0, 512)
}

/// Which generation a mount selects from what the two banks decoded to.
pub open spec fn spec_select(a: Result<Metadata, Error>, b: Result<Metadata, Error>) -> Result<(Metadata, u8), Error> {
    if a is Err && a->Err_0 != Error::Empty && a->Err_0 != Error::Corrupt {
        Err(a->Err_0)
    } else if b is Err && b->Err_0 != Error::Empty && b->Err_0 != Error::Corrupt {
        Err(b->Err_0)
    } else {
        match (a, b) {
            (Ok(x), Ok(y)) => if x.sequence == y.sequence {
                if nodes_image(x.nodes@) != nodes_image(y.nodes@) || x.next != y.next {
                    Err(Error::Corrupt)
                } else {
                    Ok((x, 0u8))
                }
            } else if x.sequence > y.sequence {
                Ok((x, 0u8))
            } else {
                Ok((y, 1u8))
            },
            (Ok(x), Err(_)) => Ok((x, 0u8)),
            (Err(_), Ok(y)) => Ok((y, 1u8)),
            (Err(Error::Empty), Err(Error::Empty)) => Err(Error::Empty),
            _ => Err(Error::Corrupt),
        }
    }
}

/// Select the generation to mount from what the two banks decoded to: a read
/// error other than `Empty` or `Corrupt` is returned as it is, the newer of two
/// valid generations wins, two of one sequence must agree, and two empty
/// banks are `Empty`.
pub fn select(a: Result<Metadata, Error>, b: Result<Metadata, Error>) -> (r: Result<(Metadata, u8), Error>)
    ensures
        r == spec_select(a, b),
{
    if let Err(e) = a {
        if e != Error::Empty && e != Error::Corrupt {
            return Err(e);
        }
    }
    if let Err(e) = b {
        if e != Error::Empty && e != Error::Corrupt {
            return Err(e);
        }
    }
    match (a, b) {
        (Ok(x), Ok(y)) => {
            if x.sequence == y.sequence {
                let xb = x.bytes();
                let yb = y.bytes();
                proof {
                    crate::format::lemma_nodes_image(xb@, x.nodes@);
                    crate::format::lemma_nodes_image(yb@, y.nodes@);
                }
                if !crate::codec::same_bytes(&xb, &yb) || x.next != y.next {
                    return Err(Error::Corrupt);
                }
                Ok((x, 0))
            } else if x.sequence > y.sequence {
                Ok((x, 0))
            } else {
                Ok((y, 1))
            }
        },
        (Ok(x), Err(_)) => Ok((x, 0)),
        (Err(_), Ok(y)) => Ok((y, 1)),
        (Err(Error::Empty), Err(Error::Empty)) => Err(Error::Empty),
        _ => Err(Error::Corrupt),
    }
}

impl Volume {
    /// The live generation.
    pub closed spec fn metadata(&self) -> Metadata {
        self.metadata
    }

    /// The bank the live generation is stored in.
    pub closed spec fn bank(&self) -> u8 {
        self.bank
    }

    /// The fence: a publication is unsettled or failed.
    pub closed spec fn poisoned(&self) -> bool {
        self.poisoned
    }

    /// Every field stays inside its stored width.
    pub open spec fn wf(&self) -> bool {
        self.metadata().inv() && self.bank() <= 1
    }

    /// What `stat` answers.
    pub open spec fn spec_stat(&self, id: u32) -> Result<Node, Error> {
        if self.poisoned() {
            Err(Error::Uncertain)
        } else {
            match find_id(self.metadata().nodes@, id, 0) {
                Some(i) => Ok(self.metadata().nodes@[i]),
                None => Err(Error::NotFound),
            }
        }
    }

    /// What `lookup` answers.
    pub open spec fn spec_lookup(&self, parent: u32, name: Seq<u8>) -> Result<Node, Error> {
        if self.poisoned() {
            Err(Error::Uncertain)
        } else if !spec_valid_name(name) {
            Err(Error::Invalid)
        } else if parent != 0 && self.spec_stat(parent) is Err {
            self.spec_stat(parent)
        } else if parent != 0 && self.spec_stat(parent).unwrap().kind != Kind::Directory {
            Err(Error::NotDirectory)
        } else {
            match find_child(self.metadata().nodes@, parent, name, 0) {
                Some(i) => Ok(self.metadata().nodes@[i]),
                None => Err(Error::NotFound),
            }
        }
    }

    /// What `list` answers.
    pub open spec fn spec_list(&self, parent: u32, cursor: usize) -> Result<Option<(usize, Node)>, Error> {
        if self.poisoned() {
            Err(Error::Uncertain)
        } else if cursor > OBJECTS {
            Err(Error::Invalid)
        } else if parent != 0 && self.spec_stat(parent) is Err {
            Err(self.spec_stat(parent)->Err_0)
        } else if parent != 0 && self.spec_stat(parent).unwrap().kind != Kind::Directory {
            Err(Error::NotDirectory)
        } else {
            match find_listed(self.metadata().nodes@, parent, cursor as int) {
                Some(i) => Ok(Some(((i + 1) as usize, self.metadata().nodes@[i]))),
                None => Ok(None),
            }
        }
    }

    /// Walking up from `current` within `fuel` steps reaches `scope`.
    pub open spec fn climbs_to(&self, current: u32, scope: u32, fuel: nat) -> bool
        decreases fuel,
    {
        if fuel == 0 {
            false
        } else {
            match self.spec_stat(current) {
                Err(_) => false,
                Ok(n) => if current == scope {
                    true
                } else if n.parent == 0 {
                    false
                } else {
                    self.climbs_to(n.parent, scope, (fuel - 1) as nat)
                },
            }
        }
    }

    /// What `within` answers.
    pub open spec fn spec_within(&self, id: u32, scope: u32) -> bool {
        if scope == 0 {
            self.spec_stat(id) is Ok
        } else {
            self.climbs_to(id, scope, OBJECTS as nat)
        }
    }

    /// What `writable` answers: a live object outside the read-only system space.
    pub open spec fn spec_writable(&self, id: u32) -> Result<Node, Error> {
        match self.spec_stat(id) {
            Err(e) => Err(e),
            Ok(n) => if n.space == 1 {
                Err(Error::ReadOnly)
            } else {
                Ok(n)
            },
        }
    }

    /// What `resolve` answers.
    pub open spec fn spec_resolve(&self, workspace: u32, id: u32) -> Result<Node, Error> {
        match self.spec_stat(workspace) {
            Err(e) => Err(e),
            Ok(d) => if d.kind != Kind::Directory {
                Err(Error::NotDirectory)
            } else {
                match self.spec_stat(id) {
                    Err(e) => Err(e),
                    Ok(n) => if !self.spec_within(id, workspace) {
                        Err(Error::NotFound)
                    } else {
                        Ok(n)
                    },
                }
            },
        }
    }

    /// Mount the newer valid generation of the two banks. A read error other
    /// than an empty or corrupt bank is returned rather than treated as an
    /// absent generation.
    pub fn mount<D: Disk>(disk: &mut D) -> (r: Result<Self, Error>)
        ensures
            final(disk).contents() == old(disk).contents(),
            r matches Ok(v) ==> {
                &&& v.wf()
                &&& !v.poisoned()
                &&& generation_present(old(disk).contents(), v.bank())
                &&& generation_at(old(disk).contents(), v.bank()) == Ok::<Metadata, Error>(v.metadata())
                &&& v.metadata().valid()
            },
            old(disk).dependable() && generation_present(old(disk).contents(), 0) && generation_present(old(disk).contents(), 1) ==> match spec_select(
                generation_at(old(disk).contents(), 0),
                generation_at(old(disk).contents(), 1),
            ) {
                Ok(p) => r matches Ok(v) && v.metadata() == p.0 && v.bank() == p.1,
                Err(e) => r == Err::<Self, Error>(e),
            },
    {
        let a = Metadata::read(disk, 0);
        let b = Metadata::read(disk, 1);
        let (metadata, bank) = select(a, b)?;
        Ok(Self { metadata, bank, poisoned: false })
    }

    /// Format an explicitly selected fresh device: every reserved sector must
    /// read back zero, and the initial generation is published to bank 0. A
    /// failed publication is `Uncertain`.
    pub fn initialize<D: Disk>(disk: &mut D) -> (r: Result<Self, Error>)
        ensures
            r matches Ok(v) ==> {
                &&& v.wf()
                &&& !v.poisoned()
                &&& v.bank() == 0
                &&& v.metadata().is_initial()
                &&& forall|s: u64| s < SECTORS ==> #[trigger] sector_zero(old(disk).contents(), s)
                &&& final(disk).contents() == apply_steps(old(disk).contents(), v.metadata(), 0, 7)
            },
            !(forall|s: u64| s < SECTORS ==> #[trigger] sector_zero(old(disk).contents(), s)) ==> r is Err
                && final(disk).contents() == old(disk).contents(),
            old(disk).dependable() && (forall|s: u64| s < SECTORS ==> #[trigger] old(disk).contents().dom().contains(s)) ==> {
                &&& r is Ok <==> forall|s: u64| s < SECTORS ==> #[trigger] sector_zero(old(disk).contents(), s)
                &&& r is Err ==> r == Err::<Self, Error>(Error::Corrupt)
            },
    {
        let ghost c = disk.contents();
        let mut sector: u64 = 0;
        while sector < SECTORS
            invariant
                0 <= sector <= SECTORS,
                disk.contents() == c,
                disk.dependable() == old(disk).dependable(),
                c == old(disk).contents(),
                forall|s: u64| s < sector ==> #[trigger] sector_zero(c, s),
            decreases SECTORS - sector,
        {
            let mut bytes = [0u8; 512];
            disk.read(sector, &mut bytes)?;
            assert(c[sector] == bytes@);
            if !all_zero(&bytes) {
                assert(!sector_zero(c, sector));
                return Err(Error::Corrupt);
            }
            assert(sector_zero(c, sector));
            sector = sector + 1;
        }
        let metadata = Metadata::initial();
        proof {
            if forall|s: u64| s < SECTORS ==> #[trigger] c.dom().contains(s) {
                assert forall|step: int| 0 <= step < spec_write_steps(metadata)
                    implies (#[trigger] step_effect(metadata, 0, step) matches Some(w) ==> c.dom().contains(w.0)) by {
                    match step_effect(metadata, 0, step) {
                        Some(w) => {
                            assert(w.0 < SECTORS);
                        },
                        None => {},
                    }
                }
                assert(steps_present(c, metadata, 0));
            }
        }
        if metadata.write(disk, 0).is_err() {
            return Err(Error::Uncertain);
        }
        Ok(Self { metadata, bank: 0, poisoned: false })
    }

    /// `Uncertain` while the fence is up.
    pub fn ready(&self) -> (r: Result<(), Error>)
        ensures
            r is Ok <==> !self.poisoned(),
            r is Err ==> r == Err::<(), Error>(Error::Uncertain),
    {
        if self.poisoned {
            Err(Error::Uncertain)
        } else {
            Ok(())
        }
    }

    /// The live generation.
    pub(crate) fn current(&self) -> (r: &Metadata)
        ensures
            *r == self.metadata(),
    {
        &self.metadata
    }

    /// The live generation's sequence.
    pub fn sequence(&self) -> (r: u64)
        ensures
            r == self.metadata().sequence,
    {
        self.metadata.sequence
    }

    /// The record of live object `id`.
    pub fn stat(&self, id: u32) -> (r: Result<Node, Error>)
        ensures
            r == self.spec_stat(id),
    {
        self.ready()?;
        let i = self.metadata.index(id)?;
        Ok(self.metadata.nodes[i])
    }

    /// The live record under `parent` (0 for the roots) named `name`.
    pub fn lookup(&self, parent: u32, name: &[u8]) -> (r: Result<Node, Error>)
        requires
            self.wf(),
        ensures
            r == self.spec_lookup(parent, name@),
    {
        self.ready()?;
        valid_name(name)?;
        if parent != 0 {
            let p = self.stat(parent)?;
            if p.kind != Kind::Directory {
                return Err(Error::NotDirectory);
            }
        }
        let ghost answer: Result<Node, Error> = match find_child(self.metadata().nodes@, parent, name@, 0) {
            Some(k) => Ok(self.metadata().nodes@[k]),
            None => Err(Error::NotFound),
        };
        assert(self.spec_lookup(parent, name@) == answer);
        let mut i: usize = 0;
        while i < OBJECTS
            invariant
                0 <= i <= OBJECTS,
                self.wf(),
                self.spec_lookup(parent, name@) == answer,
                answer == match find_child(self.metadata().nodes@, parent, name@, 0) {
                    Some(k) => Ok::<Node, Error>(self.metadata().nodes@[k]),
                    None => Err::<Node, Error>(Error::NotFound),
                },
                find_child(self.metadata().nodes@, parent, name@, 0) == find_child(self.metadata().nodes@, parent, name@, i as int),
            decreases OBJECTS - i,
        {
            let n = self.metadata.nodes[i];
            assert(n.name_length <= 32);
            if n.kind != Kind::Empty && n.parent == parent && slices_equal(n.name(), name) {
                assert(child_at(self.metadata().nodes@[i as int], parent, name@));
                return Ok(n);
            }
            i = i + 1;
        }
        Err(Error::NotFound)
    }

    /// The first live record under `parent` at or after slot `cursor`, with the
    /// cursor that continues after it; `None` past the last.
    pub fn list(&self, parent: u32, cursor: usize) -> (r: Result<Option<(usize, Node)>, Error>)
        ensures
            r == self.spec_list(parent, cursor),
    {
        self.ready()?;
        if cursor > OBJECTS {
            return Err(Error::Invalid);
        }
        if parent != 0 {
            let p = self.stat(parent)?;
            if p.kind != Kind::Directory {
                return Err(Error::NotDirectory);
            }
        }
        let ghost answer: Result<Option<(usize, Node)>, Error> = match find_listed(self.metadata().nodes@, parent, cursor as int) {
            Some(k) => Ok(Some(((k + 1) as usize, self.metadata().nodes@[k]))),
            None => Ok(None),
        };
        assert(self.spec_list(parent, cursor) == answer);
        let mut i: usize = cursor;
        while i < OBJECTS
            invariant
                cursor <= i <= OBJECTS,
                self.spec_list(parent, cursor) == answer,
                answer == match find_listed(self.metadata().nodes@, parent, cursor as int) {
                    Some(k) => Ok::<Option<(usize, Node)>, Error>(Some(((k + 1) as usize, self.metadata().nodes@[k]))),
                    None => Ok::<Option<(usize, Node)>, Error>(None),
                },
                find_listed(self.metadata().nodes@, parent, cursor as int) == find_listed(self.metadata().nodes@, parent, i as int),
            decreases OBJECTS - i,
        {
            let n = self.metadata.nodes[i];
            if n.kind != Kind::Empty && n.parent == parent {
                return Ok(Some((i + 1, n)));
            }
            i = i + 1;
        }
        Ok(None)
    }

    /// Whether `id` is live and `scope` (0 for anywhere) is it or one of its
    /// ancestors.
    pub fn within(&self, id: u32, scope: u32) -> (r: bool)
        ensures
            r == self.spec_within(id, scope),
    {
        if scope == 0 {
            return self.stat(id).is_ok();
        }
        let mut current = id;
        let mut fuel: usize = OBJECTS;
        while fuel > 0
            invariant
                fuel <= OBJECTS,
                scope != 0,
                self.climbs_to(id, scope, OBJECTS as nat) == self.climbs_to(current, scope, fuel as nat),
            decreases fuel,
        {
            let n = match self.stat(current) {
                Ok(n) => n,
                Err(_) => {
                    return false;
                },
            };
            if current == scope {
                return true;
            }
            if n.parent == 0 {
                return false;
            }
            current = n.parent;
            fuel = fuel - 1;
        }
        false
    }

    /// The record of `id` if it may be changed.
    pub fn writable(&self, id: u32) -> (r: Result<Node, Error>)
        ensures
            r == self.spec_writable(id),
    {
        let n = self.stat(id)?;
        if n.space == 1 {
            Err(Error::ReadOnly)
        } else {
            Ok(n)
        }
    }

    /// Membership is a storage fact, not authorization: `id` is live and
    /// inside live directory `workspace`.
    pub fn resolve(&self, workspace: u32, id: u32) -> (r: Result<Node, Error>)
        ensures
            r == self.spec_resolve(workspace, id),
    {
        let directory = self.stat(workspace)?;
        if directory.kind != Kind::Directory {
            return Err(Error::NotDirectory);
        }
        let node = self.stat(id)?;
        if !self.within(id, workspace) {
            return Err(Error::NotFound);
        }
        Ok(node)
    }
}

} // verus!

verus! {

/// `m` with its sequence replaced.
pub open spec fn with_sequence(m: Metadata, sequence: u64) -> Metadata {
    Metadata { sequence, ..m }
}

/// The first empty slot at or after `from`.
pub open spec fn first_empty(nodes: Seq<Node>, from: int) -> Option<int>
    decreases nodes.len() - from,
{
    if from < 0 || from >= nodes.len() {
        None
    } else if nodes[from].kind == Kind::Empty {
        Some(from)
    } else {
        first_empty(nodes, from + 1)
    }
}

/// `n` is a freshly created record with these fields and an empty payload.
pub open spec fn created(n: Node, id: u32, parent: u32, space: u8, kind: Kind, name: Seq<u8>, version: u64) -> bool {
    &&& n.id == id
    &&& n.parent == parent
    &&& n.space == space
    &&& n.kind == kind
    &&& n.version == version
    &&& n.length == 0
    &&& n.bank == 0
    &&& n.checksum == 0
    &&& n.spec_name() == name
    &&& n.name_padded()
}

impl Volume {
    /// The live generation, for the modules that build the next one.
    pub(crate) fn live(&self) -> (r: &Metadata)
        ensures
            *r == self.metadata(),
    {
        &self.metadata
    }

    /// The live bank.
    pub(crate) fn live_bank(&self) -> (r: u8)
        ensures
            r == self.bank(),
    {
        self.bank
    }

    /// Raise the fence.
    pub(crate) fn fence(&mut self)
        ensures
            final(self).poisoned(),
            final(self).metadata() == old(self).metadata(),
            final(self).bank() == old(self).bank(),
    {
        self.poisoned = true;
    }

    /// Lower the fence.
    pub(crate) fn unfence(&mut self)
        ensures
            !final(self).poisoned(),
            final(self).metadata() == old(self).metadata(),
            final(self).bank() == old(self).bank(),
    {
        self.poisoned = false;
    }

    /// Make a fully published generation live in the other bank.
    pub(crate) fn install(&mut self, next: Metadata)
        requires
            old(self).bank() <= 1,
        ensures
            final(self).metadata() == next,
            final(self).bank() == 1 - old(self).bank(),
            !final(self).poisoned(),
    {
        self.metadata = next;
        self.bank = 1 - self.bank;
        self.poisoned = false;
    }

    /// Publish `next` at the following sequence to the other bank and make it
    /// live. A failed publication raises the fence and is `Uncertain`.
    pub(crate) fn commit<D: Disk>(&mut self, disk: &mut D, next: Metadata) -> (r: Result<(), Error>)
        requires
            old(self).wf(),
            next.inv(),
        ensures
            final(self).wf(),
            old(self).metadata().sequence == u64::MAX ==> r == Err::<(), Error>(Error::Exhausted)
                && *final(self) == *old(self) && final(disk).contents() == old(disk).contents(),
            old(self).metadata().sequence < u64::MAX ==> {
                let published = with_sequence(next, (old(self).metadata().sequence + 1) as u64);
                &&& r is Ok ==> final(self).metadata() == published && final(self).bank() == 1 - old(self).bank()
                    && !final(self).poisoned() && final(disk).contents() == apply_steps(
                    old(disk).contents(),
                    published,
                    (1 - old(self).bank()) as u8,
                    spec_write_steps(published),
                )
                &&& r is Err ==> r == Err::<(), Error>(Error::Uncertain) && final(self).poisoned()
                    && final(self).metadata() == old(self).metadata() && final(self).bank() == old(self).bank()
                &&& old(disk).dependable() && disk_present5(old(disk).contents()) ==> r is Ok
            },
            final(disk).dependable() == old(disk).dependable(),
    {
        if self.metadata.sequence == u64::MAX {
            return Err(Error::Exhausted);
        }
        let mut next = next;
        next.sequence = self.metadata.sequence + 1;
        proof {
            if disk_present5(disk.contents()) {
                crate::format::lemma_steps_inside(disk.contents(), next, (1 - self.bank) as u8);
            }
        }
        if next.write(disk, 1 - self.bank).is_err() {
            self.poisoned = true;
            return Err(Error::Uncertain);
        }
        self.metadata = next;
        self.bank = 1 - self.bank;
        self.poisoned = false;
        Ok(())
    }

    /// What `create` answers before anything is published: the slot and record,
    /// or the refusal.
    pub open spec fn spec_plan_create(&self, parent: u32, name: Seq<u8>, kind: Kind) -> Result<(int, u32), Error> {
        let m = self.metadata();
        if !spec_valid_name(name) || kind == Kind::Empty {
            Err(Error::Invalid)
        } else if self.spec_writable(parent) is Err {
            Err(self.spec_writable(parent)->Err_0)
        } else if self.spec_writable(parent).unwrap().kind != Kind::Directory {
            Err(Error::NotDirectory)
        } else if self.spec_lookup(parent, name) is Ok {
            Err(Error::Exists)
        } else if self.spec_lookup(parent, name)->Err_0 != Error::NotFound {
            Err(self.spec_lookup(parent, name)->Err_0)
        } else if first_empty(m.nodes@, 0) is None {
            Err(Error::Full)
        } else if m.next == u32::MAX || m.sequence == u64::MAX {
            Err(Error::Exhausted)
        } else {
            Ok((first_empty(m.nodes@, 0).unwrap(), self.spec_writable(parent).unwrap().space as u32))
        }
    }

    /// Create an empty file or directory named `name` under directory `parent`
    /// and publish it.
    pub fn create<D: Disk>(&mut self, disk: &mut D, parent: u32, name: &[u8], kind: Kind) -> (r: Result<Node, Error>)
        requires
            old(self).wf(),
        ensures
            final(self).wf(),
            old(self).spec_plan_create(parent, name@, kind) matches Err(e) ==> r == Err::<Node, Error>(e)
                && *final(self) == *old(self) && final(disk).contents() == old(disk).contents(),
            old(self).spec_plan_create(parent, name@, kind) matches Ok((slot, space)) ==> {
                let m = old(self).metadata();
                let version = (m.sequence + 1) as u64;
                &&& r matches Ok(n) ==> {
                    let published = Metadata {
                        sequence: version,
                        next: (m.next + 1) as u32,
                        nodes: final(self).metadata().nodes,
                        recovery: m.recovery,
                    };
                    &&& created(n, m.next, parent, space as u8, kind, name@, version)
                    &&& final(self).metadata() == published
                    &&& published.nodes@ == m.nodes@.update(slot, n)
                    &&& final(self).bank() == 1 - old(self).bank()
                    &&& !final(self).poisoned()
                    &&& final(disk).contents() == apply_steps(old(disk).contents(), published, (1 - old(self).bank()) as u8, spec_write_steps(published))
                }
                &&& r is Err ==> r == Err::<Node, Error>(Error::Uncertain) && final(self).poisoned()
                    && final(self).metadata() == m
                &&& old(disk).dependable() && disk_present5(old(disk).contents()) ==> r is Ok
            },
    {
        let ghost plan = self.spec_plan_create(parent, name@, kind);
        valid_name(name)?;
        if kind == Kind::Empty {
            return Err(Error::Invalid);
        }
        let directory = self.writable(parent)?;
        if directory.kind != Kind::Directory {
            return Err(Error::NotDirectory);
        }
        match self.lookup(parent, name) {
            Ok(_) => {
                return Err(Error::Exists);
            },
            Err(Error::NotFound) => {},
            Err(e) => {
                return Err(e);
            },
        }
        let mut slot: usize = 0;
        while slot < OBJECTS && self.metadata.nodes[slot].kind != Kind::Empty
            invariant
                0 <= slot <= OBJECTS,
                first_empty(self.metadata().nodes@, 0) == first_empty(self.metadata().nodes@, slot as int),
            decreases OBJECTS - slot,
        {
            slot = slot + 1;
        }
        if slot == OBJECTS {
            return Err(Error::Full);
        }
        if self.metadata.next == u32::MAX || self.metadata.sequence == u64::MAX {
            return Err(Error::Exhausted);
        }
        let id = self.metadata.next;
        let node = match Node::new(id, parent, directory.space, kind, name, self.metadata.sequence + 1) {
            Ok(n) => n,
            Err(e) => {
                return Err(e);
            },
        };
        let mut next = self.metadata;
        next.next = id + 1;
        next.nodes[slot] = node;
        assert(next.inv()) by {
            assert forall|k: int| 0 <= k < OBJECTS implies (#[trigger] next.nodes@[k]).name_length <= 32
                && next.nodes@[k].length <= MAX_FILE && next.nodes@[k].bank <= 1 by {
                if k != slot {
                    assert(next.nodes@[k] == self.metadata().nodes@[k]);
                }
            }
        }
        self.commit(disk, next)?;
        Ok(node)
    }

    /// What `remove` answers before anything is published: the slot, or the refusal.
    pub open spec fn spec_plan_remove(&self, id: u32) -> Result<int, Error> {
        if self.spec_writable(id) is Err {
            Err(self.spec_writable(id)->Err_0)
        } else if self.spec_writable(id).unwrap().parent == 0 {
            Err(Error::ReadOnly)
        } else if has_child(self.metadata().nodes@, id) {
            Err(Error::NotEmpty)
        } else if self.metadata().sequence == u64::MAX {
            Err(Error::Exhausted)
        } else {
            Ok(find_id(self.metadata().nodes@, id, 0).unwrap())
        }
    }

    /// Remove an empty object outside the roots and publish the removal.
    pub fn remove<D: Disk>(&mut self, disk: &mut D, id: u32) -> (r: Result<(), Error>)
        requires
            old(self).wf(),
        ensures
            final(self).wf(),
            old(self).spec_plan_remove(id) matches Err(e) ==> r == Err::<(), Error>(e)
                && *final(self) == *old(self) && final(disk).contents() == old(disk).contents(),
            old(self).spec_plan_remove(id) matches Ok(slot) ==> {
                let m = old(self).metadata();
                &&& r is Ok ==> {
                    &&& final(self).metadata().sequence == m.sequence + 1
                    &&& final(self).metadata().next == m.next
                    &&& final(self).metadata().recovery == m.recovery
                    &&& final(self).metadata().nodes@ == m.nodes@.update(slot, empty_node())
                    &&& final(self).bank() == 1 - old(self).bank()
                    &&& !final(self).poisoned()
                    &&& final(disk).contents() == apply_steps(old(disk).contents(), final(self).metadata(), (1 - old(self).bank()) as u8, spec_write_steps(final(self).metadata()))
                }
                &&& r is Err ==> r == Err::<(), Error>(Error::Uncertain) && final(self).poisoned()
                    && final(self).metadata() == m
            },
    {
        let node = self.writable(id)?;
        if node.parent == 0 {
            return Err(Error::ReadOnly);
        }
        let mut i: usize = 0;
        while i < OBJECTS
            invariant
                0 <= i <= OBJECTS,
                *self == *old(self),
                old(self).wf(),
                old(self).spec_writable(id) == Ok::<Node, Error>(node),
                node.parent != 0,
                forall|k: int| 0 <= k < i ==> !listed(#[trigger] self.metadata().nodes@[k], id),
            decreases OBJECTS - i,
        {
            let n = self.metadata.nodes[i];
            if n.kind != Kind::Empty && n.parent == id {
                assert(listed(self.metadata().nodes@[i as int], id));
                return Err(Error::NotEmpty);
            }
            i = i + 1;
        }
        if self.metadata.sequence == u64::MAX {
            return Err(Error::Exhausted);
        }
        let slot = self.metadata.index(id)?;
        let mut next = self.metadata;
        next.nodes[slot] = Node::empty();
        assert(next.inv()) by {
            assert forall|k: int| 0 <= k < OBJECTS implies (#[trigger] next.nodes@[k]).name_length <= 32
                && next.nodes@[k].length <= MAX_FILE && next.nodes@[k].bank <= 1 by {
                if k != slot {
                    assert(next.nodes@[k] == self.metadata().nodes@[k]);
                }
            }
        }
        self.commit(disk, next)
    }
}

} // verus!

verus! {

/// `changed` is `node` holding `bytes` in its other bank at `version`.
pub open spec fn replaced(changed: Node, node: Node, bytes: Seq<u8>, version: u64) -> bool {
    changed == Node {
        bank: (1 - node.bank) as u8,
        length: bytes.len() as u16,
        checksum: spec_crc(bytes),
        version,
        ..node
    }
}

/// `bytes` followed by zeros to a full data extent.
pub open spec fn padded(bytes: Seq<u8>) -> Seq<u8> {
    bytes + Seq::new((MAX_FILE - bytes.len()) as nat, |i: int| 0u8)
}

/// The smaller of two counts.
pub open spec fn min_count(a: int, b: int) -> int {
    if a < b {
        a
    } else {
        b
    }
}

impl Volume {
    /// What a replacement of `id` at `version` with `len` bytes answers before
    /// anything is written: the slot, or the refusal.
    pub open spec fn spec_plan_replace(&self, id: u32, version: u64, len: nat) -> Result<int, Error> {
        if self.spec_writable(id) is Err {
            Err(self.spec_writable(id)->Err_0)
        } else if self.spec_writable(id).unwrap().kind != Kind::File {
            Err(Error::IsDirectory)
        } else if self.spec_writable(id).unwrap().version != version {
            Err(Error::Version)
        } else if len > MAX_FILE {
            Err(Error::Size)
        } else if self.metadata().sequence == u64::MAX {
            Err(Error::Exhausted)
        } else {
            Ok(find_id(self.metadata().nodes@, id, 0).unwrap())
        }
    }

    /// The generation that replaces `id`'s bytes, built on `next`: the slot,
    /// the changed record and `next` carrying it at the following sequence.
    pub(crate) fn plan_recorded(&self, id: u32, version: u64, bytes: &[u8], next: Metadata) -> (r: Result<(Metadata, usize, Node), Error>)
        requires
            self.wf(),
            next.inv(),
        ensures
            self.spec_plan_replace(id, version, bytes@.len()) matches Err(e) ==> r == Err::<(Metadata, usize, Node), Error>(e),
            self.spec_plan_replace(id, version, bytes@.len()) matches Ok(slot) ==> r matches Ok((m, s, changed)) && {
                &&& s == slot
                &&& slot < OBJECTS
                &&& replaced(changed, self.metadata().nodes@[slot], bytes@, (self.metadata().sequence + 1) as u64)
                &&& m == Metadata { sequence: (self.metadata().sequence + 1) as u64, nodes: m.nodes, ..next }
                &&& m.nodes@ == next.nodes@.update(slot, changed)
                &&& m.inv()
                &&& changed.bank <= 1
            },
    {
        let node = self.writable(id)?;
        if node.kind != Kind::File {
            return Err(Error::IsDirectory);
        }
        if node.version != version {
            return Err(Error::Version);
        }
        if bytes.len() > MAX_FILE {
            return Err(Error::Size);
        }
        if self.metadata.sequence == u64::MAX {
            return Err(Error::Exhausted);
        }
        let slot = self.metadata.index(id)?;
        let changed = Node {
            bank: 1 - node.bank,
            length: bytes.len() as u16,
            checksum: crc(bytes),
            version: self.metadata.sequence + 1,
            ..node
        };
        let mut next = next;
        next.nodes[slot] = changed;
        next.sequence = changed.version;
        assert(next.inv()) by {
            assert forall|k: int| 0 <= k < OBJECTS implies (#[trigger] next.nodes@[k]).name_length <= 32
                && next.nodes@[k].length <= MAX_FILE && next.nodes@[k].bank <= 1 by {
                if k == slot {
                    assert(self.metadata().nodes@[k].name_length <= 32);
                }
            }
        }
        Ok((next, slot, changed))
    }

    /// Prepare a replacement of `id`'s bytes at `version` without issuing
    /// I/O. The returned publication may be cancelled between commands, until
    /// its header is submitted; meanwhile the volume is fenced.
    pub fn prepare_replace(&mut self, id: u32, version: u64, bytes: &[u8]) -> (r: Result<Publication<Node>, Error>)
        requires
            old(self).wf(),
        ensures
            final(self).wf(),
            old(self).spec_plan_replace(id, version, bytes@.len()) matches Err(e) ==> r == Err::<Publication<Node>, Error>(e) && *final(self) == *old(self),
            old(self).spec_plan_replace(id, version, bytes@.len()) matches Ok(slot) ==> r matches Ok(p) && {
                let changed = p.spec_result();
                &&& p.wf()
                &&& p.spec_phase() == PublicationPhase::Preparing
                &&& p.spec_step() == 0
                &&& !p.spec_pending()
                &&& !p.spec_stopping()
                &&& replaced(changed, old(self).metadata().nodes@[slot], bytes@, (old(self).metadata().sequence + 1) as u64)
                &&& p.plan().0 == Metadata { sequence: (old(self).metadata().sequence + 1) as u64, nodes: p.plan().0.nodes, ..old(self).metadata() }
                &&& p.plan().0.nodes@ == old(self).metadata().nodes@.update(slot, changed)
                &&& p.plan().1 == padded(bytes@)
                &&& p.plan().2 == spec_data_sector(slot, changed.bank)
                &&& p.plan().3 == 3
                &&& final(self).poisoned()
                &&& final(self).metadata() == old(self).metadata()
                &&& final(self).bank() == old(self).bank()
            },
    {
        let (next, slot, changed) = self.plan_recorded(id, version, bytes, self.metadata)?;
        let first = data_sector(slot, changed.bank);
        let p = Publication::new(self, next, first, bytes, true, changed);
        assert(p.plan().1 =~= padded(bytes@));
        Ok(p)
    }

    /// Replace `id`'s bytes at `version` and publish: the data extent in the
    /// record's other bank, a flush, then the next generation.
    pub fn replace<D: Disk>(&mut self, disk: &mut D, id: u32, version: u64, bytes: &[u8]) -> (r: Result<Node, Error>)
        requires
            old(self).wf(),
        ensures
            final(self).wf(),
            old(self).spec_plan_replace(id, version, bytes@.len()) matches Err(e) ==> r == Err::<Node, Error>(e)
                && *final(self) == *old(self) && final(disk).contents() == old(disk).contents(),
            old(self).spec_plan_replace(id, version, bytes@.len()) matches Ok(slot) ==> {
                let m = old(self).metadata();
                &&& r matches Ok(n) ==> {
                    let published = final(self).metadata();
                    let plan: Plan = (published, padded(bytes@), spec_data_sector(slot, n.bank), 3nat);
                    &&& replaced(n, m.nodes@[slot], bytes@, (m.sequence + 1) as u64)
                    &&& published == Metadata { sequence: (m.sequence + 1) as u64, nodes: published.nodes, ..m }
                    &&& published.nodes@ == m.nodes@.update(slot, n)
                    &&& final(self).bank() == 1 - old(self).bank()
                    &&& !final(self).poisoned()
                    &&& final(disk).contents() == apply_plan(old(disk).contents(), plan, (1 - old(self).bank()) as u8, 0, plan_total(plan))
                }
                &&& r is Err ==> r == Err::<Node, Error>(Error::Uncertain) && final(self).poisoned()
                    && final(self).metadata() == m && final(self).bank() == old(self).bank()
                &&& old(disk).dependable() && disk_present5(old(disk).contents()) ==> r is Ok
            },
    {
        let mut p = self.prepare_replace(id, version, bytes)?;
        proof {
            let slot = old(self).spec_plan_replace(id, version, bytes@.len())->Ok_0;
            lemma_find_id(old(self).metadata().nodes@, id, 0);
            assert(0 <= slot < OBJECTS);
            assert(p.spec_result().bank <= 1) by {
                assert(p.plan().0.nodes@[slot] == p.spec_result());
            }
            if disk_present5(disk.contents()) {
                crate::publication::lemma_plan_inside(disk.contents(), p.plan(), (1 - self.bank()) as u8);
            }
        }
        p.run(self, disk)
    }

    /// What a read of `id` answers before the device is touched.
    pub open spec fn spec_read_check(&self, id: u32, expected: Option<u64>, offset: usize) -> Result<Node, Error> {
        match self.spec_stat(id) {
            Err(e) => Err(e),
            Ok(n) => if expected is Some && expected.unwrap() != n.version {
                Err(Error::Version)
            } else if n.kind != Kind::File {
                Err(Error::IsDirectory)
            } else if offset > n.length {
                Err(Error::Size)
            } else {
                Ok(n)
            },
        }
    }

    /// Read `id` from `offset` into `output`, pinned to `expected` when given.
    /// The stored bytes are checked against the record's checksum before any
    /// output is written; on error `output` is untouched. A successful count
    /// may be zero at the end of the file.
    pub fn read_versioned<D: Disk>(&self, disk: &mut D, id: u32, expected: Option<u64>, offset: usize, output: &mut [u8]) -> (r: Result<(Node, usize), Error>)
        requires
            self.wf(),
        ensures
            final(disk).contents() == old(disk).contents(),
            r is Err ==> final(output)@ == old(output)@,
            self.spec_read_check(id, expected, offset) matches Err(e) ==> r == Err::<(Node, usize), Error>(e),
            r matches Ok((n, count)) ==> {
                let slot = find_id(self.metadata().nodes@, id, 0).unwrap();
                let data = sectors_from(old(disk).contents(), spec_data_sector(slot, n.bank), 2);
                &&& self.spec_read_check(id, expected, offset) == Ok::<Node, Error>(n)
                &&& count == if n.length == 0 { 0 } else { min_count(old(output)@.len() as int, n.length - offset) }
                &&& n.length > 0 ==> spec_crc(data.take(n.length as int)) == n.checksum
                &&& final(output)@ == data.subrange(offset as int, offset + count) + old(output)@.skip(count as int)
            },
            self.spec_read_check(id, expected, offset) is Ok && self.spec_read_check(id, expected, offset)->Ok_0.length == 0
                ==> r == Ok::<(Node, usize), Error>((self.spec_read_check(id, expected, offset)->Ok_0, 0usize)) && final(output)@ == old(output)@,
            self.spec_read_check(id, expected, offset) is Ok && self.spec_read_check(id, expected, offset)->Ok_0.length > 0 ==> {
                let n = self.spec_read_check(id, expected, offset)->Ok_0;
                let slot = find_id(self.metadata().nodes@, id, 0).unwrap();
                let start = spec_data_sector(slot, n.bank);
                let data = sectors_from(old(disk).contents(), start, 2);
                &&& r is Err && sectors_present(old(disk).contents(), start, 2) ==> r == Err::<(Node, usize), Error>(Error::Corrupt)
                    || !old(disk).dependable()
                &&& old(disk).dependable() && sectors_present(old(disk).contents(), start, 2)
                    ==> (r is Ok <==> spec_crc(data.take(n.length as int)) == n.checksum)
            },
    {
        let node = self.stat(id)?;
        if let Some(v) = expected {
            if v != node.version {
                return Err(Error::Version);
            }
        }
        if node.kind != Kind::File {
            return Err(Error::IsDirectory);
        }
        if offset > node.length as usize {
            return Err(Error::Size);
        }
        if node.length == 0 {
            assert(output@ =~= Seq::<u8>::empty() + output@.skip(0));
            return Ok((node, 0));
        }
        let slot = self.metadata.index(id)?;
        assert(node.length <= MAX_FILE);
        let mut bytes = [0u8; MAX_FILE];
        crate::format::read_sectors(disk, data_sector(slot, node.bank), 2, &mut bytes)?;
        let length = node.length as usize;
        if crc(vstd::slice::slice_subrange(bytes.as_slice(), 0, length)) != node.checksum {
            return Err(Error::Corrupt);
        }
        let available = length - offset;
        let count = if output.len() < available { output.len() } else { available };
        let ghost before = output@;
        let mut i: usize = 0;
        while i < count
            invariant
                0 <= i <= count,
                count <= before.len(),
                offset + count <= MAX_FILE,
                output@.len() == before.len(),
                forall|k: int| 0 <= k < i ==> output@[k] == bytes@[offset + k],
                forall|k: int| i <= k < before.len() ==> output@[k] == before[k],
            decreases count - i,
        {
            output[i] = bytes[offset + i];
            i = i + 1;
        }
        assert(output@ =~= bytes@.subrange(offset as int, offset + count) + before.skip(count as int));
        Ok((node, count))
    }

    /// Read `id` from `offset` into `output`; the count read.
    pub fn read<D: Disk>(&self, disk: &mut D, id: u32, offset: usize, output: &mut [u8]) -> (r: Result<usize, Error>)
        requires
            self.wf(),
        ensures
            final(disk).contents() == old(disk).contents(),
            r is Err ==> final(output)@ == old(output)@,
            self.spec_read_check(id, None, offset) matches Err(e) ==> r == Err::<usize, Error>(e),
            r matches Ok(count) ==> {
                let n = self.spec_read_check(id, None, offset).unwrap();
                let slot = find_id(self.metadata().nodes@, id, 0).unwrap();
                let data = sectors_from(old(disk).contents(), spec_data_sector(slot, n.bank), 2);
                &&& self.spec_read_check(id, None, offset) is Ok
                &&& count == if n.length == 0 { 0 } else { min_count(old(output)@.len() as int, n.length - offset) }
                &&& n.length > 0 ==> spec_crc(data.take(n.length as int)) == n.checksum
                &&& final(output)@ == data.subrange(offset as int, offset + count) + old(output)@.skip(count as int)
            },
    {
        match self.read_versioned(disk, id, None, offset, output) {
            Ok((_, count)) => Ok(count),
            Err(e) => Err(e),
        }
    }
}

} // verus!

verus! {

use crate::publication::plan_effect;
use crate::format::{effect, holds_id};

/// Commands `from..to` of a publication that never write sector `s` leave it
/// as it was.
proof fn lemma_apply_plan_frame(c: Map<u64, Seq<u8>>, p: Plan, bank: u8, from: nat, to: nat, s: u64)
    requires
        forall|step: int| from <= step < to ==> (#[trigger] plan_effect(p, bank, step) matches Some(w) ==> w.0 != s),
    ensures
        apply_plan(c, p, bank, from, to).dom().contains(s) == c.dom().contains(s),
        apply_plan(c, p, bank, from, to)[s] == c[s],
    decreases to - from,
{
    if from < to {
        let e = plan_effect(p, bank, from as int);
        assert(effect(c, e).dom().contains(s) == c.dom().contains(s) && effect(c, e)[s] == c[s]);
        lemma_apply_plan_frame(effect(c, e), p, bank, from + 1, to, s);
    }
}

/// What a replacement publishes reads back: once `replace` has answered
/// `n` for `id` with `bytes`, moving `before` to `after` and the device from
/// `c0` to `c1`, a read of `id` pinned to `n`'s version passes its checks
/// with `n`, and `n`'s data extent holds `bytes` followed by zeros, present on
/// the device, with the checksum `n` records.
pub proof fn lemma_replace_reads_back(before: Volume, after: Volume, c0: Map<u64, Seq<u8>>, c1: Map<u64, Seq<u8>>, id: u32,
    version: u64, bytes: Seq<u8>, n: Node)
    requires
        before.wf(),
        before.spec_plan_replace(id, version, bytes.len()) is Ok,
        ({
            let slot = before.spec_plan_replace(id, version, bytes.len())->Ok_0;
            let m = before.metadata();
            let published = after.metadata();
            let plan: Plan = (published, padded(bytes), spec_data_sector(slot, n.bank), 3nat);
            &&& replaced(n, m.nodes@[slot], bytes, (m.sequence + 1) as u64)
            &&& published.nodes@ == m.nodes@.update(slot, n)
            &&& !after.poisoned()
            &&& after.bank() == 1 - before.bank()
            &&& c1 == apply_plan(c0, plan, (1 - before.bank()) as u8, 0, plan_total(plan))
        }),
    ensures
        ({
            let slot = before.spec_plan_replace(id, version, bytes.len())->Ok_0;
            let start = spec_data_sector(slot, n.bank);
            &&& after.spec_read_check(id, Some(n.version), 0) == Ok::<Node, Error>(n)
            &&& find_id(after.metadata().nodes@, id, 0) == Some(slot)
            &&& n.length == bytes.len()
            &&& sectors_present(c1, start, 2)
            &&& sectors_from(c1, start, 2) == padded(bytes)
            &&& sectors_from(c1, start, 2).take(bytes.len() as int) == bytes
            &&& spec_crc(bytes) == n.checksum
        }),
{
    let slot = before.spec_plan_replace(id, version, bytes.len())->Ok_0;
    let m = before.metadata();
    let published = after.metadata();
    let plan: Plan = (published, padded(bytes), spec_data_sector(slot, n.bank), 3nat);
    let bank = (1 - before.bank()) as u8;
    let start = spec_data_sector(slot, n.bank);
    lemma_find_id(m.nodes@, id, 0);
    assert(0 <= slot < OBJECTS);
    assert(m.nodes@[slot].bank <= 1);
    assert(n.bank <= 1);
    assert(start + 1 < 160);
    let total = plan_total(plan);
    let c2 = apply_plan(c0, plan, bank, 0, 2);
    assert(apply_plan(c0, plan, bank, 0, total) == apply_plan(c2, plan, bank, 2, total)) by {
        let e0 = plan_effect(plan, bank, 0);
        let e1 = plan_effect(plan, bank, 1);
        assert(apply_plan(c0, plan, bank, 0, total) == apply_plan(effect(c0, e0), plan, bank, 1, total));
        assert(apply_plan(effect(c0, e0), plan, bank, 1, total) == apply_plan(effect(effect(c0, e0), e1), plan, bank, 2, total));
        assert(apply_plan(effect(c0, e0), plan, bank, 1, 2) == apply_plan(effect(effect(c0, e0), e1), plan, bank, 2, 2));
    }
    assert(c2 == c0.insert(start, padded(bytes).subrange(0, 512)).insert((start + 1) as u64, padded(bytes).subrange(512, 1024))) by {
        let e0 = plan_effect(plan, bank, 0);
        let e1 = plan_effect(plan, bank, 1);
        assert(e0 == Some((start, padded(bytes).subrange(0, 512))));
        assert(e1 == Some(((start + 1) as u64, padded(bytes).subrange(512, 1024))));
        assert(apply_plan(c0, plan, bank, 0, 2) == apply_plan(effect(c0, e0), plan, bank, 1, 2));
        assert(apply_plan(effect(c0, e0), plan, bank, 1, 2) == apply_plan(effect(effect(c0, e0), e1), plan, bank, 2, 2));
        assert(apply_plan(effect(effect(c0, e0), e1), plan, bank, 2, 2) == effect(effect(c0, e0), e1));
    }
    assert forall|step: int| 2 <= step < total implies (#[trigger] plan_effect(plan, bank, step) matches Some(w) ==> w.0 != start) by {
        if step >= 3 {
            assert(step_effect(published, bank, step - 3) matches Some(w) ==> (w.0 >= 160 || w.0 < 32));
        }
    }
    assert forall|step: int| 2 <= step < total implies (#[trigger] plan_effect(plan, bank, step) matches Some(w) ==> w.0 != (start + 1) as u64) by {
        if step >= 3 {
            assert(step_effect(published, bank, step - 3) matches Some(w) ==> (w.0 >= 160 || w.0 < 32));
        }
    }
    lemma_apply_plan_frame(c2, plan, bank, 2, total, start);
    lemma_apply_plan_frame(c2, plan, bank, 2, total, (start + 1) as u64);
    assert(padded(bytes).len() == 1024);
    assert(sectors_from(c1, start, 2) == c1[start] + c1[(start + 1) as u64]) by {
        assert(sectors_from(c1, start, 0) == Seq::<u8>::empty());
        assert(sectors_from(c1, start, 1) == sectors_from(c1, start, 0) + c1[(start + 1 - 1) as u64]);
        assert(((start + 1 - 1) as u64) == start);
        assert(sectors_from(c1, start, 1) =~= c1[start]);
        assert(sectors_from(c1, start, 2) == sectors_from(c1, start, 1) + c1[(start + 2 - 1) as u64]);
    }
    assert(sectors_from(c1, start, 2) =~= padded(bytes));
    assert(padded(bytes).take(bytes.len() as int) =~= bytes);
    assert forall|k: int| 0 <= k < 2 implies c1.dom().contains(#[trigger] ((start + k) as u64)) && c1[(start + k) as u64].len() == 512 by {
        if k == 0 {
            assert(((start + k) as u64) == start);
        } else {
            assert(((start + k) as u64) == (start + 1) as u64);
        }
    }
    assert forall|i: int| 0 <= i < slot implies #[trigger] published.nodes@[i] == m.nodes@[i] by {}
    assert(published.nodes@[slot] == n);
    assert(holds_id(n, id));
    lemma_find_id(published.nodes@, id, 0);
    assert(find_id(published.nodes@, id, 0) == Some(slot)) by {
        lemma_find_prefix(m.nodes@, published.nodes@, id, 0, slot);
    }
}

/// Two slot tables that agree before `slot`, and both hold `id` there, find
/// `id` at the same place from `from`.
proof fn lemma_find_prefix(a: Seq<Node>, b: Seq<Node>, id: u32, from: int, slot: int)
    requires
        0 <= from <= slot < a.len(),
        a.len() == b.len(),
        find_id(a, id, from) == Some(slot),
        holds_id(b[slot], id),
        forall|i: int| from <= i < slot ==> #[trigger] b[i] == a[i],
    ensures
        find_id(b, id, from) == Some(slot),
    decreases slot - from,
{
    if from < slot {
        lemma_find_prefix(a, b, id, from + 1, slot);
    }
}

} // verus!

verus! {

/// `path` leads from `id` up to `scope` through live records: every entry
/// but the last is live and names the next entry, a nonzero id, as its
/// parent; `scope` itself is live.
pub open spec fn ancestry(v: Volume, path: Seq<u32>, id: u32, scope: u32) -> bool {
    &&& path.len() >= 1
    &&& path[0] == id
    &&& path.last() == scope
    &&& v.spec_stat(scope) is Ok
    &&& forall|i: int| 0 <= i < path.len() - 1 ==> (#[trigger] v.spec_stat(path[i])) is Ok
        && v.spec_stat(path[i])->Ok_0.parent == path[i + 1] && path[i + 1] != 0
}

/// A path of at most `fuel` entries from position `k` on is climbed.
proof fn lemma_path_climbs(v: Volume, path: Seq<u32>, id: u32, scope: u32, k: int, fuel: nat)
    requires
        ancestry(v, path, id, scope),
        0 <= k < path.len(),
        fuel >= path.len() - k,
    ensures
        v.climbs_to(path[k], scope, fuel),
    decreases path.len() - k,
{
    if k < path.len() - 1 && path[k] != scope {
        assert(v.spec_stat(path[k]) is Ok);
        lemma_path_climbs(v, path, id, scope, k + 1, (fuel - 1) as nat);
    }
}

/// A climb that succeeds within `fuel` steps follows a path of at most
/// `fuel` entries.
proof fn lemma_climb_path(v: Volume, current: u32, scope: u32, fuel: nat) -> (path: Seq<u32>)
    requires
        v.climbs_to(current, scope, fuel),
    ensures
        ancestry(v, path, current, scope),
        path.len() <= fuel,
    decreases fuel,
{
    let n = v.spec_stat(current)->Ok_0;
    if current == scope {
        let path = seq![current];
        assert(path.last() == scope);
        path
    } else {
        let rest = lemma_climb_path(v, n.parent, scope, (fuel - 1) as nat);
        let path = seq![current] + rest;
        assert(path[0] == current);
        assert(path.last() == rest.last());
        assert forall|i: int| 0 <= i < path.len() - 1 implies (#[trigger] v.spec_stat(path[i])) is Ok
            && v.spec_stat(path[i])->Ok_0.parent == path[i + 1] && path[i + 1] != 0 by {
            if i == 0 {
                assert(path[1] == rest[0]);
            } else {
                assert(path[i] == rest[i - 1]);
                assert(path[i + 1] == rest[i]);
                assert(v.spec_stat(rest[i - 1]) is Ok);
            }
        }
        path
    }
}

/// Scoping is reachability: a live `id` lies within a nonzero `scope`
/// exactly when a chain of live records, each naming the next as its parent,
/// leads from `id` up to `scope` in at most as many entries as a volume has
/// slots, whatever the depth.
pub proof fn lemma_within_is_ancestry(v: Volume, id: u32, scope: u32)
    requires
        scope != 0,
    ensures
        v.spec_within(id, scope) <==> exists|path: Seq<u32>| #[trigger] ancestry(v, path, id, scope) && path.len() <= OBJECTS,
{
    if v.spec_within(id, scope) {
        let path = lemma_climb_path(v, id, scope, OBJECTS as nat);
        assert(ancestry(v, path, id, scope) && path.len() <= OBJECTS);
    }
    if exists|path: Seq<u32>| #[trigger] ancestry(v, path, id, scope) && path.len() <= OBJECTS {
        let path = choose|path: Seq<u32>| #[trigger] ancestry(v, path, id, scope) && path.len() <= OBJECTS;
        lemma_path_climbs(v, path, id, scope, 0, OBJECTS as nat);
    }
}

} // verus!

verus! {

/// Where the first child of `parent` from `from` is, or that there is none.
proof fn lemma_find_listed_at(nodes: Seq<Node>, parent: u32, from: int)
    requires
        0 <= from <= nodes.len(),
    ensures
        find_listed(nodes, parent, from) matches Some(i) ==> from <= i < nodes.len() && listed(nodes[i], parent)
            && forall|j: int| from <= j < i ==> !listed(#[trigger] nodes[j], parent),
        find_listed(nodes, parent, from) is None ==> forall|j: int| from <= j < nodes.len() ==> !listed(#[trigger] nodes[j], parent),
    decreases nodes.len() - from,
{
    if from < nodes.len() {
        lemma_find_listed_at(nodes, parent, from + 1);
    }
}

/// Where the first child of `parent` named `name` from `from` is, or that
/// there is none.
proof fn lemma_find_child_at(nodes: Seq<Node>, parent: u32, name: Seq<u8>, from: int)
    requires
        0 <= from <= nodes.len(),
    ensures
        find_child(nodes, parent, name, from) matches Some(i) ==> from <= i < nodes.len() && child_at(nodes[i], parent, name),
        find_child(nodes, parent, name, from) is None ==> forall|j: int| from <= j < nodes.len() ==> !child_at(#[trigger] nodes[j], parent, name),
    decreases nodes.len() - from,
{
    if from < nodes.len() {
        lemma_find_child_at(nodes, parent, name, from + 1);
    }
}

impl Volume {
    /// Listing steps through the children in slot order: a listed record is
    /// live, under `parent`, in the slot just before the returned cursor, at
    /// or after `cursor`, with no other child of `parent` between; `None`
    /// means no child of `parent` lies at or after `cursor`. Starting at zero
    /// and following the cursors therefore lists every child exactly once.
    pub proof fn lemma_list_steps(&self, parent: u32, cursor: usize)
        ensures
            self.spec_list(parent, cursor) matches Ok(Some((next, n))) ==> {
                let nodes = self.metadata().nodes@;
                &&& cursor < next <= OBJECTS
                &&& n == nodes[next - 1]
                &&& n.kind != Kind::Empty && n.parent == parent
                &&& forall|j: int| cursor <= j < next - 1 ==> !((#[trigger] nodes[j]).kind != Kind::Empty && nodes[j].parent == parent)
            },
            self.spec_list(parent, cursor) == Ok::<Option<(usize, Node)>, Error>(None) ==> forall|j: int| cursor <= j < OBJECTS
                ==> !((#[trigger] self.metadata().nodes@[j]).kind != Kind::Empty && self.metadata().nodes@[j].parent == parent),
    {
        if self.spec_list(parent, cursor) is Ok {
            lemma_find_listed_at(self.metadata().nodes@, parent, cursor as int);
        }
    }

    /// A lookup finds by name: what it returns is a live record under
    /// `parent` carrying `name`, and `NotFound` for a valid name under a
    /// usable parent means no live record under `parent` carries it.
    pub proof fn lemma_lookup_finds(&self, parent: u32, name: Seq<u8>)
        ensures
            self.spec_lookup(parent, name) matches Ok(n) ==> n.kind != Kind::Empty && n.parent == parent && n.spec_name() == name
                && exists|i: int| 0 <= i < OBJECTS && self.metadata().nodes@[i] == n,
            self.spec_lookup(parent, name) == Err::<Node, Error>(Error::NotFound) && spec_valid_name(name)
                && (parent == 0 || self.spec_stat(parent) is Ok) ==> forall|j: int| 0 <= j < OBJECTS
                ==> !((#[trigger] self.metadata().nodes@[j]).kind != Kind::Empty && self.metadata().nodes@[j].parent == parent
                    && self.metadata().nodes@[j].spec_name() == name),
    {
        lemma_find_child_at(self.metadata().nodes@, parent, name, 0);
        if self.spec_lookup(parent, name) is Ok && !(parent != 0 && self.spec_stat(parent) is Err) {
            let i = find_child(self.metadata().nodes@, parent, name, 0)->Some_0;
            assert(0 <= i < OBJECTS && self.metadata().nodes@[i] == self.spec_lookup(parent, name)->Ok_0);
        }
        if self.spec_lookup(parent, name) == Err::<Node, Error>(Error::NotFound) && spec_valid_name(name)
            && (parent == 0 || self.spec_stat(parent) is Ok) {
            assert forall|j: int| 0 <= j < OBJECTS implies !((#[trigger] self.metadata().nodes@[j]).kind != Kind::Empty
                && self.metadata().nodes@[j].parent == parent && self.metadata().nodes@[j].spec_name() == name) by {
                assert(!child_at(self.metadata().nodes@[j], parent, name));
            }
        }
    }
}

} // verus!
