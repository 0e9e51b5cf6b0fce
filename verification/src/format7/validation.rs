//! Structural checks spanning one decoded generation: the namespace, the
//! retained records against the namespace and each other, and the ownership
//! of every allocated payload sector.
use vstd::prelude::*;
use crate::checksum::{crc, spec_crc};
use crate::codec::slices_equal;
use crate::extent::{Extent, DATA_SECTORS, MAP_WORDS, bit, set_bit, get_bit, lemma_words_from_bits, marked};
use crate::format::root_name;
use crate::format7::{Header7, NODES, Node7, RETAINED, Record7, RecordState, overlap, run_live, is_zero_run};
use crate::format7::header::header7_valid;
use crate::format7::node::node7_valid;
use crate::format7::record::record7_valid;
use crate::namespace::Kind;
use crate::volume6::covered;
use crate::volume7::{find7, lemma_find7, live7};
use crate::volume7::namespace::name7;
use crate::Error;

verus! {

/// Two live records that may not coexist: one identity twice, or one name
/// twice under one parent.
pub open spec fn clash7(prior: Node7, n: Node7) -> bool {
    prior.kind != Kind::Empty && (prior.id == n.id || (prior.parent == n.parent && name7(prior) == name7(n)))
}

/// A root record is one of the four fixed directories, in its own space.
pub open spec fn root7_ok(n: Node7) -> bool {
    &&& 1 <= n.id <= 4
    &&& n.kind == Kind::Directory
    &&& n.space == n.id
    &&& name7(n) == root_name(n.id)
}

/// The rules slot `i` meets on its own and against the slots before it.
pub open spec fn node_rules7(h: Header7, nodes: Seq<Node7>, i: int) -> bool {
    let n = nodes[i];
    &&& node7_valid(n)
    &&& n.kind != Kind::Empty ==> {
        &&& (n.kind == Kind::File && n.length == 0 ==> n.payload_crc32 == spec_crc(Seq::empty()))
        &&& n.id < h.next
        &&& n.version <= h.sequence
        &&& forall|j: int| 0 <= j < i ==> !clash7(#[trigger] nodes[j], n)
        &&& (n.parent == 0 ==> root7_ok(n))
    }
}

/// Root `id` is present.
pub open spec fn root_present7(nodes: Seq<Node7>, id: u32) -> bool {
    exists|i: int| 0 <= i < nodes.len() && #[trigger] live7(nodes[i], id) && nodes[i].parent == 0
}

/// Walking up from `ancestor` reaches a root within `NODES` steps without
/// meeting `id` or a missing record.
pub open spec fn chain7(nodes: Seq<Node7>, id: u32, ancestor: u32, depth: nat) -> bool
    decreases NODES - depth,
{
    if ancestor == 0 {
        true
    } else if depth >= NODES || ancestor == id {
        false
    } else {
        match find7(nodes, ancestor, 0) {
            None => false,
            Some(i) => chain7(nodes, id, nodes[i].parent, depth + 1),
        }
    }
}

/// A non-root record sits under a live directory of its own space and its
/// ancestry ends at a root.
pub open spec fn placed7(nodes: Seq<Node7>, i: int) -> bool {
    let n = nodes[i];
    n.kind == Kind::Empty || n.parent == 0 || {
        &&& match find7(nodes, n.parent, 0) {
            None => false,
            Some(p) => nodes[p].kind == Kind::Directory && nodes[p].space == n.space,
        }
        &&& chain7(nodes, n.id, n.parent, 0)
    }
}

/// The namespace of a generation is sound.
pub open spec fn nodes_valid7(h: Header7, nodes: Seq<Node7>) -> bool {
    &&& forall|i: int| 0 <= i < NODES ==> #[trigger] node_rules7(h, nodes, i)
    &&& forall|id: u32| 1 <= id <= 4 ==> #[trigger] root_present7(nodes, id)
    &&& forall|i: int| 0 <= i < NODES ==> #[trigger] placed7(nodes, i)
}

/// The first slot holding object `id`.
pub fn find_node(nodes: &[Node7; NODES], id: u32) -> (r: Option<usize>)
    ensures
        r == (match find7(nodes@, id, 0) {
            Some(i) => Some(i as usize),
            None => None::<usize>,
        }),
        r matches Some(i) ==> i < NODES && live7(nodes@[i as int], id) && find7(nodes@, id, 0) == Some(i as int),
        r is None ==> find7(nodes@, id, 0) is None,
{
    proof {
        lemma_find7(nodes@, id, 0);
    }
    let mut i: usize = 0;
    while i < NODES
        invariant
            0 <= i <= NODES,
            find7(nodes@, id, 0) == find7(nodes@, id, i as int),
        decreases NODES - i,
    {
        if nodes[i].kind != Kind::Empty && nodes[i].id == id {
            return Some(i);
        }
        i = i + 1;
    }
    None
}

/// The CRC of no bytes.
fn empty_crc() -> (r: u32)
    ensures
        r == spec_crc(Seq::empty()),
{
    let none: [u8; 0] = [];
    assert(none@ =~= Seq::<u8>::empty());
    crc(none.as_slice())
}

/// Slot `index` meets its own rules and clashes with no earlier slot.
fn node_rules(header: &Header7, nodes: &[Node7; NODES], index: usize) -> (r: bool)
    requires
        index < NODES,
        forall|j: int| 0 <= j < index ==> node7_valid(#[trigger] nodes@[j]),
    ensures
        r == node_rules7(*header, nodes@, index as int),
{
    let node = nodes[index];
    if node.validate().is_err() {
        return false;
    }
    if node.kind == Kind::Empty {
        return true;
    }
    if node.kind == Kind::File && node.length == 0 && node.payload_crc32 != empty_crc() {
        return false;
    }
    if node.id >= header.next || node.version > header.sequence {
        return false;
    }
    let mut j: usize = 0;
    while j < index
        invariant
            0 <= j <= index < NODES,
            node == nodes@[index as int],
            node7_valid(node),
            node.kind != Kind::Empty,
            forall|k: int| 0 <= k < index ==> node7_valid(#[trigger] nodes@[k]),
            forall|k: int| 0 <= k < j ==> !clash7(#[trigger] nodes@[k], node),
        decreases index - j,
    {
        let prior = nodes[j];
        assert(prior == nodes@[j as int]);
        assert(node7_valid(prior));
        if prior.kind != Kind::Empty && (prior.id == node.id || (prior.parent == node.parent && slices_equal(prior.name(), node.name()))) {
            assert(clash7(nodes@[j as int], node));
            return false;
        }
        j = j + 1;
    }
    if node.parent == 0 {
        if node.id < 1 || node.id > 4 || node.kind != Kind::Directory || node.space as u32 != node.id {
            return false;
        }
        if !slices_equal(node.name(), crate::format::root_name_bytes(node.id)) {
            return false;
        }
    }
    true
}

/// Walking up from `start` reaches a root.
fn chain_sound(nodes: &[Node7; NODES], id: u32, start: u32) -> (r: bool)
    ensures
        r == chain7(nodes@, id, start, 0),
{
    let mut ancestor = start;
    let mut depth: usize = 0;
    loop
        invariant
            depth <= NODES,
            chain7(nodes@, id, start, 0) == chain7(nodes@, id, ancestor, depth as nat),
        decreases NODES - depth,
    {
        if ancestor == 0 {
            return true;
        }
        if depth == NODES || ancestor == id {
            return false;
        }
        match find_node(nodes, ancestor) {
            None => {
                return false;
            },
            Some(i) => {
                assert(nodes[i as int] == nodes@[i as int]);
                assert(chain7(nodes@, id, ancestor, depth as nat) == chain7(nodes@, id, nodes@[i as int].parent, (depth + 1) as nat));
                ancestor = nodes[i].parent;
            },
        }
        depth = depth + 1;
    }
}

/// The namespace rules of a generation; every refusal is `Corrupt`.
pub fn validate_nodes(header: &Header7, nodes: &[Node7; NODES]) -> (r: Result<(), Error>)
    ensures
        r is Ok <==> nodes_valid7(*header, nodes@),
        r is Err ==> r == Err::<(), Error>(Error::Corrupt),
{
    let mut roots = [false; 4];
    let mut index: usize = 0;
    while index < NODES
        invariant
            0 <= index <= NODES,
            forall|i: int| 0 <= i < index ==> #[trigger] node_rules7(*header, nodes@, i),
            forall|k: int| 0 <= k < 4 ==> (#[trigger] roots@[k] <==> exists|i: int| 0 <= i < index && #[trigger] live7(nodes@[i], (k + 1) as u32) && nodes@[i].parent == 0),
        decreases NODES - index,
    {
        assert forall|j: int| 0 <= j < index implies node7_valid(#[trigger] nodes@[j]) by {
            assert(node_rules7(*header, nodes@, j));
        }
        if !node_rules(header, nodes, index) {
            assert(!nodes_valid7(*header, nodes@)) by {
                assert(!node_rules7(*header, nodes@, index as int));
            }
            return Err(Error::Corrupt);
        }
        let node = nodes[index];
        assert(node == nodes@[index as int]);
        let ghost before = roots;
        if node.kind != Kind::Empty && node.parent == 0 {
            assert(root7_ok(node));
            roots[(node.id - 1) as usize] = true;
        }
        proof {
            assert forall|k: int| 0 <= k < 4 implies (#[trigger] roots@[k] <==> exists|i: int| 0 <= i < index + 1 && #[trigger] live7(nodes@[i], (k + 1) as u32) && nodes@[i].parent == 0) by {
                if live7(nodes@[index as int], (k + 1) as u32) && nodes@[index as int].parent == 0 {
                    assert(roots@[k]);
                } else {
                    if roots@[k] {
                        assert(before@[k]);
                    }
                    if exists|i: int| 0 <= i < index + 1 && #[trigger] live7(nodes@[i], (k + 1) as u32) && nodes@[i].parent == 0 {
                        let i = choose|i: int| 0 <= i < index + 1 && #[trigger] live7(nodes@[i], (k + 1) as u32) && nodes@[i].parent == 0;
                        assert(i != index);
                        assert(before@[k]);
                    }
                }
            }
        }
        index = index + 1;
    }
    let mut k: usize = 0;
    while k < 4
        invariant
            0 <= k <= 4,
            forall|i: int| 0 <= i < NODES ==> #[trigger] node_rules7(*header, nodes@, i),
            forall|m: int| 0 <= m < 4 ==> (#[trigger] roots@[m] <==> exists|i: int| 0 <= i < NODES && #[trigger] live7(nodes@[i], (m + 1) as u32) && nodes@[i].parent == 0),
            forall|id: u32| 1 <= id <= k ==> #[trigger] root_present7(nodes@, id),
        decreases 4 - k,
    {
        if !roots[k] {
            assert(!root_present7(nodes@, (k + 1) as u32));
            return Err(Error::Corrupt);
        }
        assert(root_present7(nodes@, (k + 1) as u32));
        k = k + 1;
    }
    let mut index: usize = 0;
    while index < NODES
        invariant
            0 <= index <= NODES,
            forall|i: int| 0 <= i < NODES ==> #[trigger] node_rules7(*header, nodes@, i),
            forall|id: u32| 1 <= id <= 4 ==> #[trigger] root_present7(nodes@, id),
            forall|i: int| 0 <= i < index ==> #[trigger] placed7(nodes@, i),
        decreases NODES - index,
    {
        let node = nodes[index];
        assert(node == nodes@[index as int]);
        if node.kind != Kind::Empty && node.parent != 0 {
            match find_node(nodes, node.parent) {
                None => {
                    assert(!placed7(nodes@, index as int));
                    return Err(Error::Corrupt);
                },
                Some(p) => {
                    let parent = nodes[p];
                    assert(parent == nodes@[p as int]);
                    assert(find7(nodes@, node.parent, 0) == Some(p as int));
                    if parent.kind != Kind::Directory || parent.space != node.space {
                        assert(!placed7(nodes@, index as int));
                        return Err(Error::Corrupt);
                    }
                },
            }
            if !chain_sound(nodes, node.id, node.parent) {
                assert(!placed7(nodes@, index as int));
                return Err(Error::Corrupt);
            }
        }
        assert(placed7(nodes@, index as int));
        index = index + 1;
    }
    Ok(())
}

} // verus!

verus! {

/// A state whose record carries a committed version.
pub open spec fn committed_state(s: RecordState) -> bool {
    s == RecordState::DirectCommitted || s == RecordState::AdmittedCommitted
}

/// The file's live record holds exactly the record's committed payload.
pub open spec fn same_content7(r: Record7, n: Node7) -> bool {
    &&& n.kind == Kind::File
    &&& n.length == r.length
    &&& n.payload_crc32 == r.payload_crc32
    &&& n.extents_used == r.extents_used
    &&& n.extents == r.extents
}

/// A record agrees with the live record of its object, if there is one: a
/// file no older than the version it replaced, not advanced inside an open
/// admission, and at or past a committed version, holding exactly its payload
/// when at it.
pub open spec fn target_ok7(r: Record7, nodes: Seq<Node7>) -> bool {
    match find7(nodes, r.object, 0) {
        None => true,
        Some(k) => {
            let n = nodes[k];
            &&& n.kind == Kind::File
            &&& n.version >= r.previous
            &&& !((r.state == RecordState::Admitted || r.state == RecordState::Cancelled) && n.version > r.previous
                && n.version <= r.admission_number)
            &&& committed_state(r.state) ==> n.version >= r.committed && (n.version == r.committed ==> same_content7(r, n))
        },
    }
}

/// Two records of one retry identity.
pub open spec fn same_retry7(a: Record7, b: Record7) -> bool {
    a.subject == b.subject && a.workspace == b.workspace && a.retry_epoch == b.retry_epoch && a.retry_key == b.retry_key
}

/// `x` is one of `b`'s event sequences.
pub open spec fn event_of7(x: u64, b: Record7) -> bool {
    x != 0 && (x == b.admission_number || x == b.terminal || x == b.committed)
}

/// Two records name one event sequence.
pub open spec fn share_event7(a: Record7, b: Record7) -> bool {
    event_of7(a.admission_number, b) || event_of7(a.terminal, b) || event_of7(a.committed, b)
}

/// The sequence at which a record observed the version it replaces.
pub open spec fn observed7(r: Record7) -> u64 {
    if r.state == RecordState::DirectCommitted {
        r.committed
    } else {
        r.admission_number
    }
}

/// While an admitted commit was open, another record of the object saw the
/// same replaced version.
pub open spec fn admission_unchanged7(c: Record7, o: Record7) -> bool {
    c.state != RecordState::AdmittedCommitted || {
        let e = observed7(o);
        !(c.admission_number < e && e < c.committed) || o.previous == c.previous
    }
}

/// Two records of one object describe one history: observations ordered as
/// the versions they replaced, no commit inside an open admission, commits in
/// version order, and nothing observed after a commit replacing what preceded it.
pub open spec fn history_ok7(l: Record7, r: Record7) -> bool {
    l.object != r.object || {
        let lo = observed7(l);
        let ro = observed7(r);
        &&& lo != ro
        &&& lo < ro ==> l.previous <= r.previous
        &&& lo > ro ==> r.previous <= l.previous
        &&& admission_unchanged7(l, r)
        &&& admission_unchanged7(r, l)
        &&& committed_state(l.state) && committed_state(r.state) ==> if l.committed < r.committed {
            r.previous >= l.committed
        } else {
            l.previous >= r.committed
        }
        &&& committed_state(l.state) && ro > l.committed ==> r.previous >= l.committed
        &&& committed_state(r.state) && lo > r.committed ==> l.previous >= r.committed
    }
}

/// The rules retained slot `i` meets against the header, the namespace and the
/// slots before it.
pub open spec fn receipt_rules7(h: Header7, nodes: Seq<Node7>, receipts: Seq<Option<Record7>>, i: int) -> bool {
    match receipts[i] {
        None => true,
        Some(r) => {
            &&& record7_valid(r, h.sequence, h.next)
            &&& r.retry_epoch == h.epoch
            &&& target_ok7(r, nodes)
            &&& forall|j: int| 0 <= j < i ==> (#[trigger] receipts[j] matches Some(p) ==> !same_retry7(r, p)
                && !share_event7(r, p) && history_ok7(r, p))
        },
    }
}

fn target_ok(record: &Record7, nodes: &[Node7; NODES]) -> (r: bool)
    ensures
        r == target_ok7(*record, nodes@),
{
    match find_node(nodes, record.object) {
        None => true,
        Some(k) => {
            let node = nodes[k];
            assert(node == nodes@[k as int]);
            if node.kind != Kind::File || node.version < record.previous {
                return false;
            }
            if (record.state == RecordState::Admitted || record.state == RecordState::Cancelled)
                && node.version > record.previous && node.version <= record.admission_number {
                return false;
            }
            if record.state == RecordState::DirectCommitted || record.state == RecordState::AdmittedCommitted {
                if node.version < record.committed {
                    return false;
                }
                if node.version == record.committed && !same_content(record, &node) {
                    return false;
                }
            }
            true
        },
    }
}

/// Whether a live file holds exactly a record's committed payload.
fn same_content(record: &Record7, node: &Node7) -> (r: bool)
    ensures
        r == same_content7(*record, *node),
{
    if node.kind != Kind::File || node.length != record.length || node.payload_crc32 != record.payload_crc32
        || node.extents_used != record.extents_used {
        return false;
    }
    let mut k: usize = 0;
    while k < 8
        invariant
            0 <= k <= 8,
            forall|j: int| 0 <= j < k ==> #[trigger] node.extents@[j] == record.extents@[j],
        decreases 8 - k,
    {
        if node.extents[k].start != record.extents[k].start || node.extents[k].sectors != record.extents[k].sectors {
            return false;
        }
        k = k + 1;
    }
    proof {
        assert(node.extents@ =~= record.extents@);
        crate::codec::lemma_array_view_eq(node.extents, record.extents);
    }
    true
}

fn observed(r: &Record7) -> (o: u64)
    ensures
        o == observed7(*r),
{
    if r.state == RecordState::DirectCommitted {
        r.committed
    } else {
        r.admission_number
    }
}

fn admission_unchanged(c: &Record7, o: &Record7) -> (r: bool)
    ensures
        r == admission_unchanged7(*c, *o),
{
    if c.state != RecordState::AdmittedCommitted {
        return true;
    }
    let e = observed(o);
    if c.admission_number < e && e < c.committed {
        o.previous == c.previous
    } else {
        true
    }
}

fn history_ok(l: &Record7, r: &Record7) -> (ok: bool)
    ensures
        ok == history_ok7(*l, *r),
{
    if l.object != r.object {
        return true;
    }
    let lo = observed(l);
    let ro = observed(r);
    let ordered = if lo < ro {
        l.previous <= r.previous
    } else if lo == ro {
        false
    } else {
        r.previous <= l.previous
    };
    if !ordered {
        return false;
    }
    if !admission_unchanged(l, r) || !admission_unchanged(r, l) {
        return false;
    }
    let lc = l.state == RecordState::DirectCommitted || l.state == RecordState::AdmittedCommitted;
    let rc = r.state == RecordState::DirectCommitted || r.state == RecordState::AdmittedCommitted;
    if lc && rc {
        let monotonic = if l.committed < r.committed {
            r.previous >= l.committed
        } else {
            l.previous >= r.committed
        };
        if !monotonic {
            return false;
        }
    }
    if lc && ro > l.committed && r.previous < l.committed {
        return false;
    }
    if rc && lo > r.committed && l.previous < r.committed {
        return false;
    }
    true
}

fn share_event(a: &Record7, b: &Record7) -> (r: bool)
    ensures
        r == share_event7(*a, *b),
{
    let x = [a.admission_number, a.terminal, a.committed];
    let mut k: usize = 0;
    while k < 3
        invariant
            0 <= k <= 3,
            x@ == seq![a.admission_number, a.terminal, a.committed],
            forall|j: int| 0 <= j < k ==> !event_of7(#[trigger] x@[j], *b),
        decreases 3 - k,
    {
        let v = x[k];
        if v != 0 && (v == b.admission_number || v == b.terminal || v == b.committed) {
            assert(event_of7(x@[k as int], *b));
            return true;
        }
        k = k + 1;
    }
    assert(!event_of7(x@[0], *b) && !event_of7(x@[1], *b) && !event_of7(x@[2], *b));
    false
}

/// The retained records agree with the header, the namespace and each other;
/// every refusal is `Corrupt`.
pub fn validate_receipts(header: &Header7, nodes: &[Node7; NODES], receipts: &[Option<Record7>; RETAINED]) -> (r: Result<(), Error>)
    ensures
        r is Ok <==> forall|i: int| 0 <= i < RETAINED ==> #[trigger] receipt_rules7(*header, nodes@, receipts@, i),
        r is Err ==> r == Err::<(), Error>(Error::Corrupt),
{
    let mut index: usize = 0;
    while index < RETAINED
        invariant
            0 <= index <= RETAINED,
            forall|i: int| 0 <= i < index ==> #[trigger] receipt_rules7(*header, nodes@, receipts@, i),
        decreases RETAINED - index,
    {
        let slot = receipts[index];
        assert(slot == receipts@[index as int]);
        if let Some(record) = slot {
            if record.validate(header.sequence, header.next).is_err() || record.retry_epoch != header.epoch
                || !target_ok(&record, nodes) {
                assert(!receipt_rules7(*header, nodes@, receipts@, index as int));
                return Err(Error::Corrupt);
            }
            let mut j: usize = 0;
            while j < index
                invariant
                    0 <= j <= index < RETAINED,
                    receipts@[index as int] == Some(record),
                    forall|k: int| 0 <= k < j ==> (#[trigger] receipts@[k] matches Some(p) ==> !same_retry7(record, p)
                        && !share_event7(record, p) && history_ok7(record, p)),
                decreases index - j,
            {
                let prior = receipts[j];
                assert(prior == receipts@[j as int]);
                if let Some(p) = prior {
                    let same = record.subject == p.subject && record.workspace == p.workspace
                        && record.retry_epoch == p.retry_epoch && record.retry_key == p.retry_key;
                    if same || share_event(&record, &p) || !history_ok(&record, &p) {
                        assert(!receipt_rules7(*header, nodes@, receipts@, index as int));
                        return Err(Error::Corrupt);
                    }
                }
                j = j + 1;
            }
        }
        assert(receipt_rules7(*header, nodes@, receipts@, index as int));
        index = index + 1;
    }
    Ok(())
}

} // verus!

verus! {

/// Sector `s` lies in one of `runs`.
pub open spec fn holds7(runs: Seq<Extent>, s: int) -> bool {
    exists|k: int| 0 <= k < runs.len() && #[trigger] runs[k].start <= s < runs[k].start + runs[k].sectors
}

/// No two of `runs` share a sector.
pub open spec fn disjoint7(runs: Seq<Extent>) -> bool {
    forall|a: int, b: int| 0 <= a < b < runs.len() ==> !overlap(#[trigger] runs[a], #[trigger] runs[b])
}

/// The runs a slot's live file owns.
pub open spec fn node_owned7(n: Node7) -> Seq<Extent> {
    if n.kind == Kind::File {
        n.extents@.take(n.extents_used as int)
    } else {
        Seq::empty()
    }
}

/// A committed record names exactly the live version of its object, so its
/// runs are that file's and not a second owner's.
pub open spec fn aliases7(r: Record7, nodes: Seq<Node7>) -> bool {
    committed_state(r.state) && match find7(nodes, r.object, 0) {
        None => false,
        Some(k) => nodes[k].version == r.committed && same_content7(r, nodes[k]),
    }
}

/// The runs a retained slot owns on its own.
pub open spec fn record_owned7(slot: Option<Record7>, nodes: Seq<Node7>) -> Seq<Extent> {
    match slot {
        Some(r) => if aliases7(r, nodes) {
            Seq::empty()
        } else {
            r.extents@.take(r.extents_used as int)
        },
        None => Seq::empty(),
    }
}

/// The owned runs of the first `k` owners: the node slots, then the
/// retained slots.
pub open spec fn owned_prefix7(nodes: Seq<Node7>, receipts: Seq<Option<Record7>>, k: int) -> Seq<Extent>
    decreases k,
{
    if k <= 0 {
        Seq::empty()
    } else {
        owned_prefix7(nodes, receipts, k - 1) + if k - 1 < NODES {
            node_owned7(nodes[k - 1])
        } else {
            record_owned7(receipts[k - 1 - NODES], nodes)
        }
    }
}

/// Every run a generation's live files and retained records own.
pub open spec fn owned7(nodes: Seq<Node7>, receipts: Seq<Option<Record7>>) -> Seq<Extent> {
    owned_prefix7(nodes, receipts, NODES + RETAINED)
}

/// A retained slot's own payload rules: an empty payload checksums as empty,
/// and at most one record aliases a live file.
pub open spec fn receipt_marks_ok7(nodes: Seq<Node7>, receipts: Seq<Option<Record7>>, i: int) -> bool {
    match receipts[i] {
        None => true,
        Some(r) => {
            &&& r.length == 0 ==> r.payload_crc32 == spec_crc(Seq::empty())
            &&& aliases7(r, nodes) ==> forall|j: int| 0 <= j < i ==> !(#[trigger] receipts[j] matches Some(p)
                && p.object == r.object && aliases7(p, nodes))
        },
    }
}

/// A decoded generation the mount may adopt: a valid header, a sound
/// namespace, consistent retained records, and an allocation map whose set
/// bits are exactly the sectors some owner holds, each held once.
pub open spec fn generation_valid7(h: Header7, nodes: Seq<Node7>, receipts: Seq<Option<Record7>>, map: Seq<u64>) -> bool {
    &&& header7_valid(h)
    &&& nodes_valid7(h, nodes)
    &&& forall|i: int| 0 <= i < RETAINED ==> #[trigger] receipt_rules7(h, nodes, receipts, i)
    &&& forall|i: int| 0 <= i < RETAINED ==> #[trigger] receipt_marks_ok7(nodes, receipts, i)
    &&& disjoint7(owned7(nodes, receipts))
    &&& forall|s: int| 0 <= s < DATA_SECTORS ==> #[trigger] bit(map, s) == holds7(owned7(nodes, receipts), s)
}

/// A generation that validates has its four roots present, no two live
/// slots sharing an identity or a (parent, name) pair, owned runs that share
/// no sector, and a map bit set exactly where an owned run holds the sector.
pub proof fn lemma_valid_generation(h: Header7, nodes: Seq<Node7>, receipts: Seq<Option<Record7>>, map: Seq<u64>)
    requires
        generation_valid7(h, nodes, receipts, map),
    ensures
        forall|id: u32| 1 <= id <= 4 ==> #[trigger] root_present7(nodes, id),
        forall|i: int, j: int| 0 <= i < j < NODES && (#[trigger] nodes[i]).kind != Kind::Empty && (#[trigger] nodes[j]).kind != Kind::Empty
            ==> nodes[i].id != nodes[j].id && !(nodes[i].parent == nodes[j].parent && name7(nodes[i]) == name7(nodes[j])),
        forall|a: int, b: int| 0 <= a < b < owned7(nodes, receipts).len()
            ==> !overlap(#[trigger] owned7(nodes, receipts)[a], #[trigger] owned7(nodes, receipts)[b]),
        forall|s: int| 0 <= s < DATA_SECTORS ==> (#[trigger] bit(map, s) <==> exists|k: int| 0 <= k < owned7(nodes, receipts).len()
            && #[trigger] owned7(nodes, receipts)[k].start <= s < owned7(nodes, receipts)[k].start + owned7(nodes, receipts)[k].sectors),
{
    assert forall|i: int, j: int| 0 <= i < j < NODES && (#[trigger] nodes[i]).kind != Kind::Empty && (#[trigger] nodes[j]).kind != Kind::Empty
        implies nodes[i].id != nodes[j].id && !(nodes[i].parent == nodes[j].parent && name7(nodes[i]) == name7(nodes[j])) by {
        assert(node_rules7(h, nodes, j));
        assert(!clash7(nodes[i], nodes[j]));
    }
    assert forall|s: int| 0 <= s < DATA_SECTORS implies (#[trigger] bit(map, s) <==> exists|k: int| 0 <= k < owned7(nodes, receipts).len()
        && #[trigger] owned7(nodes, receipts)[k].start <= s < owned7(nodes, receipts)[k].start + owned7(nodes, receipts)[k].sectors) by {
        assert(bit(map, s) == holds7(owned7(nodes, receipts), s));
    }
}

/// Overlapping runs share their later start.
proof fn lemma_overlap_witness(a: Extent, b: Extent)
    requires
        overlap(a, b),
        a.sectors > 0,
        b.sectors > 0,
    ensures
        ({
            let s = if a.start < b.start { b.start as int } else { a.start as int };
            a.start <= s < a.start + a.sectors && b.start <= s < b.start + b.sectors
        }),
{
}

/// Mark `runs` in the scratch map, which holds exactly the disjoint `before`.
/// A sector marked twice is `Corrupt`.
pub(crate) fn mark_runs(scratch: &mut Vec<u64>, runs: &[Extent], Ghost(before): Ghost<Seq<Extent>>) -> (r: Result<(), Error>)
    requires
        old(scratch)@.len() == MAP_WORDS,
        forall|k: int| 0 <= k < runs@.len() ==> #[trigger] run_live(runs@[k]),
        forall|k: int| 0 <= k < before.len() ==> #[trigger] run_live(before[k]),
        disjoint7(before),
        forall|s: int| 0 <= s < DATA_SECTORS ==> #[trigger] bit(old(scratch)@, s) == holds7(before, s),
    ensures
        final(scratch)@.len() == MAP_WORDS,
        r is Ok <==> disjoint7(before + runs@),
        r is Err ==> r == Err::<(), Error>(Error::Corrupt),
        r is Ok ==> forall|s: int| 0 <= s < DATA_SECTORS ==> #[trigger] bit(final(scratch)@, s) == holds7(before + runs@, s),
{
    let mut k: usize = 0;
    while k < runs.len()
        invariant
            0 <= k <= runs@.len(),
            scratch@.len() == MAP_WORDS,
            forall|j: int| 0 <= j < runs@.len() ==> #[trigger] run_live(runs@[j]),
            forall|j: int| 0 <= j < before.len() ==> #[trigger] run_live(before[j]),
            disjoint7(before + runs@.take(k as int)),
            forall|s: int| 0 <= s < DATA_SECTORS ==> #[trigger] bit(scratch@, s) == holds7(before + runs@.take(k as int), s),
        decreases runs@.len() - k,
    {
        let run = runs[k];
        assert(run == runs@[k as int]);
        assert(run_live(run));
        let ghost done = before + runs@.take(k as int);
        let ghost next = before + runs@.take(k + 1);
        assert(next =~= done.push(run));
        let end = run.start + run.sectors;
        let mut sector = run.start;
        while sector < end
            invariant
                run_live(run),
                end == run.start + run.sectors,
                run.start <= sector <= end <= DATA_SECTORS,
                scratch@.len() == MAP_WORDS,
                0 <= k < runs@.len(),
                run == runs@[k as int],
                done == before + runs@.take(k as int),
                next == before + runs@.take(k + 1),
                next == done.push(run),
                forall|j: int| 0 <= j < runs@.len() ==> #[trigger] run_live(runs@[j]),
                forall|j: int| 0 <= j < before.len() ==> #[trigger] run_live(before[j]),
                disjoint7(done),
                forall|s: int| run.start <= s < sector ==> !holds7(done, s),
                forall|s: int| 0 <= s < DATA_SECTORS ==> #[trigger] bit(scratch@, s) == (holds7(done, s) || (run.start <= s < sector)),
            decreases end - sector,
        {
            if get_bit(scratch.as_slice(), sector) {
                proof {
                    assert(holds7(done, sector as int));
                    let a = choose|a: int| 0 <= a < done.len() && #[trigger] done[a].start <= sector < done[a].start + done[a].sectors;
                    assert(overlap(done[a], run));
                    assert(!disjoint7(before + runs@)) by {
                        assert((before + runs@)[a] == done[a]);
                        assert((before + runs@)[done.len() as int] == run);
                        assert(overlap((before + runs@)[a], (before + runs@)[done.len() as int]));
                    }
                }
                return Err(Error::Corrupt);
            }
            let ghost prior = scratch@;
            set_bit(scratch, sector, true);
            assert forall|s: int| 0 <= s < DATA_SECTORS implies #[trigger] bit(scratch@, s) == (holds7(done, s) || (run.start <= s < sector + 1)) by {
                assert(bit(scratch@, s) == if sector <= s < sector + 1 { true } else { bit(prior, s) });
            }
            sector = sector + 1;
        }
        proof {
            assert forall|a: int, b: int| 0 <= a < b < next.len() implies !overlap(#[trigger] next[a], #[trigger] next[b]) by {
                if b == done.len() {
                    assert(next[b] == run);
                    assert(next[a] == done[a]);
                    if overlap(done[a], run) {
                        if a < before.len() {
                            assert(done[a] == before[a]);
                            assert(run_live(before[a]));
                        } else {
                            assert(done[a] == runs@[a - before.len()]);
                            assert(run_live(runs@[a - before.len()]));
                        }
                        lemma_overlap_witness(done[a], run);
                        let s = if done[a].start < run.start { run.start as int } else { done[a].start as int };
                        assert(holds7(done, s));
                    }
                } else {
                    assert(next[a] == done[a]);
                    assert(next[b] == done[b]);
                }
            }
            assert forall|s: int| 0 <= s < DATA_SECTORS implies #[trigger] bit(scratch@, s) == holds7(next, s) by {
                if holds7(next, s) {
                    let a = choose|a: int| 0 <= a < next.len() && #[trigger] next[a].start <= s < next[a].start + next[a].sectors;
                    if a < done.len() {
                        assert(next[a] == done[a]);
                        assert(holds7(done, s));
                    }
                }
                if holds7(done, s) {
                    let a = choose|a: int| 0 <= a < done.len() && #[trigger] done[a].start <= s < done[a].start + done[a].sectors;
                    assert(next[a] == done[a]);
                }
                if run.start <= s < end {
                    assert(next[done.len() as int] == run);
                }
            }
        }
        k = k + 1;
    }
    assert(runs@.take(runs@.len() as int) =~= runs@);
    Ok(())
}

} // verus!

verus! {

pub(crate) proof fn lemma_owned_prefix(nodes: Seq<Node7>, receipts: Seq<Option<Record7>>, k: int, m: int)
    requires
        0 <= k <= m,
    ensures
        owned_prefix7(nodes, receipts, k).len() <= owned_prefix7(nodes, receipts, m).len(),
        owned_prefix7(nodes, receipts, m).take(owned_prefix7(nodes, receipts, k).len() as int) == owned_prefix7(nodes, receipts, k),
    decreases m,
{
    if k == m {
        assert(owned_prefix7(nodes, receipts, m).take(owned_prefix7(nodes, receipts, m).len() as int) =~= owned_prefix7(nodes, receipts, m));
    } else {
        lemma_owned_prefix(nodes, receipts, k, m - 1);
        let short = owned_prefix7(nodes, receipts, k);
        let mid = owned_prefix7(nodes, receipts, m - 1);
        assert(owned_prefix7(nodes, receipts, m).take(short.len() as int) =~= mid.take(short.len() as int));
    }
}

pub(crate) proof fn lemma_disjoint_prefix(runs: Seq<Extent>, n: int)
    requires
        disjoint7(runs),
        0 <= n <= runs.len(),
    ensures
        disjoint7(runs.take(n)),
{
    assert forall|a: int, b: int| 0 <= a < b < runs.take(n).len() implies !overlap(#[trigger] runs.take(n)[a], #[trigger] runs.take(n)[b]) by {
        assert(runs.take(n)[a] == runs[a]);
        assert(runs.take(n)[b] == runs[b]);
    }
}

pub(crate) proof fn lemma_owned_live(nodes: Seq<Node7>, receipts: Seq<Option<Record7>>, h: Header7, k: int)
    requires
        nodes.len() == NODES,
        receipts.len() == RETAINED,
        0 <= k <= NODES + RETAINED,
        forall|i: int| 0 <= i < NODES ==> #[trigger] node_rules7(h, nodes, i),
        forall|i: int| 0 <= i < RETAINED ==> #[trigger] receipt_rules7(h, nodes, receipts, i),
    ensures
        forall|j: int| 0 <= j < owned_prefix7(nodes, receipts, k).len() ==> #[trigger] run_live(owned_prefix7(nodes, receipts, k)[j]),
    decreases k,
{
    if k > 0 {
        lemma_owned_live(nodes, receipts, h, k - 1);
        let head = owned_prefix7(nodes, receipts, k - 1);
        let whole = owned_prefix7(nodes, receipts, k);
        let piece = if k - 1 < NODES {
            node_owned7(nodes[k - 1])
        } else {
            record_owned7(receipts[k - 1 - NODES], nodes)
        };
        assert(whole == head + piece);
        assert forall|j: int| 0 <= j < piece.len() implies #[trigger] run_live(piece[j]) by {
            if k - 1 < NODES {
                assert(node_rules7(h, nodes, k - 1));
                let n = nodes[k - 1];
                assert(piece[j] == n.extents@[j]);
            } else {
                assert(receipt_rules7(h, nodes, receipts, k - 1 - NODES));
                let r = receipts[k - 1 - NODES]->Some_0;
                assert(piece[j] == r.extents@[j]);
            }
        }
        assert forall|j: int| 0 <= j < whole.len() implies #[trigger] run_live(whole[j]) by {
            if j < head.len() {
                assert(whole[j] == head[j]);
            } else {
                assert(whole[j] == piece[j - head.len()]);
            }
        }
    }
}

/// Whether a committed record names exactly its object's live version.
pub(crate) fn aliases_current(record: &Record7, nodes: &[Node7; NODES]) -> (r: bool)
    ensures
        r == aliases7(*record, nodes@),
{
    if record.state != RecordState::DirectCommitted && record.state != RecordState::AdmittedCommitted {
        return false;
    }
    match find_node(nodes, record.object) {
        None => false,
        Some(k) => {
            let node = nodes[k];
            assert(node == nodes@[k as int]);
            node.version == record.committed && same_content(record, &node)
        },
    }
}

/// Validate the namespace, the retained records and the ownership of every
/// allocated sector of a decoded generation. Header-region checksums and
/// payload bytes are not read here. `scratch` is cleared first and holds a
/// partial marking if validation fails. Every refusal is `Corrupt`.
pub fn validate_generation(
    header: &Header7,
    nodes: &[Node7; NODES],
    receipts: &[Option<Record7>; RETAINED],
    map: &[u64],
    scratch: &mut Vec<u64>,
) -> (r: Result<(), Error>)
    requires
        map@.len() == MAP_WORDS,
        old(scratch)@.len() == MAP_WORDS,
    ensures
        final(scratch)@.len() == MAP_WORDS,
        r is Ok <==> generation_valid7(*header, nodes@, receipts@, map@),
        r is Err ==> r == Err::<(), Error>(Error::Corrupt),
{
    let mut w: usize = 0;
    while w < MAP_WORDS
        invariant
            0 <= w <= MAP_WORDS,
            scratch@.len() == MAP_WORDS,
            forall|j: int| 0 <= j < w ==> #[trigger] scratch@[j] == 0u64,
        decreases MAP_WORDS - w,
    {
        scratch.set(w, 0);
        w = w + 1;
    }
    proof {
        assert forall|s: int| 0 <= s < DATA_SECTORS implies #[trigger] bit(scratch@, s) == holds7(Seq::<Extent>::empty(), s) by {
            assert(scratch@[s / 64] == 0u64);
            let k = (s % 64) as u64;
            assert(0u64 & (1u64 << k) == 0u64) by (bit_vector);
        }
    }
    header.validate()?;
    validate_nodes(header, nodes)?;
    validate_receipts(header, nodes, receipts)?;
    let ghost total = owned7(nodes@, receipts@);
    proof {
        lemma_owned_live(nodes@, receipts@, *header, NODES + RETAINED);
    }
    let mut i: usize = 0;
    while i < NODES
        invariant
            0 <= i <= NODES,
            scratch@.len() == MAP_WORDS,
            map@.len() == MAP_WORDS,
            total == owned7(nodes@, receipts@),
            forall|j: int| 0 <= j < total.len() ==> #[trigger] run_live(total[j]),
            header7_valid(*header),
            nodes_valid7(*header, nodes@),
            forall|k: int| 0 <= k < RETAINED ==> #[trigger] receipt_rules7(*header, nodes@, receipts@, k),
            disjoint7(owned_prefix7(nodes@, receipts@, i as int)),
            forall|s: int| 0 <= s < DATA_SECTORS ==> #[trigger] bit(scratch@, s) == holds7(owned_prefix7(nodes@, receipts@, i as int), s),
        decreases NODES - i,
    {
        let node = nodes[i];
        assert(node == nodes@[i as int]);
        proof {
            lemma_owned_prefix(nodes@, receipts@, i as int, NODES + RETAINED);
            lemma_owned_prefix(nodes@, receipts@, i + 1, NODES + RETAINED);
            let done = owned_prefix7(nodes@, receipts@, i as int);
            assert forall|j: int| 0 <= j < done.len() implies #[trigger] run_live(done[j]) by {
                assert(done[j] == total.take(done.len() as int)[j]);
            }
            assert(node_rules7(*header, nodes@, i as int));
        }
        if node.kind == Kind::File {
            let result = mark_runs(scratch, node.runs(), Ghost(owned_prefix7(nodes@, receipts@, i as int)));
            proof {
                assert(owned_prefix7(nodes@, receipts@, i + 1) == owned_prefix7(nodes@, receipts@, i as int) + node.extents@.take(node.extents_used as int));
            }
            if result.is_err() {
                proof {
                    let next = owned_prefix7(nodes@, receipts@, i + 1);
                    assert(next == total.take(next.len() as int));
                    if disjoint7(total) {
                        lemma_disjoint_prefix(total, next.len() as int);
                    }
                }
                return Err(Error::Corrupt);
            }
        } else {
            proof {
                assert(owned_prefix7(nodes@, receipts@, i + 1) =~= owned_prefix7(nodes@, receipts@, i as int));
            }
        }
        i = i + 1;
    }
    let mut slot: usize = 0;
    while slot < RETAINED
        invariant
            0 <= slot <= RETAINED,
            scratch@.len() == MAP_WORDS,
            map@.len() == MAP_WORDS,
            total == owned7(nodes@, receipts@),
            forall|j: int| 0 <= j < total.len() ==> #[trigger] run_live(total[j]),
            header7_valid(*header),
            nodes_valid7(*header, nodes@),
            forall|k: int| 0 <= k < RETAINED ==> #[trigger] receipt_rules7(*header, nodes@, receipts@, k),
            forall|k: int| 0 <= k < slot ==> #[trigger] receipt_marks_ok7(nodes@, receipts@, k),
            disjoint7(owned_prefix7(nodes@, receipts@, NODES + slot)),
            forall|s: int| 0 <= s < DATA_SECTORS ==> #[trigger] bit(scratch@, s) == holds7(owned_prefix7(nodes@, receipts@, NODES + slot), s),
        decreases RETAINED - slot,
    {
        let entry = receipts[slot];
        assert(entry == receipts@[slot as int]);
        let ghost k = NODES + slot;
        proof {
            lemma_owned_prefix(nodes@, receipts@, k, NODES + RETAINED);
            lemma_owned_prefix(nodes@, receipts@, k + 1, NODES + RETAINED);
            let done = owned_prefix7(nodes@, receipts@, k);
            assert forall|j: int| 0 <= j < done.len() implies #[trigger] run_live(done[j]) by {
                assert(done[j] == total.take(done.len() as int)[j]);
            }
            assert(receipt_rules7(*header, nodes@, receipts@, slot as int));
            assert(owned_prefix7(nodes@, receipts@, k + 1) == owned_prefix7(nodes@, receipts@, k) + record_owned7(receipts@[slot as int], nodes@));
        }
        match entry {
            None => {
                proof {
                    assert(owned_prefix7(nodes@, receipts@, k + 1) =~= owned_prefix7(nodes@, receipts@, k));
                }
            },
            Some(receipt) => {
                if receipt.length == 0 && receipt.payload_crc32 != empty_crc() {
                    assert(!receipt_marks_ok7(nodes@, receipts@, slot as int));
                    return Err(Error::Corrupt);
                }
                let aliases = aliases_current(&receipt, nodes);
                if !aliases {
                    let result = mark_runs(scratch, receipt.runs(), Ghost(owned_prefix7(nodes@, receipts@, k)));
                    if result.is_err() {
                        proof {
                            let next = owned_prefix7(nodes@, receipts@, k + 1);
                            assert(next == total.take(next.len() as int));
                            if disjoint7(total) {
                                lemma_disjoint_prefix(total, next.len() as int);
                            }
                        }
                        return Err(Error::Corrupt);
                    }
                } else {
                    proof {
                        assert(owned_prefix7(nodes@, receipts@, k + 1) =~= owned_prefix7(nodes@, receipts@, k));
                    }
                    let mut j: usize = 0;
                    while j < slot
                        invariant
                            0 <= j <= slot < RETAINED,
                            scratch@.len() == MAP_WORDS,
                            receipts@[slot as int] == Some(receipt),
                            aliases7(receipt, nodes@),
                            forall|m: int| 0 <= m < j ==> !(#[trigger] receipts@[m] matches Some(p) && p.object == receipt.object
                                && aliases7(p, nodes@)),
                        decreases slot - j,
                    {
                        let prior = receipts[j];
                        assert(prior == receipts@[j as int]);
                        if let Some(p) = prior {
                            if p.object == receipt.object && aliases_current(&p, nodes) {
                                assert(!receipt_marks_ok7(nodes@, receipts@, slot as int));
                                return Err(Error::Corrupt);
                            }
                        }
                        j = j + 1;
                    }
                }
            },
        }
        assert(receipt_marks_ok7(nodes@, receipts@, slot as int));
        slot = slot + 1;
    }
    assert(owned_prefix7(nodes@, receipts@, NODES + RETAINED) == total);
    let mut w: usize = 0;
    while w < MAP_WORDS
        invariant
            0 <= w <= MAP_WORDS,
            scratch@.len() == MAP_WORDS,
            map@.len() == MAP_WORDS,
            forall|s: int| 0 <= s < DATA_SECTORS ==> #[trigger] bit(scratch@, s) == holds7(total, s),
            total == owned7(nodes@, receipts@),
            forall|j: int| 0 <= j < w ==> scratch@[j] == #[trigger] map@[j],
        decreases MAP_WORDS - w,
    {
        if scratch[w] != map[w] {
            proof {
                if generation_valid7(*header, nodes@, receipts@, map@) {
                    assert forall|s: int| 0 <= s < DATA_SECTORS implies #[trigger] bit(scratch@, s) == bit(map@, s) by {
                        assert(bit(map@, s) == holds7(total, s));
                    }
                    lemma_words_from_bits(scratch@, map@);
                }
            }
            return Err(Error::Corrupt);
        }
        w = w + 1;
    }
    proof {
        assert(scratch@ =~= map@);
    }
    Ok(())
}

} // verus!
