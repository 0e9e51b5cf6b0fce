//! Explicit retry-epoch advancement and terminal-record reclamation.
use vstd::prelude::*;
use crate::extent::{Extent, DATA_SECTORS, MAP_WORDS, bit};
use crate::format7::{Header7, NODES, RETAINED, Record7, RecordState};
use crate::format7::validation::{
    generation_valid7, validate_generation, owned_prefix7, owned7, holds7, disjoint7, node_owned7, mark_runs,
    lemma_owned_prefix, lemma_disjoint_prefix, lemma_owned_live,
};
use crate::namespace::Kind;
use crate::storage::Disk;
use crate::volume7::Volume7;
use crate::volume7::mount::cleared7;
use crate::volume7::namespace::committed7;
use crate::Error;

verus! {

/// Some retained record is an admission without an outcome yet.
pub open spec fn unresolved7(records: Seq<Option<Record7>>) -> bool {
    exists|k: int| 0 <= k < records.len() && (#[trigger] records[k] matches Some(r) && r.state == RecordState::Admitted)
}

/// The sectors live files own in a generation.
pub open spec fn live_owned7(v: Volume7) -> Seq<Extent> {
    owned_prefix7(v.nodes@, v.records@, NODES as int)
}

impl Volume7 {
    /// What retention maintenance refuses before it stages anything.
    pub open spec fn maintain_refusal(&self) -> Option<Error> {
        if self.fenced {
            Some(Error::Uncertain)
        } else if exists|k: int| 0 <= k < crate::volume7::stage::STAGES && #[trigger] self.stages@[k] is Some {
            Some(Error::Busy)
        } else if unresolved7(self.records@) {
            Some(Error::Busy)
        } else if self.header.epoch == u64::MAX || self.header.sequence == u64::MAX {
            Some(Error::Exhausted)
        } else if !generation_valid7(self.header, self.nodes@, self.records@, self.map@) {
            Some(Error::Corrupt)
        } else {
            None
        }
    }

    /// Drop every retained outcome, reclaim the payload sectors no live file
    /// owns, and publish the next retry epoch, which is returned. A service
    /// calls this only once clients have resolved every outcome of the current
    /// epoch; retries from the old epoch are then refused as expired. An
    /// admission still awaiting its outcome makes this `Busy`.
    pub fn maintain_retention<D: Disk>(&mut self, disk: &mut D) -> (r: Result<u64, Error>)
        requires
            old(self).wf(),
        ensures
            final(self).wf(),
            old(self).maintain_refusal() is Some ==> r == Err::<u64, Error>(old(self).maintain_refusal()->Some_0)
                && final(self).header == old(self).header && final(self).nodes == old(self).nodes
                && final(self).records == old(self).records && final(self).map == old(self).map
                && final(self).fenced == old(self).fenced && final(disk).contents() == old(disk).contents(),
            old(self).maintain_refusal() is None ==> {
                &&& r matches Ok(epoch) ==> {
                    &&& epoch == old(self).header.epoch + 1
                    &&& final(self).nodes == old(self).nodes
                    &&& forall|k: int| 0 <= k < RETAINED ==> #[trigger] final(self).records@[k] is None
                    &&& forall|s: int| 0 <= s < DATA_SECTORS ==> #[trigger] bit(final(self).map@, s) == holds7(live_owned7(*old(self)), s)
                    &&& committed7(old(disk).contents(), final(disk).contents(), Header7 { epoch, ..old(self).header }, *final(self))
                }
                &&& r is Err ==> cleared7(*final(self)) && (r == Err::<u64, Error>(Error::Corrupt) || r == Err::<u64, Error>(Error::Uncertain))
            },
    {
        self.ready()?;
        if self.stages_open() {
            return Err(Error::Busy);
        }
        let mut k: usize = 0;
        while k < RETAINED
            invariant
                0 <= k <= RETAINED,
                *self == *old(self),
                self.wf(),
                !self.fenced,
                forall|j: int| 0 <= j < k ==> !(#[trigger] self.records@[j] matches Some(r) && r.state == RecordState::Admitted),
            decreases RETAINED - k,
        {
            if let Some(record) = self.records[k] {
                if record.state == RecordState::Admitted {
                    assert(unresolved7(self.records@)) by {
                        assert(self.records@[k as int] == Some(record));
                    }
                    return Err(Error::Busy);
                }
            }
            k = k + 1;
        }
        assert(!unresolved7(self.records@));
        if self.header.epoch == u64::MAX || self.header.sequence == u64::MAX {
            return Err(Error::Exhausted);
        }
        let next_epoch = self.header.epoch + 1;
        let mut scratch: Vec<u64> = Vec::new();
        core::mem::swap(&mut scratch, &mut self.validation);
        let checked = validate_generation(&self.header, &self.nodes, &self.records, self.map.as_slice(), &mut scratch);
        self.validation = scratch;
        if checked.is_err() {
            return Err(Error::Corrupt);
        }
        let mut scratch = crate::volume7::zero_words();
        let ghost total = owned7(self.nodes@, self.records@);
        proof {
            lemma_owned_live(self.nodes@, self.records@, self.header, NODES + RETAINED);
        }
        proof {
            assert forall|s: int| 0 <= s < DATA_SECTORS implies #[trigger] bit(scratch@, s) == holds7(owned_prefix7(self.nodes@, self.records@, 0), s) by {
                assert(scratch@[s / 64] == 0u64);
                let b = (s % 64) as u64;
                assert(0u64 & (1u64 << b) == 0u64) by (bit_vector);
            }
        }
        let mut i: usize = 0;
        while i < NODES
            invariant
                0 <= i <= NODES,
                self.wf(),
                *self == *old(self) || (self.header == old(self).header && self.nodes == old(self).nodes && self.records == old(self).records
                    && self.map == old(self).map && self.fenced == old(self).fenced),
                !self.fenced,
                self.header.epoch < u64::MAX,
                self.header.sequence < u64::MAX,
                next_epoch == self.header.epoch + 1,
                generation_valid7(self.header, self.nodes@, self.records@, self.map@),
                !unresolved7(self.records@),
                disk.contents() == old(disk).contents(),
                scratch@.len() == MAP_WORDS,
                total == owned7(self.nodes@, self.records@),
                disjoint7(total),
                forall|j: int| 0 <= j < total.len() ==> #[trigger] crate::format7::run_live(total[j]),
                forall|s: int| 0 <= s < DATA_SECTORS ==> #[trigger] bit(scratch@, s) == holds7(owned_prefix7(self.nodes@, self.records@, i as int), s),
            decreases NODES - i,
        {
            let node = self.nodes[i];
            assert(node == self.nodes@[i as int]);
            proof {
                lemma_owned_prefix(self.nodes@, self.records@, i as int, NODES + RETAINED);
                lemma_owned_prefix(self.nodes@, self.records@, i + 1, NODES + RETAINED);
                let done = owned_prefix7(self.nodes@, self.records@, i as int);
                let next = owned_prefix7(self.nodes@, self.records@, i + 1);
                assert forall|j: int| 0 <= j < done.len() implies #[trigger] crate::format7::run_live(done[j]) by {
                    assert(done[j] == total.take(done.len() as int)[j]);
                }
                assert forall|j: int| 0 <= j < next.len() implies #[trigger] crate::format7::run_live(next[j]) by {
                    assert(next[j] == total.take(next.len() as int)[j]);
                }
                lemma_disjoint_prefix(total, done.len() as int);
                lemma_disjoint_prefix(total, next.len() as int);
                assert(next == done + node_owned7(node));
            }
            if node.kind == Kind::File {
                let runs = node.runs();
                proof {
                    let done = owned_prefix7(self.nodes@, self.records@, i as int);
                    let next = owned_prefix7(self.nodes@, self.records@, i + 1);
                    assert(runs@ == node_owned7(node));
                    assert forall|j: int| 0 <= j < runs@.len() implies #[trigger] crate::format7::run_live(runs@[j]) by {
                        assert(next[done.len() + j] == runs@[j]);
                    }
                }
                let marked = mark_runs(&mut scratch, runs, Ghost(owned_prefix7(self.nodes@, self.records@, i as int)));
                if marked.is_err() {
                    return Err(Error::Corrupt);
                }
            } else {
                proof {
                    assert(owned_prefix7(self.nodes@, self.records@, i + 1) =~= owned_prefix7(self.nodes@, self.records@, i as int));
                }
            }
            i = i + 1;
        }
        self.fenced = true;
        self.records = [None; RETAINED];
        self.map = scratch;
        self.header.epoch = next_epoch;
        proof {
            assert forall|k: int| 0 <= k < RETAINED implies #[trigger] self.records@[k] is None by {}
        }
        match self.publish_candidate(disk) {
            Ok(header) => {
                self.header = header;
                self.fenced = false;
                Ok(next_epoch)
            },
            Err(error) => {
                self.clear();
                self.fenced = true;
                Err(error)
            },
        }
    }
}

} // verus!
