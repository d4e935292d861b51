//! The chain-adapter interface and an in-memory implementation.
//!
//! The sync manager depends only on the [`Blockchain`] trait: an abstract
//! map from height to header, read by `block_header` / `best_block_header`
//! and mutated by `import_block_header`. The contracts make importing
//! idempotent by construction: the state after an import is the old map
//! with the header at its number, whether or not it was already there.

use std::collections::HashMap;

use vstd::prelude::*;

use crate::types::BlockBody;
use crate::types::BlockHeader;
use crate::types::BlockHeaderV;
use crate::types::BlockNumber;

verus! {

broadcast use vstd::std_specs::hash::group_hash_axioms;

/// Local block storage, seen abstractly as a height-keyed header map.
pub trait Blockchain: Sized {
    /// The headers held, keyed by block number.
    spec fn model(&self) -> Map<BlockNumber, BlockHeaderV>;

    /// The implementation's internal invariant.
    spec fn wf(&self) -> bool;

    /// Looks up the header at the given height.
    fn block_header(&self, number: BlockNumber) -> (r: Option<BlockHeader>)
        requires
            self.wf(),
        ensures
            match r {
                Some(h) => self.model().dom().contains(number) && h@ == self.model()[number],
                None => !self.model().dom().contains(number),
            },
    ;

    /// The greatest height held, or nothing when no header is held.
    fn best_block_header(&self) -> (r: Option<BlockNumber>)
        requires
            self.wf(),
        ensures
            match r {
                Some(n) => self.model().dom().contains(n) && forall|k: BlockNumber|
                    self.model().dom().contains(k) ==> k <= n,
                None => self.model().dom() == Set::<BlockNumber>::empty(),
            },
    ;

    /// Admits a header into local chain state, atomically and
    /// idempotently: the new state is the old map with this header at its
    /// number.
    fn import_block_header(&mut self, header: &BlockHeader)
        requires
            old(self).wf(),
        ensures
            final(self).wf(),
            final(self).model() == old(self).model().insert(header.number, header@),
    ;

    /// Admits a body; the header map is unchanged.
    fn import_block_body(&mut self, body: &BlockBody)
        requires
            old(self).wf(),
        ensures
            final(self).wf(),
            final(self).model() == old(self).model(),
    ;
}

/// Law (idempotent import): importing the same header twice leaves the
/// chain state identical to importing it once.
pub proof fn lemma_import_idempotent(m: Map<BlockNumber, BlockHeaderV>, h: BlockHeaderV)
    ensures
        m.insert(h.number, h).insert(h.number, h) == m.insert(h.number, h),
{
    assert(m.insert(h.number, h).insert(h.number, h) =~= m.insert(h.number, h));
}

/// An in-memory adapter: headers in a height-keyed hash map, with the
/// best height cached; bodies are accepted and ignored.
pub struct HeadersInMemory {
    headers: HashMap<BlockNumber, BlockHeader>,
    best: Option<BlockNumber>,
}

impl HeadersInMemory {
    pub fn new() -> (r: HeadersInMemory)
        ensures
            r.wf(),
            r.model() == Map::<BlockNumber, BlockHeaderV>::empty(),
    {
        let r = HeadersInMemory { headers: HashMap::new(), best: None };
        proof {
            assert(r.model() =~= Map::<BlockNumber, BlockHeaderV>::empty());
        }
        r
    }
}

impl Blockchain for HeadersInMemory {
    closed spec fn model(&self) -> Map<BlockNumber, BlockHeaderV> {
        self.headers@.map_values(|h: BlockHeader| h@)
    }

    closed spec fn wf(&self) -> bool {
        &&& vstd::std_specs::hash::obeys_key_model::<BlockNumber>()
        &&& vstd::std_specs::hash::builds_valid_hashers::<std::hash::RandomState>()
        &&& match self.best {
            Some(b) => self.headers@.dom().contains(b) && forall|k: BlockNumber|
                self.headers@.dom().contains(k) ==> k <= b,
            None => self.headers@.dom() == Set::<BlockNumber>::empty(),
        }
    }

    fn block_header(&self, number: BlockNumber) -> (r: Option<BlockHeader>) {
        match self.headers.get(&number) {
            Some(h) => Some(h.duplicate()),
            None => None,
        }
    }

    fn best_block_header(&self) -> (r: Option<BlockNumber>) {
        proof {
            if self.best is Some {
                assert(self.model().dom() =~= self.headers@.dom());
            } else {
                assert(self.model().dom() =~= self.headers@.dom());
            }
        }
        self.best
    }

    fn import_block_header(&mut self, header: &BlockHeader) {
        let ghost old_self = *self;
        let number = header.number;
        let new_best: BlockNumber = match self.best {
            None => number,
            Some(b) => if b < number {
                number
            } else {
                b
            },
        };
        self.headers.insert(number, header.duplicate());
        self.best = Some(new_best);
        proof {
            assert(self.headers@ == old_self.headers@.insert(number, self.headers@[number]));
            assert(self.model() =~= old_self.model().insert(header.number, header@));
            assert(self.headers@.dom() =~= old_self.headers@.dom().insert(number));
        }
    }

    fn import_block_body(&mut self, body: &BlockBody) {
    }
}

} // verus!
