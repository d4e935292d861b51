//! The synchronization policy.
//!
//! The manager is level-triggered: whether the node is syncing is
//! recomputed on every call from the chain adapter's best height against
//! the configured target, and at most one header request is outstanding at
//! a time. Decoded peer data is dispatched into the adapter in encoded
//! order; malformed input is reported as an error or a penalization
//! signal, never a panic.

use vstd::prelude::*;

use crate::chain::Blockchain;
use crate::codec::decode_block_bodies;
use crate::codec::decode_block_headers;
use crate::codec::decode_get_block_bodies;
use crate::codec::encode_block_bodies;
use crate::codec::encode_block_headers;
use crate::codec::encode_get_block_bodies;
use crate::codec::encode_get_block_headers;
use crate::codec::hash_views;
use crate::codec::header_views;
use crate::codec::spec_decode_block_bodies;
use crate::codec::spec_decode_block_headers;
use crate::codec::spec_decode_get_block_bodies;
use crate::codec::spec_encode_block_bodies;
use crate::codec::spec_encode_block_headers;
use crate::codec::spec_encode_get_block_bodies;
use crate::codec::spec_encode_get_block_headers;
use crate::types::BlockHeaderV;
use crate::types::BlockId;
use crate::types::BlockIdV;
use crate::types::BlockNumber;
use crate::types::DecodeError;
use crate::types::ErrorAct;
use crate::types::GetBlockHeaders;
use crate::types::GetBlockHeadersV;
use crate::types::Hash256;
use crate::types::InitialRequest;
use crate::types::MessageKind;
use crate::types::PeerId;
use crate::types::Task;

verus! {

/// How many headers one sync request asks for.
pub const MAX_HEADERS_PER_REQUEST: u64 = 100;

/// The chain state after importing each header of `hs` in order.
pub open spec fn import_all(
    m: Map<BlockNumber, BlockHeaderV>,
    hs: Seq<BlockHeaderV>,
) -> Map<BlockNumber, BlockHeaderV>
    decreases hs.len(),
{
    if hs.len() == 0 {
        m
    } else {
        import_all(m.insert(hs[0].number, hs[0]), hs.drop_first())
    }
}

/// Importing one more header inserts it into the accumulated state.
pub proof fn lemma_import_all_snoc(
    m: Map<BlockNumber, BlockHeaderV>,
    s: Seq<BlockHeaderV>,
    h: BlockHeaderV,
)
    ensures
        import_all(m, s.push(h)) == import_all(m, s).insert(h.number, h),
    decreases s.len(),
{
    if s.len() == 0 {
        assert(s.push(h)[0] == h);
        assert(s.push(h).drop_first() =~= Seq::<BlockHeaderV>::empty());
        assert(import_all(m, s.push(h)) == import_all(
            m.insert(h.number, h),
            Seq::<BlockHeaderV>::empty(),
        ));
        assert(import_all(m.insert(h.number, h), Seq::<BlockHeaderV>::empty()) == m.insert(
            h.number,
            h,
        ));
        assert(import_all(m, s) == m);
    } else {
        assert(s.push(h)[0] == s[0]);
        assert(s.push(h).drop_first() =~= s.drop_first().push(h));
        lemma_import_all_snoc(m.insert(s[0].number, s[0]), s.drop_first(), h);
        assert(import_all(m, s.push(h)) == import_all(
            m.insert(s[0].number, s[0]),
            s.drop_first().push(h),
        ));
        assert(import_all(m, s) == import_all(m.insert(s[0].number, s[0]), s.drop_first()));
    }
}

/// The headers a range query selects from the chain state: start at
/// `cur`, walk `skip + 1` heights per step in the requested direction,
/// stop at the first missing header, at the count bound, or at the edge
/// of the height range.
pub open spec fn spec_collect(
    m: Map<BlockNumber, BlockHeaderV>,
    cur: u64,
    left: u64,
    skip: u64,
    reverse: bool,
) -> Seq<BlockHeaderV>
    decreases left,
{
    if left == 0 {
        Seq::<BlockHeaderV>::empty()
    } else if !m.dom().contains(cur) {
        Seq::<BlockHeaderV>::empty()
    } else {
        let h = m[cur];
        if reverse {
            if cur > skip {
                seq![h] + spec_collect(m, (cur - skip - 1) as u64, (left - 1) as u64, skip, reverse)
            } else {
                seq![h]
            }
        } else {
            if u64::MAX - cur > skip {
                seq![h] + spec_collect(m, (cur + skip + 1) as u64, (left - 1) as u64, skip, reverse)
            } else {
                seq![h]
            }
        }
    }
}

/// What a header-range query is answered with: a walk from its number
/// anchor; a hash anchor cannot be resolved against a height-keyed
/// adapter and yields the empty sequence.
pub open spec fn spec_respond_headers(
    m: Map<BlockNumber, BlockHeaderV>,
    g: GetBlockHeadersV,
) -> Seq<BlockHeaderV> {
    match g.block_id {
        BlockIdV::Number(n) => spec_collect(m, n, g.max_headers, g.skip, g.reverse),
        BlockIdV::Hash(_) => Seq::<BlockHeaderV>::empty(),
    }
}

/// Owns the sync policy over a chain adapter and a configured target
/// height.
pub struct BlockManager<C: Blockchain> {
    pub chain: C,
    pub target: BlockNumber,
}

impl<C: Blockchain> BlockManager<C> {
    pub open spec fn wf(&self) -> bool {
        self.chain.wf()
    }

    /// Syncing exactly when no held header reaches the target height.
    pub open spec fn spec_syncing(&self) -> bool {
        !(exists|k: BlockNumber| self.chain.model().dom().contains(k) && k >= self.target)
    }

    /// The one outbound header request this policy issues: anchored at
    /// the target, bounded count, zero stride, ascending.
    pub open spec fn spec_sync_request(&self) -> GetBlockHeadersV {
        GetBlockHeadersV {
            block_id: BlockIdV::Number(self.target),
            max_headers: MAX_HEADERS_PER_REQUEST,
            skip: 0,
            reverse: false,
        }
    }

    pub fn new(chain: C, target: BlockNumber) -> (r: BlockManager<C>)
        requires
            chain.wf(),
        ensures
            r.wf(),
            r.chain == chain,
            r.target == target,
    {
        BlockManager { chain, target }
    }

    /// Reads the adapter's best height against the target.
    pub fn is_syncing(&self) -> (r: bool)
        requires
            self.wf(),
        ensures
            r == self.spec_syncing(),
    {
        match self.chain.best_block_header() {
            None => {
                proof {
                    assert(forall|k: BlockNumber| !self.chain.model().dom().contains(k));
                }
                true
            },
            Some(b) => {
                proof {
                    if b >= self.target {
                        assert(self.chain.model().dom().contains(b) && b >= self.target);
                    }
                }
                b < self.target
            },
        }
    }

    /// Builds the single header request of the sync policy.
    fn request_block_headers(&self) -> (r: InitialRequest)
        ensures
            r.message == MessageKind::GetBlockHeaders,
            r.payload@ == spec_encode_get_block_headers(self.spec_sync_request()),
    {
        let request = GetBlockHeaders::new(
            BlockId::Number(self.target),
            MAX_HEADERS_PER_REQUEST,
            0,
            false,
        );
        let payload = encode_get_block_headers(&request);
        InitialRequest { message: MessageKind::GetBlockHeaders, payload }
    }

    /// Builds a body request for the given block hashes.
    pub fn request_block_bodies(&self, hashes: &Vec<Hash256>) -> (r: InitialRequest)
        ensures
            r.message == MessageKind::GetBlockBodies,
            r.payload@ == spec_encode_get_block_bodies(hash_views(hashes@)),
    {
        let payload = encode_get_block_bodies(hashes);
        InitialRequest { message: MessageKind::GetBlockBodies, payload }
    }

    /// While syncing, exactly one header request anchored at the target;
    /// nothing once the target is reached.
    pub fn next_sync_task(&self) -> (r: Option<InitialRequest>)
        requires
            self.wf(),
        ensures
            match r {
                Some(req) => {
                    &&& self.spec_syncing()
                    &&& req.message == MessageKind::GetBlockHeaders
                    &&& req.payload@ == spec_encode_get_block_headers(self.spec_sync_request())
                },
                None => !self.spec_syncing(),
            },
    {
        if self.is_syncing() {
            Some(self.request_block_headers())
        } else {
            None
        }
    }

    /// One sync step against a peer the scheduler offered: schedule one
    /// header request while syncing, and do nothing when no peer is
    /// available or the target is reached. Never blocks, never retries.
    pub fn sync(&self, peer: Option<PeerId>) -> (t: Task)
        requires
            self.wf(),
        ensures
            match t {
                Task::Request { peer: p, message, payload } => {
                    &&& self.spec_syncing()
                    &&& peer == Some(p)
                    &&& message == MessageKind::GetBlockHeaders
                    &&& payload@ == spec_encode_get_block_headers(self.spec_sync_request())
                },
                Task::NoOp => !self.spec_syncing() || peer is None,
                Task::Respond { .. } => false,
            },
    {
        if !self.is_syncing() {
            return Task::NoOp;
        }
        match peer {
            None => Task::NoOp,
            Some(p) => {
                let req = self.request_block_headers();
                Task::Request { peer: p, message: req.message, payload: req.payload }
            },
        }
    }

    /// Decodes a header-list message and imports every header in encoded
    /// order; a malformed message changes nothing and is reported, never
    /// a panic.
    pub fn process_block_headers(&mut self, data: &Vec<u8>) -> (r: Result<(), DecodeError>)
        requires
            old(self).wf(),
        ensures
            final(self).wf(),
            final(self).target == old(self).target,
            match r {
                Ok(_) => spec_decode_block_headers(data@) matches Some(hs)
                    && final(self).chain.model() == import_all(old(self).chain.model(), hs),
                Err(_) => spec_decode_block_headers(data@) is None && final(self).chain.model()
                    == old(self).chain.model(),
            },
    {
        let headers = match decode_block_headers(data) {
            Ok(hs) => hs,
            Err(e) => {
                return Err(e);
            },
        };
        let ghost m0 = self.chain.model();
        let mut k: usize = 0;
        while k < headers.len()
            invariant
                k <= headers@.len(),
                self.wf(),
                self.target == old(self).target,
                self.chain.model() == import_all(m0, header_views(headers@).take(k as int)),
            decreases headers@.len() - k,
        {
            self.chain.import_block_header(&headers[k]);
            proof {
                let v = header_views(headers@);
                lemma_import_all_snoc(m0, v.take(k as int), v[k as int]);
                assert(v.take(k + 1) =~= v.take(k as int).push(v[k as int]));
            }
            k = k + 1;
        }
        proof {
            assert(header_views(headers@).take(headers@.len() as int) =~= header_views(headers@));
        }
        Ok(())
    }

    /// Decodes a body-list message and hands each body to the adapter;
    /// header state is unchanged either way.
    pub fn process_block_bodies(&mut self, data: &Vec<u8>) -> (r: Result<(), DecodeError>)
        requires
            old(self).wf(),
        ensures
            final(self).wf(),
            final(self).target == old(self).target,
            final(self).chain.model() == old(self).chain.model(),
            r is Ok <==> spec_decode_block_bodies(data@) is Some,
    {
        let bodies = match decode_block_bodies(data) {
            Ok(bs) => bs,
            Err(e) => {
                return Err(e);
            },
        };
        let mut k: usize = 0;
        while k < bodies.len()
            invariant
                k <= bodies@.len(),
                self.wf(),
                self.target == old(self).target,
                self.chain.model() == old(self).chain.model(),
            decreases bodies@.len() - k,
        {
            self.chain.import_block_body(&bodies[k]);
            k = k + 1;
        }
        Ok(())
    }

    /// Answers a header-range request with a real lookup against the
    /// adapter, honoring count, stride and direction exactly.
    pub fn api_get_block_headers(&self, peer: PeerId, request: &GetBlockHeaders) -> (r: Result<
        Task,
        ErrorAct,
    >)
        requires
            self.wf(),
        ensures
            r matches Ok(t) && t matches Task::Respond { peer: p, message, payload } && p == peer
                && message == MessageKind::BlockHeaders && payload@ == spec_encode_block_headers(
                spec_respond_headers(self.chain.model(), request@),
            ),
    {
        let ghost m = self.chain.model();
        let mut acc: Vec<crate::types::BlockHeader> = Vec::new();
        match &request.block_id {
            BlockId::Hash(_) => {
                proof {
                    assert(header_views(acc@) =~= spec_respond_headers(m, request@));
                }
            },
            BlockId::Number(n) => {
                let mut cur: u64 = *n;
                let mut left: u64 = request.max_headers;
                let mut done: bool = false;
                proof {
                    assert(header_views(acc@) + spec_collect(m, cur, left, request@.skip, request@.reverse)
                        =~= spec_collect(m, cur, left, request@.skip, request@.reverse));
                }
                while left > 0 && !done
                    invariant
                        self.wf(),
                        m == self.chain.model(),
                        spec_respond_headers(m, request@) == header_views(acc@) + (if done {
                            Seq::<BlockHeaderV>::empty()
                        } else {
                            spec_collect(m, cur, left, request@.skip, request@.reverse)
                        }),
                    decreases left, (if done { 0int } else { 1int }),
                {
                    let ghost old_acc = acc@;
                    match self.chain.block_header(cur) {
                        None => {
                            proof {
                                assert(spec_collect(m, cur, left, request@.skip, request@.reverse)
                                    =~= Seq::<BlockHeaderV>::empty());
                                assert(header_views(old_acc) + Seq::<BlockHeaderV>::empty()
                                    =~= header_views(old_acc));
                            }
                            done = true;
                        },
                        Some(h) => {
                            let ghost old_cur = cur;
                            let ghost old_left = left;
                            acc.push(h);
                            left = left - 1;
                            let skip = request.skip;
                            if request.reverse {
                                if cur > skip {
                                    cur = cur - skip - 1;
                                } else {
                                    done = true;
                                }
                            } else {
                                if u64::MAX - cur > skip {
                                    cur = cur + skip + 1;
                                } else {
                                    done = true;
                                }
                            }
                            proof {
                                let tail = if done {
                                    Seq::<BlockHeaderV>::empty()
                                } else {
                                    spec_collect(m, cur, left, request@.skip, request@.reverse)
                                };
                                assert(spec_collect(m, old_cur, old_left, request@.skip, request@.reverse)
                                    == seq![m[old_cur]] + tail);
                                assert(header_views(old_acc) + (seq![m[old_cur]] + tail)
                                    =~= header_views(old_acc.push(h)) + tail);
                            }
                        },
                    }
                }
                proof {
                    if !done {
                        assert(spec_collect(m, cur, left, request@.skip, request@.reverse)
                            =~= Seq::<BlockHeaderV>::empty());
                    }
                    assert(header_views(acc@) + Seq::<BlockHeaderV>::empty() =~= header_views(
                        acc@,
                    ));
                }
            },
        }
        let payload = encode_block_headers(&acc);
        Ok(Task::Respond { peer, message: MessageKind::BlockHeaders, payload })
    }

    /// Answers a body request. The adapter interface holds no bodies to
    /// read back, so the answer is the canonical empty list.
    pub fn api_get_block_bodies(&self, peer: PeerId, hashes: &Vec<Hash256>) -> (r: Result<
        Task,
        ErrorAct,
    >)
        requires
            self.wf(),
        ensures
            r matches Ok(t) && t matches Task::Respond { peer: p, message, payload } && p == peer
                && message == MessageKind::BlockBodies && payload@ == spec_encode_block_bodies(
                Seq::<Seq<u8>>::empty(),
            ),
    {
        let bodies: Vec<crate::types::BlockBody> = Vec::new();
        let payload = encode_block_bodies(&bodies);
        proof {
            assert(crate::codec::body_views(bodies@) =~= Seq::<Seq<u8>>::empty());
        }
        Ok(Task::Respond { peer, message: MessageKind::BlockBodies, payload })
    }

    /// Validates a block-hash announcement: a well-formed hash list is
    /// acknowledged, anything else maps to a penalization signal; an
    /// announcement is never silently dropped.
    pub fn api_new_block_hashes(&self, data: &Vec<u8>) -> (r: Result<Task, ErrorAct>)
        requires
            self.wf(),
        ensures
            match r {
                Ok(t) => spec_decode_get_block_bodies(data@) is Some && t is NoOp,
                Err(e) => spec_decode_get_block_bodies(data@) is None && e.reason@
                    == "unrecognized block-hash announcement"@,
            },
    {
        match decode_get_block_bodies(data) {
            Ok(_) => Ok(Task::NoOp),
            Err(_) => Err(ErrorAct { reason: "unrecognized block-hash announcement".to_owned() }),
        }
    }

    /// New full-block announcements are outside this core's minimum.
    pub fn api_new_block(&self) {
    }

    /// Receipt queries are outside this core's minimum.
    pub fn api_get_receipts(&self) {
    }
}

} // verus!
