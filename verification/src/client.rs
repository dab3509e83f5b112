//! Per-connection state: the protocol phase, the outbound response
//! queue, the transmit buffer with its partial-write cursor, and the
//! carried-over bytes of an incomplete inbound frame.
//!
//! The socket itself lives with the caller: received bytes are handed
//! in, bytes to send are handed out, and the caller reports how many the
//! socket accepted.

use vstd::prelude::*;
use std::collections::VecDeque;
use crate::response::{
    Response,
    ResponseV,
    is_load_chunk,
    queue_view,
    spec_frame,
    spec_response_payload,
};
use crate::world::World;
use crate::slotmap::SlotMap;
use crate::types::{Disconnection, Name, State, state_le};

verus! {

/// One client connection, minus its socket.
pub struct Client {
    state: State,
    queue: VecDeque<Response>,
    pending: Vec<u8>,
    pending_cursor: usize,
    rbuf: Vec<u8>,
    waiting_for_write: bool,
}

/// Index of the first response that is not bulk chunk data; the queue's
/// length when every entry is.
pub open spec fn first_non_chunk(q: Seq<ResponseV>) -> int
    decreases q.len(),
{
    if q.len() == 0 {
        0
    } else if !is_load_chunk(q[0]) {
        0
    } else {
        1 + first_non_chunk(q.skip(1))
    }
}

proof fn lemma_first_non_chunk(q: Seq<ResponseV>, r: int)
    requires
        0 <= r <= q.len(),
        forall|j: int| 0 <= j < r ==> is_load_chunk(#[trigger] q[j]),
        r < q.len() ==> !is_load_chunk(q[r]),
    ensures
        first_non_chunk(q) == r,
    decreases r,
{
    if r > 0 {
        lemma_first_non_chunk(q.skip(1), r - 1);
    }
}

proof fn lemma_first_non_chunk_props(q: Seq<ResponseV>)
    ensures
        0 <= first_non_chunk(q) <= q.len(),
        forall|j: int| 0 <= j < first_non_chunk(q) ==> is_load_chunk(#[trigger] q[j]),
        first_non_chunk(q) < q.len() ==> !is_load_chunk(q[first_non_chunk(q)]),
    decreases q.len(),
{
    if q.len() > 0 && is_load_chunk(q[0]) {
        lemma_first_non_chunk_props(q.skip(1));
        assert forall|j: int| 0 <= j < first_non_chunk(q) implies is_load_chunk(
            #[trigger] q[j],
        ) by {
            if j > 0 {
                assert(is_load_chunk(q.skip(1)[j - 1]));
            }
        }
    }
}

/// Bulk chunk data never delays anything else: whenever the queue holds
/// any other kind of response, the entry sent next is the first such
/// entry, and only chunk loads stand before it in the queue.
pub proof fn lemma_pick_prefers_non_chunk(q: Seq<ResponseV>)
    requires
        exists|i: int| 0 <= i < q.len() && !is_load_chunk(#[trigger] q[i]),
    ensures
        0 <= spec_pick(q) < q.len(),
        !is_load_chunk(q[spec_pick(q)]),
        forall|j: int| 0 <= j < spec_pick(q) ==> is_load_chunk(#[trigger] q[j]),
{
    lemma_first_non_chunk_props(q);
    let i = choose|i: int| 0 <= i < q.len() && !is_load_chunk(#[trigger] q[i]);
    if first_non_chunk(q) >= q.len() {
        assert(is_load_chunk(q[i]));
    }
}

/// Which queue entry a drain sends next: the first entry that is not a
/// chunk load, or — when only chunk loads wait — the one that ends up in
/// front after each other entry has been rotated past once.
pub open spec fn spec_pick(q: Seq<ResponseV>) -> int {
    if first_non_chunk(q) < q.len() {
        first_non_chunk(q)
    } else {
        q.len() - 1
    }
}

/// The queue left behind after sending entry `i`: the entries after it,
/// then the chunk loads that were rotated to the back.
pub open spec fn spec_after_pick(q: Seq<ResponseV>, i: int) -> Seq<ResponseV> {
    q.subrange(i + 1, q.len() as int) + q.take(i)
}

impl Client {
    /// The protocol phase.
    pub closed spec fn spec_state(&self) -> State {
        self.state
    }

    /// The outbound queue, oldest first, seen mathematically.
    pub closed spec fn spec_queue(&self) -> Seq<ResponseV> {
        queue_view(self.queue@)
    }

    /// Transmit bytes not yet accepted by the socket.
    pub closed spec fn spec_pending(&self) -> Seq<u8> {
        if self.pending_cursor <= self.pending@.len() {
            self.pending@.skip(self.pending_cursor as int)
        } else {
            Seq::empty()
        }
    }

    /// Carried-over bytes of an incomplete inbound frame.
    pub closed spec fn spec_rbuf(&self) -> Seq<u8> {
        self.rbuf@
    }

    /// Whether the connection wants a writable-readiness event.
    pub closed spec fn spec_waiting_for_write(&self) -> bool {
        self.waiting_for_write
    }

    /// A fresh connection in the handshaking phase with nothing queued.
    pub fn accept() -> (c: Client)
        ensures
            c.spec_state() is Handshaking,
            c.spec_queue() == Seq::<ResponseV>::empty(),
            c.spec_pending() == Seq::<u8>::empty(),
            c.spec_rbuf() == Seq::<u8>::empty(),
            !c.spec_waiting_for_write(),
    {
        let c = Client {
            state: State::Handshaking,
            queue: VecDeque::new(),
            pending: Vec::new(),
            pending_cursor: 0,
            rbuf: Vec::new(),
            waiting_for_write: false,
        };
        proof {
            assert(c.spec_pending() =~= Seq::<u8>::empty());
            assert(c.spec_queue() =~= Seq::<ResponseV>::empty());
        }
        c
    }

    /// Queue a response for this connection and mark it as wanting to
    /// write.
    pub fn submit(&mut self, response: Response)
        ensures
            final(self).spec_queue() == old(self).spec_queue().push(response@),
            final(self).spec_state() == old(self).spec_state(),
            final(self).spec_pending() == old(self).spec_pending(),
            final(self).spec_rbuf() == old(self).spec_rbuf(),
            final(self).spec_waiting_for_write(),
    {
        self.queue.push_back(response);
        self.waiting_for_write = true;
        proof {
            assert(self.spec_queue() =~= old(self).spec_queue().push(response@));
        }
    }

    /// Whether the connection has reached the play phase.
    pub fn is_playing(&self) -> (b: bool)
        ensures
            b == (self.spec_state() is Play),
    {
        match self.state {
            State::Play => true,
            _ => false,
        }
    }

    /// Whether the connection wants a writable-readiness event.
    pub fn wants_write(&self) -> (b: bool)
        ensures
            b == self.spec_waiting_for_write(),
    {
        self.waiting_for_write
    }

    /// Note that the socket pushed back mid-write: the connection wants
    /// a writable-readiness event.
    pub fn mark_waiting(&mut self)
        ensures
            final(self).spec_waiting_for_write(),
            final(self).spec_queue() == old(self).spec_queue(),
            final(self).spec_state() == old(self).spec_state(),
            final(self).spec_pending() == old(self).spec_pending(),
            final(self).spec_rbuf() == old(self).spec_rbuf(),
    {
        self.waiting_for_write = true;
    }

    /// Clear the want-write mark; the caller has re-armed its readiness
    /// bookkeeping.
    pub fn take_waiting_for_write(&mut self) -> (b: bool)
        ensures
            b == old(self).spec_waiting_for_write(),
            !final(self).spec_waiting_for_write(),
            final(self).spec_queue() == old(self).spec_queue(),
            final(self).spec_state() == old(self).spec_state(),
            final(self).spec_pending() == old(self).spec_pending(),
            final(self).spec_rbuf() == old(self).spec_rbuf(),
    {
        let b = self.waiting_for_write;
        self.waiting_for_write = false;
        b
    }

    /// Pull the next response to send off the queue, deprioritizing
    /// chunk loads: a waiting chunk load is rotated to the back until
    /// every other entry has had its turn, so chat and state updates are
    /// never stuck behind bulk data, while chunk loads still leave once
    /// each other entry has been tried once.
    pub fn pop_next(&mut self) -> (r: Option<Response>)
        ensures
            match r {
                None => {
                    &&& old(self).spec_queue().len() == 0
                    &&& final(self).spec_queue() == old(self).spec_queue()
                    &&& final(self).spec_state() == old(self).spec_state()
                    &&& final(self).spec_pending() == old(self).spec_pending()
                    &&& final(self).spec_rbuf() == old(self).spec_rbuf()
                    &&& final(self).spec_waiting_for_write() == old(self).spec_waiting_for_write()
                },
                Some(resp) => {
                    let q = old(self).spec_queue();
                    &&& q.len() > 0
                    &&& resp@ == q[spec_pick(q)]
                    &&& final(self).spec_queue() == spec_after_pick(q, spec_pick(q))
                    &&& final(self).spec_state() == old(self).spec_state()
                    &&& final(self).spec_pending() == old(self).spec_pending()
                    &&& final(self).spec_rbuf() == old(self).spec_rbuf()
                    &&& final(self).spec_waiting_for_write() == old(self).spec_waiting_for_write()
                },
            },
    {
        let ghost q0 = self.spec_queue();
        let mut rotated: usize = 0;
        loop
            invariant
                rotated < q0.len() || (rotated == 0 && q0.len() == 0),
                queue_view(self.queue@) =~= q0.skip(rotated as int) + q0.take(rotated as int),
                forall|j: int| 0 <= j < rotated ==> is_load_chunk(#[trigger] q0[j]),
                self.state == old(self).spec_state(),
                self.pending@ == old(self).pending@,
                self.pending_cursor == old(self).pending_cursor,
                self.rbuf@ == old(self).spec_rbuf(),
                self.waiting_for_write == old(self).spec_waiting_for_write(),
                q0 == old(self).spec_queue(),
            decreases q0.len() - rotated,
        {
            let ghost pre = self.queue@;
            match self.queue.pop_front() {
                None => {
                    proof {
                        assert(queue_view(pre).len() == pre.len());
                        assert(q0.len() == 0);
                    }
                    return None;
                },
                Some(x) => {
                    proof {
                        assert(queue_view(pre)[0] == pre[0]@);
                        assert(x@ == q0[rotated as int]);
                    }
                    if x.low_priority() && self.queue.len() > rotated {
                        self.queue.push_back(x);
                        proof {
                            let r = rotated as int;
                            let cur = self.queue@;
                            assert(queue_view(pre).len() == pre.len());
                            assert(queue_view(cur).len() == cur.len());
                            assert forall|i: int| 0 <= i < queue_view(cur).len() implies #[trigger] queue_view(
                                cur,
                            )[i] == (q0.skip(r + 1) + q0.take(r + 1))[i] by {
                                assert(queue_view(cur)[i] == cur[i]@);
                                if i < q0.len() - 1 {
                                    assert(queue_view(pre)[i + 1] == pre[i + 1]@);
                                    assert(queue_view(pre)[i + 1] == (q0.skip(r) + q0.take(r))[i
                                        + 1]);
                                }
                            }
                            assert(queue_view(cur) =~= q0.skip(r + 1) + q0.take(r + 1));
                        }
                        rotated = rotated + 1;
                    } else {
                        proof {
                            let q = q0;
                            let r = rotated as int;
                            if !is_load_chunk(x@) {
                                lemma_first_non_chunk(q, r);
                                assert(spec_pick(q) == r);
                            } else {
                                // the whole queue is chunk loads and this
                                // was the last unrotated one
                                assert(queue_view(pre).len() == pre.len());
                                assert(q.len() - 1 - r <= r);
                                assert(r == q.len() - 1);
                                lemma_first_non_chunk(q, q.len() as int);
                                assert(spec_pick(q) == r);
                            }
                            let cur = self.queue@;
                            assert(queue_view(pre).len() == pre.len());
                            assert(queue_view(cur).len() == cur.len());
                            assert forall|i: int| 0 <= i < queue_view(cur).len() implies #[trigger] queue_view(
                                cur,
                            )[i] == spec_after_pick(q, r)[i] by {
                                assert(queue_view(cur)[i] == cur[i]@);
                                assert(queue_view(pre)[i + 1] == pre[i + 1]@);
                                assert(queue_view(pre)[i + 1] == (q0.skip(r) + q0.take(r))[i + 1]);
                            }
                            assert(queue_view(cur) =~= spec_after_pick(q, r));
                        }
                        return Some(x);
                    }
                },
            }
        }
    }
}


impl Client {
    /// The transmit bytes still waiting for the socket.
    pub fn pending_bytes(&self) -> (b: &[u8])
        ensures
            b@ == self.spec_pending(),
    {
        if self.pending_cursor <= self.pending.len() {
            let b = vstd::slice::slice_subrange(
                self.pending.as_slice(),
                self.pending_cursor,
                self.pending.len(),
            );
            proof {
                assert(b@ =~= self.spec_pending());
            }
            b
        } else {
            let b = vstd::slice::slice_subrange(self.pending.as_slice(), 0, 0);
            proof {
                assert(b@ =~= self.spec_pending());
            }
            b
        }
    }

    /// The socket accepted `n` transmit bytes; drop them. A fully
    /// drained buffer is recycled.
    pub fn advance(&mut self, n: usize)
        requires
            n <= old(self).spec_pending().len(),
        ensures
            final(self).spec_pending() == old(self).spec_pending().skip(n as int),
            final(self).spec_queue() == old(self).spec_queue(),
            final(self).spec_state() == old(self).spec_state(),
            final(self).spec_rbuf() == old(self).spec_rbuf(),
            final(self).spec_waiting_for_write() == old(self).spec_waiting_for_write(),
    {
        if self.pending_cursor <= self.pending.len() {
            self.pending_cursor = self.pending_cursor + n;
        }
        if self.pending_cursor >= self.pending.len() {
            self.pending = Vec::new();
            self.pending_cursor = 0;
            proof {
                assert(self.spec_pending() =~= old(self).spec_pending().skip(n as int));
            }
        } else {
            proof {
                assert(self.spec_pending() =~= old(self).spec_pending().skip(n as int));
            }
        }
    }

    /// When the transmit buffer is empty, pull the next response off the
    /// queue — chunk loads deprioritized — and serialize it into the
    /// buffer as one complete frame. With bytes still waiting, or
    /// nothing queued, nothing changes.
    pub fn write(&mut self, world: &World, pid: usize)
        requires
            world.wf(),
        ensures
            final(self).spec_state() == old(self).spec_state(),
            final(self).spec_rbuf() == old(self).spec_rbuf(),
            final(self).spec_waiting_for_write() == old(self).spec_waiting_for_write(),
            old(self).spec_pending().len() > 0 || old(self).spec_queue().len() == 0 ==> final(self).spec_pending() == old(self).spec_pending() && final(self).spec_queue() == old(self).spec_queue(),
            old(self).spec_pending().len() == 0 && old(self).spec_queue().len() > 0 ==> ({
                let q = old(self).spec_queue();
                &&& final(self).spec_pending() == spec_frame(
                    spec_response_payload(q[spec_pick(q)], *world, pid as int),
                )
                &&& final(self).spec_queue() == spec_after_pick(q, spec_pick(q))
            }),
    {
        if self.pending_cursor < self.pending.len() {
            return ;
        }
        match self.pop_next() {
            None => {},
            Some(r) => {
                let bytes = r.write(world, pid);
                self.pending = bytes;
                self.pending_cursor = 0;
            },
        }
    }
}


/// Connections only ever gain queued responses: every live connection
/// stays live with its state intact, its old queue a prefix of the new
/// one, and its buffers untouched.
pub open spec fn clients_extended(pre: Seq<Option<Client>>, post: Seq<Option<Client>>) -> bool {
    &&& post.len() == pre.len()
    &&& forall|cid: int|
        0 <= cid < pre.len() ==> match #[trigger] pre[cid] {
            None => post[cid] is None,
            Some(a) => match post[cid] {
                Some(b) => {
                    &&& b.spec_state() == a.spec_state()
                    &&& a.spec_queue().is_prefix_of(b.spec_queue())
                    &&& b.spec_pending() == a.spec_pending()
                    &&& b.spec_rbuf() == a.spec_rbuf()
                },
                None => false,
            },
        }
}

/// Queue extension is reflexive.
pub proof fn lemma_clients_extended_refl(a: Seq<Option<Client>>)
    ensures
        clients_extended(a, a),
{
    assert forall|cid: int| 0 <= cid < a.len() implies match #[trigger] a[cid] {
        None => a[cid] is None,
        Some(x) => match a[cid] {
            Some(b) => {
                &&& b.spec_state() == x.spec_state()
                &&& x.spec_queue().is_prefix_of(b.spec_queue())
                &&& b.spec_pending() == x.spec_pending()
                &&& b.spec_rbuf() == x.spec_rbuf()
            },
            None => false,
        },
    } by {
        match a[cid] {
            None => {},
            Some(x) => {
                assert(x.spec_queue() =~= x.spec_queue().take(x.spec_queue().len() as int));
            },
        }
    }
}

/// Queue extension composes.
pub proof fn lemma_clients_extended_trans(
    a: Seq<Option<Client>>,
    b: Seq<Option<Client>>,
    c: Seq<Option<Client>>,
)
    requires
        clients_extended(a, b),
        clients_extended(b, c),
    ensures
        clients_extended(a, c),
{
    assert forall|cid: int| 0 <= cid < a.len() implies match #[trigger] a[cid] {
        None => c[cid] is None,
        Some(x) => match c[cid] {
            Some(y) => {
                &&& y.spec_state() == x.spec_state()
                &&& x.spec_queue().is_prefix_of(y.spec_queue())
                &&& y.spec_pending() == x.spec_pending()
                &&& y.spec_rbuf() == x.spec_rbuf()
            },
            None => false,
        },
    } by {
        match a[cid] {
            None => {},
            Some(x) => match b[cid] {
                Some(m) => match c[cid] {
                    Some(y) => {
                        assert(x.spec_queue() =~= y.spec_queue().take(
                            x.spec_queue().len() as int,
                        ));
                    },
                    None => {},
                },
                None => {},
            },
        }
    }
}

/// Appending to one queue keeps the extension relation.
pub proof fn lemma_prefix_push(q: Seq<ResponseV>, r: ResponseV)
    ensures
        q.is_prefix_of(q.push(r)),
{
    assert(q =~= q.push(r).take(q.len() as int));
}



/// Whether the current phase's decoder accepts a frame.
pub open spec fn phase_accepts(st: State, pkt: Seq<u8>) -> bool {
    match st {
        State::Handshaking => crate::new_connections::spec_handshake(pkt) is Some,
        State::Status => crate::new_connections::spec_status_req(pkt) is Some,
        State::Login => crate::new_connections::spec_login_req(pkt) is Some,
        State::Play => crate::request::spec_play_ok(pkt),
    }
}

/// The phase an accepted frame leads to.
pub open spec fn phase_next(st: State, pkt: Seq<u8>) -> State {
    match st {
        State::Handshaking => crate::new_connections::spec_handshake(pkt).unwrap(),
        State::Status => State::Status,
        State::Login => State::Play,
        State::Play => State::Play,
    }
}

/// Walk an accumulated byte stream frame by frame: consume each
/// complete length-prefixed frame in order, threading the phase it is
/// decoded under, until either no complete frame remains — the walk
/// accepts, keeping the remainder for the next read — or a frame is
/// rejected by the current phase, which is fatal.
pub open spec fn spec_read_walk(st: State, s: Seq<u8>) -> Option<(State, Seq<u8>)>
    decreases s.len(),
{
    match crate::wire::spec_str_decode(s) {
        None => Some((st, s)),
        Some((pkt, k)) => if phase_accepts(st, pkt) {
            if 0 < k <= s.len() {
                spec_read_walk(phase_next(st, pkt), s.skip(k))
            } else {
                Some((st, s))
            }
        } else {
            None
        },
    }
}

/// Every connection other than `id` either stays dead or keeps its
/// phase and only gains queued responses.
pub open spec fn others_hold(pre: Seq<Option<Client>>, post: Seq<Option<Client>>, id: int) -> bool {
    &&& post.len() == pre.len()
    &&& forall|k: int|
        0 <= k < pre.len() && k != id ==> match #[trigger] pre[k] {
            None => post[k] is None,
            Some(a) => match post[k] {
                Some(b) => {
                    &&& b.spec_state() == a.spec_state()
                    &&& a.spec_queue().is_prefix_of(b.spec_queue())
                    &&& b.spec_pending() == a.spec_pending()
                    &&& b.spec_rbuf() == a.spec_rbuf()
                },
                None => false,
            },
        }
}

proof fn lemma_others_hold_refl(a: Seq<Option<Client>>, id: int)
    ensures
        others_hold(a, a, id),
{
    assert forall|k: int| 0 <= k < a.len() && k != id implies match #[trigger] a[k] {
        None => a[k] is None,
        Some(x) => match a[k] {
            Some(b) => {
                &&& b.spec_state() == x.spec_state()
                &&& x.spec_queue().is_prefix_of(b.spec_queue())
                &&& b.spec_pending() == x.spec_pending()
                &&& b.spec_rbuf() == x.spec_rbuf()
            },
            None => false,
        },
    } by {
        match a[k] {
            None => {},
            Some(x) => {
                assert(x.spec_queue() =~= x.spec_queue().take(x.spec_queue().len() as int));
            },
        }
    }
}

proof fn lemma_others_hold_trans(
    a: Seq<Option<Client>>,
    b: Seq<Option<Client>>,
    c: Seq<Option<Client>>,
    id: int,
)
    requires
        others_hold(a, b, id),
        others_hold(b, c, id),
    ensures
        others_hold(a, c, id),
{
    assert forall|k: int| 0 <= k < a.len() && k != id implies match #[trigger] a[k] {
        None => c[k] is None,
        Some(x) => match c[k] {
            Some(y) => {
                &&& y.spec_state() == x.spec_state()
                &&& x.spec_queue().is_prefix_of(y.spec_queue())
                &&& y.spec_pending() == x.spec_pending()
                &&& y.spec_rbuf() == x.spec_rbuf()
            },
            None => false,
        },
    } by {
        match a[k] {
            None => {},
            Some(x) => match b[k] {
                Some(m) => match c[k] {
                    Some(y) => {
                        assert(x.spec_queue() =~= y.spec_queue().take(
                            x.spec_queue().len() as int,
                        ));
                    },
                    None => {},
                },
                None => {},
            },
        }
    }
}

proof fn lemma_extended_implies_others(
    pre: Seq<Option<Client>>,
    post: Seq<Option<Client>>,
    id: int,
)
    requires
        clients_extended(pre, post),
    ensures
        others_hold(pre, post, id),
{
}

impl Client {
    /// The current protocol phase.
    pub fn phase(&self) -> (s: crate::types::State)
        ensures
            s == self.spec_state(),
    {
        self.state
    }

    /// Move to a phase further along the protocol's one-way order; the
    /// road has no way back.
    pub fn advance_state(&mut self, s: crate::types::State)
        requires
            state_le(old(self).spec_state(), s),
        ensures
            final(self).spec_state() == s,
            final(self).spec_queue() == old(self).spec_queue(),
            final(self).spec_pending() == old(self).spec_pending(),
            final(self).spec_rbuf() == old(self).spec_rbuf(),
            final(self).spec_waiting_for_write() == old(self).spec_waiting_for_write(),
    {
        self.state = s;
    }

    /// Take the carried-over partial-frame bytes, leaving none behind.
    pub fn take_rbuf(&mut self) -> (b: Vec<u8>)
        ensures
            b@ == old(self).spec_rbuf(),
            final(self).spec_rbuf() == Seq::<u8>::empty(),
            final(self).spec_queue() == old(self).spec_queue(),
            final(self).spec_state() == old(self).spec_state(),
            final(self).spec_pending() == old(self).spec_pending(),
            final(self).spec_waiting_for_write() == old(self).spec_waiting_for_write(),
    {
        let mut tmp: Vec<u8> = Vec::new();
        core::mem::swap(&mut tmp, &mut self.rbuf);
        tmp
    }

    /// Store the carried-over partial-frame bytes for the next read.
    pub fn set_rbuf(&mut self, b: Vec<u8>)
        ensures
            final(self).spec_rbuf() == b@,
            final(self).spec_queue() == old(self).spec_queue(),
            final(self).spec_state() == old(self).spec_state(),
            final(self).spec_pending() == old(self).spec_pending(),
            final(self).spec_waiting_for_write() == old(self).spec_waiting_for_write(),
    {
        self.rbuf = b;
    }

    /// Decode a login-start frame into the player's name; any other id,
    /// malformed text or over-long name disconnects.
    pub fn continue_login(pkt: &[u8]) -> (r: Result<Option<Name>, Disconnection>)
        ensures
            match r {
                Ok(Some(n)) => crate::new_connections::spec_login_req(pkt@) == Some(n@) && n.wf(),
                Ok(None) => false,
                Err(_) => crate::new_connections::spec_login_req(pkt@) is None,
            },
    {
        let (id, rest) = match crate::wire::varint(pkt) {
            Some(v) => v,
            None => {
                return Err(Disconnection::new());
            },
        };
        if id != 0 {
            return Err(Disconnection::new());
        }
        let (nm, _) = match crate::wire::str(rest) {
            Some(v) => v,
            None => {
                return Err(Disconnection::new());
            },
        };
        match core::str::from_utf8(nm) {
            Ok(_) => {},
            Err(_) => {
                return Err(Disconnection::new());
            },
        }
        let v = vstd::slice::slice_to_vec(nm);
        match Name::from_bytes(v) {
            Some(n) => Ok(Some(n)),
            None => Err(Disconnection::new()),
        }
    }

    /// Feed freshly received bytes to connection `id`: append them to
    /// its carried-over buffer, split off each complete length-prefixed
    /// frame, and dispatch it to the current phase's decoder. A decode
    /// failure is final: the caller must drop the connection. The
    /// connection's phase only ever moves forward — once in the play
    /// phase, no input moves it back — and every other connection at
    /// most gains queued responses.
    #[verifier::loop_isolation(false)]
    #[verifier::rlimit(100)]
    pub fn read(
        clients: &mut SlotMap<Client>,
        world: &mut World,
        id: usize,
        data: &[u8],
    ) -> (r: Result<(), Disconnection>)
        requires
            old(world).wf(),
            old(clients).wf(),
            id < 32,
        ensures
            final(world).wf(),
            final(clients).wf(),
            final(clients)@.len() == old(clients)@.len(),
            final(world).spec_tick() == old(world).spec_tick(),
            final(world).spec_registry() == old(world).spec_registry(),
            final(world).spec_heightmap() == old(world).spec_heightmap(),
            others_hold(old(clients)@, final(clients)@, id as int),
            (id as int) >= old(clients)@.len() ==> *final(clients) == *old(clients) && *final(world) == *old(world),
            (id as int) < old(clients)@.len() ==> match old(clients)@[id as int] {
                None => *final(clients) == *old(clients) && *final(world) == *old(world),
                Some(cl) => match final(clients)@[id as int] {
                    Some(cl2) => {
                        &&& state_le(cl.spec_state(), cl2.spec_state())
                        &&& (cl.spec_state() is Play ==> cl2.spec_state() is Play)
                        &&& (r is Ok ==> cl2.spec_rbuf().is_suffix_of(cl.spec_rbuf() + data@))
                        &&& (r is Ok && crate::wire::spec_str_decode(cl.spec_rbuf() + data@)
                            is None ==> cl2.spec_rbuf() == cl.spec_rbuf() + data@)
                        &&& match spec_read_walk(cl.spec_state(), cl.spec_rbuf() + data@) {
                            Some((st2, left)) => r is Ok && cl2.spec_state() == st2
                                && cl2.spec_rbuf() == left,
                            None => r is Err,
                        }
                    },
                    None => false,
                },
            },
    {
        proof {
            lemma_others_hold_refl(clients@, id as int);
        }
        if id >= clients.len_slots() {
            return Ok(());
        }
        let mut buf: Vec<u8>;
        match clients.get_mut(id) {
            Some(c) => {
                buf = c.take_rbuf();
            },
            None => {
                return Ok(());
            },
        }
        crate::wire::put_raw(&mut buf, data);
        let n = buf.len();
        let mut off: usize = 0;
        proof {
            assert(buf@.skip(0) =~= buf@);
        }
        loop
            invariant
                off <= n,
                n == buf@.len(),
                world.wf(),
                clients.wf(),
                clients@.len() == old(clients)@.len(),
                world.spec_tick() == old(world).spec_tick(),
                world.spec_registry() == old(world).spec_registry(),
                world.spec_heightmap() == old(world).spec_heightmap(),
                others_hold(old(clients)@, clients@, id as int),
                old(clients)@[id as int] is Some,
                (id as int) < clients@.len(),
                clients@[id as int] is Some,
                off == 0 || crate::wire::spec_str_decode(buf@) is Some,
                spec_read_walk(
                    old(clients)@[id as int].unwrap().spec_state(),
                    buf@,
                ) == spec_read_walk(
                    clients@[id as int].unwrap().spec_state(),
                    buf@.skip(off as int),
                ),
                match old(clients)@[id as int] {
                    None => false,
                    Some(cl) => match clients@[id as int] {
                        Some(cl2) => state_le(cl.spec_state(), cl2.spec_state()) && (
                        cl.spec_state() is Play ==> cl2.spec_state() is Play),
                        None => false,
                    },
                },
            decreases n - off,
        {
            let remaining = vstd::slice::slice_subrange(buf.as_slice(), off, n);
            let (pkt, rest) = match crate::wire::str(remaining) {
                Some(v) => v,
                None => {
                    break ;
                },
            };
            let new_off: usize = n - rest.len();
            proof {
                assert(rest@.len() < remaining@.len());
                if off == 0 {
                    assert(remaining@ =~= buf@);
                }
                assert(remaining@ =~= buf@.skip(off as int));
                crate::wire::lemma_str_decode_bounds(remaining@);
                assert(buf@.skip(off as int).skip(
                    remaining@.len() - rest@.len(),
                ) =~= buf@.skip(new_off as int));
            }
            let st = match clients.get(id) {
                Some(c) => c.phase(),
                None => {
                    proof {
                        assert(false);
                    }
                    return Ok(());
                },
            };
            let ghost cpre = clients@;
            let ghost wpre = *world;
            match st {
                crate::types::State::Handshaking => {
                    match crate::new_connections::recv_handshaking(pkt) {
                        Ok(ns) => {
                            match clients.get_mut(id) {
                                Some(c) => {
                                    c.advance_state(ns);
                                },
                                None => {},
                            }
                            proof {
                                assert(phase_accepts(st, pkt@) && phase_next(st, pkt@) == ns);
                            }
                        },
                        Err(e) => {
                            proof {
                                assert(!phase_accepts(st, pkt@));
                            }
                            return Err(e);
                        },
                    }
                },
                crate::types::State::Status => {
                    match clients.get_mut(id) {
                        Some(c) => {
                            match crate::new_connections::recv_status(pkt, c) {
                                Ok(_) => {
                                    proof {
                                        assert(phase_accepts(st, pkt@));
                                    }
                                },
                                Err(e) => {
                                    proof {
                                        assert(!phase_accepts(st, pkt@));
                                    }
                                    return Err(e);
                                },
                            }
                        },
                        None => {},
                    }
                },
                crate::types::State::Login => {
                    match Self::continue_login(pkt) {
                        Ok(Some(name)) => {
                            match clients.get_mut(id) {
                                Some(c) => {
                                    world.login(id, name, c);
                                    c.advance_state(crate::types::State::Play);
                                },
                                None => {},
                            }
                            proof {
                                assert(phase_accepts(st, pkt@));
                            }
                        },
                        Ok(None) => {
                            proof {
                                assert(false);
                            }
                        },
                        Err(e) => {
                            proof {
                                assert(!phase_accepts(st, pkt@));
                            }
                            return Err(e);
                        },
                    }
                },
                crate::types::State::Play => {
                    match world.play_request(id, clients, pkt) {
                        Ok(_) => {
                            proof {
                                lemma_extended_implies_others(cpre, clients@, id as int);
                                assert(phase_accepts(st, pkt@));
                            }
                        },
                        Err(e) => {
                            proof {
                                assert(!phase_accepts(st, pkt@));
                            }
                            return Err(e);
                        },
                    }
                },
            }
            proof {
                lemma_others_hold_trans(old(clients)@, cpre, clients@, id as int);
            }
            off = new_off;
        }
        let leftover = vstd::slice::slice_to_vec(
            vstd::slice::slice_subrange(buf.as_slice(), off, n),
        );
        proof {
            assert(leftover@ =~= buf@.subrange(off as int, buf@.len() as int));
        }
        let ghost cpre2 = clients@;
        match clients.get_mut(id) {
            Some(c) => {
                c.set_rbuf(leftover);
            },
            None => {},
        }
        proof {
            lemma_others_hold_trans(old(clients)@, cpre2, clients@, id as int);
        }
        Ok(())
    }
}

} // verus!
