//! The download pipeline: workers claim chunks, a window bounds how far they run
//! ahead, and a reorder buffer hands the chunks out in order.

use std::collections::{HashMap, HashSet, VecDeque};

use vstd::prelude::*;

verus! {

/// One byte range of the transfer, both ends included, and its place in the order.
#[derive(Clone, Copy, Debug, PartialEq, Eq, Structural)]
pub struct Chunk {
    pub seq: u64,
    pub start: i64,
    pub end: i64,
}

/// What is to be fetched, and with how much concurrency.
#[derive(Clone, Copy, Debug, PartialEq, Eq, Structural)]
pub struct Plan {
    /// The first byte to fetch.
    pub cursor: i64,
    /// The last byte to fetch.
    pub final_end: i64,
    /// How many bytes a chunk has, but for the last one.
    pub chunk_size: i64,
    /// How many chunks may be between the start of their download and the end of
    /// their being written.
    pub slots: usize,
    /// How many workers fetch.
    pub threads: usize,
}

impl Plan {
    /// Whether there is something to fetch, and the means to do so.
    pub open spec fn wf(self) -> bool {
        &&& 0 <= self.cursor <= self.final_end < i64::MAX
        &&& self.chunk_size > 0
        &&& self.slots > 0
        &&& self.threads > 0
    }

    /// The number of chunks.
    pub open spec fn chunks(self) -> nat {
        ((self.final_end - self.cursor) / self.chunk_size as int + 1) as nat
    }

    /// The first byte of chunk `k`.
    pub open spec fn chunk_start(self, k: int) -> int {
        self.cursor + k * self.chunk_size
    }

    /// The last byte of chunk `k`.
    pub open spec fn chunk_end(self, k: int) -> int {
        if self.chunk_start(k + 1) - 1 < self.final_end {
            self.chunk_start(k + 1) - 1
        } else {
            self.final_end as int
        }
    }

    /// Chunk `k`.
    pub open spec fn chunk(self, k: int) -> Chunk {
        Chunk { seq: k as u64, start: self.chunk_start(k) as i64, end: self.chunk_end(k) as i64 }
    }

    /// A chunk is one of the plan's exactly if it starts within it.
    pub proof fn lemma_chunk_within(self, k: int)
        requires
            self.wf(),
            k >= 0,
        ensures
            k < self.chunks() <==> self.chunk_start(k) <= self.final_end,
            self.chunk_start(k + 1) == self.chunk_start(k) + self.chunk_size,
            self.chunk_start(k) >= self.cursor + k,
            self.chunks() <= self.final_end - self.cursor + 1,
    {
        let m = self.final_end - self.cursor;
        let c = self.chunk_size as int;
        let q = m / c;
        assert(m == q * c + m % c && 0 <= m % c < c && q >= 0) by {
            vstd::arithmetic::div_mod::lemma_fundamental_div_mod(m, c);
            vstd::arithmetic::div_mod::lemma_div_pos_is_pos(m, c);
            vstd::arithmetic::mul::lemma_mul_is_commutative(q, c);
        }
        assert(k <= q <==> k * c <= m) by (nonlinear_arith)
            requires
                m == q * c + m % c,
                0 <= m % c < c,
        ;
        assert((k + 1) * c == k * c + c) by (nonlinear_arith);
        assert(k * c >= k) by (nonlinear_arith)
            requires
                k >= 0,
                c >= 1,
        ;
        assert(q * c >= q) by (nonlinear_arith)
            requires
                q >= 0,
                c >= 1,
        ;
    }

    /// The chunks tile the plan: each byte from the first to the last lies in exactly
    /// one chunk, and every chunk lies within the plan and is not empty.
    pub proof fn law_chunks_tile(self, byte: int)
        requires
            self.wf(),
            self.cursor <= byte <= self.final_end,
        ensures
            exists|k: int|
                0 <= k < self.chunks() && #[trigger] self.chunk_start(k) <= byte
                    <= self.chunk_end(k),
            forall|j: int, k: int|
                0 <= j < self.chunks() && 0 <= k < self.chunks() && #[trigger] self.chunk_start(j)
                    <= byte <= self.chunk_end(j) && #[trigger] self.chunk_start(k) <= byte
                    <= self.chunk_end(k) ==> j == k,
            forall|k: int|
                0 <= k < self.chunks() ==> self.cursor <= #[trigger] self.chunk_start(k)
                    <= self.chunk_end(k) <= self.final_end,
    {
        let c = self.chunk_size as int;
        let m = byte - self.cursor;
        let w = m / c;
        assert(m == w * c + m % c && 0 <= m % c < c && w >= 0) by {
            vstd::arithmetic::div_mod::lemma_fundamental_div_mod(m, c);
            vstd::arithmetic::div_mod::lemma_div_pos_is_pos(m, c);
            vstd::arithmetic::mul::lemma_mul_is_commutative(w, c);
        }
        self.lemma_chunk_within(w);
        assert(self.chunk_start(w) <= byte <= self.chunk_end(w));
        assert forall|k: int| 0 <= k < self.chunks() implies self.cursor
            <= #[trigger] self.chunk_start(k) <= self.chunk_end(k) <= self.final_end by {
            self.lemma_chunk_within(k);
        }
        assert forall|j: int, k: int|
            0 <= j < self.chunks() && 0 <= k < self.chunks() && #[trigger] self.chunk_start(j)
                <= byte <= self.chunk_end(j) && #[trigger] self.chunk_start(k) <= byte
                <= self.chunk_end(k) implies j == k by {
            self.lemma_chunk_within(j);
            self.lemma_chunk_within(k);
            assert(j * c <= m < j * c + c);
            assert(k * c <= m < k * c + c);
            assert(j == k) by (nonlinear_arith)
                requires
                    j * c <= m < j * c + c,
                    k * c <= m < k * c + c,
            ;
        }
    }
}

/// What a worker is told when it asks for the next chunk.
#[derive(Clone, Copy, Debug, PartialEq, Eq, Structural)]
pub enum Claim {
    /// The window is full: ask again when a chunk has been written.
    Wait,
    /// There is nothing left to fetch: the worker is done.
    Exit,
    /// Fetch this chunk.
    Fetch(Chunk),
}

/// What the writer is told when it asks for the next chunk.
#[derive(Debug, PartialEq, Eq)]
pub enum Take<T> {
    /// Write this chunk.
    Write(T),
    /// A chunk could not be fetched: end the transfer with this error.
    Fail(String),
    /// The next chunk is not there yet.
    Wait,
    /// The transfer is over.
    Done,
}

/// Something that happens to a pipeline.
pub enum Event<T> {
    /// A worker asks for a chunk.
    Claim,
    /// A worker hands in the outcome for a chunk.
    Deliver(u64, Result<T, String>),
    /// The writer asks for a chunk; what it was given before is written.
    Take,
}

/// The abstract state of a pipeline.
#[verifier::reject_recursive_types(T)]
pub struct State<T> {
    pub plan: Plan,
    /// How many chunks workers have claimed.
    pub claimed: nat,
    /// How many further chunks the window admits.
    pub permits: nat,
    /// How many workers have not exited.
    pub live: nat,
    /// The chunks that are being fetched.
    pub in_flight: Set<u64>,
    /// What workers handed in and the writer has not looked at, oldest first.
    pub queued: Seq<(u64, Result<T, String>)>,
    /// The chunks that arrived ahead of their turn.
    pub pending: Map<u64, T>,
    /// How many chunks are written.
    pub want: nat,
    /// Whether the writer holds chunk `want` and is writing it.
    pub writing: bool,
    /// Whether the transfer has failed.
    pub stopped: bool,
}

impl<T> State<T> {
    /// The state before anything has happened.
    pub open spec fn initial(plan: Plan) -> State<T> {
        State {
            plan,
            claimed: 0,
            permits: plan.slots as nat,
            live: plan.threads as nat,
            in_flight: Set::empty(),
            queued: Seq::empty(),
            pending: Map::empty(),
            want: 0,
            writing: false,
            stopped: false,
        }
    }

    /// How many workers are not fetching.
    pub open spec fn idle(self) -> int {
        self.live - self.in_flight.len()
    }

    /// How many chunks are between the start of their download and the end of their
    /// being written.
    pub open spec fn outstanding(self) -> nat {
        self.in_flight.len() + self.queued.len() + self.pending.dom().len() + if self.writing {
            1nat
        } else {
            0nat
        }
    }

    /// Whether an outcome for chunk `seq` waits for the writer.
    pub open spec fn is_queued(self, seq: u64) -> bool {
        exists|i: int| 0 <= i < self.queued.len() && (#[trigger] self.queued[i]).0 == seq
    }

    /// Whether chunk `seq` is somewhere between the start of its download and the end
    /// of its being written.
    pub open spec fn holds(self, seq: u64) -> bool {
        ||| self.in_flight.contains(seq)
        ||| self.is_queued(seq)
        ||| self.pending.contains_key(seq)
        ||| self.writing && seq == self.want
    }

    /// Whether an outcome that waits for the writer is a failure.
    pub open spec fn has_failure(self) -> bool {
        exists|i: int| 0 <= i < self.queued.len() && (#[trigger] self.queued[i]).1 is Err
    }

    /// Whether the bytes `data` of chunk `seq` have arrived before any failure.
    pub open spec fn arrived_in_time(self, seq: u64, data: T) -> bool {
        ||| self.pending.contains_key(seq) && self.pending[seq] == data
        ||| exists|i: int|
            0 <= i < self.queued.len() && #[trigger] self.queued[i] == (seq, Ok::<T, String>(data))
                && (forall|j: int| 0 <= j < i ==> (#[trigger] self.queued[j]).1 is Ok)
    }

    /// Whether the first failure that waits for the writer has this error.
    pub open spec fn fails_first_with(self, error: String) -> bool {
        exists|i: int|
            0 <= i < self.queued.len() && (#[trigger] self.queued[i]).1 == Err::<T, String>(error)
                && (forall|j: int| 0 <= j < i ==> (#[trigger] self.queued[j]).1 is Ok)
    }

    /// Whether an outcome that waits for the writer is a failure with this error.
    pub open spec fn fails_with(self, error: String) -> bool {
        exists|i: int|
            0 <= i < self.queued.len() && (#[trigger] self.queued[i]).1 == Err::<T, String>(error)
    }

    /// Whether the bytes `data` of chunk `seq` have arrived and are not handed out yet.
    pub open spec fn arrived(self, seq: u64, data: T) -> bool {
        ||| self.pending.contains_key(seq) && self.pending[seq] == data
        ||| exists|i: int|
            0 <= i < self.queued.len() && #[trigger] self.queued[i] == (seq, Ok::<T, String>(data))
    }

    /// The invariant of a pipeline.
    pub open spec fn wf(self) -> bool {
        &&& self.plan.wf()
        &&& self.want <= self.claimed <= self.plan.chunks()
        &&& self.writing ==> self.want < self.claimed
        &&& self.in_flight.finite()
        &&& self.pending.dom().finite()
        // A permit is taken for each claimed chunk and comes back when it is written.
        &&& self.permits + self.claimed - self.want == self.plan.slots
        &&& self.permits + self.outstanding() <= self.plan.slots
        &&& !self.stopped ==> self.permits + self.outstanding() == self.plan.slots
        // Exactly the chunks that are claimed and not written are held, each in one place.
        &&& forall|seq: u64| #[trigger] self.holds(seq) ==> self.want <= seq < self.claimed
        &&& !self.stopped ==> forall|seq: u64|
            self.want <= seq < self.claimed ==> #[trigger] self.holds(seq)
        &&& forall|seq: u64| #[trigger] self.in_flight.contains(seq) ==> !self.is_queued(seq)
        &&& forall|seq: u64|
            #[trigger] self.pending.contains_key(seq) ==> !self.is_queued(seq)
                && !self.in_flight.contains(seq)
        &&& forall|i: int, j: int|
            0 <= i < j < self.queued.len() ==> (#[trigger] self.queued[i]).0 != (
            #[trigger] self.queued[j]).0
        &&& self.writing ==> !self.in_flight.contains(self.want as u64) && !self.is_queued(
            self.want as u64,
        ) && !self.pending.contains_key(self.want as u64)
        // Workers leave only when all chunks are claimed or one has failed.
        &&& self.in_flight.len() <= self.live <= self.plan.threads
        &&& self.live < self.plan.threads ==> self.claimed == self.plan.chunks() || self.stopped
            || self.has_failure()
    }

    /// What a worker that asks for a chunk is told, and the state after that.
    pub open spec fn claim(self) -> (State<T>, Claim) {
        if self.permits == 0 || self.idle() <= 0 {
            (self, Claim::Wait)
        } else if self.stopped || self.claimed == self.plan.chunks() {
            (State { live: (self.live - 1) as nat, ..self }, Claim::Exit)
        } else {
            (
                State {
                    permits: (self.permits - 1) as nat,
                    claimed: self.claimed + 1,
                    in_flight: self.in_flight.insert(self.claimed as u64),
                    ..self
                },
                Claim::Fetch(self.plan.chunk(self.claimed as int)),
            )
        }
    }

    /// The state after a worker has handed in an outcome, and whether the worker is to
    /// go on. A worker exits after a failure, and when nobody takes outcomes any more.
    pub open spec fn deliver(self, seq: u64, outcome: Result<T, String>) -> (State<T>, bool) {
        if !self.in_flight.contains(seq) {
            (self, false)
        } else if self.stopped {
            (
                State { in_flight: self.in_flight.remove(seq), live: (self.live - 1) as nat, ..self },
                false,
            )
        } else {
            (
                State {
                    in_flight: self.in_flight.remove(seq),
                    queued: self.queued.push((seq, outcome)),
                    live: if outcome is Err {
                        (self.live - 1) as nat
                    } else {
                        self.live
                    },
                    ..self
                },
                outcome is Ok,
            )
        }
    }

    /// The state once the chunk that the writer holds is written: its permit is back.
    pub open spec fn acknowledge(self) -> State<T> {
        if self.writing {
            State { writing: false, want: self.want + 1, permits: self.permits + 1, ..self }
        } else {
            self
        }
    }

    /// The state once the oldest outcome has been moved to the reorder buffer.
    pub open spec fn store_oldest(self) -> State<T> {
        State {
            queued: self.queued.drop_first(),
            pending: self.pending.insert(self.queued[0].0, self.queued[0].1->Ok_0),
            ..self
        }
    }

    /// What a writer with free hands is told, and the state after that.
    pub open spec fn advance(self) -> (State<T>, Take<T>)
        decreases self.queued.len(),
    {
        if self.stopped {
            (self, Take::Done)
        } else if self.pending.contains_key(self.want as u64) {
            (
                State { pending: self.pending.remove(self.want as u64), writing: true, ..self },
                Take::Write(self.pending[self.want as u64]),
            )
        } else if self.queued.len() == 0 {
            (
                self,
                if self.live == 0 {
                    Take::Done
                } else {
                    Take::Wait
                },
            )
        } else {
            match self.queued[0].1 {
                Ok(_) => self.store_oldest().advance(),
                Err(e) => (
                    State { queued: self.queued.drop_first(), stopped: true, ..self },
                    Take::Fail(e),
                ),
            }
        }
    }

    /// What a writer that asks for a chunk is told, and the state after that.
    pub open spec fn take(self) -> (State<T>, Take<T>) {
        self.acknowledge().advance()
    }

    /// The state after `event`.
    pub open spec fn after(self, event: Event<T>) -> State<T> {
        match event {
            Event::Claim => self.claim().0,
            Event::Deliver(seq, outcome) => self.deliver(seq, outcome).0,
            Event::Take => self.take().0,
        }
    }
}

/// Handing out a chunk keeps the invariant.
proof fn lemma_claim_keeps_wf<T>(s: State<T>)
    requires
        s.wf(),
    ensures
        s.claim().0.wf(),
{
    let t = s.claim().0;
    s.plan.lemma_chunk_within(s.claimed as int);
    if s.claim().1 is Fetch {
        let k = s.claimed as u64;
        assert(!s.holds(k));
        assert(s.queued == t.queued);
        assert forall|seq: u64| #[trigger] t.holds(seq) == (s.holds(seq) || seq == k) by {
            assert(t.is_queued(seq) == s.is_queued(seq));
        }
        assert forall|seq: u64| #[trigger] t.in_flight.contains(seq) implies !t.is_queued(seq) by {
            if seq != k {
                assert(s.in_flight.contains(seq));
            }
        }
    } else {
        assert(s.queued == t.queued);
        assert forall|seq: u64| #[trigger] t.holds(seq) == s.holds(seq) by {
            assert(t.is_queued(seq) == s.is_queued(seq));
        }
    }
}

/// Handing in an outcome keeps the invariant.
proof fn lemma_deliver_keeps_wf<T>(s: State<T>, seq: u64, outcome: Result<T, String>)
    requires
        s.wf(),
    ensures
        s.deliver(seq, outcome).0.wf(),
{
    let t = s.deliver(seq, outcome).0;
    if !s.in_flight.contains(seq) {
    } else if s.stopped {
        assert(s.queued == t.queued);
        assert forall|q: u64| #[trigger] t.holds(q) implies s.holds(q) by {
            assert(t.is_queued(q) == s.is_queued(q));
        }
    } else {
        assert(s.holds(seq));
        assert(t.queued[t.queued.len() - 1] == (seq, outcome));
        assert forall|q: u64| #[trigger] t.is_queued(q) == (s.is_queued(q) || q == seq) by {
            if s.is_queued(q) {
                let i = choose|i: int| 0 <= i < s.queued.len() && (#[trigger] s.queued[i]).0 == q;
                assert(t.queued[i] == s.queued[i]);
            }
            if t.is_queued(q) && q != seq {
                let i = choose|i: int| 0 <= i < t.queued.len() && (#[trigger] t.queued[i]).0 == q;
                assert(t.queued[i] == s.queued[i]);
            }
        }
        assert forall|q: u64| #[trigger] t.holds(q) == s.holds(q) by {
            assert(t.is_queued(q) == (s.is_queued(q) || q == seq));
        }
        assert forall|i: int, j: int| 0 <= i < j < t.queued.len() implies (
        #[trigger] t.queued[i]).0 != (#[trigger] t.queued[j]).0 by {
            if j == t.queued.len() - 1 {
                assert(!s.is_queued(seq));
                assert(s.queued[i].0 != seq);
            } else {
                assert(s.queued[i].0 != s.queued[j].0);
            }
        }
        assert forall|q: u64| #[trigger] t.pending.contains_key(q) implies !t.is_queued(q) by {
            assert(s.pending.contains_key(q));
        }
        if t.live < t.plan.threads && !(t.claimed == t.plan.chunks()) {
            if outcome is Ok {
                let i = choose|i: int|
                    0 <= i < s.queued.len() && (#[trigger] s.queued[i]).1 is Err;
                assert(t.queued[i] == s.queued[i]);
            }
            assert(t.has_failure());
        }
    }
}

/// Finishing a write keeps the invariant.
proof fn lemma_acknowledge_keeps_wf<T>(s: State<T>)
    requires
        s.wf(),
    ensures
        s.acknowledge().wf(),
{
    let t = s.acknowledge();
    if s.writing {
        assert(s.queued == t.queued);
        assert forall|q: u64| #[trigger] t.holds(q) == (s.holds(q) && q != s.want) by {
            assert(t.is_queued(q) == s.is_queued(q));
            if q == s.want {
                assert(q == s.want as u64);
            }
        }
        assert(s.want <= u64::MAX);
    }
}

/// Moving the oldest outcome to the reorder buffer keeps the invariant.
proof fn lemma_store_keeps_wf<T>(s: State<T>)
    requires
        s.wf(),
        !s.stopped,
        s.queued.len() > 0,
        s.queued[0].1 is Ok,
    ensures
        s.store_oldest().wf(),
{
    let t = s.store_oldest();
    let seq = s.queued[0].0;
    assert(s.is_queued(seq));
    assert forall|q: u64| #[trigger] t.is_queued(q) == (s.is_queued(q) && q != seq) by {
        if s.is_queued(q) && q != seq {
            let i = choose|i: int| 0 <= i < s.queued.len() && (#[trigger] s.queued[i]).0 == q;
            assert(t.queued[i - 1] == s.queued[i]);
        }
        if t.is_queued(q) {
            let i = choose|i: int| 0 <= i < t.queued.len() && (#[trigger] t.queued[i]).0 == q;
            assert(s.queued[i + 1] == t.queued[i]);
        }
    }
    assert forall|q: u64| #[trigger] t.holds(q) == s.holds(q) by {
        assert(t.is_queued(q) == (s.is_queued(q) && q != seq));
    }
    assert(!s.pending.contains_key(seq));
    assert(!s.in_flight.contains(seq));
    assert(t.pending.dom() =~= s.pending.dom().insert(seq));
    assert forall|q: u64| #[trigger] t.pending.contains_key(q) implies !t.is_queued(q)
        && !t.in_flight.contains(q) by {
        if q != seq {
            assert(s.pending.contains_key(q));
        }
    }
    assert forall|i: int, j: int| 0 <= i < j < t.queued.len() implies (#[trigger] t.queued[i]).0
        != (#[trigger] t.queued[j]).0 by {
        assert(s.queued[i + 1].0 != s.queued[j + 1].0);
    }
    if s.has_failure() {
        let i = choose|i: int| 0 <= i < s.queued.len() && (#[trigger] s.queued[i]).1 is Err;
        assert(t.queued[i - 1] == s.queued[i]);
    }
}

/// Answering the writer keeps the invariant.
proof fn lemma_advance_keeps_wf<T>(s: State<T>)
    requires
        s.wf(),
        !s.writing,
    ensures
        s.advance().0.wf(),
    decreases s.queued.len(),
{
    let t = s.advance().0;
    let w = s.want as u64;
    if s.stopped {
    } else if s.pending.contains_key(w) {
        assert(s.holds(w));
        assert(s.queued == t.queued);
        assert(t.pending.dom() =~= s.pending.dom().remove(w));
        assert forall|q: u64| #[trigger] t.holds(q) == s.holds(q) by {
            assert(t.is_queued(q) == s.is_queued(q));
        }
        assert forall|q: u64| #[trigger] t.pending.contains_key(q) implies !t.is_queued(q)
            && !t.in_flight.contains(q) by {
            assert(s.pending.contains_key(q));
        }
    } else if s.queued.len() == 0 {
    } else if s.queued[0].1 is Ok {
        lemma_store_keeps_wf(s);
        lemma_advance_keeps_wf(s.store_oldest());
    } else {
        assert forall|q: u64| #[trigger] t.is_queued(q) implies s.is_queued(q) by {
            let i = choose|i: int| 0 <= i < t.queued.len() && (#[trigger] t.queued[i]).0 == q;
            assert(s.queued[i + 1] == t.queued[i]);
        }
        assert forall|q: u64| #[trigger] t.holds(q) implies s.holds(q) by {
            assert(t.is_queued(q) ==> s.is_queued(q));
        }
        assert forall|i: int, j: int| 0 <= i < j < t.queued.len() implies (
        #[trigger] t.queued[i]).0 != (#[trigger] t.queued[j]).0 by {
            assert(s.queued[i + 1].0 != s.queued[j + 1].0);
        }
    }
}

/// Every event keeps the invariant.
pub proof fn law_events_keep_invariant<T>(s: State<T>, event: Event<T>)
    requires
        s.wf(),
    ensures
        s.after(event).wf(),
{
    match event {
        Event::Claim => lemma_claim_keeps_wf(s),
        Event::Deliver(seq, outcome) => lemma_deliver_keeps_wf(s, seq, outcome),
        Event::Take => {
            lemma_acknowledge_keeps_wf(s);
            lemma_advance_keeps_wf(s.acknowledge());
        },
    }
}

/// A pipeline starts with its invariant.
pub proof fn law_initial_invariant<T>(plan: Plan)
    requires
        plan.wf(),
    ensures
        State::<T>::initial(plan).wf(),
{
    plan.lemma_chunk_within(0);
}

/// The window bounds memory: the chunks in flight, the outcomes that wait for the
/// writer, the reorder buffer and the chunk being written together never exceed the
/// slots of the plan.
pub proof fn law_window_is_bounded<T>(s: State<T>)
    requires
        s.wf(),
    ensures
        s.in_flight.len() + s.queued.len() + s.pending.dom().len() <= s.plan.slots,
        s.outstanding() <= s.plan.slots,
{
}

/// A worker that has fetched a chunk always finds room to hand it in: the outcomes that
/// wait for the writer are fewer than the slots.
pub proof fn law_delivery_finds_room<T>(s: State<T>, seq: u64)
    requires
        s.wf(),
        s.in_flight.contains(seq),
    ensures
        s.queued.len() < s.plan.slots,
{
    if s.in_flight.len() == 0 {
        assert(s.in_flight =~= Set::empty());
    }
}

/// When the window admits no further chunk, the chunk that is to be written next has
/// been claimed: no worker holds up the one that everything waits for.
pub proof fn law_next_chunk_is_claimed<T>(s: State<T>)
    requires
        s.wf(),
        s.permits == 0,
    ensures
        s.want < s.claimed,
        !s.stopped ==> s.holds(s.want as u64),
{
    s.plan.lemma_chunk_within(0);
}

/// What the writer with free hands is told.
proof fn lemma_advance_answers<T>(s: State<T>)
    requires
        s.wf(),
        !s.writing,
        !s.stopped,
    ensures
        s.advance().0.want == s.want,
        s.advance().0.plan == s.plan,
        match s.advance().1 {
            Take::Write(data) => s.arrived(s.want as u64, data) && s.advance().0.writing,
            Take::Done => s.want == s.plan.chunks() && !s.advance().0.stopped,
            Take::Wait => s.live > 0 && s.advance().0.queued.len() == 0
                && !s.advance().0.stopped && !s.advance().0.writing && s.advance().0.in_flight
                == s.in_flight && s.advance().0.live == s.live && s.advance().0.permits
                == s.permits && s.advance().0.claimed == s.claimed
                && !s.advance().0.pending.contains_key(s.want as u64),
            Take::Fail(e) => s.advance().0.stopped && s.has_failure(),
        },
    decreases s.queued.len(),
{
    s.plan.lemma_chunk_within(0);
    if s.pending.contains_key(s.want as u64) {
    } else if s.queued.len() == 0 {
        if s.live == 0 {
            if s.in_flight.len() == 0 {
                assert(s.in_flight =~= Set::empty());
            }
            assert(!s.is_queued(s.want as u64));
            assert(!s.holds(s.want as u64));
        }
    } else if s.queued[0].1 is Ok {
        let t = s.store_oldest();
        lemma_store_keeps_wf(s);
        lemma_advance_answers(t);
        if t.has_failure() {
            let i = choose|i: int| 0 <= i < t.queued.len() && (#[trigger] t.queued[i]).1 is Err;
            assert(s.queued[i + 1] == t.queued[i]);
        }
        if let Take::Write(data) = t.advance().1 {
            let w = s.want as u64;
            if t.pending.contains_key(w) && t.pending[w] == data {
                if w == s.queued[0].0 {
                    assert(s.queued[0] == (w, Ok::<T, String>(data)));
                }
            } else {
                let i = choose|i: int|
                    0 <= i < t.queued.len() && #[trigger] t.queued[i] == (w, Ok::<T, String>(data));
                assert(s.queued[i + 1] == t.queued[i]);
            }
        }
    }
}

/// The writer is given the chunks one after the other: what it is given is the bytes
/// that arrived for the first chunk that is not written. It is told that the transfer
/// is over only after a failure or once every chunk is written.
pub proof fn law_writer_is_served_in_order<T>(s: State<T>)
    requires
        s.wf(),
    ensures
        s.take().0.want == s.acknowledge().want,
        match s.take().1 {
            Take::Write(data) => s.arrived(s.acknowledge().want as u64, data) && s.take().0.writing,
            Take::Done => s.stopped || s.take().0.want == s.plan.chunks(),
            Take::Wait => !s.take().0.writing,
            Take::Fail(_) => s.has_failure() && s.take().0.stopped,
        },
{
    lemma_acknowledge_keeps_wf(s);
    if !s.stopped {
        lemma_advance_answers(s.acknowledge());
    }
}

/// There is no deadlock: as long as the transfer is neither over nor failed, the
/// writer gets an answer, or a chunk is being fetched, or a worker can claim one or
/// exit. That holds for any number of workers and slots.
pub proof fn law_no_deadlock<T>(s: State<T>)
    requires
        s.wf(),
        !s.stopped,
    ensures
        s.take().1 !is Wait || s.in_flight.len() > 0 || s.take().0.claim().1 !is Wait,
{
    lemma_acknowledge_keeps_wf(s);
    let t = s.acknowledge();
    lemma_advance_answers(t);
    lemma_advance_keeps_wf(t);
    if s.take().1 is Wait && s.in_flight.len() == 0 {
        let u = s.take().0;
        s.plan.lemma_chunk_within(0);
        assert(u.in_flight =~= Set::empty());
        assert(!u.is_queued(u.want as u64));
        assert(!u.holds(u.want as u64));
        assert(u.want == u.claimed);
        assert(u.permits == u.plan.slots);
    }
}

/// How much is left to do: every event that has an effect makes it smaller.
pub open spec fn work_left<T>(s: State<T>) -> int {
    5 * (s.plan.chunks() - s.claimed) + 4 * s.in_flight.len() + 3 * s.queued.len() + 2
        * s.pending.dom().len() + (if s.writing {
        1int
    } else {
        0int
    }) + s.live
}

/// Answering the writer does not add work, and takes some away where it hands something
/// out.
proof fn lemma_advance_reduces_work<T>(s: State<T>)
    requires
        s.wf(),
        !s.writing,
    ensures
        work_left(s.advance().0) <= work_left(s),
        s.advance().1 is Write || s.advance().1 is Fail ==> work_left(s.advance().0) < work_left(s),
    decreases s.queued.len(),
{
    let t = s.advance().0;
    let w = s.want as u64;
    if s.stopped {
    } else if s.pending.contains_key(w) {
        assert(t.pending.dom() =~= s.pending.dom().remove(w));
    } else if s.queued.len() > 0 && s.queued[0].1 is Ok {
        lemma_store_keeps_wf(s);
        assert(s.is_queued(s.queued[0].0));
        assert(!s.pending.contains_key(s.queued[0].0));
        assert(s.store_oldest().pending.dom() =~= s.pending.dom().insert(s.queued[0].0));
        lemma_advance_reduces_work(s.store_oldest());
    }
}

/// Every run ends: the work that is left is never negative, no event adds to it, and a
/// claim that is not told to wait, an outcome for a chunk in flight, and a chunk or a
/// failure given to the writer each take some of it away.
pub proof fn law_events_make_progress<T>(s: State<T>, event: Event<T>)
    requires
        s.wf(),
    ensures
        0 <= work_left(s.after(event)) <= work_left(s),
        match event {
            Event::Claim => s.claim().1 !is Wait,
            Event::Deliver(seq, _) => s.in_flight.contains(seq),
            Event::Take => s.take().1 is Write || s.take().1 is Fail,
        } ==> work_left(s.after(event)) < work_left(s),
{
    law_events_keep_invariant(s, event);
    s.plan.lemma_chunk_within(s.claimed as int);
    match event {
        Event::Claim => {
            if s.claim().1 is Fetch {
                assert(!s.holds(s.claimed as u64));
            }
        },
        Event::Deliver(seq, _) => {},
        Event::Take => {
            lemma_acknowledge_keeps_wf(s);
            lemma_advance_reduces_work(s.acknowledge());
        },
    }
}

/// The state after `events`, from the start on.
pub open spec fn state_after<T>(plan: Plan, events: Seq<Event<T>>) -> State<T>
    decreases events.len(),
{
    if events.len() == 0 {
        State::initial(plan)
    } else {
        state_after(plan, events.drop_last()).after(events.last())
    }
}

/// What the writer has been given in the course of `events`, in that order.
pub open spec fn given_to_writer<T>(plan: Plan, events: Seq<Event<T>>) -> Seq<T>
    decreases events.len(),
{
    if events.len() == 0 {
        Seq::empty()
    } else {
        let before = given_to_writer(plan, events.drop_last());
        match (events.last(), state_after(plan, events.drop_last()).take().1) {
            (Event::Take, Take::Write(data)) => before.push(data),
            _ => before,
        }
    }
}

/// Whether the bytes `data` were handed in for chunk `seq` in the course of `events`.
pub open spec fn was_delivered<T>(events: Seq<Event<T>>, seq: u64, data: T) -> bool {
    exists|j: int|
        0 <= j < events.len() && #[trigger] events[j] == Event::Deliver(
            seq,
            Ok::<T, String>(data),
        )
}

/// What has arrived after `events` was handed in during `events`.
proof fn lemma_arrived_was_delivered<T>(plan: Plan, events: Seq<Event<T>>, seq: u64, data: T)
    requires
        plan.wf(),
        state_after(plan, events).arrived(seq, data),
    ensures
        was_delivered(events, seq, data),
        state_after(plan, events).wf(),
    decreases events.len(),
{
    lemma_state_after_wf(plan, events);
    if events.len() > 0 {
        let s = state_after(plan, events.drop_last());
        let t = state_after(plan, events);
        lemma_state_after_wf(plan, events.drop_last());
        match events.last() {
            Event::Claim => {
                assert(s.queued == t.queued);
                assert(s.arrived(seq, data));
            },
            Event::Deliver(q, outcome) => {
                if !s.arrived(seq, data) {
                    assert(events[events.len() - 1] == Event::Deliver(q, outcome));
                    let i = choose|i: int|
                        0 <= i < t.queued.len() && #[trigger] t.queued[i] == (
                            seq,
                            Ok::<T, String>(data),
                        );
                    if i < s.queued.len() {
                        assert(s.queued[i] == t.queued[i]);
                    }
                }
            },
            Event::Take => {
                lemma_acknowledge_keeps_wf(s);
                assert(s.acknowledge().queued == s.queued);
                lemma_advance_adds_nothing(s.acknowledge(), seq, data);
            },
        }
        if s.arrived(seq, data) {
            lemma_arrived_was_delivered(plan, events.drop_last(), seq, data);
            let j = choose|j: int|
                0 <= j < events.drop_last().len() && #[trigger] events.drop_last()[j]
                    == Event::Deliver(seq, Ok::<T, String>(data));
            assert(events[j] == events.drop_last()[j]);
        }
    } else {
        assert(false);
    }
}

/// Answering the writer makes nothing arrive.
proof fn lemma_advance_adds_nothing<T>(s: State<T>, seq: u64, data: T)
    requires
        s.wf(),
        !s.writing,
        s.advance().0.arrived(seq, data),
    ensures
        s.arrived(seq, data),
    decreases s.queued.len(),
{
    let t = s.advance().0;
    if s.stopped {
    } else if s.pending.contains_key(s.want as u64) {
        assert(s.queued == t.queued);
    } else if s.queued.len() == 0 {
    } else if s.queued[0].1 is Ok {
        let u = s.store_oldest();
        lemma_store_keeps_wf(s);
        lemma_advance_adds_nothing(u, seq, data);
        if u.pending.contains_key(seq) && u.pending[seq] == data {
            if seq == s.queued[0].0 {
                assert(s.queued[0] == (seq, Ok::<T, String>(data)));
            }
        } else {
            let i = choose|i: int|
                0 <= i < u.queued.len() && #[trigger] u.queued[i] == (seq, Ok::<T, String>(data));
            assert(s.queued[i + 1] == u.queued[i]);
        }
    } else {
        if !(t.pending.contains_key(seq) && t.pending[seq] == data) {
            let i = choose|i: int|
                0 <= i < t.queued.len() && #[trigger] t.queued[i] == (seq, Ok::<T, String>(data));
            assert(s.queued[i + 1] == t.queued[i]);
        }
    }
}

/// The invariant holds after any events.
proof fn lemma_state_after_wf<T>(plan: Plan, events: Seq<Event<T>>)
    requires
        plan.wf(),
    ensures
        state_after(plan, events).wf(),
        state_after(plan, events).plan == plan,
    decreases events.len(),
{
    if events.len() == 0 {
        law_initial_invariant::<T>(plan);
    } else {
        lemma_state_after_wf(plan, events.drop_last());
        law_events_keep_invariant(state_after(plan, events.drop_last()), events.last());
        lemma_events_keep_plan(state_after(plan, events.drop_last()), events.last());
    }
}

/// No event changes the plan.
proof fn lemma_events_keep_plan<T>(s: State<T>, event: Event<T>)
    ensures
        s.after(event).plan == s.plan,
{
    lemma_advance_keeps_plan(s.acknowledge());
}

/// Answering the writer does not change the plan.
proof fn lemma_advance_keeps_plan<T>(s: State<T>)
    ensures
        s.advance().0.plan == s.plan,
    decreases s.queued.len(),
{
    if s.queued.len() > 0 && s.queued[0].1 is Ok {
        lemma_advance_keeps_plan(s.store_oldest());
    }
}

/// Whatever the workers, the network and the writer do, and in whatever order they do
/// it: the writer is given the chunks in order, without a gap and without a repetition.
/// The `k`-th thing that it is given is what was handed in for chunk `k`.
pub proof fn law_writer_gets_every_chunk_once_in_order<T>(plan: Plan, events: Seq<Event<T>>)
    requires
        plan.wf(),
    ensures
        ({
            let s = state_after(plan, events);
            let given = given_to_writer(plan, events);
            &&& s.wf()
            &&& given.len() == s.want + if s.writing {
                1nat
            } else {
                0nat
            }
            &&& given.len() <= plan.chunks()
            &&& forall|k: int|
                0 <= k < given.len() ==> was_delivered(events, k as u64, #[trigger] given[k])
        }),
    decreases events.len(),
{
    lemma_state_after_wf(plan, events);
    if events.len() > 0 {
        let before = events.drop_last();
        let s = state_after(plan, before);
        let t = state_after(plan, events);
        let given = given_to_writer(plan, before);
        let now = given_to_writer(plan, events);
        law_writer_gets_every_chunk_once_in_order(plan, before);
        if events.last() is Take {
            law_writer_is_served_in_order(s);
            if s.stopped {
                assert(t.writing == s.acknowledge().writing);
            }
            if let Take::Write(data) = s.take().1 {
                let w = s.acknowledge().want as u64;
                plan.lemma_chunk_within(0);
                assert(s.acknowledge().queued == s.queued);
                assert(s.arrived(w, data));
                lemma_arrived_was_delivered(plan, before, w, data);
            } else if !s.stopped {
                lemma_acknowledge_keeps_wf(s);
                lemma_advance_answers(s.acknowledge());
                lemma_not_given_not_writing(s.acknowledge());
            }
        }
        assert forall|k: int| 0 <= k < now.len() implies was_delivered(
            events,
            k as u64,
            #[trigger] now[k],
        ) by {
            assert(was_delivered(before, k as u64, now[k])) by {
                if k < given.len() {
                    assert(now[k] == given[k]);
                }
            }
            let j = choose|j: int|
                0 <= j < before.len() && #[trigger] before[j] == Event::Deliver(
                    k as u64,
                    Ok::<T, String>(now[k]),
                );
            assert(events[j] == before[j]);
        }
    }
}

/// If the writer is told that the transfer is over, and it has not failed, then the
/// writer was given every chunk.
pub proof fn law_end_means_complete<T>(plan: Plan, events: Seq<Event<T>>)
    requires
        plan.wf(),
        state_after(plan, events).take().1 is Done,
        !state_after(plan, events).stopped,
    ensures
        given_to_writer(plan, events).len() == plan.chunks(),
{
    lemma_state_after_wf(plan, events);
    law_writer_gets_every_chunk_once_in_order(plan, events);
    law_writer_is_served_in_order(state_after(plan, events));
}

/// A writer that is not given a chunk holds none.
proof fn lemma_not_given_not_writing<T>(s: State<T>)
    requires
        !s.writing,
    ensures
        s.advance().0.writing == (s.advance().1 is Write),
    decreases s.queued.len(),
{
    if s.queued.len() > 0 && s.queued[0].1 is Ok {
        lemma_not_given_not_writing(s.store_oldest());
    }
}

/// What workers have been told to fetch in the course of `events`, in that order.
pub open spec fn handed_out<T>(plan: Plan, events: Seq<Event<T>>) -> Seq<Chunk>
    decreases events.len(),
{
    if events.len() == 0 {
        Seq::empty()
    } else {
        let before = handed_out(plan, events.drop_last());
        match (events.last(), state_after(plan, events.drop_last()).claim().1) {
            (Event::Claim, Claim::Fetch(chunk)) => before.push(chunk),
            _ => before,
        }
    }
}

/// Answering the writer does not change what is claimed, nor who claims it.
proof fn lemma_advance_keeps_claims<T>(s: State<T>)
    ensures
        s.advance().0.claimed == s.claimed,
        s.advance().0.permits == s.permits,
        s.advance().0.live == s.live,
        s.advance().0.in_flight == s.in_flight,
    decreases s.queued.len(),
{
    if s.queued.len() > 0 && s.queued[0].1 is Ok {
        lemma_advance_keeps_claims(s.store_oldest());
    }
}

/// Whatever happens, workers are told to fetch the range of the plan piece by piece: the
/// `k`-th piece is numbered `k`, the first one starts at the first byte of the plan, each
/// further one starts where the one before it ends, and each has the size of a chunk,
/// but for the last, which ends at the last byte.
pub proof fn law_fetched_ranges_follow_each_other<T>(plan: Plan, events: Seq<Event<T>>)
    requires
        plan.wf(),
    ensures
        ({
            let fetched = handed_out(plan, events);
            &&& fetched.len() == state_after(plan, events).claimed
            &&& fetched.len() > 0 ==> fetched[0].start == plan.cursor
            &&& forall|k: int|
                0 <= k < fetched.len() ==> {
                    &&& (#[trigger] fetched[k]).seq == k
                    &&& fetched[k].start == plan.cursor + k * plan.chunk_size
                    &&& fetched[k].start <= fetched[k].end <= plan.final_end
                    &&& fetched[k].end == plan.final_end || fetched[k].end == fetched[k].start
                        + plan.chunk_size - 1
                    &&& fetched[k].end - fetched[k].start < plan.chunk_size
                }
            &&& forall|j: int, k: int|
                0 <= j && k == j + 1 && k < fetched.len() ==> (#[trigger] fetched[k]).start == (
                #[trigger] fetched[j]).end + 1
        }),
    decreases events.len(),
{
    lemma_state_after_wf(plan, events);
    plan.lemma_chunk_within(0);
    if events.len() > 0 {
        let before = events.drop_last();
        let s = state_after(plan, before);
        let old_fetched = handed_out(plan, before);
        let fetched = handed_out(plan, events);
        lemma_state_after_wf(plan, before);
        law_fetched_ranges_follow_each_other(plan, before);
        match events.last() {
            Event::Claim => {
                let n = s.claimed as int;
                plan.lemma_chunk_within(n);
                if s.claim().1 is Fetch {
                    assert(fetched[n] == plan.chunk(n));
                    if n > 0 {
                        plan.lemma_chunk_within(n - 1);
                        assert(fetched[n - 1] == old_fetched[n - 1]);
                    }
                    assert forall|k: int| 0 <= k < fetched.len() implies {
                        &&& (#[trigger] fetched[k]).seq == k
                        &&& fetched[k].start == plan.cursor + k * plan.chunk_size
                        &&& fetched[k].start <= fetched[k].end <= plan.final_end
                        &&& fetched[k].end == plan.final_end || fetched[k].end == fetched[k].start
                            + plan.chunk_size - 1
                        &&& fetched[k].end - fetched[k].start < plan.chunk_size
                    } by {
                        if k < n {
                            assert(fetched[k] == old_fetched[k]);
                        }
                    }
                    assert forall|j: int, k: int|
                        0 <= j && k == j + 1 && k < fetched.len() implies (
                    #[trigger] fetched[k]).start == (#[trigger] fetched[j]).end + 1 by {
                        if k < n {
                            assert(fetched[k] == old_fetched[k]);
                            assert(fetched[j] == old_fetched[j]);
                        }
                    }
                }
            },
            Event::Deliver(_, _) => {},
            Event::Take => {
                lemma_advance_keeps_claims(s.acknowledge());
            },
        }
    }
}

/// A transfer that ends without a failure has fetched every byte of its range, each in
/// exactly one of the ranges that workers were told to fetch.
pub proof fn law_fetched_ranges_tile<T>(plan: Plan, events: Seq<Event<T>>, byte: int)
    requires
        plan.wf(),
        state_after(plan, events).take().1 is Done,
        !state_after(plan, events).stopped,
        plan.cursor <= byte <= plan.final_end,
    ensures
        ({
            let fetched = handed_out(plan, events);
            &&& fetched.len() > 0
            &&& fetched.last().end == plan.final_end
            &&& exists|k: int|
                0 <= k < fetched.len() && (#[trigger] fetched[k]).start <= byte <= fetched[k].end
            &&& forall|j: int, k: int|
                0 <= j < fetched.len() && 0 <= k < fetched.len() && (#[trigger] fetched[j]).start
                    <= byte <= fetched[j].end && (#[trigger] fetched[k]).start <= byte
                    <= fetched[k].end ==> j == k
        }),
{
    let fetched = handed_out(plan, events);
    let s = state_after(plan, events);
    lemma_state_after_wf(plan, events);
    law_fetched_ranges_follow_each_other(plan, events);
    law_writer_is_served_in_order(s);
    assert(s.claimed == plan.chunks());
    plan.lemma_chunk_within(0);
    plan.lemma_chunk_within(plan.chunks() - 1);
    plan.lemma_chunk_within(plan.chunks() as int);
    plan.law_chunks_tile(byte);
    assert forall|k: int| 0 <= k < fetched.len() implies (#[trigger] fetched[k]).start
        == plan.chunk_start(k) && fetched[k].end == plan.chunk_end(k) by {
        plan.lemma_chunk_within(k);
        if k + 1 < fetched.len() {
            assert(fetched[k + 1].start == fetched[k].end + 1);
        }
    }
    let k = choose|k: int|
        0 <= k < plan.chunks() && #[trigger] plan.chunk_start(k) <= byte <= plan.chunk_end(k);
    assert(fetched[k].start <= byte <= fetched[k].end);
    assert forall|j: int, k: int|
        0 <= j < fetched.len() && 0 <= k < fetched.len() && (#[trigger] fetched[j]).start <= byte
            <= fetched[j].end && (#[trigger] fetched[k]).start <= byte <= fetched[k].end implies j
        == k by {
        assert(plan.chunk_start(j) <= byte <= plan.chunk_end(j));
        assert(plan.chunk_start(k) <= byte <= plan.chunk_end(k));
    }
}

/// No worker idles for nothing: one that asks for a chunk while fewer are outstanding
/// than the window admits is told to fetch one, as long as a byte of the range has not
/// been handed out, and to exit otherwise, or after a failure. One that exits keeps no
/// place of the window.
pub proof fn law_no_worker_idles<T>(s: State<T>)
    requires
        s.wf(),
        s.in_flight.len() < s.live,
        s.outstanding() < s.plan.slots,
        !s.stopped,
    ensures
        s.plan.cursor + s.claimed * s.plan.chunk_size <= s.plan.final_end ==> s.claim().1 is Fetch,
        s.plan.cursor + s.claimed * s.plan.chunk_size > s.plan.final_end ==> {
            &&& s.claim().1 is Exit
            &&& s.claim().0.permits == s.permits
            &&& s.claim().0.outstanding() == s.outstanding()
        },
{
    s.plan.lemma_chunk_within(s.claimed as int);
}

/// While as many chunks are outstanding as the window admits, nobody is told to fetch
/// another one.
pub proof fn law_full_window_waits<T>(s: State<T>)
    requires
        s.wf(),
        s.outstanding() == s.plan.slots,
    ensures
        s.claim() == (s, Claim::Wait),
{
}

/// What is handed in for a chunk that is being fetched arrives, behind everything that
/// was handed in before, and the worker goes on, unless it was a failure, or one has ended the transfer. Anything else is not taken.
pub proof fn law_delivery_arrives<T>(s: State<T>, seq: u64, outcome: Result<T, String>)
    requires
        s.wf(),
    ensures
        ({
            let (t, go_on) = s.deliver(seq, outcome);
            &&& go_on <==> s.in_flight.contains(seq) && !s.stopped && outcome is Ok
            &&& go_on ==> t.arrived(seq, outcome->Ok_0)
            &&& s.in_flight.contains(seq) && !s.stopped && outcome is Err ==> t.fails_with(
                outcome->Err_0,
            )
            &&& s.in_flight.contains(seq) && !s.stopped ==> t.queued == s.queued.push((seq, outcome))
            &&& !s.in_flight.contains(seq) || s.stopped ==> t.queued == s.queued
            &&& !t.in_flight.contains(seq)
            &&& t.pending == s.pending && t.want == s.want && t.claimed == s.claimed
        }),
{
    let t = s.deliver(seq, outcome).0;
    if s.in_flight.contains(seq) && !s.stopped {
        assert(t.queued[t.queued.len() - 1] == (seq, outcome));
    }
}

/// The writer with free hands gets a chunk that has arrived.
proof fn lemma_advance_writes_arrived<T>(s: State<T>, data: T)
    requires
        s.wf(),
        !s.writing,
        !s.stopped,
        s.arrived_in_time(s.want as u64, data),
    ensures
        s.advance().1 == Take::Write(data),
    decreases s.queued.len(),
{
    let w = s.want as u64;
    if s.pending.contains_key(w) {
        if s.pending[w] != data {
            let i = choose|i: int|
                0 <= i < s.queued.len() && #[trigger] s.queued[i] == (w, Ok::<T, String>(data));
            assert(s.is_queued(w));
        }
    } else {
        let i = choose|i: int|
            0 <= i < s.queued.len() && #[trigger] s.queued[i] == (w, Ok::<T, String>(data)) && (
            forall|j: int| 0 <= j < i ==> (#[trigger] s.queued[j]).1 is Ok);
        assert(s.queued[0].1 is Ok);
        let t = s.store_oldest();
        lemma_store_keeps_wf(s);
        if i > 0 {
            assert(t.queued[i - 1] == s.queued[i]);
            assert forall|j: int| 0 <= j < i - 1 implies (#[trigger] t.queued[j]).1 is Ok by {
                assert(t.queued[j] == s.queued[j + 1]);
            }
        }
        lemma_advance_writes_arrived(t, data);
    }
}

/// The writer never waits for a chunk that is there: where the bytes of the next chunk
/// have arrived, and nothing has failed before that, it is given those bytes.
pub proof fn law_arrived_chunk_is_written<T>(s: State<T>, data: T)
    requires
        s.wf(),
        !s.stopped,
        s.arrived_in_time(
            (s.want + if s.writing {
                1int
            } else {
                0int
            }) as u64,
            data,
        ),
    ensures
        s.take().1 == Take::Write(data),
{
    lemma_acknowledge_keeps_wf(s);
    let t = s.acknowledge();
    assert(t.queued == s.queued);
    lemma_advance_writes_arrived(t, data);
}

/// The writer with free hands learns of the first failure, if not of a chunk.
proof fn lemma_advance_reports_failure<T>(s: State<T>)
    requires
        !s.stopped,
        !s.writing,
    ensures
        s.has_failure() ==> s.advance().1 is Write || s.advance().1 is Fail,
        s.advance().1 matches Take::Fail(e) ==> s.fails_first_with(e),
    decreases s.queued.len(),
{
    if !s.pending.contains_key(s.want as u64) && s.queued.len() > 0 {
        if s.queued[0].1 is Ok {
            let t = s.store_oldest();
            lemma_advance_reports_failure(t);
            if s.has_failure() {
                let i = choose|i: int| 0 <= i < s.queued.len() && (#[trigger] s.queued[i]).1 is Err;
                assert(t.queued[i - 1] == s.queued[i]);
            }
            if let Take::Fail(e) = s.advance().1 {
                let i = choose|i: int|
                    0 <= i < t.queued.len() && (#[trigger] t.queued[i]).1 == Err::<T, String>(e) && (
                    forall|j: int| 0 <= j < i ==> (#[trigger] t.queued[j]).1 is Ok);
                assert(s.queued[i + 1] == t.queued[i]);
                assert forall|j: int| 0 <= j < i + 1 implies (#[trigger] s.queued[j]).1 is Ok by {
                    if j > 0 {
                        assert(s.queued[j] == t.queued[j - 1]);
                    }
                }
            }
        } else {
            assert(s.queued[0].1 == Err::<T, String>(s.queued[0].1->Err_0));
        }
    }
}

/// A failure reaches the writer: once one has been handed in, the writer is neither kept
/// waiting nor told that all is well, and the error that it gets is the first that was
/// handed in. After that the transfer is over: nothing more is written, fetched or taken
/// in.
pub proof fn law_failure_reaches_the_writer<T>(s: State<T>, seq: u64, outcome: Result<T, String>)
    requires
        s.wf(),
    ensures
        !s.stopped && s.has_failure() ==> s.take().1 is Write || s.take().1 is Fail,
        s.take().1 matches Take::Fail(e) ==> s.fails_first_with(e) && s.take().0.stopped,
        s.stopped ==> {
            &&& s.take().1 is Done
            &&& s.take().0.stopped
            &&& s.claim().1 !is Fetch
            &&& s.claim().0.stopped
            &&& !s.deliver(seq, outcome).1
            &&& s.deliver(seq, outcome).0.stopped
        },
{
    let t = s.acknowledge();
    assert(t.queued == s.queued);
    if !s.stopped {
        lemma_acknowledge_keeps_wf(s);
        lemma_advance_reports_failure(t);
        lemma_advance_answers(t);
        if s.has_failure() {
            let i = choose|i: int| 0 <= i < s.queued.len() && (#[trigger] s.queued[i]).1 is Err;
            assert(t.queued[i].1 is Err);
        }
    }
}

/// A place in the window is free again exactly when the chunk that had it is written.
pub proof fn law_written_chunk_frees_its_place<T>(s: State<T>)
    requires
        s.wf(),
    ensures
        s.take().0.permits == s.permits + if s.writing {
            1int
        } else {
            0int
        },
        s.take().0.want == s.want + if s.writing {
            1int
        } else {
            0int
        },
{
    lemma_acknowledge_keeps_wf(s);
    lemma_advance_keeps_claims(s.acknowledge());
    law_writer_is_served_in_order(s);
    if s.stopped {
        assert(s.take().0 == s.acknowledge());
    }
}

/// A pipeline: hands chunks to workers, takes what they fetched, and hands it to the
/// writer in order.
#[verifier::reject_recursive_types(T)]
pub struct Pipeline<T> {
    plan: Plan,
    next: i64,
    claimed: u64,
    permits: usize,
    live: usize,
    in_flight: HashSet<u64>,
    queued: VecDeque<(u64, Result<T, String>)>,
    pending: HashMap<u64, T>,
    want: u64,
    writing: bool,
    stopped: bool,
}

impl<T> View for Pipeline<T> {
    type V = State<T>;

    closed spec fn view(&self) -> State<T> {
        State {
            plan: self.plan,
            claimed: self.claimed as nat,
            permits: self.permits as nat,
            live: self.live as nat,
            in_flight: self.in_flight@,
            queued: self.queued@,
            pending: self.pending@,
            want: self.want as nat,
            writing: self.writing,
            stopped: self.stopped,
        }
    }
}

impl<T> Pipeline<T> {
    /// Whether the claim cursor stands where the next unclaimed chunk starts, or behind
    /// the last byte if all chunks are claimed.
    pub closed spec fn cursor_agrees(self) -> bool {
        self.next == if self.claimed < self.plan.chunks() {
            self.plan.chunk_start(self.claimed as int)
        } else {
            self.plan.final_end + 1
        }
    }

    /// The invariant.
    pub open spec fn wf(self) -> bool {
        self@.wf() && self.cursor_agrees()
    }

    /// A pipeline that has not done anything yet.
    pub fn new(plan: Plan) -> (result: Pipeline<T>)
        requires
            plan.wf(),
        ensures
            result.wf(),
            result@ == State::<T>::initial(plan),
    {
        let result = Pipeline {
            plan,
            next: plan.cursor,
            claimed: 0,
            permits: plan.slots,
            live: plan.threads,
            in_flight: HashSet::new(),
            queued: VecDeque::new(),
            pending: HashMap::new(),
            want: 0,
            writing: false,
            stopped: false,
        };
        proof {
            plan.lemma_chunk_within(0);
            law_initial_invariant::<T>(plan);
            assert(result@ =~= State::<T>::initial(plan));
        }
        result
    }

    /// A worker asks for a chunk.
    pub fn claim(&mut self) -> (result: Claim)
        requires
            old(self).wf(),
        ensures
            final(self).wf(),
            (final(self)@, result) == old(self)@.claim(),
            result matches Claim::Fetch(chunk) ==> {
                let plan = old(self)@.plan;
                &&& chunk.seq == old(self)@.claimed
                &&& chunk.start == plan.cursor + chunk.seq * plan.chunk_size
                &&& chunk.end == if plan.final_end - chunk.start < plan.chunk_size {
                    plan.final_end as int
                } else {
                    chunk.start + plan.chunk_size - 1
                }
            },
    {
        broadcast use vstd::std_specs::hash::group_hash_axioms;

        proof {
            lemma_claim_keeps_wf(self@);
            self.plan.lemma_chunk_within(self.claimed as int);
            self.plan.lemma_chunk_within(self.claimed + 1);
        }
        if self.permits == 0 || self.live <= self.in_flight.len() {
            return Claim::Wait;
        }
        if self.stopped || self.next > self.plan.final_end {
            self.live = self.live - 1;
            return Claim::Exit;
        }
        let start: i64 = self.next;
        let seq: u64 = self.claimed;
        let end: i64 = if self.plan.final_end - start < self.plan.chunk_size {
            self.plan.final_end
        } else {
            start + (self.plan.chunk_size - 1)
        };
        self.permits = self.permits - 1;
        self.claimed = seq + 1;
        self.in_flight.insert(seq);
        self.next = end + 1;
        Claim::Fetch(Chunk { seq, start, end })
    }

    /// A worker hands in the outcome for chunk `seq`, and learns whether it is to go on.
    pub fn deliver(&mut self, seq: u64, outcome: Result<T, String>) -> (result: bool)
        requires
            old(self).wf(),
        ensures
            final(self).wf(),
            (final(self)@, result) == old(self)@.deliver(seq, outcome),
    {
        broadcast use vstd::std_specs::hash::group_hash_axioms;

        proof {
            lemma_deliver_keeps_wf(self@, seq, outcome);
        }
        if !self.in_flight.remove(&seq) {
            assert(self@.in_flight =~= old(self)@.in_flight);
            return false;
        }
        if self.stopped {
            self.live = self.live - 1;
            return false;
        }
        let go_on = outcome.is_ok();
        if !go_on {
            self.live = self.live - 1;
        }
        self.queued.push_back((seq, outcome));
        go_on
    }

    /// The writer has written what it was given and asks for the next chunk.
    pub fn take(&mut self) -> (result: Take<T>)
        requires
            old(self).wf(),
        ensures
            final(self).wf(),
            (final(self)@, result) == old(self)@.take(),
    {
        broadcast use vstd::std_specs::hash::group_hash_axioms;

        proof {
            lemma_acknowledge_keeps_wf(self@);
        }
        if self.writing {
            self.writing = false;
            self.want = self.want + 1;
            self.permits = self.permits + 1;
        }
        assert(self@ =~= old(self)@.acknowledge());
        if self.stopped {
            return Take::Done;
        }
        loop
            invariant
                self.wf(),
                !self.writing,
                !self.stopped,
                self@.advance() == old(self)@.take(),
            decreases self.queued@.len(),
        {
            broadcast use vstd::std_specs::hash::group_hash_axioms;

            proof {
                lemma_advance_keeps_wf(self@);
            }
            let ghost before = self@;
            match self.pending.remove(&self.want) {
                Some(data) => {
                    self.writing = true;
                    assert(self@ == before.advance().0);
                    return Take::Write(data);
                },
                None => {},
            }
            assert(self.pending@ =~= before.pending);
            match self.queued.pop_front() {
                None => {
                    assert(self@ == before);
                    return if self.live == 0 {
                        Take::Done
                    } else {
                        Take::Wait
                    };
                },
                Some((seq, Ok(data))) => {
                    proof {
                        lemma_store_keeps_wf(before);
                    }
                    self.pending.insert(seq, data);
                    assert(self.queued@ =~= before.queued.drop_first());
                    assert(self@ == before.store_oldest());
                },
                Some((_, Err(e))) => {
                    self.stopped = true;
                    assert(self.queued@ =~= before.queued.drop_first());
                    assert(self@ == before.advance().0);
                    return Take::Fail(e);
                },
            }
        }
    }

    /// How many chunks wait in the reorder buffer.
    pub fn buffered(&self) -> (result: usize)
        ensures
            result == self@.pending.dom().len(),
    {
        self.pending.len()
    }
}

} // verus!
