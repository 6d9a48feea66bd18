use vstd::prelude::*;
use crate::message::{
    DecodeError, Message, body_of, decode, parsed_json_string, raw_framed, raw_inner, sync_bytes,
    sync_framed,
};
use crate::node::{Node, NODE_COUNT, slot_of};

verus! {

/// The replicated grow-only counter: one count per node, each slot raised
/// only by its own node and reconciled with other replicas by a per-slot
/// maximum.
#[derive(Clone, Debug, PartialEq, Eq)]
pub struct Counter {
    counts: Vec<u64>,
}

/// One change a replica can undergo.
pub enum Update {
    /// A local increment of the given node's slot.
    Increment(Node),
    /// A merge of another replica's state.
    Merge(Counter),
}

/// A well-formed state has one slot per node.
pub open spec fn slots_ok(s: Seq<u64>) -> bool {
    s.len() == NODE_COUNT
}

/// The larger of two counts.
pub open spec fn max_u64(a: u64, b: u64) -> u64 {
    if a >= b {
        a
    } else {
        b
    }
}

/// The lattice join of two states: the per-slot maximum.
pub open spec fn join(a: Seq<u64>, b: Seq<u64>) -> Seq<u64> {
    Seq::new(a.len(), |i: int| max_u64(a[i], b[i]))
}

/// The externally visible value: the sum of all slots.
pub open spec fn total(s: Seq<u64>) -> int {
    s[0] as int + s[1] as int + s[2] as int
}

/// Every slot of `a` is at least the matching slot of `b`.
pub open spec fn dominates(a: Seq<u64>, b: Seq<u64>) -> bool {
    forall|i: int| 0 <= i < NODE_COUNT ==> #[trigger] a[i] >= b[i]
}

/// The state after a local increment of `n`'s slot; a slot at its largest
/// value stays there.
pub open spec fn bump(s: Seq<u64>, n: Node) -> Seq<u64> {
    let i = slot_of(n) as int;
    if s[i] < u64::MAX {
        s.update(i, (s[i] + 1) as u64)
    } else {
        s
    }
}

/// The state after one update.
pub open spec fn apply(s: Seq<u64>, u: Update) -> Seq<u64> {
    match u {
        Update::Increment(n) => bump(s, n),
        Update::Merge(c) => join(s, c@),
    }
}

/// The state after a run of updates, applied in order.
pub open spec fn run(s: Seq<u64>, us: Seq<Update>) -> Seq<u64>
    decreases us.len(),
{
    if us.len() == 0 {
        s
    } else {
        apply(run(s, us.drop_last()), us.last())
    }
}

/// Every update of the run is well formed.
pub open spec fn updates_ok(us: Seq<Update>) -> bool {
    forall|k: int| 0 <= k < us.len() ==> match #[trigger] us[k] {
        Update::Increment(_) => true,
        Update::Merge(c) => c.wf(),
    }
}

impl View for Counter {
    type V = Seq<u64>;

    closed spec fn view(&self) -> Seq<u64> {
        self.counts@
    }
}

impl Counter {
    pub open spec fn wf(&self) -> bool {
        slots_ok(self@)
    }

    /// A fresh replica with every slot at zero.
    pub fn new() -> (r: Counter)
        ensures
            r.wf(),
            r@ == seq![0u64, 0u64, 0u64],
            total(r@) == 0,
    {
        let r = Counter { counts: vec![0u64, 0u64, 0u64] };
        assert(r@ == seq![0u64, 0u64, 0u64]);
        r
    }

    /// A replica holding the given slots, one per node in the fixed order;
    /// `None` when there is not exactly one slot per node.
    pub fn from_counts(counts: Vec<u64>) -> (r: Option<Counter>)
        ensures
            r is Some <==> slots_ok(counts@),
            r matches Some(c) ==> c.wf() && c@ == counts@,
    {
        if counts.len() == NODE_COUNT {
            Some(Counter { counts })
        } else {
            None
        }
    }

    /// The count contributed by `n`.
    pub fn get(&self, n: Node) -> (r: u64)
        requires
            self.wf(),
        ensures
            r == self@[slot_of(n) as int],
    {
        self.counts[n.slot()]
    }

    /// The slots, one per node in the fixed order.
    pub fn counts(&self) -> (r: Vec<u64>)
        ensures
            r@ == self@,
    {
        let mut r: Vec<u64> = Vec::new();
        let mut i: usize = 0;
        while i < self.counts.len()
            invariant
                i <= self@.len(),
                r@ == self@.subrange(0, i as int),
            decreases self@.len() - i,
        {
            r.push(self.counts[i]);
            assert(r@ == self@.subrange(0, i + 1));
            i = i + 1;
        }
        assert(r@ == self@);
        r
    }

    /// The visible value of the counter: the sum of all slots.
    pub fn total(&self) -> (r: u128)
        requires
            self.wf(),
        ensures
            r == total(self@),
    {
        self.counts[0] as u128 + self.counts[1] as u128 + self.counts[2] as u128
    }

    /// Adds one to `n`'s slot. Returns `false`, changing nothing, when the
    /// slot is already at its largest value.
    pub fn increment(&mut self, n: Node) -> (r: bool)
        requires
            old(self).wf(),
        ensures
            final(self).wf(),
            final(self)@ == bump(old(self)@, n),
            r == (old(self)@[slot_of(n) as int] < u64::MAX),
            total(final(self)@) >= total(old(self)@),
    {
        let i = n.slot();
        let v = self.counts[i];
        if v < u64::MAX {
            self.counts.set(i, v + 1);
            true
        } else {
            false
        }
    }

    /// Merges another replica's state into this one: each slot becomes the
    /// larger of the two.
    pub fn merge(&mut self, other: &Counter)
        requires
            old(self).wf(),
            other.wf(),
        ensures
            final(self).wf(),
            final(self)@ == join(old(self)@, other@),
            total(final(self)@) >= total(old(self)@),
    {
        let ghost start = self@;
        let mut i: usize = 0;
        while i < NODE_COUNT
            invariant
                i <= NODE_COUNT,
                other.wf(),
                self@.len() == NODE_COUNT,
                start.len() == NODE_COUNT,
                forall|k: int| 0 <= k < i ==> self@[k] == max_u64(start[k], other@[k]),
                forall|k: int| i <= k < NODE_COUNT ==> self@[k] == start[k],
            decreases NODE_COUNT - i,
        {
            let theirs = other.counts[i];
            if theirs > self.counts[i] {
                self.counts.set(i, theirs);
            }
            i = i + 1;
        }
        assert(self@ == join(start, other@));
    }

    /// Applies an incoming message: a state snapshot is merged, plain text
    /// leaves the state as it is.
    pub fn handle(&mut self, msg: Message<Counter>)
        requires
            old(self).wf(),
            msg matches Message::SYNC(c) ==> c.wf(),
        ensures
            final(self).wf(),
            msg matches Message::SYNC(c) ==> final(self)@ == join(old(self)@, c@),
            msg is RAW ==> final(self)@ == old(self)@,
    {
        match msg {
            Message::RAW(_) => {},
            Message::SYNC(c) => self.merge(&c),
        }
    }

    /// Applies what one connection delivered. A snapshot is merged; text, and
    /// bytes that are no message, leave the state as it is, and the latter are
    /// reported.
    pub fn receive(&mut self, data: &[u8]) -> (r: Result<(), DecodeError>)
        requires
            old(self).wf(),
        ensures
            final(self).wf(),
            forall|c: Seq<u64>|
                slots_ok(c) && #[trigger] sync_bytes(c) == body_of(data@) ==> final(self)@ == join(
                    old(self)@,
                    c,
                ),
            !sync_framed(body_of(data@)) ==> final(self)@ == old(self)@,
            r is Ok <==> (raw_framed(body_of(data@)) && parsed_json_string(
                raw_inner(body_of(data@)),
            ) is Some) || sync_framed(body_of(data@)),
            r == Err::<(), DecodeError>(DecodeError::BadText) <==> raw_framed(body_of(data@))
                && parsed_json_string(raw_inner(body_of(data@))) is None,
    {
        match decode(data) {
            Ok(msg) => {
                self.handle(msg);
                Ok(())
            },
            Err(e) => Err(e),
        }
    }
}

/// Merging is commutative.
pub proof fn lemma_merge_commutative(a: Counter, b: Counter)
    requires
        a.wf(),
        b.wf(),
    ensures
        join(a@, b@) == join(b@, a@),
{
    assert(join(a@, b@) =~= join(b@, a@));
}

/// Merging is associative.
pub proof fn lemma_merge_associative(a: Counter, b: Counter, c: Counter)
    requires
        a.wf(),
        b.wf(),
        c.wf(),
    ensures
        join(join(a@, b@), c@) == join(a@, join(b@, c@)),
{
    assert(join(join(a@, b@), c@) =~= join(a@, join(b@, c@)));
}

/// Merging a state with itself leaves it unchanged.
pub proof fn lemma_merge_idempotent(a: Counter)
    requires
        a.wf(),
    ensures
        join(a@, a@) == a@,
{
    assert(join(a@, a@) =~= a@);
}

/// A merge result holds at least every slot of both sides.
pub proof fn lemma_merge_dominates(a: Seq<u64>, b: Seq<u64>)
    requires
        slots_ok(a),
        slots_ok(b),
    ensures
        slots_ok(join(a, b)),
        dominates(join(a, b), a),
        dominates(join(a, b), b),
{
}

/// A state that dominates another has at least its total.
pub proof fn lemma_dominates_total(a: Seq<u64>, b: Seq<u64>)
    requires
        slots_ok(a),
        slots_ok(b),
        dominates(a, b),
    ensures
        total(a) >= total(b),
{
    assert(a[0] >= b[0] && a[1] >= b[1] && a[2] >= b[2]);
}

proof fn lemma_step_ok(s: Seq<u64>, u: Update)
    requires
        slots_ok(s),
        u matches Update::Merge(c) ==> c.wf(),
    ensures
        slots_ok(apply(s, u)),
        dominates(apply(s, u), s),
        total(apply(s, u)) >= total(s),
{
    match u {
        Update::Increment(n) => {
            assert(dominates(apply(s, u), s));
        },
        Update::Merge(c) => {
            lemma_merge_dominates(s, c@);
        },
    }
    lemma_dominates_total(apply(s, u), s);
}

/// Along any run of local increments and merges, the visible total never
/// decreases: a later point of the run has at least the total of an earlier
/// one.
pub proof fn lemma_total_monotone(start: Counter, us: Seq<Update>)
    requires
        start.wf(),
        updates_ok(us),
    ensures
        forall|i: int, j: int|
            0 <= i <= j <= us.len() ==> total(#[trigger] run(start@, us.take(i))) <= total(
                #[trigger] run(start@, us.take(j)),
            ),
        slots_ok(run(start@, us)),
    decreases us.len(),
{
    if us.len() > 0 {
        let init = us.drop_last();
        assert(updates_ok(init)) by {
            assert forall|k: int| 0 <= k < init.len() implies match #[trigger] init[k] {
                Update::Increment(_) => true,
                Update::Merge(c) => c.wf(),
            } by {
                assert(init[k] == us[k]);
            }
        }
        lemma_total_monotone(start, init);
        assert(us.take(us.len() as int) == us);
        assert forall|i: int| 0 <= i <= init.len() implies us.take(i) == init.take(i) by {
            assert(us.take(i) =~= init.take(i));
        }
        assert(init.take(init.len() as int) == init);
        assert(us.drop_last() == init);
        assert(us[us.len() - 1] == us.last());
        lemma_step_ok(run(start@, init), us.last());
        assert forall|i: int, j: int|
            0 <= i <= j <= us.len() implies total(#[trigger] run(start@, us.take(i))) <= total(
            #[trigger] run(start@, us.take(j)),
        ) by {
            if j == us.len() {
                if i < j {
                    assert(total(run(start@, init.take(i))) <= total(
                        run(start@, init.take(init.len() as int)),
                    ));
                }
            }
        }
    }
}

/// A run of `k` local increments of `x`'s slot.
pub open spec fn increments(x: Node, k: nat) -> Seq<Update> {
    Seq::new(k, |i: int| Update::Increment(x))
}

/// If node `x` increments its own slot `n` times and a snapshot of its state
/// reaches another replica `y`, the merged replica holds at least `n` in `x`'s
/// slot and in its total, and merging the same snapshot again changes nothing.
pub proof fn lemma_convergence(x: Node, start: Counter, n: nat, y: Counter)
    requires
        start.wf(),
        y.wf(),
        start@[slot_of(x) as int] + n <= u64::MAX,
    ensures
        slots_ok(run(start@, increments(x, n))),
        run(start@, increments(x, n))[slot_of(x) as int] == start@[slot_of(x) as int] + n,
        join(y@, run(start@, increments(x, n)))[slot_of(x) as int] >= n,
        total(join(y@, run(start@, increments(x, n)))) >= n,
        join(join(y@, run(start@, increments(x, n))), run(start@, increments(x, n))) == join(
            y@,
            run(start@, increments(x, n)),
        ),
{
    let s = run(start@, increments(x, n));
    lemma_increments(x, start, n);
    let m = join(y@, s);
    lemma_merge_dominates(y@, s);
    lemma_dominates_total(m, s);
    assert(total(s) >= s[slot_of(x) as int]);
    assert(join(m, s) =~= m);
}

proof fn lemma_increments(x: Node, start: Counter, n: nat)
    requires
        start.wf(),
        start@[slot_of(x) as int] + n <= u64::MAX,
    ensures
        slots_ok(run(start@, increments(x, n))),
        run(start@, increments(x, n))[slot_of(x) as int] == start@[slot_of(x) as int] + n,
    decreases n,
{
    if n > 0 {
        let us = increments(x, n);
        assert(us.drop_last() == increments(x, (n - 1) as nat));
        lemma_increments(x, start, (n - 1) as nat);
    }
}

/// A snapshot's slots survive relaying: once a replica `z` holds at least the
/// slots of `s`, any replica that merges `z` holds at least them too, and its
/// total is at least that of `s`.
pub proof fn lemma_relay(s: Seq<u64>, z: Counter, w: Counter)
    requires
        slots_ok(s),
        z.wf(),
        w.wf(),
        dominates(z@, s),
    ensures
        dominates(join(w@, z@), s),
        total(join(w@, z@)) >= total(s),
{
    lemma_merge_dominates(w@, z@);
    lemma_dominates_total(join(w@, z@), s);
}

} // verus!
