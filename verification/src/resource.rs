//! The resource ledger: a named stock with a capacity, an optional finite
//! lifetime, a FIFO decay queue, per-tick catalyst-reservation scratch, and
//! running min/avg/max statistics for reporting.

use vstd::prelude::*;

verus! {

/// Largest representable magnitude for amounts, capacities and quantities.
/// All ledger arithmetic saturates at this band (see [`spec_clip`]); a
/// resource whose capacity is left unset defaults to it, standing for an
/// unbounded stock.
pub const AMOUNT_CAP: i64 = 0x2000_0000_0000_0000;

/// Largest supported time coordinate and lifetime, in seconds. Keeping both
/// the clock and every lifetime under this bound lets expiry times
/// (`time + life`) be computed without overflow.
pub const TIME_CAP: u64 = 0x4000_0000_0000_0000;

/// Initial value of the per-interval minimum statistic: above every
/// representable amount, so the first tick of an interval always lowers it.
pub const STAT_MIN_INIT: i64 = i64::MAX;

/// Saturation at the representable band: values beyond `AMOUNT_CAP` in
/// magnitude are pinned to the nearer cap. Within the band — everywhere in
/// practice — arithmetic is exact.
pub open spec fn spec_clip(x: int) -> int {
    if x > AMOUNT_CAP as int {
        AMOUNT_CAP as int
    } else if x < -(AMOUNT_CAP as int) {
        -(AMOUNT_CAP as int)
    } else {
        x
    }
}

/// Copies a byte string.
pub fn copy_bytes(v: &Vec<u8>) -> (r: Vec<u8>)
    ensures
        r@ == v@,
{
    let mut r: Vec<u8> = Vec::new();
    let mut i: usize = 0;
    while i < v.len()
        invariant
            0 <= i <= v@.len(),
            r@ == v@.take(i as int),
        decreases v@.len() - i,
    {
        r.push(v[i]);
        proof {
            assert(r@ =~= v@.take(i + 1));
        }
        i += 1;
    }
    proof {
        assert(r@ =~= v@);
    }
    r
}

/// Saturating addition at the representable band.
pub fn clip_add(a: i64, b: i64) -> (r: i64)
    requires
        i64::MIN <= a + b <= i64::MAX,
    ensures
        r == spec_clip(a + b),
{
    let s = a + b;
    if s > AMOUNT_CAP {
        AMOUNT_CAP
    } else if s < -AMOUNT_CAP {
        -AMOUNT_CAP
    } else {
        s
    }
}

/// Mathematical model of a [`Resource`]: the decay queue as one sequence of
/// `(expiry time, quantity)` pairs, amounts as unbounded integers.
#[verifier::ext_equal]
pub ghost struct ResModel {
    pub name: Seq<u8>,
    pub unit: Seq<u8>,
    pub max: int,
    pub amount: int,
    pub life: int,
    pub queue: Seq<(int, int)>,
    pub reserved: int,
    pub stat_min: int,
    pub stat_max: int,
    pub stat_sum: int,
}

/// Well-formedness of a resource model: every magnitude inside the
/// representable band, the decay queue non-negative and sorted by expiry.
pub open spec fn res_wf(m: ResModel) -> bool {
    &&& 0 <= m.max <= AMOUNT_CAP
    &&& -AMOUNT_CAP <= m.amount <= AMOUNT_CAP
    &&& 0 <= m.reserved <= AMOUNT_CAP
    &&& 0 <= m.life <= TIME_CAP
    &&& forall|i: int| 0 <= i < m.queue.len() ==> 0 <= (#[trigger] m.queue[i]).1 <= 2 * AMOUNT_CAP
    &&& forall|i: int, j: int|
        0 <= i <= j < m.queue.len() ==> (#[trigger] m.queue[i]).0 <= (#[trigger] m.queue[j]).0
    &&& (-AMOUNT_CAP <= m.stat_min <= AMOUNT_CAP || m.stat_min == STAT_MIN_INIT)
    &&& -AMOUNT_CAP <= m.stat_max <= AMOUNT_CAP
}

/// A named stock. `amount` is the current quantity, `max` its capacity;
/// outputs with a positive `life` enqueue an equal future removal in the
/// decay queue (`decay_at[i]` seconds paired with `decay_amount[i]` units).
/// `amount_used_as_catalyst` is per-tick scratch; the three `_for_writer`
/// fields accumulate min/sum/max over a reporting interval.
#[derive(Debug)]
pub struct Resource {
    pub name: Vec<u8>,
    pub unit: Vec<u8>,
    pub max: i64,
    pub amount: i64,
    pub life: u64,
    pub decay_at: Vec<u64>,
    pub decay_amount: Vec<i64>,
    pub amount_used_as_catalyst: i64,
    pub resource_min_for_writer: i64,
    pub resource_max_for_writer: i64,
    pub resource_avg_for_writer: i128,
}

impl View for Resource {
    type V = ResModel;

    open spec fn view(&self) -> ResModel {
        ResModel {
            name: self.name@,
            unit: self.unit@,
            max: self.max as int,
            amount: self.amount as int,
            life: self.life as int,
            queue: Seq::new(
                self.decay_at@.len(),
                |i: int| (self.decay_at@[i] as int, self.decay_amount@[i] as int),
            ),
            reserved: self.amount_used_as_catalyst as int,
            stat_min: self.resource_min_for_writer as int,
            stat_max: self.resource_max_for_writer as int,
            stat_sum: self.resource_avg_for_writer as int,
        }
    }
}

impl Resource {
    /// Structural soundness of the two parallel decay vectors plus
    /// well-formedness of the model.
    pub open spec fn wf(&self) -> bool {
        &&& self.decay_at@.len() == self.decay_amount@.len()
        &&& res_wf(self@)
    }
}

impl Default for Resource {
    /// An empty, unbounded, non-decaying stock.
    fn default() -> (r: Resource)
        ensures
            r.wf(),
            r@.name == Seq::<u8>::empty(),
            r@.unit == Seq::<u8>::empty(),
            r@.max == AMOUNT_CAP as int,
            r@.amount == 0,
            r@.life == 0,
            r@.queue == Seq::<(int, int)>::empty(),
            r@.reserved == 0,
            r@.stat_min == STAT_MIN_INIT as int,
            r@.stat_max == 0,
            r@.stat_sum == 0,
    {
        let r = Resource {
            name: Vec::new(),
            unit: Vec::new(),
            max: AMOUNT_CAP,
            amount: 0,
            life: 0,
            decay_at: Vec::new(),
            decay_amount: Vec::new(),
            amount_used_as_catalyst: 0,
            resource_min_for_writer: STAT_MIN_INIT,
            resource_max_for_writer: 0,
            resource_avg_for_writer: 0,
        };
        proof {
            assert(r@.queue =~= Seq::<(int, int)>::empty());
        }
        r
    }
}

/// Decay of one resource at time `now`: while the earliest queue entry has
/// expired, its quantity leaves the stock and the entry is popped.
pub open spec fn spec_decay(m: ResModel, now: int) -> ResModel
    decreases m.queue.len(),
{
    if m.queue.len() > 0 && m.queue[0].0 <= now {
        spec_decay(
            ResModel {
                amount: spec_clip(m.amount - m.queue[0].1),
                queue: m.queue.drop_first(),
                ..m
            },
            now,
        )
    } else {
        m
    }
}

/// Popping the head of a well-formed queue and clipping the amount keeps a
/// model well-formed.
pub proof fn lemma_pop_head_wf(m: ResModel)
    requires
        res_wf(m),
        m.queue.len() > 0,
    ensures
        res_wf(
            ResModel {
                amount: spec_clip(m.amount - m.queue[0].1),
                queue: m.queue.drop_first(),
                ..m
            },
        ),
{
    let m2 = ResModel {
        amount: spec_clip(m.amount - m.queue[0].1),
        queue: m.queue.drop_first(),
        ..m
    };
    assert(forall|i: int|
        0 <= i < m2.queue.len() ==> (#[trigger] m2.queue[i]) == m.queue[i + 1]);
}

/// Decay keeps a model well-formed and touches only the amount and the
/// queue; what remains of the queue is a suffix of the original whose head,
/// if any, has not yet expired.
pub proof fn lemma_spec_decay(m: ResModel, now: int)
    requires
        res_wf(m),
    ensures
        res_wf(spec_decay(m, now)),
        spec_decay(m, now) == (ResModel {
            amount: spec_decay(m, now).amount,
            queue: spec_decay(m, now).queue,
            ..m
        }),
        spec_decay(m, now).amount <= m.amount,
        exists|k: int|
            0 <= k <= m.queue.len() && spec_decay(m, now).queue == m.queue.skip(k),
        spec_decay(m, now).queue.len() > 0 ==> spec_decay(m, now).queue[0].0 > now,
    decreases m.queue.len(),
{
    if m.queue.len() > 0 && m.queue[0].0 <= now {
        let m2 = ResModel {
            amount: spec_clip(m.amount - m.queue[0].1),
            queue: m.queue.drop_first(),
            ..m
        };
        lemma_pop_head_wf(m);
        lemma_spec_decay(m2, now);
        let k2 = choose|k: int|
            0 <= k <= m2.queue.len() && spec_decay(m2, now).queue == m2.queue.skip(k);
        assert(m2.queue.skip(k2) =~= m.queue.skip(k2 + 1));
        assert(spec_decay(m, now).queue == m.queue.skip(k2 + 1));
    } else {
        assert(spec_decay(m, now).queue =~= m.queue.skip(0));
    }
}

impl Resource {
    /// Drains every expired decay-queue entry at time `now`, subtracting the
    /// expired quantities from the stock.
    pub fn decay(&mut self, now: u64)
        requires
            old(self).wf(),
        ensures
            final(self).wf(),
            final(self)@ == spec_decay(old(self)@, now as int),
    {
        let ghost orig = self@;
        while self.decay_at.len() > 0 && self.decay_at[0] <= now
            invariant
                self.wf(),
                spec_decay(self@, now as int) == spec_decay(orig, now as int),
            decreases self.decay_at@.len(),
        {
            let ghost pre = self@;
            let q = self.decay_amount[0];
            proof {
                assert(pre.queue[0].1 == q);
                assert(-3 * (AMOUNT_CAP as int) <= self.amount - q <= 2 * (AMOUNT_CAP as int));
            }
            self.amount = clip_add(self.amount, -q);
            self.decay_at.remove(0);
            self.decay_amount.remove(0);
            proof {
                let m2 = ResModel {
                    amount: spec_clip(pre.amount - pre.queue[0].1),
                    queue: pre.queue.drop_first(),
                    ..pre
                };
                assert(self@ =~= m2);
                assert(spec_decay(pre, now as int) == spec_decay(m2, now as int));
                lemma_pop_head_wf(pre);
            }
        }
        proof {
            assert(self@ == spec_decay(self@, now as int));
        }
    }
}

/// Deduction of a consumed quantity `d` from the front of the decay queue:
/// entries are drained oldest-first, each reduced at most to zero, until the
/// deduction is used up. Quantities already scheduled to decay stop being
/// owed once consumed; entries stay in place (a zeroed entry pops later with
/// no effect).
pub open spec fn spec_deduct(q: Seq<(int, int)>, d: int) -> Seq<(int, int)>
    decreases q.len(),
{
    if q.len() == 0 {
        q
    } else if q[0].1 >= d {
        q.update(0, (q[0].0, q[0].1 - d))
    } else {
        seq![(q[0].0, 0int)] + spec_deduct(q.drop_first(), d - q[0].1)
    }
}

/// Deducting from a queue of non-negative quantities keeps its length and
/// expiries and only lowers quantities, never below zero.
pub proof fn lemma_spec_deduct_props(q: Seq<(int, int)>, d: int)
    requires
        d >= 0,
        forall|i: int| 0 <= i < q.len() ==> 0 <= (#[trigger] q[i]).1,
    ensures
        spec_deduct(q, d).len() == q.len(),
        forall|i: int|
            0 <= i < q.len() ==> (#[trigger] spec_deduct(q, d)[i]).0 == q[i].0,
        forall|i: int|
            0 <= i < q.len() ==> 0 <= (#[trigger] spec_deduct(q, d)[i]).1 <= q[i].1,
    decreases q.len(),
{
    if q.len() > 0 && q[0].1 < d {
        let tail = q.drop_first();
        assert(forall|i: int| 0 <= i < tail.len() ==> (#[trigger] tail[i]) == q[i + 1]);
        lemma_spec_deduct_props(tail, d - q[0].1);
        let rec = spec_deduct(tail, d - q[0].1);
        let whole = seq![(q[0].0, 0int)] + rec;
        assert(forall|i: int| 1 <= i < whole.len() ==> (#[trigger] whole[i]) == rec[i - 1]);
    }
}

/// A queue whose expiries are unchanged and whose quantities shrank within
/// their original bounds keeps a well-formed model well-formed.
pub proof fn lemma_queue_shrunk_wf(m0: ResModel, q: Seq<(int, int)>)
    requires
        res_wf(m0),
        q.len() == m0.queue.len(),
        forall|k: int| 0 <= k < q.len() ==> (#[trigger] q[k]).0 == m0.queue[k].0,
        forall|k: int| 0 <= k < q.len() ==> 0 <= (#[trigger] q[k]).1 <= m0.queue[k].1,
    ensures
        res_wf((ResModel { queue: q, ..m0 })),
{
    assert(forall|a: int, b: int|
        0 <= a <= b < q.len() ==> (#[trigger] q[a]).0 <= (#[trigger] q[b]).0);
}

impl Resource {
    /// Charges a consumed quantity against pending decay-queue entries,
    /// oldest first, so the stock does not decay quantities it no longer
    /// holds. The amount itself is not touched here.
    #[verifier::loop_isolation(false)]
    pub fn deduct_from_queue(&mut self, d: i64)
        requires
            old(self).wf(),
            0 <= d,
        ensures
            final(self).wf(),
            final(self)@ == (ResModel {
                queue: spec_deduct(old(self)@.queue, d as int),
                ..old(self)@
            }),
    {
        let ghost q0 = old(self)@.queue;
        let ghost result = spec_deduct(q0, d as int);
        proof {
            assert(q0.take(0) =~= Seq::<(int, int)>::empty());
            assert(q0.skip(0) =~= q0);
        }
        let mut remaining: i64 = d;
        let mut i: usize = 0;
        while i < self.decay_amount.len()
            invariant
                self.decay_at@.len() == self.decay_amount@.len(),
                self.decay_at@.len() == q0.len(),
                0 <= i <= q0.len(),
                0 <= remaining,
                self.name@ == old(self).name@,
                self.unit@ == old(self).unit@,
                self.max == old(self).max,
                self.amount == old(self).amount,
                self.life == old(self).life,
                self.amount_used_as_catalyst == old(self).amount_used_as_catalyst,
                self.resource_min_for_writer == old(self).resource_min_for_writer,
                self.resource_max_for_writer == old(self).resource_max_for_writer,
                self.resource_avg_for_writer == old(self).resource_avg_for_writer,
                forall|k: int| 0 <= k < q0.len() ==> (#[trigger] self@.queue[k]).0 == q0[k].0,
                forall|k: int|
                    0 <= k < q0.len() ==> 0 <= (#[trigger] self@.queue[k]).1 <= q0[k].1,
                res_wf(old(self)@),
                result == self@.queue.take(i as int) + spec_deduct(
                    self@.queue.skip(i as int),
                    remaining as int,
                ),
            decreases q0.len() - i,
        {
            let ghost qc = self@.queue;
            let e = self.decay_amount[i];
            proof {
                assert(qc[i as int].1 == e);
                assert(qc.skip(i as int)[0] == qc[i as int]);
            }
            if e >= remaining {
                self.decay_amount[i] = e - remaining;
                proof {
                    let qn = self@.queue;
                    assert(qn =~= qc.update(i as int, (qc[i as int].0, e - remaining)));
                    assert(spec_deduct(qc.skip(i as int), remaining as int) =~= qc.skip(
                        i as int,
                    ).update(0, (qc[i as int].0, e - remaining)));
                    assert(result =~= qn);
                    assert(forall|k: int|
                        0 <= k < q0.len() ==> (#[trigger] qn[k]).0 == q0[k].0);
                    assert(forall|k: int|
                        0 <= k < q0.len() ==> 0 <= (#[trigger] qn[k]).1 <= q0[k].1);
                    lemma_queue_shrunk_wf(old(self)@, qn);
                    assert(self@ =~= (ResModel { queue: result, ..old(self)@ }));
                    assert(res_wf(self@));
                }
                return;
            }
            self.decay_amount[i] = 0;
            proof {
                let qn = self@.queue;
                let rem2 = remaining - e;
                assert(qn =~= qc.update(i as int, (qc[i as int].0, 0)));
                assert(spec_deduct(qc.skip(i as int), remaining as int) == seq![
                    (qc[i as int].0, 0int),
                ] + spec_deduct(qc.skip(i as int).drop_first(), rem2));
                assert(qc.skip(i as int).drop_first() =~= qn.skip(i + 1));
                assert(qn.take(i + 1) =~= qc.take(i as int) + seq![(qc[i as int].0, 0int)]);
                assert(result =~= qn.take(i + 1) + spec_deduct(qn.skip(i + 1), rem2)) by {
                    assert(result == qc.take(i as int) + (seq![(qc[i as int].0, 0int)]
                        + spec_deduct(qn.skip(i + 1), rem2)));
                }
            }
            remaining = remaining - e;
            i += 1;
        }
        proof {
            assert(self@.queue.skip(i as int) =~= Seq::<(int, int)>::empty());
            assert(result =~= self@.queue);
            lemma_queue_shrunk_wf(old(self)@, self@.queue);
            assert(self@ =~= (ResModel { queue: result, ..old(self)@ }));
            assert(res_wf(self@));
        }
    }

    /// Debits a consumed quantity: the stock shrinks by `d` and pending
    /// decay entries stop owing the consumed part.
    pub fn consume(&mut self, d: i64)
        requires
            old(self).wf(),
            0 <= d <= AMOUNT_CAP,
            -AMOUNT_CAP <= old(self)@.amount - d,
        ensures
            final(self).wf(),
            final(self)@ == (ResModel {
                amount: old(self)@.amount - d,
                queue: spec_deduct(old(self)@.queue, d as int),
                ..old(self)@
            }),
    {
        self.amount = self.amount - d;
        self.deduct_from_queue(d);
    }

    /// Commits part of the stock as a catalyst for the rest of the tick.
    pub fn reserve_catalyst(&mut self, d: i64)
        requires
            old(self).wf(),
            0 <= d,
            old(self)@.reserved + d <= AMOUNT_CAP,
        ensures
            final(self).wf(),
            final(self)@ == (ResModel {
                reserved: old(self)@.reserved + d,
                ..old(self)@
            }),
    {
        self.amount_used_as_catalyst = self.amount_used_as_catalyst + d;
    }
}

/// Crediting a produced quantity at time `now`: the stock grows by `d`, and
/// a stock with a finite lifetime schedules the same quantity to decay at
/// `now + life`.
pub open spec fn spec_credit(m: ResModel, d: int, now: int) -> ResModel {
    ResModel {
        amount: m.amount + d,
        queue: if m.life > 0 {
            m.queue.push((now + m.life, d))
        } else {
            m.queue
        },
        ..m
    }
}

impl Resource {
    /// Credits a produced quantity, enqueueing its future decay if the
    /// resource has a finite lifetime.
    pub fn credit_output(&mut self, d: i64, now: u64)
        requires
            old(self).wf(),
            0 <= d,
            old(self)@.amount + d <= AMOUNT_CAP,
            now <= TIME_CAP,
            forall|k: int|
                0 <= k < old(self)@.queue.len() ==> (#[trigger] old(self)@.queue[k]).0 <= now
                    + old(self)@.life,
        ensures
            final(self).wf(),
            final(self)@ == spec_credit(old(self)@, d as int, now as int),
    {
        self.amount = self.amount + d;
        if self.life > 0 {
            self.decay_at.push(now + self.life);
            self.decay_amount.push(d);
            proof {
                assert(self@.queue =~= old(self)@.queue.push(
                    (now + old(self)@.life, d as int),
                ));
            }
        }
        proof {
            assert(self@ =~= spec_credit(old(self)@, d as int, now as int));
        }
    }
}

/// One tick's statistics update: the running minimum, maximum and sum over
/// the current reporting interval each absorb the current amount.
pub open spec fn spec_tick_stats(m: ResModel) -> ResModel {
    ResModel {
        stat_min: if m.amount < m.stat_min {
            m.amount
        } else {
            m.stat_min
        },
        stat_max: if m.amount > m.stat_max {
            m.amount
        } else {
            m.stat_max
        },
        stat_sum: m.stat_sum + m.amount,
        ..m
    }
}

impl Resource {
    /// Folds the current amount into the interval's min/max/sum accumulators.
    pub fn update_stats(&mut self)
        requires
            old(self).wf(),
            -0x4000_0000_0000_0000_0000_0000_0000_0000 <= old(self)@.stat_sum + old(self)@.amount
                < 0x4000_0000_0000_0000_0000_0000_0000_0000,
        ensures
            final(self).wf(),
            final(self)@ == spec_tick_stats(old(self)@),
    {
        if self.amount < self.resource_min_for_writer {
            self.resource_min_for_writer = self.amount;
        }
        if self.amount > self.resource_max_for_writer {
            self.resource_max_for_writer = self.amount;
        }
        self.resource_avg_for_writer = self.resource_avg_for_writer + self.amount as i128;
        proof {
            assert(self@.queue =~= old(self)@.queue);
            assert(self@ =~= spec_tick_stats(old(self)@));
        }
    }
}

} // verus!
