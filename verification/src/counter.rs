//! A sharded, contention-resistant approximate counter.
//!
//! The counter keeps one cache-line-padded sub-counter per shard plus one
//! global accumulator.  `inc` touches only the caller's own shard; once a
//! shard's value reaches the flush threshold `max(LIMIT, C * num_threads)`,
//! the incrementing caller pushes the whole shard value into the global
//! accumulator and resets the shard.  `get` reads only the global
//! accumulator and may under-report by the not-yet-flushed shard values;
//! `get_accurate` sums every shard plus the global accumulator and is exact
//! once no increments are in flight.

use vstd::prelude::*;

verus! {

/// The fixed shard count, shared by every counter instance: callers assign
/// each worker a stable shard id below this bound.
pub const MAX_THREADS: usize = 32;

pub const PADDING_BYTES: usize = 64;

/// Filler laid around hot fields so that neighbouring data lands on its own
/// cache line.
pub type PadBytes<const N: usize> = [bool; N];

/// A `u64` padded out to a full cache line so that independent shards never
/// share one (padding is a performance measure, not a correctness one).
#[derive(Clone, Copy, Debug)]
pub struct AtomicU64Padded {
    value: u64,
    _padding: PadBytes<56>,
}

impl View for AtomicU64Padded {
    type V = u64;

    closed spec fn view(&self) -> u64 {
        self.value
    }
}

impl AtomicU64Padded {
    pub fn new(val: u64) -> (r: Self)
        ensures
            r@ == val,
    {
        AtomicU64Padded { value: val, _padding: [false;56] }
    }
}

/// The mathematical model of a counter: the global accumulator, the shard
/// values, and the configured thread count that sets the flush threshold.
#[verifier::ext_equal]
pub struct CounterView {
    pub global: u64,
    pub shards: Seq<u64>,
    pub num_threads: u64,
}

/// The sum of a sequence of shard values.
pub open spec fn sum64(s: Seq<u64>) -> int
    decreases s.len(),
{
    if s.len() == 0 {
        0
    } else {
        s[0] + sum64(s.drop_first())
    }
}

/// The flush threshold: a shard that reaches it is pushed into the global
/// accumulator and reset.
pub open spec fn counter_limit(v: CounterView) -> int {
    if 10 * v.num_threads > 1000 {
        10 * v.num_threads
    } else {
        1000
    }
}

/// The exact total the counter represents at any instant.
pub open spec fn counter_total(v: CounterView) -> int {
    v.global + sum64(v.shards)
}

/// Well-formedness: the fixed shard count, every shard strictly below the
/// flush threshold (an `inc` that reaches it resets the shard), and the
/// machine limits under which the arithmetic stays in `u64` range.
pub open spec fn counter_wf(v: CounterView) -> bool {
    &&& v.shards.len() == MAX_THREADS
    &&& forall|i: int| 0 <= i < v.shards.len() ==> #[trigger] v.shards[i] < counter_limit(v)
    &&& v.num_threads <= u64::MAX / 10
    &&& counter_total(v) <= u64::MAX
}

/// The model of one `inc` on shard `tid`: bump the shard, and flush it into
/// the global accumulator when it reaches the threshold.
pub open spec fn spec_inc(v: CounterView, tid: int) -> CounterView {
    let val = v.shards[tid] + 1;
    if val < counter_limit(v) {
        CounterView { shards: v.shards.update(tid, val as u64), ..v }
    } else {
        CounterView {
            global: (v.global + val) as u64,
            shards: v.shards.update(tid, 0u64),
            ..v
        }
    }
}

/// The model of a destructive reset to `val`.
pub open spec fn spec_set(v: CounterView, val: u64) -> CounterView {
    CounterView { global: val, shards: Seq::new(v.shards.len(), |i: int| 0u64), ..v }
}

pub proof fn lemma_sum64_nonneg(s: Seq<u64>)
    ensures
        sum64(s) >= 0,
    decreases s.len(),
{
    if s.len() > 0 {
        lemma_sum64_nonneg(s.drop_first());
    }
}

pub proof fn lemma_sum64_update(s: Seq<u64>, i: int, x: u64)
    requires
        0 <= i < s.len(),
    ensures
        sum64(s.update(i, x)) == sum64(s) - s[i] + x,
    decreases s.len(),
{
    if i == 0 {
        assert(s.update(0, x).drop_first() =~= s.drop_first());
    } else {
        assert(s.update(i, x).drop_first() =~= s.drop_first().update(i - 1, x));
        lemma_sum64_update(s.drop_first(), i - 1, x);
    }
}

pub proof fn lemma_sum64_ge_index(s: Seq<u64>, i: int)
    requires
        0 <= i < s.len(),
    ensures
        sum64(s) >= s[i],
    decreases s.len(),
{
    lemma_sum64_nonneg(s.drop_first());
    if i > 0 {
        lemma_sum64_ge_index(s.drop_first(), i - 1);
    }
}

pub proof fn lemma_sum64_zero(s: Seq<u64>)
    requires
        forall|i: int| 0 <= i < s.len() ==> s[i] == 0,
    ensures
        sum64(s) == 0,
    decreases s.len(),
{
    if s.len() > 0 {
        lemma_sum64_zero(s.drop_first());
    }
}

/// Shard values all below a bound keep the sum below `len` times it.
pub proof fn lemma_sum64_bound(s: Seq<u64>, b: int)
    requires
        forall|i: int| 0 <= i < s.len() ==> (#[trigger] s[i]) < b,
    ensures
        sum64(s) <= s.len() * (b - 1),
    decreases s.len(),
{
    if s.len() > 0 {
        assert forall|i: int| 0 <= i < s.drop_first().len() implies (#[trigger] s.drop_first()[i])
            < b by {
            assert(s[i + 1] < b);
        }
        lemma_sum64_bound(s.drop_first(), b);
        assert((s.len() - 1) * (b - 1) + (b - 1) == s.len() * (b - 1)) by (nonlinear_arith);
    }
}

/// Splitting a shard sequence at any point splits its sum.
pub proof fn lemma_sum64_split(s: Seq<u64>, i: int)
    requires
        0 <= i <= s.len(),
    ensures
        sum64(s) == sum64(s.subrange(0, i)) + sum64(s.subrange(i, s.len() as int)),
    decreases i,
{
    if i == 0 {
        assert(s.subrange(0, 0).len() == 0);
        assert(s.subrange(0, s.len() as int) =~= s);
    } else {
        lemma_sum64_split(s.drop_first(), i - 1);
        assert(s.subrange(0, i).drop_first() =~= s.drop_first().subrange(0, i - 1));
        assert(s.subrange(i, s.len() as int) =~= s.drop_first().subrange(
            i - 1,
            s.drop_first().len() as int,
        ));
        assert(sum64(s) == s[0] + sum64(s.drop_first()));
        assert(sum64(s.subrange(0, i)) == s[0] + sum64(s.subrange(0, i).drop_first()));
    }
}

/// One `inc` conserves the total exactly: it grows by one, whether or not
/// the shard flushed, and well-formedness is preserved.
pub proof fn lemma_spec_inc(v: CounterView, tid: int)
    requires
        counter_wf(v),
        0 <= tid < MAX_THREADS,
        counter_total(v) + 1 <= u64::MAX,
    ensures
        counter_wf(spec_inc(v, tid)),
        counter_total(spec_inc(v, tid)) == counter_total(v) + 1,
        spec_inc(v, tid).num_threads == v.num_threads,
        spec_inc(v, tid).shards.len() == v.shards.len(),
{
    lemma_sum64_ge_index(v.shards, tid);
    lemma_sum64_update(v.shards, tid, (v.shards[tid] + 1) as u64);
    lemma_sum64_update(v.shards, tid, 0u64);
    let val = v.shards[tid] + 1;
    if val < counter_limit(v) {
    } else {
        assert(v.global + val <= counter_total(v) + 1);
    }
}

/// A destructive reset leaves the total at exactly the value written.
pub proof fn lemma_counter_reset(v: CounterView, val: u64)
    requires
        counter_wf(v),
    ensures
        counter_wf(spec_set(v, val)),
        counter_total(spec_set(v, val)) == val,
        spec_set(v, val).global == val,
        forall|i: int| 0 <= i < spec_set(v, val).shards.len() ==> #[trigger] spec_set(
            v,
            val,
        ).shards[i] == 0,
{
    lemma_sum64_zero(spec_set(v, val).shards);
}

/// The model of a whole run of `inc` calls, one per entry of `tids`.
pub open spec fn apply_incs(v: CounterView, tids: Seq<int>) -> CounterView
    decreases tids.len(),
{
    if tids.len() == 0 {
        v
    } else {
        apply_incs(spec_inc(v, tids[0]), tids.drop_first())
    }
}

/// Counter conservation: any sequence of `inc` calls on valid shard ids,
/// with no reset interleaved, grows the exact total by precisely the number
/// of calls made.
pub proof fn lemma_counter_conservation(v: CounterView, tids: Seq<int>)
    requires
        counter_wf(v),
        forall|i: int| 0 <= i < tids.len() ==> 0 <= #[trigger] tids[i] < MAX_THREADS,
        counter_total(v) + tids.len() <= u64::MAX,
    ensures
        counter_wf(apply_incs(v, tids)),
        counter_total(apply_incs(v, tids)) == counter_total(v) + tids.len(),
    decreases tids.len(),
{
    if tids.len() > 0 {
        lemma_spec_inc(v, tids[0]);
        lemma_counter_conservation(spec_inc(v, tids[0]), tids.drop_first());
    }
}

/// The fresh model produced by `new`.
pub open spec fn fresh_view(num_threads: u64) -> CounterView {
    CounterView {
        global: 0,
        shards: Seq::new(MAX_THREADS as nat, |i: int| 0u64),
        num_threads,
    }
}

/// `n` increments of one shard of a fresh counter.
pub open spec fn incs_at(v: CounterView, tid: int, n: nat) -> CounterView
    decreases n,
{
    if n == 0 {
        v
    } else {
        spec_inc(incs_at(v, tid, (n - 1) as nat), tid)
    }
}

/// The flush threshold behaviour: starting fresh, incrementing one shard
/// `n <= limit` times leaves the global accumulator untouched and the raw
/// shard value at `n` while `n` is below the threshold; the increment that
/// reaches the threshold flushes the whole shard value into the global
/// accumulator and resets the shard to zero.
pub proof fn lemma_flush_threshold(num_threads: u64, tid: int, n: nat)
    requires
        num_threads <= u64::MAX / 10,
        0 <= tid < MAX_THREADS,
        n <= counter_limit(fresh_view(num_threads)),
    ensures
        counter_wf(incs_at(fresh_view(num_threads), tid, n)),
        counter_total(incs_at(fresh_view(num_threads), tid, n)) == n,
        n < counter_limit(fresh_view(num_threads)) ==> incs_at(fresh_view(num_threads), tid, n)
            == (CounterView {
            global: 0,
            shards: fresh_view(num_threads).shards.update(tid, n as u64),
            num_threads,
        }),
        n == counter_limit(fresh_view(num_threads)) ==> incs_at(fresh_view(num_threads), tid, n)
            == (CounterView {
            global: n as u64,
            shards: fresh_view(num_threads).shards.update(tid, 0u64),
            num_threads,
        }),
    decreases n,
{
    let f = fresh_view(num_threads);
    lemma_sum64_zero(f.shards);
    if n == 0 {
        assert(counter_wf(f));
        assert(counter_total(f) == 0);
    } else {
        lemma_flush_threshold(num_threads, tid, (n - 1) as nat);
        let prev = incs_at(f, tid, (n - 1) as nat);
        lemma_spec_inc(prev, tid);
        assert(prev.shards[tid] == n - 1);
        if n < counter_limit(f) {
            assert(spec_inc(prev, tid).shards =~= f.shards.update(tid, n as u64));
            assert(spec_inc(prev, tid) =~= (CounterView {
                global: 0,
                shards: f.shards.update(tid, n as u64),
                num_threads,
            }));
        } else {
            assert(spec_inc(prev, tid).shards =~= f.shards.update(tid, 0u64));
            assert(spec_inc(prev, tid) =~= (CounterView {
                global: n as u64,
                shards: f.shards.update(tid, 0u64),
                num_threads,
            }));
        }
    }
}

/// The sharded counter itself.
#[derive(Clone, Debug)]
pub struct Counter {
    _padding0: PadBytes<PADDING_BYTES>,
    sub_counters: Vec<AtomicU64Padded>,
    global_count: u64,
    _padding1: PadBytes<PADDING_BYTES>,
    num_threads: u64,
}

impl View for Counter {
    type V = CounterView;

    closed spec fn view(&self) -> CounterView {
        CounterView {
            global: self.global_count,
            shards: self.sub_counters@.map(|i: int, c: AtomicU64Padded| c@),
            num_threads: self.num_threads,
        }
    }
}

impl Counter {
    /// How many increments a shard absorbs beyond `LIMIT` per configured
    /// thread, before flushing.
    pub const C: u64 = 10;

    /// The floor of the flush threshold.
    pub const LIMIT: u64 = 1000;

    /// Creates a counter with `MAX_THREADS` zeroed shards and a zeroed
    /// global accumulator.  The bound on `num_threads` keeps the threshold
    /// `C * num_threads` inside `u64` range.
    pub fn new(num_threads: u64) -> (r: Self)
        requires
            num_threads <= u64::MAX / 10,
        ensures
            counter_wf(r@),
            r@ == fresh_view(num_threads),
            counter_total(r@) == 0,
    {
        let mut shards: Vec<AtomicU64Padded> = Vec::new();
        let mut i: usize = 0;
        while i < MAX_THREADS
            invariant
                i <= MAX_THREADS,
                shards@.len() == i,
                forall|j: int| 0 <= j < i ==> #[trigger] shards@[j]@ == 0,
            decreases MAX_THREADS - i,
        {
            shards.push(AtomicU64Padded::new(0));
            i = i + 1;
        }
        let r = Counter {
            _padding0: [false;PADDING_BYTES],
            sub_counters: shards,
            global_count: 0,
            _padding1: [false;PADDING_BYTES],
            num_threads,
        };
        proof {
            assert(r@.shards =~= fresh_view(num_threads).shards);
            assert(r@ =~= fresh_view(num_threads));
            lemma_sum64_zero(r@.shards);
        }
        r
    }

    /// The fast, approximate read: only the global accumulator.  It may
    /// under-count by the sum of not-yet-flushed shard values, and never
    /// over-counts.
    pub fn get(&self) -> (r: u64)
        ensures
            r == self@.global,
            counter_wf(self@) ==> r <= counter_total(self@),
    {
        proof {
            if counter_wf(self@) {
                lemma_sum64_nonneg(self@.shards);
            }
        }
        self.global_count
    }

    /// The flush threshold as executable code: `max(LIMIT, C * num_threads)`.
    fn limit(&self) -> (r: u64)
        requires
            self@.num_threads <= u64::MAX / 10,
        ensures
            r == counter_limit(self@),
    {
        let scaled = Counter::C * self.num_threads;
        if scaled > Counter::LIMIT {
            scaled
        } else {
            Counter::LIMIT
        }
    }

    /// Increments the caller's shard and reads back the new value; if that
    /// value has reached the flush threshold, pushes it into the global
    /// accumulator and resets the shard.  The exact total always grows by
    /// exactly one; staying in `u64` range is a machine limit on the caller.
    pub fn inc(&mut self, tid: usize)
        requires
            counter_wf(old(self)@),
            tid < MAX_THREADS,
            counter_total(old(self)@) + 1 <= u64::MAX,
        ensures
            counter_wf(final(self)@),
            final(self)@ == spec_inc(old(self)@, tid as int),
            counter_total(final(self)@) == counter_total(old(self)@) + 1,
            final(self)@.num_threads == old(self)@.num_threads,
    {
        proof {
            lemma_spec_inc(old(self)@, tid as int);
            lemma_sum64_ge_index(old(self)@.shards, tid as int);
        }
        let cur: u64 = self.sub_counters[tid].value;
        let val: u64 = cur + 1;
        let threshold = self.limit();
        if val >= threshold {
            self.global_count = self.global_count + val;
            self.sub_counters[tid] = AtomicU64Padded::new(0);
        } else {
            self.sub_counters[tid] = AtomicU64Padded::new(val);
        }
        proof {
            assert(final(self)@.shards =~= spec_inc(old(self)@, tid as int).shards);
            assert(final(self)@ =~= spec_inc(old(self)@, tid as int));
        }
    }

    /// Destructive reset: the global accumulator is set to `val` and every
    /// shard is zeroed.  Not meaningful concurrently with `inc`; callers
    /// serialize externally.
    pub fn set(&mut self, val: u64)
        requires
            counter_wf(old(self)@),
        ensures
            counter_wf(final(self)@),
            final(self)@ == spec_set(old(self)@, val),
            counter_total(final(self)@) == val,
    {
        proof {
            lemma_counter_reset(old(self)@, val);
        }
        self.global_count = val;
        let mut i: usize = 0;
        let n = self.sub_counters.len();
        while i < n
            invariant
                i <= n,
                n == self.sub_counters@.len(),
                self.global_count == val,
                self@.num_threads == old(self)@.num_threads,
                forall|j: int| 0 <= j < i ==> #[trigger] self.sub_counters@[j]@ == 0,
            decreases n - i,
        {
            self.sub_counters[i] = AtomicU64Padded::new(0);
            i = i + 1;
        }
        proof {
            assert(final(self)@.shards =~= spec_set(old(self)@, val).shards);
            assert(final(self)@ =~= spec_set(old(self)@, val));
        }
    }

    /// The exact read: sums every shard plus the global accumulator.  It is
    /// a snapshot — exact at the instant of the read once no increments are
    /// in flight.
    pub fn get_accurate(&self) -> (r: u64)
        requires
            counter_wf(self@),
        ensures
            r == counter_total(self@),
    {
        let ghost s = self@.shards;
        let mut acc: u64 = 0;
        let mut i: usize = 0;
        let n = self.sub_counters.len();
        while i < n
            invariant
                i <= n,
                n == self.sub_counters@.len(),
                counter_wf(self@),
                s == self@.shards,
                acc == sum64(s.subrange(0, i as int)),
            decreases n - i,
        {
            proof {
                lemma_sum64_split(s, i as int);
                lemma_sum64_split(s, i + 1);
                assert(s.subrange(i as int, s.len() as int)[0] == s[i as int]);
                assert(s.subrange(i as int, s.len() as int).drop_first() =~= s.subrange(
                    i + 1,
                    s.len() as int,
                ));
                lemma_sum64_nonneg(s.subrange(i + 1, s.len() as int));
                lemma_sum64_nonneg(s.subrange(0, i as int));
                assert(acc + s[i as int] <= counter_total(self@) - self@.global);
            }
            let cur: u64 = self.sub_counters[i].value;
            acc = acc + cur;
            proof {
                assert(s.subrange(0, i + 1).drop_last() =~= s.subrange(0, i as int));
                assert(sum64(s.subrange(0, i + 1)) == sum64(s.subrange(0, i as int)) + s[i as int])
                    by {
                    lemma_sum64_split(s.subrange(0, i + 1), i as int);
                    assert(s.subrange(0, i + 1).subrange(0, i as int) =~= s.subrange(0, i as int));
                    assert(s.subrange(0, i + 1).subrange(i as int, i + 1) =~= seq![s[i as int]]);
                };
            }
            i = i + 1;
        }
        proof {
            assert(s.subrange(0, n as int) =~= s);
            lemma_sum64_nonneg(s);
        }
        acc + self.global_count
    }

    /// The raw, unflushed value of one shard.
    pub fn shard_value(&self, tid: usize) -> (r: u64)
        requires
            counter_wf(self@),
            tid < MAX_THREADS,
        ensures
            r == self@.shards[tid as int],
    {
        self.sub_counters[tid].value
    }
}

} // verus!
