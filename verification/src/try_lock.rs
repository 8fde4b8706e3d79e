//! A busy-wait mutual-exclusion primitive built on one unsigned 64-bit word.
//!
//! Bit 0 of the word is the held flag; bits 1..63 are a monotonically
//! increasing release count.  Releasing adds one to the whole word, which in
//! a single operation clears the held bit (ripple carry out of bit 0) and
//! bumps the count.  There is no fairness guarantee and the lock is not
//! reentrant: acquiring while already holding it spins forever, so `acquire`
//! asks its caller not to hold the lock.

use vstd::prelude::*;

verus! {

/// The held flag: bit 0 of the state word.
pub open spec fn spec_held(s: u64) -> bool {
    s & 1 == 1
}

/// The acquisition count: the state word shifted right by one bit.
pub open spec fn spec_count(s: u64) -> u64 {
    s >> 1
}

/// The state word after a successful acquire.
pub open spec fn spec_acquire(s: u64) -> u64 {
    s | 1
}

/// The state word after a release: one atomic add-by-one clears the held
/// bit and increments the count together.
pub open spec fn spec_release(s: u64) -> u64 {
    (s + 1) as u64
}

pub struct TryLock {
    state: u64,
}

impl View for TryLock {
    type V = u64;

    closed spec fn view(&self) -> u64 {
        self.state
    }
}

impl TryLock {
    /// Creates the lock unheld, with an acquisition count of zero.
    pub fn new() -> (r: Self)
        ensures
            r@ == 0,
            !spec_held(r@),
            spec_count(r@) == 0,
    {
        proof {
            assert(0u64 & 1 == 0 && 0u64 >> 1 == 0) by (bit_vector);
        }
        TryLock { state: 0 }
    }

    /// A single acquisition attempt: returns `false` immediately if the lock
    /// is already held, `true` on success.  Never blocks.
    pub fn try_acquire(&mut self) -> (r: bool)
        ensures
            r == !spec_held(old(self)@),
            r ==> final(self)@ == spec_acquire(old(self)@),
            !r ==> final(self)@ == old(self)@,
            spec_count(final(self)@) == spec_count(old(self)@),
            spec_held(final(self)@),
    {
        let read = self.state;
        if (read & 1) != 0 {
            proof {
                assert(read & 1 != 0 ==> read & 1 == 1) by (bit_vector);
            }
            false
        } else {
            proof {
                assert((read & 1 == 0) ==> ((read | 1) & 1 == 1 && (read | 1) >> 1 == read >> 1))
                    by (bit_vector);
            }
            self.state = read | 1;
            true
        }
    }

    /// Spins calling `try_acquire` in a tight loop with a processor spin
    /// hint until it succeeds.  This is a pure busy-wait: the thread is
    /// never parked, and a caller that already holds the lock would spin
    /// forever, so holding it is excluded here.
    pub fn acquire(&mut self)
        requires
            !spec_held(old(self)@),
        ensures
            final(self)@ == spec_acquire(old(self)@),
            spec_held(final(self)@),
            spec_count(final(self)@) == spec_count(old(self)@),
    {
        let ghost s0: u64 = self@;
        loop
            invariant_except_break
                self@ == s0,
                !spec_held(self@),
            ensures
                self@ == spec_acquire(s0),
            decreases 0int,
        {
            let ok = self.try_acquire();
            if ok {
                break ;
            }
            spin_hint();
            proof {
                assert(false);
            }
        }
        proof {
            assert((s0 | 1) & 1 == 1) by (bit_vector);
            assert((s0 & 1 != 1) ==> ((s0 | 1) >> 1 == s0 >> 1)) by (bit_vector);
        }
    }

    /// Releases the lock by atomically adding one to the state word,
    /// clearing the held bit and incrementing the acquisition count as one
    /// operation.  Calling it while unheld is a fatal contract violation and
    /// is excluded here; the count staying inside its 63-bit range is a
    /// machine limit.
    pub fn release(&mut self)
        requires
            spec_held(old(self)@),
            spec_count(old(self)@) < u64::MAX / 2,
        ensures
            final(self)@ == spec_release(old(self)@),
            !spec_held(final(self)@),
            spec_count(final(self)@) == spec_count(old(self)@) + 1,
    {
        let s = self.state;
        proof {
            assert((s & 1 == 1 && s >> 1 < 0x7fff_ffff_ffff_ffffu64) ==> s
                < 0xffff_ffff_ffff_ffffu64) by (bit_vector);
            assert((s & 1 == 1 && s < 0xffff_ffff_ffff_ffffu64) ==> (((s + 1) as u64) & 1 == 0 && ((
            s + 1) as u64) >> 1 == (s >> 1) + 1)) by (bit_vector);
        }
        self.state = s + 1;
    }

    /// Whether the lock is currently held.
    pub fn is_held(&self) -> (r: bool)
        ensures
            r == spec_held(self@),
    {
        proof {
            let s = self@;
            assert((s & 1 != 0) == (s & 1 == 1)) by (bit_vector);
        }
        (self.state & 1) != 0
    }

    /// How many acquire/release pairs have completed: the state word shifted
    /// right past the held bit.
    pub fn acquire_count(&self) -> (r: u64)
        ensures
            r == spec_count(self@),
    {
        self.state >> 1
    }
}

/// Relies on core::hint::spin_loop: a scheduling hint with no observable
/// effect on program state.
#[verifier::external_body]
fn spin_hint() {
    core::hint::spin_loop();
}

/// The state of a lock created by `new` after `k` acquire/release pairs,
/// each pair performed in isolation.
pub open spec fn state_after_pairs(k: nat) -> u64
    decreases k,
{
    if k == 0 {
        0u64
    } else {
        spec_release(spec_acquire(state_after_pairs((k - 1) as nat)))
    }
}

/// Mutual exclusion over whole sessions: starting from a fresh lock, `k`
/// acquire/release pairs, each completed before the next begins, leave the
/// lock unheld with an acquisition count of exactly `k`.
pub proof fn lemma_lock_pairs(k: u64)
    requires
        k <= u64::MAX / 2,
    ensures
        state_after_pairs(k as nat) == 2 * k,
        !spec_held(state_after_pairs(k as nat)),
        spec_count(state_after_pairs(k as nat)) == k,
    decreases k,
{
    if k == 0 {
        assert(!spec_held(0u64) && spec_count(0u64) == 0) by (bit_vector);
    } else {
        lemma_lock_pairs((k - 1) as u64);
        let s = state_after_pairs((k - 1) as nat);
        assert(s == 2 * (k - 1));
        assert((s & 1 == 0 && s <= 0xffff_ffff_ffff_fffdu64) ==> (s | 1) == s + 1)
            by (bit_vector);
        assert((s % 2 == 0) ==> (s & 1 == 0)) by (bit_vector);
        assert(s % 2 == 0);
        assert(state_after_pairs(k as nat) == spec_release(spec_acquire(s)));
        assert(spec_acquire(s) == s + 1);
        assert(state_after_pairs(k as nat) == s + 2);
        let t = (s + 2) as u64;
        assert((t % 2 == 0) ==> (!spec_held(t) && spec_count(t) == t / 2)) by (bit_vector);
        assert(t % 2 == 0);
    }
}

/// The single-holder invariant, stated over the state word: a successful
/// acquire leaves the lock held, and `try_acquire`'s contract lets an
/// attempt succeed only from an unheld word, so no second acquisition can
/// succeed until a release has cleared the held bit — which `spec_release`
/// does, while preserving the count bumped by exactly one.
pub proof fn lemma_single_holder(s: u64)
    requires
        s < u64::MAX,
    ensures
        spec_held(spec_acquire(s)),
        !spec_held(s) ==> spec_count(spec_acquire(s)) == spec_count(s),
        spec_held(s) ==> !spec_held(spec_release(s)),
        spec_held(s) ==> spec_count(spec_release(s)) == spec_count(s) + 1,
{
    assert((s | 1) & 1 == 1) by (bit_vector);
    assert((s & 1 != 1) ==> ((s | 1) >> 1 == s >> 1)) by (bit_vector);
    assert((s & 1 == 1 && s < 0xffff_ffff_ffff_ffffu64) ==> (((s + 1) as u64) & 1 == 0 && ((s + 1)
        as u64) >> 1 == (s >> 1) + 1)) by (bit_vector);
}

} // verus!
