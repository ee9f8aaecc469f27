//! Growable device buffer with power-of-two capacity.
//!
//! The buffer models one GPU-resident byte buffer. It tracks the logical size
//! of the last payload written and the allocated capacity of the backing
//! resource, which is always the smallest power of two covering the largest
//! payload seen so far. The backing resource is identified by a generation
//! number: a write that outgrows the capacity allocates a fresh backing
//! resource (new generation) and reports that a reallocation happened, so
//! that derived objects referencing the old resource can be rebuilt.

use vstd::prelude::*;

verus! {

/// True when `n` is a power of two (1, 2, 4, ...).
pub open spec fn is_pot(n: nat) -> bool
    decreases n,
{
    if n == 1 {
        true
    } else if n < 1 || n % 2 != 0 {
        false
    } else {
        is_pot(n / 2)
    }
}

/// The smallest power of two that is at least `n` (and at least 1).
pub open spec fn pot_ceil(n: nat) -> nat
    decreases n,
{
    if n <= 1 {
        1
    } else {
        2 * pot_ceil((n + 1) / 2)
    }
}

/// The larger of two naturals.
pub open spec fn max_nat(a: nat, b: nat) -> nat {
    if a >= b {
        a
    } else {
        b
    }
}

/// `pot_ceil(n)` really is a power of two at least as large as `n`.
pub proof fn lemma_pot_ceil_bounds(n: nat)
    ensures
        pot_ceil(n) >= n,
        pot_ceil(n) >= 1,
        is_pot(pot_ceil(n)),
    decreases n,
{
    if n <= 1 {
    } else {
        lemma_pot_ceil_bounds((n + 1) / 2);
    }
}

/// `pot_ceil` never more than doubles its argument (for arguments above one).
pub proof fn lemma_pot_ceil_upper(n: nat)
    requires
        n >= 2,
    ensures
        pot_ceil(n) <= 2 * (n - 1),
    decreases n,
{
    if n == 2 {
        assert(pot_ceil(1) == 1);
    } else {
        lemma_pot_ceil_upper((n + 1) / 2);
    }
}

/// `pot_ceil` is monotone.
pub proof fn lemma_pot_ceil_monotone(a: nat, b: nat)
    requires
        a <= b,
    ensures
        pot_ceil(a) <= pot_ceil(b),
    decreases b,
{
    if b <= 1 {
    } else if a <= 1 {
        lemma_pot_ceil_bounds(b);
    } else {
        lemma_pot_ceil_monotone((a + 1) / 2, (b + 1) / 2);
    }
}

/// `pot_ceil(n)` is the least power of two at least `n`.
pub proof fn lemma_pot_ceil_min(n: nat, m: nat)
    requires
        is_pot(m),
        m >= n,
    ensures
        pot_ceil(n) <= m,
    decreases n,
{
    if n <= 1 {
        lemma_is_pot_pos(m);
    } else {
        lemma_is_pot_pos(m);
        assert(m != 1);
        assert(m % 2 == 0 && is_pot(m / 2));
        lemma_pot_ceil_min((n + 1) / 2, m / 2);
    }
}

/// A power of two is at least one.
pub proof fn lemma_is_pot_pos(m: nat)
    requires
        is_pot(m),
    ensures
        m >= 1,
    decreases m,
{
}

/// Of two distinct powers of two, the smaller fits twice into the larger.
pub proof fn lemma_pot_double(a: nat, b: nat)
    requires
        is_pot(a),
        is_pot(b),
        a < b,
    ensures
        2 * a <= b,
    decreases a,
{
    if a == 1 {
        assert(b % 2 == 0);
    } else {
        assert(b != 1);
        lemma_pot_double(a / 2, b / 2);
    }
}

/// Computes `pot_ceil` of a machine-sized length.
fn pot_ceil_exec(n: usize) -> (r: usize)
    requires
        n as nat <= usize::MAX as nat / 2 + 1,
    ensures
        r as nat == pot_ceil(n as nat),
{
    proof {
        lemma_pot_ceil_bounds(n as nat);
        if n >= 2 {
            lemma_pot_ceil_upper(n as nat);
        }
    }
    let mut c: usize = 1;
    while c < n
        invariant
            n as nat <= usize::MAX as nat / 2 + 1,
            is_pot(c as nat),
            c as nat <= pot_ceil(n as nat),
            pot_ceil(n as nat) <= usize::MAX,
        decreases pot_ceil(n as nat) - c,
    {
        proof {
            lemma_pot_ceil_bounds(n as nat);
            lemma_pot_double(c as nat, pot_ceil(n as nat));
        }
        c = c * 2;
    }
    proof {
        lemma_pot_ceil_min(n as nat, c as nat);
    }
    c
}

/// A single GPU buffer with monotonically growing power-of-two capacity.
pub struct PotBuffer {
    len: usize,
    cap: usize,
    id: u64,
    hist: Ghost<nat>,
}

impl PotBuffer {
    /// Length in bytes of the payload most recently written.
    pub closed spec fn logical_len(self) -> nat {
        self.len as nat
    }

    /// Allocated capacity in bytes of the backing resource.
    pub closed spec fn cap(self) -> nat {
        self.cap as nat
    }

    /// Identity (generation) of the backing resource; changes exactly when
    /// the buffer reallocates.
    pub closed spec fn id(self) -> nat {
        self.id as nat
    }

    /// The largest payload length ever written to this buffer.
    pub closed spec fn hist(self) -> nat {
        self.hist@
    }

    /// Capacity is the smallest power of two covering the historical maximum
    /// payload (never below one byte), and the last payload fits in it.
    pub open spec fn wf(self) -> bool {
        &&& is_pot(self.cap())
        &&& self.cap() == pot_ceil(max_nat(1, self.hist()))
        &&& self.logical_len() <= self.hist()
        &&& self.hist() <= self.cap()
        &&& self.id() <= u64::MAX
    }

    /// A fresh buffer: empty, minimum capacity, first backing resource.
    pub fn new() -> (r: Self)
        ensures
            r.wf(),
            r.logical_len() == 0,
            r.cap() == 1,
            r.id() == 0,
            r.hist() == 0,
    {
        PotBuffer { len: 0, cap: 1, id: 0, hist: Ghost(0) }
    }

    /// Current capacity in bytes.
    pub fn capacity(&self) -> (r: usize)
        ensures
            r as nat == self.cap(),
    {
        self.cap
    }

    /// Length in bytes of the payload most recently written.
    pub fn len(&self) -> (r: usize)
        ensures
            r as nat == self.logical_len(),
    {
        self.len
    }

    /// Identity of the current backing resource.
    pub fn buffer_id(&self) -> (r: u64)
        ensures
            r as nat == self.id(),
    {
        self.id
    }

    /// Writes a payload. If the payload outgrows the current capacity, the
    /// backing resource is reallocated at the next power of two and `true`
    /// is returned; otherwise the payload is uploaded in place and `false`
    /// is returned. Capacity never shrinks, and after the call it is the
    /// smallest power of two covering every payload length seen so far.
    pub fn write(&mut self, payload: &Vec<u8>) -> (reallocated: bool)
        requires
            old(self).wf(),
            payload@.len() <= usize::MAX as nat / 2 + 1,
            old(self).id() < u64::MAX,
        ensures
            final(self).wf(),
            reallocated == (payload@.len() > old(self).cap()),
            final(self).logical_len() == payload@.len(),
            final(self).hist() == max_nat(old(self).hist(), payload@.len()),
            final(self).cap() == pot_ceil(max_nat(1, final(self).hist())),
            final(self).cap() >= old(self).cap(),
            !reallocated ==> final(self).cap() == old(self).cap(),
            !reallocated ==> final(self).id() == old(self).id(),
            reallocated ==> final(self).cap() == pot_ceil(payload@.len() as nat),
            reallocated ==> final(self).id() == old(self).id() + 1,
    {
        let n = payload.len();
        if n > self.cap {
            let new_cap = pot_ceil_exec(n);
            proof {
                // The payload outgrew the capacity, so it outgrew the
                // historical maximum as well.
                lemma_pot_ceil_bounds(max_nat(1, self.hist@));
                lemma_pot_ceil_bounds(n as nat);
            }
            self.cap = new_cap;
            self.id = self.id + 1;
            self.len = n;
            self.hist = Ghost(max_nat(self.hist@, n as nat));
            true
        } else {
            self.len = n;
            proof {
                if n as nat > self.hist@ {
                    // The new maximum still rounds up to the same capacity.
                    lemma_pot_ceil_monotone(max_nat(1, self.hist@), n as nat);
                    lemma_pot_ceil_min(n as nat, self.cap as nat);
                }
            }
            self.hist = Ghost(max_nat(self.hist@, n as nat));
            false
        }
    }
}

} // verus!
