//! The batch scanner's resource manager: fixed pools of entry and
//! buffer slots handed out and taken back through free lists in
//! constant time, and the sizing rule that keeps the submission queue
//! from overflowing.
use vstd::prelude::*;

use crate::addr::IpAddress;

verus! {

/// The step of an in-flight operation chain that an entry describes.
#[derive(Clone, Copy, PartialEq, Eq, Structural, Debug)]
pub enum EntryStep {
    Connect,
    ConnectTimeout,
    Send,
    SendTimeout,
    Recv,
    RecvTimeout,
    Close,
}

/// The wire code of a step, as stored in an entry.
pub open spec fn step_code(s: EntryStep) -> u8 {
    match s {
        EntryStep::Connect => 0,
        EntryStep::ConnectTimeout => 1,
        EntryStep::Send => 2,
        EntryStep::SendTimeout => 3,
        EntryStep::Recv => 4,
        EntryStep::RecvTimeout => 5,
        EntryStep::Close => 6,
    }
}

impl EntryStep {
    pub fn code(&self) -> (r: u8)
        ensures
            r == step_code(*self),
    {
        match self {
            EntryStep::Connect => 0,
            EntryStep::ConnectTimeout => 1,
            EntryStep::Send => 2,
            EntryStep::SendTimeout => 3,
            EntryStep::Recv => 4,
            EntryStep::RecvTimeout => 5,
            EntryStep::Close => 6,
        }
    }

    /// The step of a stored code; codes above the last step do not
    /// occur.
    pub fn from_code(v: u8) -> (r: EntryStep)
        requires
            v <= 6,
        ensures
            step_code(r) == v,
    {
        match v {
            0 => EntryStep::Connect,
            1 => EntryStep::ConnectTimeout,
            2 => EntryStep::Send,
            3 => EntryStep::SendTimeout,
            4 => EntryStep::Recv,
            5 => EntryStep::RecvTimeout,
            _ => EntryStep::Close,
        }
    }
}

/// Which way a fixed buffer moves data.
#[derive(Clone, Copy, PartialEq, Eq, Structural, Debug)]
pub enum BufferDirection {
    TX,
    RX,
}

/// A reference to a fixed buffer slot.
#[derive(Clone, Copy, PartialEq, Eq, Structural, Debug)]
pub struct BufferInfo {
    pub idx: usize,
    pub direction: BufferDirection,
}

/// One in-flight operation: its target, its step, its buffer if any,
/// and the file descriptor it owns.
#[derive(Clone, Copy, PartialEq, Eq, Structural, Debug)]
pub struct EntryInfo {
    pub ip: IpAddress,
    pub step: EntryStep,
    pub buf: Option<BufferInfo>,
    pub fd: i32,
}

/// A fixed pool of slots with a free list: allocation and release take
/// one list operation each, and a slot is either free (empty and on
/// the list) or allocated (filled and off the list).
pub struct SlotPool<T> {
    pub slots: Vec<Option<T>>,
    pub free: Vec<usize>,
}

/// Distinct indices below `n` cannot number more than `n`.
proof fn lemma_distinct_bounded(s: Seq<usize>, n: nat)
    requires
        s.no_duplicates(),
        forall|i: int| 0 <= i < s.len() ==> (#[trigger] s[i]) < n,
    ensures
        s.len() <= n,
{
    let si = s.map_values(|x: usize| x as int);
    assert(si.no_duplicates()) by {
        assert forall|a: int, b: int| 0 <= a < b < si.len() implies si[a] != si[b] by {
            assert(s[a] != s[b]);
        }
    }
    si.unique_seq_to_set();
    let rng = vstd::set_lib::set_int_range(0, n as int);
    vstd::set_lib::lemma_int_range(0, n as int);
    assert(si.to_set().subset_of(rng)) by {
        assert forall|x: int| si.to_set().contains(x) implies rng.contains(x) by {
            assert(si.contains(x));
            let k = choose|k: int| 0 <= k < si.len() && si[k] == x;
            assert(s[k] < n);
        }
    }
    vstd::set_lib::lemma_len_subset(si.to_set(), rng);
}

impl<T> SlotPool<T> {
    pub open spec fn wf(&self) -> bool {
        &&& self.free@.no_duplicates()
        &&& forall|i: int|
            0 <= i < self.free@.len() ==> (#[trigger] self.free@[i]) < self.slots@.len()
                && self.slots@[self.free@[i] as int] is None
        &&& forall|j: int|
            0 <= j < self.slots@.len() && (#[trigger] self.slots@[j]) is None
                ==> self.free@.contains(j as usize)
    }

    /// Slots currently handed out.
    pub open spec fn spec_allocated(&self) -> int {
        self.slots@.len() - self.free@.len()
    }

    /// A pool of `count` slots, all free.
    pub fn new(count: usize) -> (p: SlotPool<T>)
        ensures
            p.wf(),
            p.slots@.len() == count,
            p.spec_allocated() == 0,
    {
        let mut slots: Vec<Option<T>> = Vec::new();
        let mut free: Vec<usize> = Vec::new();
        let mut i: usize = 0;
        while i < count
            invariant
                0 <= i <= count,
                slots@.len() == i,
                free@.len() == i,
                forall|j: int| 0 <= j < i ==> slots@[j] is None,
                forall|j: int| 0 <= j < i ==> (#[trigger] free@[j]) == j,
            decreases count - i,
        {
            slots.push(None);
            free.push(i);
            i = i + 1;
        }
        let p = SlotPool { slots, free };
        proof {
            assert(p.free@.no_duplicates());
            assert forall|j: int|
                0 <= j < p.slots@.len() && (#[trigger] p.slots@[j]) is None implies p.free@.contains(
                j as usize,
            ) by {
                assert(p.free@[j] == j as usize);
            }
        }
        p
    }

    /// Takes one free slot and fills it; nothing is handed out when
    /// every slot is taken.
    pub fn alloc_slot(&mut self, value: T) -> (r: Option<usize>)
        requires
            old(self).wf(),
        ensures
            final(self).wf(),
            final(self).slots@.len() == old(self).slots@.len(),
            match r {
                Some(idx) => {
                    &&& idx < old(self).slots@.len()
                    &&& old(self).slots@[idx as int] is None
                    &&& final(self).slots@ == old(self).slots@.update(idx as int, Some(value))
                    &&& final(self).spec_allocated() == old(self).spec_allocated() + 1
                },
                None => {
                    &&& final(self).slots@ == old(self).slots@
                    &&& final(self).free@ == old(self).free@
                    &&& old(self).free@.len() == 0
                },
            },
    {
        let ghost prev = *self;
        let popped: Option<usize> = self.free.pop();
        match popped {
            Some(idx) => {
                proof {
                    assert(idx == prev.free@[prev.free@.len() - 1]);
                    assert(idx < prev.slots@.len() && prev.slots@[idx as int] is None);
                }
                self.slots.remove(idx);
                self.slots.insert(idx, Some(value));
                let _slot_count: usize = self.slots.len();
                proof {
                    assert(self.slots@ =~= prev.slots@.update(idx as int, Some(value)));
                    assert(prev.free@ =~= self.free@.push(idx));
                    assert(self.free@.no_duplicates()) by {
                        let fr = self.free@;
                        assert forall|a: int, b: int|
                            0 <= a < b < fr.len() implies fr[a] != fr[b] by {
                            assert(prev.free@[a] == fr[a]);
                            assert(prev.free@[b] == fr[b]);
                        }
                    }
                    assert forall|i: int|
                        0 <= i < self.free@.len() implies (#[trigger] self.free@[i])
                        < self.slots@.len() && self.slots@[self.free@[i] as int] is None by {
                        assert(prev.free@[i] == self.free@[i]);
                        assert(prev.free@[i] != idx) by {
                            assert(prev.free@[self.free@.len() as int] == idx);
                        }
                    }
                    assert forall|j: int|
                        0 <= j < self.slots@.len() && (#[trigger] self.slots@[j]) is None implies
                        self.free@.contains(j as usize) by {
                        assert(j != idx) by {
                            assert(prev.slots@.update(idx as int, Some(value))[idx as int]
                                is Some);
                        }
                        assert(prev.slots@[j] is None) by {
                            assert(self.slots@[j] == prev.slots@.update(
                                idx as int,
                                Some(value),
                            )[j]);
                        }
                        assert(prev.free@.contains(j as usize));
                        let k = choose|k: int|
                            0 <= k < prev.free@.len() && prev.free@[k] == j as usize;
                        assert(j as usize as int == j);
                        assert(k != prev.free@.len() - 1) by {
                            assert(prev.free@[prev.free@.len() - 1] == idx);
                        }
                        assert(0 <= k < self.free@.len());
                        assert(self.free@[k] == j as usize);
                        assert(self.free@.contains(j as usize));
                    }
                }
                Some(idx)
            },
            None => None,
        }
    }

    /// Reads the entry of a filled slot.
    pub fn get(&self, idx: usize) -> (r: &T)
        requires
            self.wf(),
            idx < self.slots@.len(),
            self.slots@[idx as int] is Some,
        ensures
            Some(*r) == self.slots@[idx as int],
    {
        match &self.slots[idx] {
            Some(v) => v,
            None => {
                proof {
                    assert(false);
                }
                loop
                    invariant
                        false,
                    decreases 0int,
                {
                }
            },
        }
    }

    /// Empties a filled slot and puts it back on the free list.
    pub fn release(&mut self, idx: usize)
        requires
            old(self).wf(),
            idx < old(self).slots@.len(),
            old(self).slots@[idx as int] is Some,
        ensures
            final(self).wf(),
            final(self).slots@ == old(self).slots@.update(idx as int, None::<T>),
            final(self).spec_allocated() == old(self).spec_allocated() - 1,
    {
        let ghost prev = *self;
        proof {
            // the free list leaves room: it only covers empty slots,
            // and slot `idx` is filled
            lemma_distinct_bounded(prev.free@.push(idx), prev.slots@.len());
            assert(prev.free@.push(idx).no_duplicates()) by {
                assert forall|a: int, b: int|
                    0 <= a < b < prev.free@.push(idx).len() implies prev.free@.push(idx)[a]
                    != prev.free@.push(idx)[b] by {
                    if b < prev.free@.len() {
                    } else {
                        assert(prev.free@.push(idx)[b] == idx);
                        if prev.free@.push(idx)[a] == idx {
                            assert(prev.slots@[idx as int] is None);
                        }
                    }
                }
            }
        }
        self.slots.remove(idx);
        self.slots.insert(idx, None);
        self.free.push(idx);
        proof {
            assert(self.slots@ =~= prev.slots@.update(idx as int, None::<T>));
            assert(self.free@ == prev.free@.push(idx));
            assert(self.free@.no_duplicates());
            assert forall|i: int|
                0 <= i < self.free@.len() implies (#[trigger] self.free@[i]) < self.slots@.len()
                && self.slots@[self.free@[i] as int] is None by {
                if i < prev.free@.len() {
                    assert(self.free@[i] == prev.free@[i]);
                    assert(prev.free@[i] != idx) by {
                        if prev.free@[i] == idx {
                            assert(prev.slots@[idx as int] is None);
                        }
                    }
                } else {
                    assert(self.free@[i] == idx);
                }
            }
            assert forall|j: int|
                0 <= j < self.slots@.len() && (#[trigger] self.slots@[j]) is None implies
                self.free@.contains(j as usize) by {
                if j == idx {
                    assert(self.free@[self.free@.len() - 1] == idx);
                } else {
                    assert(prev.slots@[j] is None);
                    assert(prev.free@.contains(j as usize));
                    let k = choose|k: int| 0 <= k < prev.free@.len() && prev.free@[k] == j as usize;
                    assert(self.free@[k] == j as usize);
                }
            }
        }
    }

    /// Reads the entry of a slot when the index names a filled one;
    /// an out-of-range or empty index yields nothing, so a stray
    /// completion token can be tested before it is trusted.
    pub fn try_get(&self, idx: usize) -> (r: Option<&T>)
        ensures
            match r {
                Some(v) => idx < self.slots@.len() && self.slots@[idx as int] == Some(*v),
                None => idx >= self.slots@.len() || self.slots@[idx as int] is None,
            },
    {
        if idx < self.slots.len() {
            match &self.slots[idx] {
                Some(v) => Some(v),
                None => None,
            }
        } else {
            None
        }
    }

    /// How many slots are handed out.
    pub fn allocated_count(&self) -> (r: usize)
        requires
            self.wf(),
        ensures
            r == self.spec_allocated(),
    {
        proof {
            lemma_distinct_bounded(self.free@, self.slots@.len() as nat);
        }
        self.slots.len() - self.free.len()
    }

    /// Whether a free slot remains.
    pub fn has_free(&self) -> (r: bool)
        ensures
            r == (self.free@.len() > 0),
    {
        self.free.len() > 0
    }
}

/// The smallest power of two at or above `n`.
pub open spec fn ceil_pow2(n: nat) -> nat
    decreases n,
{
    if n <= 1 {
        1
    } else {
        2 * ceil_pow2((n + 1) / 2)
    }
}

proof fn lemma_ceil_pow2_at_least(n: nat)
    ensures
        ceil_pow2(n) >= n,
        ceil_pow2(n) >= 1,
    decreases n,
{
    if n > 1 {
        lemma_ceil_pow2_at_least((n + 1) / 2);
    }
}

proof fn lemma_ceil_pow2_mono(a: nat, b: nat)
    requires
        a <= b,
    ensures
        ceil_pow2(a) <= ceil_pow2(b),
    decreases b,
{
    if b > 1 && a > 1 {
        lemma_ceil_pow2_mono((a + 1) / 2, (b + 1) / 2);
    } else if b > 1 {
        lemma_ceil_pow2_at_least((b + 1) / 2);
    }
}

proof fn lemma_ceil_pow2_16384()
    ensures
        ceil_pow2(16384) == 16384,
{
    assert(ceil_pow2(1) == 1);
    assert(ceil_pow2(2) == 2 * ceil_pow2(1));
    assert(ceil_pow2(4) == 2 * ceil_pow2(2));
    assert(ceil_pow2(8) == 2 * ceil_pow2(4));
    assert(ceil_pow2(16) == 2 * ceil_pow2(8));
    assert(ceil_pow2(32) == 2 * ceil_pow2(16));
    assert(ceil_pow2(64) == 2 * ceil_pow2(32));
    assert(ceil_pow2(128) == 2 * ceil_pow2(64));
    assert(ceil_pow2(256) == 2 * ceil_pow2(128));
    assert(ceil_pow2(512) == 2 * ceil_pow2(256));
    assert(ceil_pow2(1024) == 2 * ceil_pow2(512));
    assert(ceil_pow2(2048) == 2 * ceil_pow2(1024));
    assert(ceil_pow2(4096) == 2 * ceil_pow2(2048));
    assert(ceil_pow2(8192) == 2 * ceil_pow2(4096));
    assert(ceil_pow2(16384) == 2 * ceil_pow2(8192));
}

/// The smallest power of two at or above `n`, for sizes within the
/// submission queue's depth.
fn next_pow2(n: usize) -> (r: usize)
    requires
        n <= 16384,
    ensures
        r as nat == ceil_pow2(n as nat),
        r <= 16384,
    decreases n,
{
    proof {
        lemma_ceil_pow2_mono(n as nat, 16384);
        lemma_ceil_pow2_16384();
    }
    if n <= 1 {
        1
    } else {
        let half: usize = (n + 1) / 2;
        let r: usize = 2 * next_pow2(half);
        proof {
            lemma_ceil_pow2_mono(half as nat, 8192);
            assert(ceil_pow2(8192) == 8192) by {
                lemma_ceil_pow2_16384();
            }
        }
        r
    }
}

/// How many entry slots the allocator gets: one chain of `ops_per_ip`
/// entries per in-flight address, rounded to a power of two of
/// addresses, but never more entries than the submission queue's depth
/// of 16384 can hold.
pub fn entry_slot_count(concurrency: usize, ops_per_ip: usize) -> (r: usize)
    requires
        1 <= ops_per_ip <= 16384,
    ensures
        r as nat == (if ceil_pow2(concurrency as nat) < (16384nat / ops_per_ip as nat) {
            ceil_pow2(concurrency as nat)
        } else {
            16384nat / ops_per_ip as nat
        }) * ops_per_ip as nat,
        r <= 16384,
{
    let cap: usize = 16384 / ops_per_ip;
    let capped: usize = if concurrency < 16384 {
        concurrency
    } else {
        16384
    };
    let a: usize = next_pow2(capped);
    proof {
        if concurrency >= 16384 {
            lemma_ceil_pow2_at_least(concurrency as nat);
            lemma_ceil_pow2_16384();
            assert(cap as nat <= 16384);
        }
        lemma_ceil_pow2_mono(capped as nat, concurrency as nat);
    }
    let m: usize = if a < cap {
        a
    } else {
        cap
    };
    proof {
        assert((m as nat) * (ops_per_ip as nat) <= 16384) by (nonlinear_arith)
            requires
                m as nat <= 16384nat / (ops_per_ip as nat),
                1 <= ops_per_ip as nat,
        ;
        if concurrency >= 16384 {
            assert(ceil_pow2(concurrency as nat) >= 16384);
            assert(m == cap);
        }
    }
    m * ops_per_ip
}

} // verus!
