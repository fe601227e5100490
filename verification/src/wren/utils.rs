use vstd::prelude::*;
use vstd::arithmetic::power2::pow2;

use super::VM;

verus! {

/// The smallest power of two that is at least `n`, for `n >= 1`.
pub open spec fn is_pow2_ceil(r: int, n: int) -> bool {
    &&& exists|k: nat| r == pow2(k) as int
    &&& r >= n
    &&& r < 2 * n
}

/// The largest element count a buffer may reach: its capacity, a power of
/// two, must stay an `i32`.
pub const MAX_BUFFER_COUNT: i32 = 0x4000_0000;

/// Computes the smallest power of two that is at least `n`.
pub fn power_of_2_ceil(n: i32) -> (r: i32)
    requires
        1 <= n <= MAX_BUFFER_COUNT,
    ensures
        is_pow2_ceil(r as int, n as int),
{
    let mut p: i32 = 1;
    let ghost mut k: nat = 0;
    proof {
        vstd::arithmetic::power2::lemma2_to64();
    }
    while p < n
        invariant
            1 <= n <= MAX_BUFFER_COUNT,
            1 <= p < 2 * n,
            p as int == pow2(k) as int,
        decreases 2 * n - p,
    {
        proof {
            vstd::arithmetic::power2::lemma_pow2_adds(k, 1);
            vstd::arithmetic::power2::lemma2_to64();
        }
        p = p * 2;
        proof {
            k = k + 1;
        }
    }
    p
}

/// A growable array whose capacity grows to the next power of two, as the
/// VM's allocator hands it out.
pub struct Buffer<T> {
    pub data: Vec<T>,
    pub count: i32,
    pub capacity: i32,
}

impl<T> Buffer<T> {
    /// The buffer's elements agree with its count, and its capacity is zero
    /// or a power of two that holds them.
    pub open spec fn wf(&self) -> bool {
        &&& self.data.len() == self.count
        &&& 0 <= self.count <= self.capacity
        &&& (self.capacity == 0 || exists|k: nat| self.capacity == pow2(k) as int)
    }

    pub fn new() -> (b: Self)
        ensures
            b.wf(),
            b.data@.len() == 0,
            b.count == 0,
            b.capacity == 0,
    {
        Self { data: Vec::new(), count: 0, capacity: 0 }
    }

    /// Appends `data`.
    pub fn write(&mut self, vm: &VM, data: T)
        requires
            old(self).wf(),
            old(self).count < MAX_BUFFER_COUNT,
        ensures
            final(self).wf(),
            final(self).data@ == old(self).data@.push(data),
            final(self).count == old(self).count + 1,
            final(self).capacity == (if old(self).capacity < old(self).count + 1 {
                spec_power_of_2_ceil(old(self).count + 1)
            } else {
                old(self).capacity as int
            }),
    {
        vm.buffer_write(self, data)
    }

    /// Empties the buffer and gives its storage back.
    pub fn clear(&mut self, vm: &VM)
        ensures
            final(self).wf(),
            final(self).data@.len() == 0,
            final(self).count == 0,
            final(self).capacity == 0,
    {
        vm.buffer_clear(self)
    }
}

/// The power of two that `power_of_2_ceil` returns.
pub open spec fn spec_power_of_2_ceil(n: int) -> int {
    choose|r: int| is_pow2_ceil(r, n)
}

/// There is exactly one power of two in `[n, 2n)`.
pub proof fn lemma_pow2_ceil_unique(r1: int, r2: int, n: int)
    requires
        n >= 1,
        is_pow2_ceil(r1, n),
        is_pow2_ceil(r2, n),
    ensures
        r1 == r2,
{
    let k1 = choose|k: nat| r1 == pow2(k) as int;
    let k2 = choose|k: nat| r2 == pow2(k) as int;
    if k1 < k2 {
        vstd::arithmetic::power2::lemma_pow2_adds(k1, (k2 - k1 - 1) as nat);
        vstd::arithmetic::power2::lemma_pow2_pos((k2 - k1 - 1) as nat);
        vstd::arithmetic::power2::lemma_pow2_adds((k1 + (k2 - k1 - 1)) as nat, 1);
        vstd::arithmetic::power2::lemma2_to64();
        assert(pow2(k2) == pow2((k2 - 1) as nat) * 2);
        assert(pow2((k2 - 1) as nat) >= pow2(k1)) by (nonlinear_arith)
            requires
                pow2((k2 - 1) as nat) == pow2(k1) * pow2((k2 - k1 - 1) as nat),
                pow2((k2 - k1 - 1) as nat) > 0,
        ;
    } else if k2 < k1 {
        vstd::arithmetic::power2::lemma_pow2_adds(k2, (k1 - k2 - 1) as nat);
        vstd::arithmetic::power2::lemma_pow2_pos((k1 - k2 - 1) as nat);
        vstd::arithmetic::power2::lemma_pow2_adds((k2 + (k1 - k2 - 1)) as nat, 1);
        vstd::arithmetic::power2::lemma2_to64();
        assert(pow2(k1) == pow2((k1 - 1) as nat) * 2);
        assert(pow2((k1 - 1) as nat) >= pow2(k2)) by (nonlinear_arith)
            requires
                pow2((k1 - 1) as nat) == pow2(k2) * pow2((k1 - k2 - 1) as nat),
                pow2((k1 - k2 - 1) as nat) > 0,
        ;
    }
}

impl VM {
    /// Appends `data` to `buffer`, growing its capacity to the next power of
    /// two when it is full.
    pub fn buffer_write<T>(&self, buffer: &mut Buffer<T>, data: T)
        requires
            old(buffer).wf(),
            old(buffer).count < MAX_BUFFER_COUNT,
        ensures
            final(buffer).wf(),
            final(buffer).data@ == old(buffer).data@.push(data),
            final(buffer).count == old(buffer).count + 1,
            final(buffer).capacity == (if old(buffer).capacity < old(buffer).count + 1 {
                spec_power_of_2_ceil(old(buffer).count + 1)
            } else {
                old(buffer).capacity as int
            }),
    {
        if buffer.capacity < buffer.count + 1 {
            let capacity = power_of_2_ceil(buffer.count + 1);
            proof {
                let n = buffer.count + 1;
                let c = spec_power_of_2_ceil(n as int);
                assert(is_pow2_ceil(capacity as int, n as int));
                assert(is_pow2_ceil(c, n as int));
                lemma_pow2_ceil_unique(capacity as int, c, n as int);
            }
            buffer.capacity = capacity;
        }
        buffer.data.push(data);
        buffer.count = buffer.count + 1;
    }

    /// Empties `buffer`.
    pub fn buffer_clear<T>(&self, buffer: &mut Buffer<T>)
        ensures
            final(buffer).wf(),
            final(buffer).data@.len() == 0,
            final(buffer).count == 0,
            final(buffer).capacity == 0,
    {
        buffer.data = Vec::new();
        buffer.count = 0;
        buffer.capacity = 0;
    }
}

} // verus!
