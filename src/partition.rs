use vstd::prelude::*;

verus! {

/// Whether `n` is a power of two (and hence non-zero).
pub open spec fn is_pow2(n: u64) -> bool {
    n != 0 && n & (n - 1) as u64 == 0
}

/// The worker that owns a row with hash `h` among `n` partitions: the low bits of `h`.
pub open spec fn owner(h: u64, n: u64) -> u64 {
    h & (n - 1) as u64
}

/// A row with hash `h` belongs to worker `t` out of `n` partitions.
pub open spec fn owns(h: u64, t: u64, n: u64) -> bool {
    owner(h, n) == t
}

/// Every hash is owned by one worker among `n`, and that worker is in `0..n`.
pub proof fn lemma_owner_in_range(h: u64, n: u64)
    requires
        n > 0,
    ensures
        owner(h, n) < n,
        owns(h, owner(h, n), n),
{
    let m = (n - 1) as u64;
    assert(h & m <= m) by (bit_vector);
}

/// Decides whether a row with hash `h` belongs to worker `thread_no` among
/// `n_partitions` workers, using the low bits of the hash.
pub fn this_partition(h: u64, thread_no: u64, n_partitions: u64) -> (r: bool)
    requires
        is_pow2(n_partitions),
    ensures
        r == owns(h, thread_no, n_partitions),
{
    (h & (n_partitions - 1)) == thread_no
}

/// Whether `n` is a power of two.
pub fn is_power_of_two(n: u64) -> (r: bool)
    ensures
        r == is_pow2(n),
{
    n != 0 && (n & (n - 1)) == 0
}

} // verus!
