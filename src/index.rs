//! Index arithmetic shared by every ring buffer: indices live in
//! `[0, 2 * capacity)`, which tells a full buffer from an empty one.

use vstd::prelude::*;
use vstd::arithmetic::div_mod::{lemma_add_mod_noop, lemma_small_mod};

verus! {

/// The range of index values: twice the capacity.
pub open spec fn modulus(cap: nat) -> nat {
    2 * cap
}

/// Number of items between a read index and a write index.
pub open spec fn occupied(read: int, write: int, cap: int) -> int {
    (write - read + 2 * cap) % (2 * cap)
}

/// Storage offset of the `k`-th item of a range that starts at index `start`.
pub open spec fn offset(start: int, k: int, cap: int) -> int {
    (start + k) % cap
}

/// An index advanced by `n` places, wrapped at the modulus.
pub open spec fn advanced(index: int, n: int, cap: int) -> int {
    (index + n) % (2 * cap)
}

/// Whether two offset ranges `(a, b)` and `(c, d)` cover, in order, the
/// storage offsets of the `len` places that start at index `start`.
pub open spec fn covers(first: (usize, usize), second: (usize, usize), start: int, len: int, cap: int) -> bool {
    &&& first.0 <= first.1 <= cap
    &&& second.0 == 0 && second.1 <= first.0
    &&& (first.1 - first.0) + second.1 == len
    &&& first.0 == start % cap
    &&& second.1 > 0 ==> first.1 == cap
    &&& forall|k: int|
        0 <= k < len ==> #[trigger] offset(start, k, cap) == if k < first.1 - first.0 {
            first.0 + k
        } else {
            k - (first.1 - first.0)
        }
}

/// Splits the places `[start, end)` (indices modulo `2 * cap`) into at most
/// two contiguous ranges of storage offsets; the second is empty unless the
/// places wrap past the end of storage.
pub fn ranges(cap: usize, start: usize, end: usize) -> (r: ((usize, usize), (usize, usize)))
    requires
        0 < cap,
        2 * cap <= usize::MAX,
        start < 2 * cap,
        end < 2 * cap,
        occupied(start as int, end as int, cap as int) <= cap,
    ensures
        covers(r.0, r.1, start as int, occupied(start as int, end as int, cap as int), cap as int),
{
    let len: usize = if end >= start {
        end - start
    } else {
        end + (2 * cap - start)
    };
    assert(len == occupied(start as int, end as int, cap as int)) by {
        if end >= start {
            vstd::arithmetic::div_mod::lemma_mod_add_multiples_vanish((end - start) as int, (2 * cap) as int);
            lemma_small_mod((end - start) as nat, (2 * cap) as nat);
        } else {
            lemma_small_mod((end + 2 * cap - start) as nat, (2 * cap) as nat);
        }
    }
    let s: usize = start % cap;
    assert forall|k: int| 0 <= k < len implies #[trigger] offset(start as int, k, cap as int) == if s + k < cap {
        s + k
    } else {
        s + k - cap
    } by {
        lemma_add_mod_noop(start as int, k, cap as int);
        lemma_small_mod(k as nat, cap as nat);
        if s + k < cap {
            lemma_small_mod((s + k) as nat, cap as nat);
        } else {
            lemma_small_mod((s + k - cap) as nat, cap as nat);
            vstd::arithmetic::div_mod::lemma_mod_sub_multiples_vanish((s + k) as int, cap as int);
        }
    }
    if s + len <= cap {
        ((s, s + len), (0, 0))
    } else {
        ((s, cap), (0, s + len - cap))
    }
}

/// `x % m` for `x` within one modulus below or two above zero.
proof fn lemma_wrap(x: int, m: int)
    requires
        0 < m,
        -m <= x < 2 * m,
    ensures
        0 <= x < m ==> x % m == x,
        m <= x < 2 * m ==> x % m == x - m,
        -m <= x < 0 ==> x % m == x + m,
{
    if 0 <= x < m {
        lemma_small_mod(x as nat, m as nat);
    } else if m <= x {
        lemma_small_mod((x - m) as nat, m as nat);
        vstd::arithmetic::div_mod::lemma_mod_sub_multiples_vanish(x, m);
    } else {
        lemma_small_mod((x + m) as nat, m as nat);
        vstd::arithmetic::div_mod::lemma_mod_add_multiples_vanish(x, m);
    }
}

/// Facts on valid index pairs: the count between them is below the modulus,
/// and the write index is the read index advanced by that count.
pub proof fn lemma_occupied(read: int, write: int, cap: int)
    requires
        0 < cap,
        0 <= read < 2 * cap,
        0 <= write < 2 * cap,
    ensures
        0 <= occupied(read, write, cap) < 2 * cap,
        advanced(read, occupied(read, write, cap), cap) == write,
        write >= read ==> occupied(read, write, cap) == write - read,
        write < read ==> occupied(read, write, cap) == write - read + 2 * cap,
        read == write <==> occupied(read, write, cap) == 0,
{
    lemma_wrap(write - read + 2 * cap, 2 * cap);
    lemma_wrap(read + occupied(read, write, cap), 2 * cap);
}

/// Two places of one window of `cap` places lie at distinct storage offsets.
pub proof fn lemma_offset_injective(start: int, j: int, k: int, cap: int)
    requires
        0 < cap,
        0 <= start,
        0 <= j < cap,
        0 <= k < cap,
        offset(start, j, cap) == offset(start, k, cap),
    ensures
        j == k,
{
    vstd::arithmetic::div_mod::lemma_mod_equivalence(start + j, start + k, cap);
    lemma_wrap(j - k, cap);
}

/// Offsets repeat every `cap` places.
pub proof fn lemma_offset_period(start: int, k: int, cap: int)
    requires
        0 < cap,
    ensures
        offset(start, k + cap, cap) == offset(start, k, cap),
{
    vstd::arithmetic::div_mod::lemma_mod_add_multiples_vanish(start + k, cap);
}

/// Advancing an index by `n` shifts every offset by `n` places.
pub proof fn lemma_offset_advanced(start: int, n: int, k: int, cap: int)
    requires
        0 < cap,
        0 <= start < 2 * cap,
        0 <= n <= 2 * cap,
        0 <= k,
    ensures
        offset(advanced(start, n, cap), k, cap) == offset(start, n + k, cap),
{
    lemma_wrap(start + n, 2 * cap);
    if start + n >= 2 * cap {
        vstd::arithmetic::div_mod::lemma_mod_sub_multiples_vanish(start + n + k, cap);
        vstd::arithmetic::div_mod::lemma_mod_sub_multiples_vanish(start + n + k - cap, cap);
    }
}

/// Advancing the write index by `n` adds `n` to the count, while it stays
/// within the capacity.
pub proof fn lemma_advance_write(read: int, write: int, n: int, cap: int)
    requires
        0 < cap,
        0 <= read < 2 * cap,
        0 <= write < 2 * cap,
        0 <= n,
        occupied(read, write, cap) + n <= cap,
    ensures
        0 <= advanced(write, n, cap) < 2 * cap,
        occupied(read, advanced(write, n, cap), cap) == occupied(read, write, cap) + n,
{
    lemma_occupied(read, write, cap);
    lemma_wrap(write + n, 2 * cap);
    lemma_occupied(read, advanced(write, n, cap), cap);
}

/// Advancing the read index by `n` removes `n` from the count.
pub proof fn lemma_advance_read(read: int, write: int, n: int, cap: int)
    requires
        0 < cap,
        0 <= read < 2 * cap,
        0 <= write < 2 * cap,
        0 <= n <= occupied(read, write, cap),
        occupied(read, write, cap) <= cap,
    ensures
        0 <= advanced(read, n, cap) < 2 * cap,
        occupied(advanced(read, n, cap), write, cap) == occupied(read, write, cap) - n,
{
    lemma_occupied(read, write, cap);
    lemma_wrap(read + n, 2 * cap);
    lemma_occupied(advanced(read, n, cap), write, cap);
}

/// The write index sits at the storage offset just past the occupied places.
pub proof fn lemma_write_offset(read: int, write: int, cap: int)
    requires
        0 < cap,
        0 <= read < 2 * cap,
        0 <= write < 2 * cap,
    ensures
        write % cap == offset(read, occupied(read, write, cap), cap),
{
    lemma_occupied(read, write, cap);
    vstd::arithmetic::div_mod::lemma_mod_mod(read + occupied(read, write, cap), cap, 2);
    assert(cap * 2 == 2 * cap);
}

/// Every storage offset is reached by one of the `cap` places that start at
/// any index.
pub proof fn lemma_offset_onto(start: int, j: int, cap: int) -> (k: int)
    requires
        0 < cap,
        0 <= start,
        0 <= j < cap,
    ensures
        0 <= k < cap,
        offset(start, k, cap) == j,
{
    let s = start % cap;
    vstd::arithmetic::div_mod::lemma_mod_bound(start, cap);
    let k = if j >= s { j - s } else { j - s + cap };
    lemma_add_mod_noop(start, k, cap);
    lemma_small_mod(k as nat, cap as nat);
    lemma_wrap(s + k, cap);
    k
}

/// Advancing by `a` and then by `b` is advancing by `a + b`.
pub proof fn lemma_advanced_add(index: int, a: int, b: int, cap: int)
    requires
        0 < cap,
    ensures
        advanced(advanced(index, a, cap), b, cap) == advanced(index, a + b, cap),
{
    let m = 2 * cap;
    vstd::arithmetic::div_mod::lemma_fundamental_div_mod(index + a, m);
    vstd::arithmetic::div_mod::lemma_mod_multiples_vanish((index + a) / m, (index + a) % m + b, m);
}

/// Advancing a valid index by zero leaves it where it is.
pub proof fn lemma_advanced_zero(index: int, cap: int)
    requires
        0 < cap,
        0 <= index < 2 * cap,
    ensures
        advanced(index, 0, cap) == index,
{
    lemma_small_mod(index as nat, (2 * cap) as nat);
}

} // verus!
