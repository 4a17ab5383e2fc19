//! The coalescing ring buffer: a bounded queue of keyed values in which an
//! offer whose key equals the key of an entry that is still queued replaces
//! that entry's value in place instead of consuming a fresh slot.
//!
//! The buffer is an array of `capacity` slots, where `capacity` is a power of
//! two, addressed by monotonically increasing positions through the bit mask
//! `capacity - 1`. Four counters describe the state: `next_write` is the
//! position the producer fills next, `first_write` is the lowest position
//! still eligible for coalescing, `last_read` is the highest position the
//! consumer has drained, and `last_cleaned` is the highest position whose
//! slot the producer has erased after the consumer released it.
//!
//! The counter discipline is designed so that a producer and a consumer
//! could drive the two sides concurrently through atomic counters, each
//! counter written by one side alone. This crate expresses that discipline
//! over exclusively owned state, so every operation is specified and proved
//! functionally; the places where the two sides would race are noted where
//! they arise.

use vstd::prelude::*;
use vstd::arithmetic::power2::{lemma2_to64, lemma_pow2_pos, lemma_pow2_strictly_increases, lemma_pow2_unfold, pow2};
use vstd::bits::{lemma_usize_low_bits_mask_is_mod, low_bits_mask};
use vstd::std_specs::cmp::PartialEqSpec;

verus! {

/// True when `n` is `2^e` for some exponent `e`.
pub open spec fn power_of_two(n: int) -> bool {
    exists|e: nat| n == pow2(e)
}

/// The slot count the buffer uses for a requested capacity: the smallest
/// power of two that is at least the request, and never fewer than two slots.
pub open spec fn rounded_capacity(request: int, n: int) -> bool {
    &&& power_of_two(n)
    &&& 2 <= n
    &&& request <= n
    &&& n == 2 || n < 2 * request
}

/// Powers of two never fall strictly between a power of two and its double.
proof fn lemma_pow2_doubling(n: int, m: int)
    requires
        power_of_two(n),
        power_of_two(m),
        m < n,
    ensures
        2 * m <= n,
{
    let en = choose|e: nat| n == pow2(e);
    let em = choose|e: nat| m == pow2(e);
    if em >= en {
        if em > en {
            lemma_pow2_strictly_increases(en, em);
        }
        assert(false);
    }
    lemma_pow2_unfold(em + 1);
    if em + 1 < en {
        lemma_pow2_strictly_increases(em + 1, en);
    }
}

/// The rounded capacity is the least power of two, of at least two slots,
/// that holds the request: any other such slot count is at least as large.
pub proof fn lemma_rounded_capacity_least(request: int, n: int, m: int)
    requires
        1 <= request,
        rounded_capacity(request, n),
        power_of_two(m),
        2 <= m,
        request <= m,
    ensures
        n <= m,
{
    if m < n {
        lemma_pow2_doubling(n, m);
        assert(n == 2 || n < 2 * request);
    }
}

/// What a slot's key cell can hold: nothing, a coalescing key, or the marker
/// for an entry enqueued without a key, which never matches any offered key.
enum KeyHolder<K> {
    Empty,
    Keyed(K),
    NonCollapsible,
}

/// A single-value cell; the slot array holds one per slot for the keys.
///
/// In a lock-free deployment the payload would sit in an interior-mutability
/// cell written by the producer alone; with exclusive ownership the cell is a
/// plain field.
pub struct KeyCell<T> {
    value: T,
}

impl<T> View for KeyCell<T> {
    type V = T;

    closed spec fn view(&self) -> T {
        self.value
    }
}

impl<T> KeyCell<T> {
    pub fn new(value: T) -> (r: KeyCell<T>)
        ensures
            r@ == value,
    {
        KeyCell { value }
    }

    pub fn set(&mut self, val: T)
        ensures
            final(self)@ == val,
    {
        let old_val = self.replace(val);
    }

    fn replace(&mut self, val: T) -> (r: T)
        ensures
            final(self)@ == val,
            r == old(self)@,
    {
        let mut taken = val;
        core::mem::swap(&mut taken, &mut self.value);
        taken
    }

    pub fn get(&self) -> (r: &T)
        ensures
            *r == self@,
    {
        &self.value
    }
}

/// Rounds `capacity` up to a power of two.
pub fn next_power_of_two(capacity: usize) -> (r: usize)
    requires
        1 <= capacity <= 0x4000_0000,
    ensures
        capacity <= r,
        r < 2 * capacity,
        r <= 0x4000_0000,
        exists|e: nat| e <= 30 && r == pow2(e),
{
    let mut v: usize = 1;
    let ghost mut e: nat = 0;
    proof {
        lemma2_to64();
    }
    while v < capacity
        invariant
            1 <= v,
            v == pow2(e),
            e <= 30,
            v < 2 * capacity,
            capacity <= 0x4000_0000,
            v <= 0x4000_0000,
        decreases 2 * capacity - v,
    {
        proof {
            if e >= 30 {
                lemma2_to64();
                if e > 30 {
                    lemma_pow2_strictly_increases(30, e);
                }
                assert(false);
            }
            lemma_pow2_unfold(e + 1);
            e = e + 1;
            lemma2_to64();
            if e > 30 {
                lemma_pow2_strictly_increases(30, e);
            }
        }
        v = v * 2;
    }
    v
}

/// True when entry `e` is keyed and its key equals `k` under `K`'s equality.
/// Keyless entries match nothing.
pub open spec fn entry_matches<K: PartialEq, V>(e: (Option<K>, V), k: K) -> bool {
    e.0 matches Some(k0) && k0.eq_spec(&k)
}

/// Index of the first queued entry whose key matches `k`, or -1 if no entry
/// does. The producer's coalescing scan stops at exactly this entry.
pub open spec fn first_match_idx<K: PartialEq, V>(s: Seq<(Option<K>, V)>, k: K) -> int
    decreases s.len(),
{
    if s.len() == 0 {
        -1
    } else if entry_matches(s[0], k) {
        0
    } else {
        let rest = first_match_idx(s.drop_first(), k);
        if rest < 0 {
            -1
        } else {
            rest + 1
        }
    }
}

/// `first_match_idx` returns -1 exactly when no entry matches `k`, and
/// otherwise the least index of a matching entry.
pub proof fn lemma_first_match_idx<K: PartialEq, V>(s: Seq<(Option<K>, V)>, k: K)
    ensures
        first_match_idx(s, k) == -1 || 0 <= first_match_idx(s, k) < s.len(),
        first_match_idx(s, k) == -1 ==> forall|i: int|
            0 <= i < s.len() ==> !entry_matches(#[trigger] s[i], k),
        first_match_idx(s, k) >= 0 ==> entry_matches(s[first_match_idx(s, k)], k),
        forall|i: int| 0 <= i < first_match_idx(s, k) ==> !entry_matches(#[trigger] s[i], k),
    decreases s.len(),
{
    if s.len() == 0 {
    } else if entry_matches(s[0], k) {
    } else {
        let rest = s.drop_first();
        lemma_first_match_idx(rest, k);
        if first_match_idx(rest, k) < 0 {
            assert forall|i: int| 0 <= i < s.len() implies !entry_matches(#[trigger] s[i], k) by {
                if i > 0 {
                    assert(s[i] == rest[i - 1]);
                    assert(!entry_matches(rest[i - 1], k));
                }
            }
        } else {
            assert forall|i: int| 0 <= i < first_match_idx(s, k) implies !entry_matches(
                #[trigger] s[i],
                k,
            ) by {
                if i > 0 {
                    assert(s[i] == rest[i - 1]);
                    assert(!entry_matches(rest[i - 1], k));
                }
            }
        }
    }
}

/// No queued entry's key matches the key of a later queued entry: coalescing
/// keeps at most one queued entry per key.
pub open spec fn no_dup_keys<K: PartialEq, V>(s: Seq<(Option<K>, V)>) -> bool {
    forall|i: int, j: int|
        0 <= i < j < s.len() && s[j].0 is Some ==> !entry_matches(s[i], #[trigger] s[j].0->0)
}

/// The queue an accepted or rejected `offer(k, v)` leaves behind: the value
/// of the first entry matching `k` is replaced in place if one is queued;
/// otherwise `(k, v)` is appended if a slot is free; otherwise the queue is
/// unchanged.
pub open spec fn offer_result<K: PartialEq, V>(
    s: Seq<(Option<K>, V)>,
    cap: int,
    k: K,
    v: V,
) -> Seq<(Option<K>, V)> {
    let i = first_match_idx(s, k);
    if i >= 0 {
        s.update(i, (s[i].0, v))
    } else if s.len() < cap {
        s.push((Some(k), v))
    } else {
        s
    }
}

/// Whether `offer(k, v)` succeeds: it fails only when the buffer is full and
/// no queued entry's key matches `k`.
pub open spec fn offer_accepts<K: PartialEq, V>(s: Seq<(Option<K>, V)>, cap: int, k: K) -> bool {
    first_match_idx(s, k) >= 0 || s.len() < cap
}

/// The queue `offer_value_only(v)` leaves behind: the keyless entry is
/// appended if a slot is free, else the queue is unchanged.
pub open spec fn enqueue_result<K, V>(
    s: Seq<(Option<K>, V)>,
    cap: int,
    v: V,
) -> Seq<(Option<K>, V)> {
    if s.len() < cap {
        s.push((None, v))
    } else {
        s
    }
}

/// How many entries a poll with limit `max` drains from a queue of `len`
/// entries.
pub open spec fn polled_count(len: int, max: int) -> int {
    if max < len {
        max
    } else {
        len
    }
}

/// The values of the first `n` queued entries, in queue order.
pub open spec fn polled_values<K, V>(s: Seq<(Option<K>, V)>, n: int) -> Seq<V> {
    s.take(n).map_values(|e: (Option<K>, V)| e.1)
}

/// Positions less than `d` apart never fall on the same residue: the ring
/// maps them to distinct slots.
proof fn lemma_distinct_mod(d: int, a: int, b: int)
    requires
        0 < d,
        0 <= a < b,
        b - a < d,
    ensures
        a % d != b % d,
{
    vstd::arithmetic::div_mod::lemma_fundamental_div_mod(a, d);
    vstd::arithmetic::div_mod::lemma_fundamental_div_mod(b, d);
    if a % d == b % d {
        let qa = a / d;
        let qb = b / d;
        assert(b - a == d * (qb - qa)) by {
            vstd::arithmetic::mul::lemma_mul_is_distributive_sub(d, qb, qa);
        }
        if qb - qa >= 1 {
            assert(d * 1 <= d * (qb - qa)) by {
                vstd::arithmetic::mul::lemma_mul_inequality(1, qb - qa, d);
                vstd::arithmetic::mul::lemma_mul_is_commutative(d, qb - qa);
                vstd::arithmetic::mul::lemma_mul_is_commutative(d, 1);
            }
            assert(false);
        } else {
            assert(d * (qb - qa) <= d * 0) by {
                vstd::arithmetic::mul::lemma_mul_inequality(qb - qa, 0, d);
                vstd::arithmetic::mul::lemma_mul_is_commutative(d, qb - qa);
                vstd::arithmetic::mul::lemma_mul_is_commutative(d, 0);
            }
            assert(false);
        }
    }
}

/// The key under which an entry was enqueued, if any.
spec fn holder_key<K>(h: KeyHolder<K>) -> Option<K> {
    match h {
        KeyHolder::Keyed(k) => Some(k),
        _ => None,
    }
}

/// A bounded queue of `capacity` slots in which a producer's `offer` either
/// coalesces into the queued entry with an equal key, appends, or is
/// rejected when full, and a consumer's `poll` drains entries in position
/// order.
pub struct CoalescingRingBuffer<K, V> {
    next_write: usize,
    last_cleaned: usize,
    rejection_count: usize,
    keys: Vec<KeyCell<KeyHolder<K>>>,
    values: Vec<Option<V>>,
    mask: usize,
    capacity: usize,
    first_write: usize,
    last_read: usize,
}

impl<K: PartialEq, V> CoalescingRingBuffer<K, V> {
    /// The physical slot of position `p`.
    closed spec fn slot_of(&self, p: int) -> int {
        p % (self.capacity as int)
    }

    /// Positions whose slots hold queued entries.
    closed spec fn live(&self, p: int) -> bool {
        self.first_write <= p < self.next_write
    }

    /// The slot of position `p` holds an entry: a value is present and the
    /// key cell records how the entry was enqueued.
    closed spec fn slot_populated(&self, p: int) -> bool {
        &&& self.values@[self.slot_of(p)] is Some
        &&& !(self.keys@[self.slot_of(p)]@ is Empty)
    }

    /// The entry queued at position `p`.
    closed spec fn entry_at(&self, p: int) -> (Option<K>, V) {
        (
            match self.keys@[self.slot_of(p)]@ {
                KeyHolder::Keyed(k) => Some(k),
                _ => None,
            },
            self.values@[self.slot_of(p)]->0,
        )
    }

    /// The queued entries, oldest first: positions `first_write` up to
    /// `next_write`.
    pub closed spec fn contents(&self) -> Seq<(Option<K>, V)> {
        Seq::new(
            (self.next_write - self.first_write) as nat,
            |i: int| self.entry_at(self.first_write + i),
        )
    }

    pub closed spec fn spec_capacity(&self) -> usize {
        self.capacity
    }

    pub closed spec fn spec_rejection_count(&self) -> usize {
        self.rejection_count
    }

    pub closed spec fn spec_next_write(&self) -> usize {
        self.next_write
    }

    pub closed spec fn spec_first_write(&self) -> usize {
        self.first_write
    }

    pub closed spec fn spec_last_read(&self) -> usize {
        self.last_read
    }

    pub closed spec fn spec_last_cleaned(&self) -> usize {
        self.last_cleaned
    }

    /// The position counters have room left; they are monotonic and in
    /// practice never reach the machine word's limit.
    pub open spec fn counters_ok(&self) -> bool {
        &&& self.spec_next_write() < usize::MAX
        &&& self.spec_rejection_count() < usize::MAX
    }

    /// The slot arrays match the capacity, which is a power of two of at
    /// least two slots, and the mask selects a position's slot.
    closed spec fn geometry_ok(&self) -> bool {
        &&& self.keys@.len() == self.capacity
        &&& self.values@.len() == self.capacity
        &&& 2 <= self.capacity <= 0x4000_0000
        &&& (exists|e: nat| e <= 30 && self.capacity == pow2(e))
        &&& self.mask == self.capacity - 1
    }

    /// Well-formedness: the slot array matches the capacity, the counters
    /// stand in their documented order, at most `capacity` entries are
    /// queued, every queued position's slot is populated, all not yet
    /// cleaned positions fit in the ring, and queued keys are distinct.
    pub closed spec fn wf(&self) -> bool {
        &&& self.geometry_ok()
        &&& self.last_cleaned <= self.last_read
        &&& self.first_write == self.last_read + 1
        &&& self.first_write <= self.next_write
        &&& self.next_write <= self.last_read + 1 + self.capacity
        &&& self.next_write <= self.last_cleaned + 1 + self.capacity
        &&& forall|p: int| self.live(p) ==> #[trigger] self.slot_populated(p)
        &&& (K::obeys_eq_spec() ==> no_dup_keys(self.contents()))
    }

    /// The counter ordering and size bound that hold in every reachable
    /// state: `last_cleaned <= last_read < first_write <= next_write`, and
    /// the number of queued entries is `next_write - last_read - 1`, which
    /// stays between 0 and the capacity.
    pub proof fn lemma_state_invariant(&self)
        requires
            self.wf(),
        ensures
            self.spec_last_cleaned() <= self.spec_last_read(),
            self.spec_last_read() < self.spec_first_write(),
            self.spec_first_write() <= self.spec_next_write(),
            self.contents().len() == self.spec_next_write() - self.spec_last_read() - 1,
            0 <= self.contents().len() <= self.spec_capacity(),
            K::obeys_eq_spec() ==> no_dup_keys(self.contents()),
    {
    }

    /// Creates a buffer whose capacity is `capacity` rounded up to a power
    /// of two, with at least two slots.
    pub fn new(capacity: usize) -> (r: Self)
        requires
            1 <= capacity <= 0x4000_0000,
        ensures
            r.wf(),
            r.contents() == Seq::<(Option<K>, V)>::empty(),
            rounded_capacity(capacity as int, r.spec_capacity() as int),
            r.spec_rejection_count() == 0,
            r.spec_next_write() == 1,
            r.spec_first_write() == 1,
            r.spec_last_read() == 0,
            r.spec_last_cleaned() == 0,
            r.counters_ok(),
    {
        let mut size = next_power_of_two(capacity);
        if size < 2 {
            // a one-slot ring cannot hold an entry and still leave the
            // cleanup position distinct; two slots is the minimum
            size = 2;
            proof {
                lemma2_to64();
                assert(size == pow2(1));
            }
        }
        let mut keys: Vec<KeyCell<KeyHolder<K>>> = Vec::new();
        let mut values: Vec<Option<V>> = Vec::new();
        let mut i: usize = 0;
        while i < size
            invariant
                keys@.len() == i,
                values@.len() == i,
                i <= size,
            decreases size - i,
        {
            keys.push(KeyCell::new(KeyHolder::Empty));
            values.push(None);
            i = i + 1;
        }
        let r = CoalescingRingBuffer {
            next_write: 1,
            last_cleaned: 0,
            rejection_count: 0,
            first_write: 1,
            last_read: 0,
            capacity: size,
            mask: size - 1,
            keys,
            values,
        };
        proof {
            assert(r.contents() =~= Seq::<(Option<K>, V)>::empty());
        }
        r
    }

    /// The number of queued entries.
    pub fn size(&self) -> (r: usize)
        requires
            self.wf(),
        ensures
            r == self.contents().len(),
    {
        // with a consumer racing on another thread, `last_read` would have
        // to be read twice around `next_write` and the whole read retried
        // until the two reads agree, else a transient negative size slips
        // through; exclusive access makes one read of each counter
        // consistent
        let last_read = self.last_read;
        let current_next_write = self.next_write;
        (current_next_write - last_read) - 1
    }

    /// The number of slots; offers beyond this many queued entries are
    /// coalesced or rejected.
    pub fn capacity(&self) -> (r: usize)
        ensures
            r == self.spec_capacity(),
    {
        self.capacity
    }

    /// How many offers have been rejected because the buffer was full.
    pub fn rejection_count(&self) -> (r: usize)
        ensures
            r == self.spec_rejection_count(),
    {
        self.rejection_count
    }

    /// The position the producer fills next.
    pub fn next_write(&self) -> (r: usize)
        ensures
            r == self.spec_next_write(),
    {
        self.next_write
    }

    /// The lowest position still eligible for coalescing.
    pub fn first_write(&self) -> (r: usize)
        ensures
            r == self.spec_first_write(),
    {
        self.first_write
    }

    /// True when no entry is queued.
    pub fn is_empty(&self) -> (r: bool)
        requires
            self.wf(),
        ensures
            r == (self.contents().len() == 0),
    {
        self.first_write == self.next_write
    }

    /// True when every slot holds a queued entry.
    pub fn is_full(&self) -> (r: bool)
        requires
            self.wf(),
        ensures
            r == (self.contents().len() == self.spec_capacity()),
    {
        self.size() == self.capacity
    }

    /// The physical slot index of position `value`.
    fn mask(&self, value: usize) -> (r: usize)
        requires
            self.geometry_ok(),
        ensures
            r == value as int % self.spec_capacity() as int,
            r < self.spec_capacity(),
    {
        proof {
            let e = choose|e: nat| e <= 30 && self.capacity == pow2(e);
            lemma_pow2_pos(e);
            assert(low_bits_mask(e) == self.mask);
            lemma_usize_low_bits_mask_is_mod(value, e);
        }
        value & self.mask
    }

    /// Erases the slots of the positions the consumer has drained since the
    /// last cleanup — range `(last_cleaned, last_read]` — so their keys no
    /// longer sit in the ring, then records the cleanup. Queued entries are
    /// untouched.
    pub fn clean_up(&mut self)
        requires
            old(self).wf(),
        ensures
            final(self).wf(),
            final(self).contents() == old(self).contents(),
            final(self).spec_last_cleaned() == final(self).spec_last_read(),
            final(self).spec_capacity() == old(self).spec_capacity(),
            final(self).spec_rejection_count() == old(self).spec_rejection_count(),
            final(self).spec_next_write() == old(self).spec_next_write(),
            final(self).spec_first_write() == old(self).spec_first_write(),
            final(self).spec_last_read() == old(self).spec_last_read(),
    {
        let last_read = self.last_read;
        let last_cln = self.last_cleaned;
        if last_read == last_cln {
            return;
        }
        let mut x = last_cln;
        while x < last_read
            invariant
                old(self).wf(),
                self.wf(),
                last_cln <= x <= last_read,
                last_read == self.last_read,
                last_cln == self.last_cleaned,
                self.capacity == old(self).capacity,
                self.mask == old(self).mask,
                self.next_write == old(self).next_write,
                self.first_write == old(self).first_write,
                self.last_read == old(self).last_read,
                self.last_cleaned == old(self).last_cleaned,
                self.rejection_count == old(self).rejection_count,
                forall|p: int|
                    old(self).live(p) ==> #[trigger] self.entry_at(p) == old(self).entry_at(p),
            decreases last_read - x,
        {
            let position = x + 1;
            let index = self.mask(position);
            let ghost pre = *self;
            self.keys[index].set(KeyHolder::Empty);
            let old_val = self.values[index].take();
            proof {
                // the erased position was drained before `first_write` and,
                // because the not yet cleaned window fits in the ring, its
                // slot is not the slot of any queued position
                assert forall|p: int| pre.live(p) implies pre.slot_of(p) != index as int by {
                    lemma_distinct_mod(pre.capacity as int, position as int, p);
                }
                assert forall|p: int| old(self).live(p) implies #[trigger] self.entry_at(p)
                    == old(self).entry_at(p) by {
                    assert(pre.slot_of(p) != index as int);
                    assert(self.entry_at(p) == pre.entry_at(p));
                    assert(pre.entry_at(p) == old(self).entry_at(p));
                }
                assert forall|p: int| self.live(p) implies #[trigger] self.slot_populated(p) by {
                    assert(pre.slot_populated(p));
                    assert(pre.slot_of(p) != index as int);
                }
                assert(self.contents() =~= pre.contents());
            }
            x = position;
        }
        let ghost before = *self;
        self.last_cleaned = last_read;
        proof {
            assert forall|p: int| self.live(p) implies #[trigger] self.slot_populated(p) by {
                assert(before.slot_populated(p));
            }
            assert forall|p: int| old(self).live(p) implies #[trigger] self.entry_at(p) == old(
                self,
            ).entry_at(p) by {
                assert(before.entry_at(p) == old(self).entry_at(p));
                assert(self.entry_at(p) == before.entry_at(p));
            }
            assert(self.contents() =~= old(self).contents());
        }
    }

    /// Writes the entry into the slot of position `next_write`, then
    /// publishes the new position: the entry is appended to the queue.
    fn store(&mut self, key: KeyHolder<K>, value: V)
        requires
            old(self).wf(),
            old(self).contents().len() < old(self).spec_capacity(),
            old(self).spec_last_cleaned() == old(self).spec_last_read(),
            old(self).spec_next_write() < usize::MAX,
            !(key is Empty),
            K::obeys_eq_spec() && holder_key(key) is Some ==> forall|i: int|
                0 <= i < old(self).contents().len() ==> !entry_matches(
                    #[trigger] old(self).contents()[i],
                    holder_key(key)->0,
                ),
        ensures
            final(self).wf(),
            final(self).contents() == old(self).contents().push((holder_key(key), value)),
            final(self).spec_capacity() == old(self).spec_capacity(),
            final(self).spec_rejection_count() == old(self).spec_rejection_count(),
            final(self).spec_next_write() == old(self).spec_next_write() + 1,
            final(self).spec_first_write() == old(self).spec_first_write(),
            final(self).spec_last_read() == old(self).spec_last_read(),
            final(self).spec_last_cleaned() == old(self).spec_last_cleaned(),
    {
        let next_write = self.next_write;
        let index = self.mask(next_write);
        self.keys[index].set(key);
        self.values.set(index, Some(value));
        self.next_write = next_write + 1;
        proof {
            // no queued position shares the slot that was written
            assert forall|p: int| old(self).live(p) implies old(self).slot_of(p) != index as int by {
                lemma_distinct_mod(old(self).capacity as int, p, next_write as int);
            }
            assert forall|p: int| self.live(p) implies #[trigger] self.slot_populated(p) by {
                if p < next_write {
                    assert(old(self).live(p));
                    assert(old(self).slot_populated(p));
                    assert(self.slot_of(p) != index as int);
                }
            }
            assert forall|i: int|
                0 <= i < old(self).contents().len() implies #[trigger] self.entry_at(
                self.first_write + i,
            ) == old(self).entry_at(self.first_write + i) by {
                assert(old(self).live(self.first_write + i));
                assert(self.slot_of(self.first_write + i) != index as int);
            }
            assert(self.entry_at(next_write as int) == (holder_key(key), value));
            assert(self.contents() =~= old(self).contents().push((holder_key(key), value)));
        }
    }

    /// Appends an entry if a slot is free, running cleanup first; when the
    /// buffer is full the entry is dropped and the rejection is counted.
    fn add(&mut self, key: KeyHolder<K>, value: V) -> (r: bool)
        requires
            old(self).wf(),
            old(self).counters_ok(),
            !(key is Empty),
            K::obeys_eq_spec() && holder_key(key) is Some ==> forall|i: int|
                0 <= i < old(self).contents().len() ==> !entry_matches(
                    #[trigger] old(self).contents()[i],
                    holder_key(key)->0,
                ),
        ensures
            final(self).wf(),
            final(self).spec_capacity() == old(self).spec_capacity(),
            r == (old(self).contents().len() < old(self).spec_capacity()),
            r ==> final(self).contents() == old(self).contents().push((holder_key(key), value)),
            !r ==> final(self).contents() == old(self).contents(),
            final(self).spec_rejection_count() as int == old(self).spec_rejection_count() as int + (
            if r {
                0int
            } else {
                1int
            }),
            final(self).spec_next_write() as int == old(self).spec_next_write() as int + (
            if r {
                1int
            } else {
                0int
            }),
            final(self).spec_first_write() == old(self).spec_first_write(),
            final(self).spec_last_read() == old(self).spec_last_read(),
    {
        if self.is_full() {
            self.rejection_count = self.rejection_count + 1;
            proof {
                assert forall|p: int| self.live(p) implies #[trigger] self.slot_populated(p) by {
                    assert(old(self).slot_populated(p));
                }
                assert(self.contents() =~= old(self).contents());
            }
            return false;
        }
        self.clean_up();
        self.store(key, value);
        true
    }

    /// Offers a keyed value. If an entry with an equal key is still queued,
    /// the new value replaces that entry's value in place, in the entry's
    /// original position, and no slot is consumed; otherwise the entry is
    /// appended. Returns false and counts a rejection exactly when the
    /// buffer is full and no queued key matches.
    pub fn offer(&mut self, key: K, value: V) -> (r: bool)
        requires
            old(self).wf(),
            old(self).counters_ok(),
            K::obeys_eq_spec(),
        ensures
            final(self).wf(),
            final(self).spec_capacity() == old(self).spec_capacity(),
            r == offer_accepts(
                old(self).contents(),
                old(self).spec_capacity() as int,
                key,
            ),
            final(self).contents() == offer_result(
                old(self).contents(),
                old(self).spec_capacity() as int,
                key,
                value,
            ),
            final(self).spec_rejection_count() as int == old(self).spec_rejection_count() as int
                + (
            if r {
                0int
            } else {
                1int
            }),
            final(self).spec_next_write() as int == old(self).spec_next_write() as int + (
            if first_match_idx(old(self).contents(), key) < 0 && old(self).contents().len()
                < old(self).spec_capacity() {
                1int
            } else {
                0int
            }),
            final(self).spec_first_write() == old(self).spec_first_write(),
            final(self).spec_last_read() == old(self).spec_last_read(),
    {
        let ghost s = old(self).contents();
        let next_write = self.next_write;
        let first_write = self.first_write;
        let mut update_pos = first_write;
        let mut found = false;
        while !found && update_pos < next_write
            invariant
                *self == *old(self),
                old(self).wf(),
                K::obeys_eq_spec(),
                first_write == old(self).spec_first_write(),
                next_write == old(self).spec_next_write(),
                first_write <= update_pos <= next_write,
                s == old(self).contents(),
                !found ==> forall|j: int|
                    0 <= j < update_pos - first_write ==> !entry_matches(#[trigger] s[j], key),
                found ==> first_write <= update_pos < next_write && entry_matches(
                    s[update_pos - first_write],
                    key,
                ) && (forall|j: int|
                    0 <= j < update_pos - first_write ==> !entry_matches(#[trigger] s[j], key)),
            decreases next_write - update_pos + (
            if found {
                0int
            } else {
                1int
            }),
        {
            let index = self.mask(update_pos);
            let hit = match self.keys[index].get() {
                KeyHolder::Keyed(existing) => *existing == key,
                _ => false,
            };
            proof {
                assert(self.entry_at(update_pos as int) == s[update_pos - first_write]);
                assert(hit == entry_matches(s[update_pos - first_write], key));
            }
            if hit {
                found = true;
            } else {
                update_pos = update_pos + 1;
            }
        }
        if found {
            // coalescing replace: install the new value in the matched
            // entry's slot. With a consumer racing on another thread,
            // `first_write` would have to be re-read after this store to
            // detect a claim that landed between the key match and the
            // store, restoring the old value and appending instead;
            // exclusive ownership of the buffer rules that race out.
            let ghost i = update_pos - first_write;
            let index = self.mask(update_pos);
            self.values.set(index, Some(value));
            proof {
                lemma_first_match_idx(s, key);
                assert(first_match_idx(s, key) == i);
                assert forall|p: int|
                    old(self).live(p) && p != update_pos implies old(self).slot_of(p) != index as int by {
                    if p < update_pos {
                        lemma_distinct_mod(old(self).capacity as int, p, update_pos as int);
                    } else {
                        lemma_distinct_mod(old(self).capacity as int, update_pos as int, p);
                    }
                }
                assert forall|p: int| self.live(p) implies #[trigger] self.slot_populated(p) by {
                    assert(old(self).slot_populated(p));
                    if p != update_pos {
                        assert(self.slot_of(p) != index as int);
                    }
                }
                assert forall|j: int| 0 <= j < s.len() && j != i implies #[trigger] self.entry_at(
                    first_write + j,
                ) == old(self).entry_at(first_write + j) by {
                    assert(old(self).live(first_write + j));
                    assert(self.slot_of(first_write + j) != index as int);
                }
                assert(self.entry_at(update_pos as int) == (s[i].0, value));
                assert(self.contents() =~= s.update(i, (s[i].0, value)));
                // keys are untouched, so distinctness of queued keys carries over
                assert forall|a: int, b: int|
                    0 <= a < b < self.contents().len() && self.contents()[b].0 is Some implies
                    !entry_matches(self.contents()[a], #[trigger] self.contents()[b].0->0) by {
                    assert(self.contents()[a].0 == s[a].0);
                    assert(self.contents()[b].0 == s[b].0);
                    assert(!entry_matches(s[a], s[b].0->0));
                }
            }
            true
        } else {
            proof {
                lemma_first_match_idx(s, key);
                assert(first_match_idx(s, key) == -1);
            }
            self.add(KeyHolder::Keyed(key), value)
        }
    }

    /// Enqueues a value with no key. The entry never coalesces — neither
    /// into an earlier entry nor under a later offer — so the consumer sees
    /// every accepted keyless value, in order. Returns false and counts a
    /// rejection exactly when the buffer is full.
    pub fn offer_value_only(&mut self, value: V) -> (r: bool)
        requires
            old(self).wf(),
            old(self).counters_ok(),
        ensures
            final(self).wf(),
            final(self).spec_capacity() == old(self).spec_capacity(),
            r == (old(self).contents().len() < old(self).spec_capacity()),
            final(self).contents() == enqueue_result(
                old(self).contents(),
                old(self).spec_capacity() as int,
                value,
            ),
            final(self).spec_rejection_count() as int == old(self).spec_rejection_count() as int + (
            if r {
                0int
            } else {
                1int
            }),
            final(self).spec_next_write() as int == old(self).spec_next_write() as int + (
            if r {
                1int
            } else {
                0int
            }),
            final(self).spec_first_write() == old(self).spec_first_write(),
            final(self).spec_last_read() == old(self).spec_last_read(),
    {
        self.add(KeyHolder::NonCollapsible, value)
    }
    /// Claims positions up to `claim_up_to` by publishing `first_write`,
    /// takes the value of every drained position in ascending order, and
    /// releases the range by publishing `last_read`.
    fn fill(&mut self, claim_up_to: usize) -> (r: Vec<V>)
        requires
            old(self).wf(),
            old(self).spec_first_write() <= claim_up_to <= old(self).spec_next_write(),
        ensures
            final(self).wf(),
            r@ == polled_values(
                old(self).contents(),
                claim_up_to - old(self).spec_first_write(),
            ),
            final(self).contents() == old(self).contents().skip(
                claim_up_to - old(self).spec_first_write(),
            ),
            final(self).spec_capacity() == old(self).spec_capacity(),
            final(self).spec_rejection_count() == old(self).spec_rejection_count(),
            final(self).spec_next_write() == old(self).spec_next_write(),
            final(self).spec_first_write() == claim_up_to,
            final(self).spec_last_read() as int == claim_up_to as int - 1,
            final(self).spec_last_cleaned() == old(self).spec_last_cleaned(),
    {
        let ghost s = old(self).contents();
        let ghost base = old(self).spec_first_write() as int;
        self.first_write = claim_up_to;
        let last_read = self.last_read;
        let mut bucket: Vec<V> = Vec::new();
        let mut read_index = last_read + 1;
        while read_index < claim_up_to
            invariant
                old(self).wf(),
                self.geometry_ok(),
                base == old(self).spec_first_write() as int,
                base <= read_index <= claim_up_to,
                claim_up_to <= old(self).spec_next_write(),
                s == old(self).contents(),
                self.keys == old(self).keys,
                self.capacity == old(self).capacity,
                self.mask == old(self).mask,
                self.next_write == old(self).next_write,
                self.last_read == old(self).last_read,
                self.last_cleaned == old(self).last_cleaned,
                self.rejection_count == old(self).rejection_count,
                self.first_write == claim_up_to,
                forall|p: int|
                    read_index <= p < self.next_write ==> #[trigger] self.values@[self.slot_of(p)]
                        == old(self).values@[old(self).slot_of(p)],
                bucket@ == polled_values(s, read_index - base),
            decreases claim_up_to - read_index,
        {
            let index = self.mask(read_index);
            let ghost pre = *self;
            proof {
                assert(old(self).live(read_index as int));
                assert(old(self).slot_populated(read_index as int));
                assert(pre.slot_of(read_index as int) == index as int);
                assert(pre.values@[pre.slot_of(read_index as int)] == old(self).values@[old(
                    self,
                ).slot_of(read_index as int)]);
            }
            let val = self.values[index].take();
            let v = val.unwrap();
            proof {
                assert(v == old(self).entry_at(read_index as int).1);
                assert(v == s[read_index - base].1);
            }
            bucket.push(v);
            proof {
                assert forall|p: int|
                    read_index + 1 <= p < self.next_write implies #[trigger] self.values@[self.slot_of(
                    p,
                )] == old(self).values@[old(self).slot_of(p)] by {
                    lemma_distinct_mod(self.capacity as int, read_index as int, p);
                    assert(self.slot_of(p) == pre.slot_of(p));
                    assert(self.slot_of(p) != index as int);
                    assert(self.values@[self.slot_of(p)] == pre.values@[pre.slot_of(p)]);
                    assert(pre.values@[pre.slot_of(p)] == old(self).values@[old(self).slot_of(p)]);
                }
                assert(bucket@ =~= polled_values(s, read_index + 1 - base));
            }
            read_index = read_index + 1;
        }
        let ghost done = *self;
        self.last_read = claim_up_to - 1;
        proof {
            let n = claim_up_to - base;
            assert forall|p: int| self.live(p) implies #[trigger] self.slot_populated(p) by {
                assert(old(self).live(p));
                assert(old(self).slot_populated(p));
                assert(done.values@[done.slot_of(p)] == old(self).values@[old(self).slot_of(p)]);
                assert(self.values@[self.slot_of(p)] == done.values@[done.slot_of(p)]);
                assert(self.keys@[self.slot_of(p)] == old(self).keys@[old(self).slot_of(p)]);
            }
            assert forall|j: int| 0 <= j < s.len() - n implies #[trigger] self.entry_at(
                claim_up_to + j,
            ) == old(self).entry_at(claim_up_to + j) by {
                let p = claim_up_to + j;
                assert(old(self).live(p));
                assert(done.values@[done.slot_of(p)] == old(self).values@[old(self).slot_of(p)]);
                assert(self.values@[self.slot_of(p)] == done.values@[done.slot_of(p)]);
                assert(self.keys@[self.slot_of(p)] == old(self).keys@[old(self).slot_of(p)]);
            }
            assert(self.contents() =~= s.skip(n));
            if K::obeys_eq_spec() {
                assert forall|a: int, b: int|
                    0 <= a < b < self.contents().len() && self.contents()[b].0 is Some implies
                    !entry_matches(self.contents()[a], #[trigger] self.contents()[b].0->0) by {
                    assert(self.contents()[a] == s[a + n]);
                    assert(self.contents()[b] == s[b + n]);
                    assert(!entry_matches(s[a + n], s[b + n].0->0));
                }
            }
        }
        bucket
    }

    /// Drains every queued entry, returning the values oldest first.
    pub fn poll_all(&mut self) -> (r: Vec<V>)
        requires
            old(self).wf(),
        ensures
            final(self).wf(),
            r@ == polled_values(old(self).contents(), old(self).contents().len() as int),
            final(self).contents() == Seq::<(Option<K>, V)>::empty(),
            final(self).spec_capacity() == old(self).spec_capacity(),
            final(self).spec_rejection_count() == old(self).spec_rejection_count(),
            final(self).spec_next_write() == old(self).spec_next_write(),
            final(self).spec_first_write() == final(self).spec_next_write(),
            final(self).spec_last_cleaned() == old(self).spec_last_cleaned(),
    {
        let total_to_poll = self.next_write;
        let r = self.fill(total_to_poll);
        proof {
            assert(old(self).contents().skip(old(self).contents().len() as int)
                =~= Seq::<(Option<K>, V)>::empty());
        }
        r
    }

    /// Drains at most `max_items` queued entries, oldest first, leaving the
    /// rest queued.
    pub fn poll(&mut self, max_items: usize) -> (r: Vec<V>)
        requires
            old(self).wf(),
            max_items <= usize::MAX - old(self).spec_first_write(),
        ensures
            final(self).wf(),
            r@ == polled_values(
                old(self).contents(),
                polled_count(old(self).contents().len() as int, max_items as int),
            ),
            final(self).contents() == old(self).contents().skip(
                polled_count(old(self).contents().len() as int, max_items as int),
            ),
            final(self).spec_capacity() == old(self).spec_capacity(),
            final(self).spec_rejection_count() == old(self).spec_rejection_count(),
            final(self).spec_next_write() == old(self).spec_next_write(),
            final(self).spec_first_write() as int == old(self).spec_first_write() as int
                + polled_count(old(self).contents().len() as int, max_items as int),
            final(self).spec_last_cleaned() == old(self).spec_last_cleaned(),
    {
        let reach = self.first_write + max_items;
        let claim_up_to = if reach < self.next_write {
            reach
        } else {
            self.next_write
        };
        self.fill(claim_up_to)
    }

}

} // verus!
