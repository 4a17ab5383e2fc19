//! Laws relating the buffer's operations across whole histories: every
//! offered value is accounted for exactly once, polls never hand an entry
//! out twice, coalescing hides exactly the superseded value, and keyless
//! entries flow through in order.
//!
//! The statements are over the same step functions that the executable
//! operations' contracts use, so each law holds of any run of the buffer.

use vstd::prelude::*;

use crate::ring::{
    entry_matches, enqueue_result, first_match_idx, lemma_first_match_idx, offer_accepts,
    offer_result, polled_count, polled_values,
};
use vstd::std_specs::cmp::PartialEqSpec;

verus! {

/// One operation of a buffer history: a keyed offer, a keyless offer, or a
/// poll with a limit.
pub enum BufferOp<K, V> {
    Offer { key: K, value: V },
    OfferValueOnly { value: V },
    Poll { max_items: usize },
}

/// The queue an operation leaves behind, as the operations' contracts state
/// it.
pub open spec fn apply_op<K: PartialEq, V>(
    s: Seq<(Option<K>, V)>,
    cap: int,
    op: BufferOp<K, V>,
) -> Seq<(Option<K>, V)> {
    match op {
        BufferOp::Offer { key, value } => offer_result(s, cap, key, value),
        BufferOp::OfferValueOnly { value } => enqueue_result(s, cap, value),
        BufferOp::Poll { max_items } => s.skip(polled_count(s.len() as int, max_items as int)),
    }
}

/// The queue after a whole history of operations.
pub open spec fn run_ops<K: PartialEq, V>(
    s: Seq<(Option<K>, V)>,
    cap: int,
    ops: Seq<BufferOp<K, V>>,
) -> Seq<(Option<K>, V)>
    decreases ops.len(),
{
    if ops.len() == 0 {
        s
    } else {
        run_ops(apply_op(s, cap, ops[0]), cap, ops.drop_first())
    }
}

/// How many values an operation hands to the producer side.
pub open spec fn op_produced<K, V>(op: BufferOp<K, V>) -> int {
    match op {
        BufferOp::Offer { .. } => 1,
        BufferOp::OfferValueOnly { .. } => 1,
        BufferOp::Poll { .. } => 0,
    }
}

/// How many values an operation returns to the consumer.
pub open spec fn op_consumed<K: PartialEq, V>(s: Seq<(Option<K>, V)>, op: BufferOp<K, V>) -> int {
    match op {
        BufferOp::Poll { max_items } => polled_count(s.len() as int, max_items as int),
        _ => 0,
    }
}

/// Whether an operation destroys a queued value by replacing it in place.
pub open spec fn op_coalesced<K: PartialEq, V>(s: Seq<(Option<K>, V)>, op: BufferOp<K, V>) -> int {
    match op {
        BufferOp::Offer { key, .. } => if first_match_idx(s, key) >= 0 {
            1int
        } else {
            0int
        },
        _ => 0,
    }
}

/// Whether an operation's value is turned away because the buffer is full.
pub open spec fn op_rejected<K: PartialEq, V>(
    s: Seq<(Option<K>, V)>,
    cap: int,
    op: BufferOp<K, V>,
) -> int {
    match op {
        BufferOp::Offer { key, .. } => if first_match_idx(s, key) < 0 && s.len() >= cap {
            1int
        } else {
            0int
        },
        BufferOp::OfferValueOnly { .. } => if s.len() >= cap {
            1int
        } else {
            0int
        },
        BufferOp::Poll { .. } => 0,
    }
}

pub open spec fn total_produced<K, V>(ops: Seq<BufferOp<K, V>>) -> int
    decreases ops.len(),
{
    if ops.len() == 0 {
        0
    } else {
        op_produced(ops[0]) + total_produced(ops.drop_first())
    }
}

pub open spec fn total_consumed<K: PartialEq, V>(
    s: Seq<(Option<K>, V)>,
    cap: int,
    ops: Seq<BufferOp<K, V>>,
) -> int
    decreases ops.len(),
{
    if ops.len() == 0 {
        0
    } else {
        op_consumed(s, ops[0]) + total_consumed(apply_op(s, cap, ops[0]), cap, ops.drop_first())
    }
}

pub open spec fn total_coalesced<K: PartialEq, V>(
    s: Seq<(Option<K>, V)>,
    cap: int,
    ops: Seq<BufferOp<K, V>>,
) -> int
    decreases ops.len(),
{
    if ops.len() == 0 {
        0
    } else {
        op_coalesced(s, ops[0]) + total_coalesced(apply_op(s, cap, ops[0]), cap, ops.drop_first())
    }
}

pub open spec fn total_rejected<K: PartialEq, V>(
    s: Seq<(Option<K>, V)>,
    cap: int,
    ops: Seq<BufferOp<K, V>>,
) -> int
    decreases ops.len(),
{
    if ops.len() == 0 {
        0
    } else {
        op_rejected(s, cap, ops[0]) + total_rejected(apply_op(s, cap, ops[0]), cap, ops.drop_first())
    }
}

/// Conservation of values: over any history of offers and polls, every
/// value handed to the producer is accounted for exactly once — it is still
/// queued, was returned by a poll, was destroyed by a coalescing replace,
/// or was rejected.
pub proof fn lemma_value_conservation<K: PartialEq, V>(
    s: Seq<(Option<K>, V)>,
    cap: int,
    ops: Seq<BufferOp<K, V>>,
)
    ensures
        run_ops(s, cap, ops).len() + total_consumed(s, cap, ops) + total_coalesced(s, cap, ops)
            + total_rejected(s, cap, ops) == s.len() + total_produced(ops),
    decreases ops.len(),
{
    if ops.len() > 0 {
        let s1 = apply_op(s, cap, ops[0]);
        assert(s1.len() + op_consumed(s, ops[0]) + op_coalesced(s, ops[0]) + op_rejected(
            s,
            cap,
            ops[0],
        ) == s.len() + op_produced(ops[0])) by {
            match ops[0] {
                BufferOp::Offer { key, value } => {
                    lemma_first_match_idx(s, key);
                }
                BufferOp::OfferValueOnly { value } => {}
                BufferOp::Poll { max_items } => {}
            }
        }
        lemma_value_conservation(s1, cap, ops.drop_first());
    }
}

/// A poll never returns an entry a previous poll already returned: two
/// successive polls drain two successive, disjoint segments of the queue —
/// together, exactly its first `n1 + n2` values.
pub proof fn lemma_polls_drain_disjoint<K, V>(s: Seq<(Option<K>, V)>, max1: int, max2: int)
    requires
        0 <= max1,
        0 <= max2,
    ensures
        ({
            let n1 = polled_count(s.len() as int, max1);
            let rest = s.skip(n1);
            let n2 = polled_count(rest.len() as int, max2);
            polled_values(s, n1) + polled_values(rest, n2) == polled_values(s, n1 + n2)
        }),
{
    let n1 = polled_count(s.len() as int, max1);
    let rest = s.skip(n1);
    let n2 = polled_count(rest.len() as int, max2);
    assert(polled_values(s, n1) + polled_values(rest, n2) =~= polled_values(s, n1 + n2));
}

/// `first_match_idx` looks only at the keys: sequences whose entries carry
/// the same keys in the same order match at the same index.
proof fn lemma_first_match_same_keys<K: PartialEq, V>(
    s1: Seq<(Option<K>, V)>,
    s2: Seq<(Option<K>, V)>,
    k: K,
)
    requires
        s1.len() == s2.len(),
        forall|i: int| 0 <= i < s1.len() ==> (#[trigger] s1[i]).0 == s2[i].0,
    ensures
        first_match_idx(s1, k) == first_match_idx(s2, k),
    decreases s1.len(),
{
    if s1.len() > 0 {
        assert(entry_matches(s1[0], k) == entry_matches(s2[0], k));
        assert(forall|i: int|
            0 <= i < s1.drop_first().len() ==> (#[trigger] s1.drop_first()[i]).0
                == s2.drop_first()[i].0);
        lemma_first_match_same_keys(s1.drop_first(), s2.drop_first(), k);
    }
}

/// Coalescing: two offers with the same key and no poll between them leave
/// the queue exactly as the second offer alone would — the consumer never
/// observes the superseded value, and the entry keeps its original
/// position.
pub proof fn lemma_offer_coalesces<K: PartialEq, V>(
    s: Seq<(Option<K>, V)>,
    cap: int,
    k: K,
    v1: V,
    v2: V,
)
    requires
        k.eq_spec(&k),
    ensures
        offer_result(offer_result(s, cap, k, v1), cap, k, v2) == offer_result(s, cap, k, v2),
        offer_accepts(offer_result(s, cap, k, v1), cap, k) == offer_accepts(s, cap, k),
{
    lemma_first_match_idx(s, k);
    let i = first_match_idx(s, k);
    let s1 = offer_result(s, cap, k, v1);
    if i >= 0 {
        assert(forall|j: int| 0 <= j < s.len() ==> (#[trigger] s1[j]).0 == s[j].0);
        lemma_first_match_same_keys(s1, s, k);
        assert(s1.update(i, (s1[i].0, v2)) =~= s.update(i, (s[i].0, v2)));
    } else if s.len() < cap {
        lemma_first_match_idx(s1, k);
        let i1 = first_match_idx(s1, k);
        assert(entry_matches(s1[s.len() as int], k));
        assert(i1 >= 0);
        if i1 < s.len() {
            assert(s1[i1] == s[i1]);
            assert(false);
        }
        assert(i1 == s.len());
        assert(s1.update(i1, (s1[i1].0, v2)) =~= s.push((Some(k), v2)));
    }
}

/// Keyless entries never coalesce: with room in the buffer, two
/// `offer_value_only` sends queue both values, and the consumer observes
/// them in the order they were sent.
pub proof fn lemma_value_only_preserves_order<K, V>(s: Seq<(Option<K>, V)>, cap: int, v1: V, v2: V)
    requires
        s.len() + 2 <= cap,
    ensures
        enqueue_result(enqueue_result(s, cap, v1), cap, v2) == s.push((None, v1)).push((None, v2)),
        polled_values(enqueue_result(enqueue_result(s, cap, v1), cap, v2), s.len() as int + 2)
            == polled_values(s, s.len() as int).push(v1).push(v2),
{
    assert(polled_values(enqueue_result(enqueue_result(s, cap, v1), cap, v2), s.len() as int + 2)
        =~= polled_values(s, s.len() as int).push(v1).push(v2));
}

} // verus!
