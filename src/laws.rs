//! Properties of the cache that relate several operations.
use vstd::prelude::*;

use crate::color::{ColorStop, Rgba};
use crate::ramp_cache::{
    add_result, lemma_oldest, maintain_result, oldest, slot_of, splice, stale, CacheState,
    N_SAMPLES, RETAINED_COUNT,
};

verus! {

/// In a well-formed cache a gradient found at slot `i` is the one `slot_of`
/// names.
proof fn lemma_slot_of_at(s: CacheState, key: Seq<ColorStop>, i: int)
    requires
        s.wf(),
        0 <= i < s.keys.len(),
        s.keys[i] == key,
    ensures
        slot_of(s.keys, key) == Some(i),
{
    let c = choose|j: int| 0 <= j < s.keys.len() && s.keys[j] == key;
    assert(0 <= c < s.keys.len() && s.keys[c] == key);
    if c < i {
        assert(s.keys[c] != s.keys[i]);
    } else if c > i {
        assert(s.keys[i] != s.keys[c]);
    }
}

/// `add` keeps a cache well formed, keeps its epoch, and leaves the gradient
/// in the slot it returns.
proof fn lemma_add_wf(s: CacheState, key: Seq<ColorStop>, ramp: Seq<Rgba>)
    requires
        s.wf(),
        s.can_grow(),
        ramp.len() == N_SAMPLES,
    ensures
        add_result(s, key, ramp).0.wf(),
        add_result(s, key, ramp).0.epoch == s.epoch,
        add_result(s, key, ramp).1 < add_result(s, key, ramp).0.keys.len(),
        add_result(s, key, ramp).0.keys[add_result(s, key, ramp).1 as int] == key,
        add_result(s, key, ramp).0.keys.len() >= s.keys.len(),
{
    let (t, id) = add_result(s, key, ramp);
    if slot_of(s.keys, key) is None {
        assert(forall|i: int| 0 <= i < s.keys.len() ==> s.keys[i] != key);
        if s.keys.len() >= RETAINED_COUNT && stale(s.used[oldest(s.used)], s.epoch) {
            let k = oldest(s.used);
            lemma_oldest(s.used);
            let n = s.keys.len();
            assert(k * N_SAMPLES + N_SAMPLES <= n * N_SAMPLES) by (nonlinear_arith)
                requires
                    k < n,
            ;
            assert(t.data.len() == s.data.len());
            assert forall|i: int, j: int| 0 <= i < j < t.keys.len() implies #[trigger] t.keys[i]
                != #[trigger] t.keys[j] by {
                if i != k && j != k {
                    assert(s.keys[i] != s.keys[j]);
                }
            };
        } else {
            assert forall|i: int, j: int| 0 <= i < j < t.keys.len() implies #[trigger] t.keys[i]
                != #[trigger] t.keys[j] by {
                if j < s.keys.len() {
                    assert(s.keys[i] != s.keys[j]);
                }
            };
        }
    } else {
        let k = slot_of(s.keys, key)->0;
        assert(0 <= k < s.keys.len() && s.keys[k] == key);
    }
}

/// Adding the same gradient twice returns the same slot both times, and the
/// second call leaves the buffer as the first left it.
pub proof fn add_twice_same_slot(
    s: CacheState,
    key: Seq<ColorStop>,
    first: Seq<Rgba>,
    second: Seq<Rgba>,
)
    requires
        s.wf(),
        s.can_grow(),
        first.len() == N_SAMPLES,
    ensures
        add_result(add_result(s, key, first).0, key, second).1 == add_result(s, key, first).1,
        add_result(add_result(s, key, first).0, key, second).0.data == add_result(
            s,
            key,
            first,
        ).0.data,
        add_result(add_result(s, key, first).0, key, second).0.keys == add_result(
            s,
            key,
            first,
        ).0.keys,
{
    let (t, id) = add_result(s, key, first);
    lemma_add_wf(s, key, first);
    lemma_slot_of_at(t, key, id as int);
}

/// While every gradient added comes from one set of at most
/// `RETAINED_COUNT` gradients, and the cache holds only gradients of that
/// set, `add` and `maintain` keep it so and the buffer never holds more than
/// `RETAINED_COUNT` ramps.
pub proof fn steady_rotation_stays_bounded(
    s: CacheState,
    key: Seq<ColorStop>,
    ramp: Seq<Rgba>,
    rotation: Set<Seq<ColorStop>>,
)
    requires
        s.wf(),
        s.can_grow(),
        ramp.len() == N_SAMPLES,
        rotation.finite(),
        rotation.len() <= RETAINED_COUNT,
        rotation.contains(key),
        forall|i: int| 0 <= i < s.keys.len() ==> rotation.contains(#[trigger] s.keys[i]),
    ensures
        s.keys.len() <= RETAINED_COUNT,
        add_result(s, key, ramp).0.keys.len() <= RETAINED_COUNT,
        add_result(s, key, ramp).0.data.len() <= RETAINED_COUNT * N_SAMPLES,
        forall|i: int|
            0 <= i < add_result(s, key, ramp).0.keys.len() ==> rotation.contains(
                #[trigger] add_result(s, key, ramp).0.keys[i],
            ),
        maintain_result(s).keys == s.keys,
        maintain_result(s).data == s.data,
{
    let (t, id) = add_result(s, key, ramp);
    lemma_add_wf(s, key, ramp);
    assert(s.keys.no_duplicates()) by {
        assert forall|i: int, j: int|
            0 <= i < s.keys.len() && 0 <= j < s.keys.len() && i != j implies s.keys[i]
            != s.keys[j] by {
            if i < j {
                assert(s.keys[i] != s.keys[j]);
            } else {
                assert(s.keys[j] != s.keys[i]);
            }
        };
    };
    s.keys.unique_seq_to_set();
    assert(s.keys.to_set().subset_of(rotation));
    vstd::set_lib::lemma_len_subset(s.keys.to_set(), rotation);
    if slot_of(s.keys, key) is None {
        assert(!s.keys.to_set().contains(key));
        assert(s.keys.to_set().subset_of(rotation.remove(key)));
        vstd::set_lib::lemma_len_subset(s.keys.to_set(), rotation.remove(key));
        assert(t.keys.len() == s.keys.len() + 1);
    } else {
        assert(t.keys == s.keys);
    }
    assert forall|i: int| 0 <= i < t.keys.len() implies rotation.contains(#[trigger] t.keys[i]) by {
        if i < s.keys.len() && t.keys[i] == s.keys[i] {
        } else {
            assert(t.keys[i] == key);
        }
    };
    assert(t.data.len() <= RETAINED_COUNT * N_SAMPLES) by (nonlinear_arith)
        requires
            t.data.len() == t.keys.len() * N_SAMPLES,
            t.keys.len() <= RETAINED_COUNT,
    ;
}

/// `add` takes a slot from another gradient only when the cache is full,
/// the gradient is not held, and the slot is stale; when no slot is stale
/// it evicts nothing and the buffer grows by one ramp instead.
pub proof fn reclaims_only_stale(s: CacheState, key: Seq<ColorStop>, ramp: Seq<Rgba>)
    requires
        s.wf(),
        s.can_grow(),
        ramp.len() == N_SAMPLES,
    ensures
        forall|i: int|
            0 <= i < s.keys.len() && #[trigger] add_result(s, key, ramp).0.keys[i] != s.keys[i]
                ==> {
                &&& s.keys.len() >= RETAINED_COUNT
                &&& slot_of(s.keys, key) is None
                &&& stale(s.used[i], s.epoch)
            },
        (slot_of(s.keys, key) is None && forall|i: int|
            0 <= i < s.keys.len() ==> !stale(#[trigger] s.used[i], s.epoch)) ==> {
            &&& add_result(s, key, ramp).0.keys == s.keys.push(key)
            &&& add_result(s, key, ramp).0.data == s.data + ramp
        },
{
    let (t, id) = add_result(s, key, ramp);
    lemma_add_wf(s, key, ramp);
    if s.keys.len() >= 1 {
        lemma_oldest(s.used);
    }
}

/// A well-formed cache has `N_SAMPLES` samples for each ramp, and `add` and
/// `maintain` keep it well formed.
pub proof fn dimensions_consistent(s: CacheState, key: Seq<ColorStop>, ramp: Seq<Rgba>)
    requires
        s.wf(),
        s.can_grow(),
        ramp.len() == N_SAMPLES,
    ensures
        s.data.len() == s.height() * N_SAMPLES,
        add_result(s, key, ramp).0.wf(),
        add_result(s, key, ramp).0.data.len() == add_result(s, key, ramp).0.height() * N_SAMPLES,
        s.epoch < u64::MAX ==> maintain_result(s).wf(),
        s.epoch < u64::MAX ==> maintain_result(s).data.len() == maintain_result(s).height()
            * N_SAMPLES,
{
    lemma_add_wf(s, key, ramp);
}

} // verus!
