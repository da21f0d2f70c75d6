//! The ramp cache: slot allocation, staleness-gated reuse and the shared
//! sample buffer.
use vstd::prelude::*;

use crate::color::{copy_stops, same_stops, ColorStop, Rgba};

verus! {

/// Number of samples in every ramp.
pub const N_SAMPLES: usize = 512;

/// Number of gradients that the cache keeps in normal operation.
pub const RETAINED_COUNT: usize = 64;

/// Data and dimensions of the resolved ramps: `height` rows of `width`
/// premultiplied samples, row `i` being the ramp of slot `i`.
#[derive(Clone, Copy, Debug)]
pub struct Ramps<'a> {
    pub data: &'a [Rgba],
    pub width: u32,
    pub height: u32,
}

/// The contents of a cache as mathematical values.
///
/// Slot `i` is held by the gradient `keys[i]`, which was last used at epoch
/// `used[i]`, and its ramp is `data[i * N_SAMPLES .. (i + 1) * N_SAMPLES]`.
pub struct CacheState {
    pub epoch: u64,
    pub keys: Seq<Seq<ColorStop>>,
    pub used: Seq<u64>,
    pub data: Seq<Rgba>,
}

impl CacheState {
    /// Every slot has a last-used epoch and a full ramp, slot ids fit in a
    /// `u32`, and no gradient holds two slots.
    pub open spec fn wf(self) -> bool {
        &&& self.used.len() == self.keys.len()
        &&& self.data.len() == self.keys.len() * N_SAMPLES
        &&& self.keys.len() <= u32::MAX
        &&& forall|i: int, j: int|
            0 <= i < j < self.keys.len() ==> #[trigger] self.keys[i] != #[trigger] self.keys[j]
    }

    /// Number of ramps in the buffer.
    pub open spec fn height(self) -> nat {
        self.keys.len()
    }

    /// Room for one more slot: its id fits in a `u32` and the buffer's
    /// length in a `usize`.
    pub open spec fn can_grow(self) -> bool {
        &&& self.keys.len() < u32::MAX
        &&& self.data.len() + N_SAMPLES <= usize::MAX
    }
}

/// A slot last used at epoch `used` is stale at epoch `epoch` when at least
/// two epochs have passed since.
pub open spec fn stale(used: u64, epoch: u64) -> bool {
    used + 2 <= epoch
}

/// The slot that holds `key`, if any.
pub open spec fn slot_of(keys: Seq<Seq<ColorStop>>, key: Seq<ColorStop>) -> Option<int> {
    if exists|i: int| 0 <= i < keys.len() && keys[i] == key {
        Some(choose|i: int| 0 <= i < keys.len() && keys[i] == key)
    } else {
        None
    }
}

/// The first slot with the oldest last-used epoch.
pub open spec fn oldest(used: Seq<u64>) -> int
    decreases used.len(),
{
    if used.len() <= 1 {
        0
    } else {
        let k = oldest(used.drop_last());
        if used.last() < used[k] {
            used.len() - 1
        } else {
            k
        }
    }
}

/// `data` with the samples from `start` on replaced by `ramp`.
pub open spec fn splice(data: Seq<Rgba>, start: int, ramp: Seq<Rgba>) -> Seq<Rgba> {
    data.subrange(0, start) + ramp + data.subrange(start + ramp.len(), data.len() as int)
}

/// `s` with `key` in a new slot at the end, filled with `ramp`.
pub open spec fn appended(s: CacheState, key: Seq<ColorStop>, ramp: Seq<Rgba>) -> (
    CacheState,
    u32,
) {
    (
        CacheState {
            epoch: s.epoch,
            keys: s.keys.push(key),
            used: s.used.push(s.epoch),
            data: s.data + ramp,
        },
        s.keys.len() as u32,
    )
}

/// The cache after `add(key)`, and the slot returned, where `ramp` is the
/// ramp sampled from `key` (it is read on a miss only).
pub open spec fn add_result(s: CacheState, key: Seq<ColorStop>, ramp: Seq<Rgba>) -> (
    CacheState,
    u32,
) {
    match slot_of(s.keys, key) {
        Some(k) => (
            CacheState { epoch: s.epoch, keys: s.keys, used: s.used.update(k, s.epoch), data: s.data },
            k as u32,
        ),
        None => if s.keys.len() < RETAINED_COUNT {
            appended(s, key, ramp)
        } else {
            let k = oldest(s.used);
            if stale(s.used[k], s.epoch) {
                (
                    CacheState {
                        epoch: s.epoch,
                        keys: s.keys.update(k, key),
                        used: s.used.update(k, s.epoch),
                        data: splice(s.data, k * N_SAMPLES, ramp),
                    },
                    k as u32,
                )
            } else {
                appended(s, key, ramp)
            }
        },
    }
}

/// Some slot past `RETAINED_COUNT` was used in the epoch that is ending.
pub open spec fn overrun_in_use(s: CacheState) -> bool {
    exists|i: int| RETAINED_COUNT <= i < s.keys.len() && s.used[i] == s.epoch
}

/// The cache after `maintain`.
pub open spec fn maintain_result(s: CacheState) -> CacheState {
    if s.keys.len() > RETAINED_COUNT && !overrun_in_use(s) {
        CacheState {
            epoch: (s.epoch + 1) as u64,
            keys: s.keys.subrange(0, RETAINED_COUNT as int),
            used: s.used.subrange(0, RETAINED_COUNT as int),
            data: s.data.subrange(0, (RETAINED_COUNT * N_SAMPLES) as int),
        }
    } else {
        CacheState { epoch: (s.epoch + 1) as u64, keys: s.keys, used: s.used, data: s.data }
    }
}

/// The oldest slot is a slot, and no slot was used before it.
pub proof fn lemma_oldest(used: Seq<u64>)
    requires
        used.len() >= 1,
    ensures
        0 <= oldest(used) < used.len(),
        forall|j: int| 0 <= j < used.len() ==> used[oldest(used)] <= #[trigger] used[j],
    decreases used.len(),
{
    if used.len() > 1 {
        let rest = used.drop_last();
        lemma_oldest(rest);
        assert forall|j: int| 0 <= j < used.len() implies used[oldest(used)] <= #[trigger] used[j] by {
            if j < used.len() - 1 {
                assert(used[j] == rest[j]);
            }
            assert(used[oldest(rest)] == rest[oldest(rest)]);
        };
    }
}

/// Writes `ramp` over `data` from `start` on.
fn write_ramp(data: &mut Vec<Rgba>, start: usize, ramp: &Vec<Rgba>)
    requires
        start + ramp@.len() <= old(data)@.len(),
    ensures
        final(data)@ == splice(old(data)@, start as int, ramp@),
{
    let ghost before = data@;
    let len = data.len();
    let mut j: usize = 0;
    while j < ramp.len()
        invariant
            len == before.len(),
            start + ramp@.len() <= before.len(),
            j <= ramp@.len(),
            data@.len() == before.len(),
            forall|x: int|
                0 <= x < before.len() ==> #[trigger] data@[x] == if start <= x < start + j {
                    ramp@[x - start]
                } else {
                    before[x]
                },
        decreases ramp@.len() - j,
    {
        data[start + j] = ramp[j];
        j = j + 1;
    }
    assert(data@ =~= splice(before, start as int, ramp@));
}

/// A cache of gradient ramps, addressed by slot.
pub struct RampCache {
    epoch: u64,
    keys: Vec<Vec<ColorStop>>,
    used: Vec<u64>,
    data: Vec<Rgba>,
}

impl View for RampCache {
    type V = CacheState;

    closed spec fn view(&self) -> CacheState {
        CacheState {
            epoch: self.epoch,
            keys: self.keys@.map_values(|k: Vec<ColorStop>| k@),
            used: self.used@,
            data: self.data@,
        }
    }
}

impl RampCache {
    /// An empty cache at epoch 0.
    pub fn new() -> (r: RampCache)
        ensures
            r@.wf(),
            r@.epoch == 0,
            r@.keys.len() == 0,
            r@.data.len() == 0,
    {
        let r = RampCache { epoch: 0, keys: Vec::new(), used: Vec::new(), data: Vec::new() };
        assert(r@.keys =~= Seq::<Seq<ColorStop>>::empty());
        r
    }

    /// The current epoch.
    pub fn epoch(&self) -> (r: u64)
        ensures
            r == self@.epoch,
    {
        self.epoch
    }

    /// The slot that holds `stops`, if any.
    fn find(&self, stops: &[ColorStop]) -> (r: Option<usize>)
        requires
            self@.wf(),
        ensures
            r is Some <==> slot_of(self@.keys, stops@) is Some,
            r is Some ==> r->0 == slot_of(self@.keys, stops@)->0,
    {
        let mut i: usize = 0;
        while i < self.keys.len()
            invariant
                self@.wf(),
                i <= self@.keys.len(),
                forall|j: int| 0 <= j < i ==> self@.keys[j] != stops@,
            decreases self@.keys.len() - i,
        {
            assert(self@.keys[i as int] == self.keys@[i as int]@);
            if same_stops(self.keys[i].as_slice(), stops) {
                let ghost c = choose|j: int| 0 <= j < self@.keys.len() && self@.keys[j] == stops@;
                assert(0 <= c < self@.keys.len() && self@.keys[c] == stops@);
                assert(c == i) by {
                    if c < i {
                    } else if c > i {
                        assert(self@.keys[i as int] != self@.keys[c]);
                    }
                };
                return Some(i);
            }
            i = i + 1;
        }
        None
    }

    /// The first slot with the oldest last-used epoch.
    fn oldest_slot(&self) -> (r: usize)
        requires
            self@.wf(),
            self@.keys.len() >= 1,
        ensures
            r == oldest(self@.used),
    {
        let mut best: usize = 0;
        let mut i: usize = 1;
        assert(self.used@.subrange(0, 1).len() == 1);
        while i < self.used.len()
            invariant
                self@.wf(),
                1 <= i <= self.used@.len(),
                best == oldest(self.used@.subrange(0, i as int)),
            decreases self.used@.len() - i,
        {
            let ghost prefix = self.used@.subrange(0, i as int);
            let ghost next = self.used@.subrange(0, i + 1);
            proof {
                lemma_oldest(prefix);
                assert(next.drop_last() =~= prefix);
            }
            if self.used[i] < self.used[best] {
                best = i;
            }
            i = i + 1;
        }
        assert(self.used@.subrange(0, i as int) =~= self.used@);
        best
    }

    /// Puts `stops` in a new slot at the end, with `ramp` as its ramp.
    fn push_slot(&mut self, stops: &[ColorStop], ramp: Vec<Rgba>) -> (id: u32)
        requires
            old(self)@.wf(),
            old(self)@.can_grow(),
            slot_of(old(self)@.keys, stops@) is None,
            ramp@.len() == N_SAMPLES,
        ensures
            final(self)@.wf(),
            (final(self)@, id) == appended(old(self)@, stops@, ramp@),
    {
        let mut ramp = ramp;
        let id = self.keys.len() as u32;
        self.keys.push(copy_stops(stops));
        self.used.push(self.epoch);
        self.data.append(&mut ramp);
        let ghost s = old(self)@;
        assert(self@.keys =~= s.keys.push(stops@));
        assert forall|i: int, j: int|
            0 <= i < j < self@.keys.len() implies #[trigger] self@.keys[i] != #[trigger] self@.keys[j] by {
            if j == s.keys.len() {
                assert(!(0 <= i < s.keys.len() && s.keys[i] == stops@));
            } else {
                assert(s.keys[i] != s.keys[j]);
            }
        };
        assert(self@.data.len() == s.keys.len() * N_SAMPLES + N_SAMPLES);
        id
    }

    /// Gives slot `k` to `stops`, with `ramp` as its ramp.
    fn reuse_slot(&mut self, k: usize, stops: &[ColorStop], ramp: Vec<Rgba>)
        requires
            old(self)@.wf(),
            k < old(self)@.keys.len(),
            slot_of(old(self)@.keys, stops@) is None,
            ramp@.len() == N_SAMPLES,
        ensures
            final(self)@.wf(),
            final(self)@ == (CacheState {
                epoch: old(self)@.epoch,
                keys: old(self)@.keys.update(k as int, stops@),
                used: old(self)@.used.update(k as int, old(self)@.epoch),
                data: splice(old(self)@.data, k * N_SAMPLES, ramp@),
            }),
    {
        let ghost s = old(self)@;
        let n = self.keys.len();
        assert(k * N_SAMPLES + N_SAMPLES <= n * N_SAMPLES) by (nonlinear_arith)
            requires
                k < n,
        ;
        let len = self.data.len();
        assert(len == n * N_SAMPLES);
        self.keys[k] = copy_stops(stops);
        self.used[k] = self.epoch;
        write_ramp(&mut self.data, k * N_SAMPLES, &ramp);
        assert(self@.keys =~= s.keys.update(k as int, stops@));
        assert forall|i: int, j: int|
            0 <= i < j < self@.keys.len() implies #[trigger] self@.keys[i] != #[trigger] self@.keys[j] by {
            if i == k {
                assert(!(0 <= j < s.keys.len() && s.keys[j] == stops@));
            } else if j == k {
                assert(!(0 <= i < s.keys.len() && s.keys[i] == stops@));
            } else {
                assert(s.keys[i] != s.keys[j]);
            }
        };
    }

    /// Resolves the gradient `stops` to a slot.
    ///
    /// A gradient already held keeps its slot and is marked used at the
    /// current epoch; the buffer is left alone and `make_ramp` is not
    /// called. Otherwise `make_ramp` samples its ramp, which goes to a new
    /// slot at the end while fewer than `RETAINED_COUNT` gradients are
    /// held; at capacity it replaces the gradient that was used least
    /// recently (the first of them in slot order), if that one is stale, and
    /// goes to a new slot at the end if not.
    pub fn add<F: FnOnce() -> Vec<Rgba>>(&mut self, stops: &[ColorStop], make_ramp: F) -> (id: u32)
        requires
            old(self)@.wf(),
            old(self)@.can_grow(),
            make_ramp.requires(()),
            forall|r: Vec<Rgba>| #[trigger] make_ramp.ensures((), r) ==> r@.len() == N_SAMPLES,
        ensures
            final(self)@.wf(),
            slot_of(old(self)@.keys, stops@) is Some ==> (final(self)@, id) == add_result(
                old(self)@,
                stops@,
                Seq::empty(),
            ),
            slot_of(old(self)@.keys, stops@) is None ==> exists|r: Vec<Rgba>|
                #[trigger] make_ramp.ensures((), r) && (final(self)@, id) == add_result(
                    old(self)@,
                    stops@,
                    r@,
                ),
    {
        let ghost s = old(self)@;
        match self.find(stops) {
            Some(k) => {
                self.used[k] = self.epoch;
                assert(self@.keys =~= s.keys);
                return k as u32;
            },
            None => {},
        }
        let ramp = make_ramp();
        let ghost r = ramp;
        if self.keys.len() < RETAINED_COUNT {
            let id = self.push_slot(stops, ramp);
            assert((self@, id) == add_result(s, stops@, r@));
            return id;
        }
        let k = self.oldest_slot();
        proof {
            lemma_oldest(s.used);
        }
        if self.epoch >= 2 && self.used[k] <= self.epoch - 2 {
            self.reuse_slot(k, stops, ramp);
            assert((self@, k as u32) == add_result(s, stops@, r@));
            k as u32
        } else {
            let id = self.push_slot(stops, ramp);
            assert((self@, id) == add_result(s, stops@, r@));
            id
        }
    }

    /// The whole sample buffer with its dimensions.
    pub fn ramps(&self) -> (r: Ramps)
        requires
            self@.wf(),
        ensures
            r.data@ == self@.data,
            r.width == N_SAMPLES,
            r.height == self@.height(),
            r.data@.len() == r.height * r.width,
    {
        Ramps { data: self.data.as_slice(), width: N_SAMPLES as u32, height: self.keys.len() as u32 }
    }

    /// Advances the epoch. When more than `RETAINED_COUNT` gradients are
    /// held and none of the slots past that bound was used in the epoch
    /// that is ending, those slots are dropped and the buffer is cut to
    /// `RETAINED_COUNT` ramps.
    pub fn maintain(&mut self)
        requires
            old(self)@.wf(),
            old(self)@.epoch < u64::MAX,
        ensures
            final(self)@.wf(),
            final(self)@ == maintain_result(old(self)@),
    {
        self.epoch = self.epoch + 1;
        if self.keys.len() > RETAINED_COUNT {
            let ending = self.epoch - 1;
            let mut in_use = false;
            let mut i: usize = RETAINED_COUNT;
            while i < self.used.len()
                invariant
                    self@.wf(),
                    self.epoch == ending + 1,
                    RETAINED_COUNT <= i <= self.used@.len(),
                    in_use == exists|j: int| RETAINED_COUNT <= j < i && self.used@[j] == ending,
                decreases self.used@.len() - i,
            {
                if self.used[i] == ending {
                    in_use = true;
                }
                i = i + 1;
            }
            if !in_use {
                self.keys.truncate(RETAINED_COUNT);
                self.used.truncate(RETAINED_COUNT);
                self.data.truncate(RETAINED_COUNT * N_SAMPLES);
                assert(self@.keys =~= old(self)@.keys.subrange(0, RETAINED_COUNT as int));
            }
        }
        assert(self@.keys =~= maintain_result(old(self)@).keys);
    }
}

impl Default for RampCache {
    /// An empty cache at epoch 0.
    fn default() -> (r: RampCache)
        ensures
            r@.wf(),
            r@.epoch == 0,
            r@.keys.len() == 0,
            r@.data.len() == 0,
    {
        RampCache::new()
    }
}

} // verus!
