//! Cached probes, with a grace period for devices that go missing.

use crate::node_set::lemma_push_contains;
use crate::probe::{persistable, CacheKey, CacheOutcome, Cached, KeyView, ProbedFeatures};
use vstd::prelude::*;

verus! {

/// Consecutive ticks a cached device may be missing before its probe is
/// dropped.
pub const CACHE_MISS_GRACE: u8 = 3;

/// Version of the cache's file.
pub const CACHE_FILE_VERSION: u32 = 1;

/// What a file holds for this program: `entries` if the file is of its version,
/// else nothing.
pub fn readable_entries(version: u32, entries: Vec<(CacheKey, Cached)>) -> (readable: Vec<
    (CacheKey, Cached),
>)
    ensures
        version == CACHE_FILE_VERSION ==> readable == entries,
        version != CACHE_FILE_VERSION ==> readable@.len() == 0,
{
    if version == CACHE_FILE_VERSION {
        entries
    } else {
        Vec::new()
    }
}

/// One cached probe.
pub struct CacheEntry {
    pub key: CacheKey,
    pub cached: Cached,
    /// Consecutive ticks the device has been missing.
    pub misses: u8,
}

/// The value of a cached probe under its key.
pub struct EntryView {
    pub cached: Cached,
    pub misses: u8,
}

/// Probes by key.
pub struct ProbeCache {
    entries: Vec<CacheEntry>,
    dirty: bool,
}

/// Whether `key` is the key of one of `entries`.
spec fn held(entries: Seq<CacheEntry>, key: KeyView) -> bool {
    exists|i: int| 0 <= i < entries.len() && (#[trigger] entries[i]).key@ == key
}

/// Where in `entries` the key stands.
spec fn place(entries: Seq<CacheEntry>, key: KeyView) -> int {
    choose|i: int| 0 <= i < entries.len() && (#[trigger] entries[i]).key@ == key
}

/// No two entries have the same key.
spec fn distinct(entries: Seq<CacheEntry>) -> bool {
    forall|i: int, j: int|
        0 <= i < j < entries.len() ==> (#[trigger] entries[i]).key@ != (#[trigger] entries[j]).key@
}

spec fn entries_view(entries: Seq<CacheEntry>) -> Map<KeyView, EntryView> {
    Map::new(
        |key: KeyView| held(entries, key),
        |key: KeyView|
            EntryView {
                cached: entries[place(entries, key)].cached,
                misses: entries[place(entries, key)].misses,
            },
    )
}

proof fn lemma_place(entries: Seq<CacheEntry>, i: int)
    requires
        distinct(entries),
        0 <= i < entries.len(),
    ensures
        held(entries, entries[i].key@),
        place(entries, entries[i].key@) == i,
{
    let at = place(entries, entries[i].key@);
    assert(entries[i].key@ == entries[i].key@);
    assert(held(entries, entries[i].key@));
    assert(0 <= at < entries.len() && entries[at].key@ == entries[i].key@);
    if at < i {
        assert(entries[at].key@ != entries[i].key@);
    } else if i < at {
        assert(entries[i].key@ != entries[at].key@);
    }
}

impl View for ProbeCache {
    type V = Map<KeyView, EntryView>;

    closed spec fn view(&self) -> Map<KeyView, EntryView> {
        entries_view(self.entries@)
    }
}

impl Default for ProbeCache {
    fn default() -> (cache: Self)
        ensures
            cache.wf(),
            cache@ == Map::<KeyView, EntryView>::empty(),
            !cache.is_dirty(),
    {
        let cache = ProbeCache { entries: Vec::new(), dirty: false };
        assert(cache@ =~= Map::<KeyView, EntryView>::empty());
        cache
    }
}

/// The key an outcome was read under.
pub open spec fn outcome_key(outcome: CacheOutcome) -> Option<KeyView> {
    match outcome {
        CacheOutcome::Fresh(key, _) => Some(key@),
        CacheOutcome::Update(key, _) => Some(key@),
        CacheOutcome::Seen(key) => Some(key@),
        CacheOutcome::Unkeyed => None,
    }
}

/// The probe an outcome puts into the cache.
pub open spec fn outcome_cached(outcome: CacheOutcome) -> Option<Cached> {
    match outcome {
        CacheOutcome::Fresh(_, cached) => Some(cached),
        CacheOutcome::Update(_, cached) => Some(cached),
        _ => None,
    }
}

/// A cache with one more probe stored: the count of missed ticks stays as it
/// was, and starts at none for a key that is new.
pub open spec fn stored(
    cache: Map<KeyView, EntryView>,
    key: KeyView,
    cached: Cached,
) -> Map<KeyView, EntryView> {
    cache.insert(
        key,
        EntryView {
            cached,
            misses: if cache.contains_key(key) {
                cache[key].misses
            } else {
                0
            },
        },
    )
}

/// A cache after the probes of `outcomes` were stored in order.
pub open spec fn after_outcomes(
    cache: Map<KeyView, EntryView>,
    outcomes: Seq<CacheOutcome>,
) -> Map<KeyView, EntryView>
    decreases outcomes.len(),
{
    if outcomes.len() == 0 {
        cache
    } else {
        let before = after_outcomes(cache, outcomes.drop_last());
        match (outcome_key(outcomes.last()), outcome_cached(outcomes.last())) {
            (Some(key), Some(cached)) => stored(before, key, cached),
            _ => before,
        }
    }
}

/// A cache after `entries` were stored in order.
pub open spec fn stored_all(
    cache: Map<KeyView, EntryView>,
    entries: Seq<(CacheKey, Cached)>,
) -> Map<KeyView, EntryView>
    decreases entries.len(),
{
    if entries.len() == 0 {
        cache
    } else {
        stored(stored_all(cache, entries.drop_last()), entries.last().0@, entries.last().1)
    }
}

/// Whether an outcome changes what is kept on disk.
pub open spec fn dirties(outcome: CacheOutcome) -> bool {
    outcome matches CacheOutcome::Fresh(key, _) && persistable(key@)
}

/// The values of a list of keys.
pub open spec fn keys_view(keys: Seq<CacheKey>) -> Seq<KeyView> {
    keys.map_values(|key: CacheKey| key@)
}

/// The keys of the devices that `outcomes` saw.
pub open spec fn seen_keys(outcomes: Seq<CacheOutcome>) -> Set<KeyView> {
    Set::new(
        |key: KeyView|
            exists|i: int|
                0 <= i < outcomes.len() && outcome_key(#[trigger] outcomes[i]) == Some(key),
    )
}

/// Whether one more missed tick drops a cached probe.
pub open spec fn expires(entry: EntryView) -> bool {
    entry.misses + 1 > CACHE_MISS_GRACE
}

/// A cache after one tick that saw the devices `seen`: a device that was seen
/// starts over, one that was not counts a miss, and one miss too many drops it.
pub open spec fn after_tick(
    cache: Map<KeyView, EntryView>,
    seen: Set<KeyView>,
) -> Map<KeyView, EntryView> {
    Map::new(
        |key: KeyView| cache.contains_key(key) && (seen.contains(key) || !expires(cache[key])),
        |key: KeyView|
            EntryView {
                cached: cache[key].cached,
                misses: if seen.contains(key) {
                    0
                } else {
                    (cache[key].misses + 1) as u8
                },
            },
    )
}

/// Whether a tick drops a probe that is kept on disk.
pub open spec fn drops_persistable(cache: Map<KeyView, EntryView>, seen: Set<KeyView>) -> bool {
    exists|key: KeyView|
        #![trigger cache.contains_key(key)]
        cache.contains_key(key) && !seen.contains(key) && expires(cache[key]) && persistable(key)
}

/// What of a cached probe is kept on disk: the volatile battery reading is
/// left out, and the refresh clock starts over.
pub open spec fn durable(cached: Cached) -> Cached {
    Cached {
        probe: ProbedFeatures { battery: None, ..cached.probe },
        battery: cached.battery,
        probed_tick: 0,
    }
}

impl ProbeCache {
    /// Whether what is kept on disk changed since it was last written.
    pub closed spec fn is_dirty(&self) -> bool {
        self.dirty
    }

    /// Keys are distinct, and no entry has outlived its grace.
    pub closed spec fn wf(&self) -> bool {
        &&& distinct(self.entries@)
        &&& forall|i: int|
            0 <= i < self.entries@.len() ==> (#[trigger] self.entries@[i]).misses
                <= CACHE_MISS_GRACE
    }

    /// No entry of a well-formed cache has missed more ticks than the grace.
    pub proof fn lemma_misses_within_grace(&self, key: KeyView)
        requires
            self.wf(),
            self@.contains_key(key),
        ensures
            self@[key].misses <= CACHE_MISS_GRACE,
    {
    }

    fn find(&self, key: &CacheKey) -> (found: Option<usize>)
        requires
            self.wf(),
        ensures
            match found {
                Some(i) => i < self.entries@.len() && self.entries@[i as int].key@ == key@,
                None => !held(self.entries@, key@),
            },
    {
        for i in 0..self.entries.len()
            invariant
                forall|k: int| 0 <= k < i ==> (#[trigger] self.entries@[k]).key@ != key@,
        {
            if self.entries[i].key.same(key) {
                return Some(i);
            }
        }
        None
    }

    /// The cached probe under `key`.
    pub fn get(&self, key: &CacheKey) -> (cached: Option<&Cached>)
        requires
            self.wf(),
        ensures
            match cached {
                Some(cached) => self@.contains_key(key@) && *cached == self@[key@].cached,
                None => !self@.contains_key(key@),
            },
    {
        match self.find(key) {
            Some(i) => {
                proof {
                    lemma_place(self.entries@, i as int);
                }
                Some(&self.entries[i].cached)
            },
            None => None,
        }
    }

    /// Whether a probe is cached under `key`.
    pub fn contains_key(&self, key: &CacheKey) -> (contains: bool)
        requires
            self.wf(),
        ensures
            contains == self@.contains_key(key@),
    {
        self.get(key).is_some()
    }

    /// Store a probe.
    pub fn store(&mut self, key: CacheKey, cached: Cached)
        requires
            old(self).wf(),
        ensures
            final(self).wf(),
            final(self)@ == stored(old(self)@, key@, cached),
            final(self).is_dirty() == old(self).is_dirty(),
    {
        match self.find(&key) {
            Some(i) => {
                let misses = self.entries[i].misses;
                let ghost before = self.entries@;
                let ghost key_view = key@;
                self.entries[i] = CacheEntry { key, cached, misses };
                proof {
                    let after = self.entries@;
                    assert(distinct(after)) by {
                        assert forall|a: int, b: int| 0 <= a < b < after.len() implies (
                        #[trigger] after[a]).key@ != (#[trigger] after[b]).key@ by {
                            assert(before[a].key@ != before[b].key@);
                        }
                    }
                    lemma_place(before, i as int);
                    lemma_place(after, i as int);
                    assert forall|k: KeyView| held(before, k) <==> held(after, k) by {
                        if held(before, k) {
                            let p = place(before, k);
                            assert(after[p].key@ == k);
                        }
                        if held(after, k) {
                            let p = place(after, k);
                            assert(before[p].key@ == k);
                        }
                    }
                    assert forall|k: KeyView| held(before, k) && k != key_view implies place(
                        before,
                        k,
                    ) == place(after, k) by {
                        let p = place(before, k);
                        assert(after[p].key@ == k);
                        lemma_place(after, p);
                    }
                    assert(self@ =~= stored(old(self)@, key_view, cached));
                }
            },
            None => {
                let ghost before = self.entries@;
                let ghost key_view = key@;
                self.entries.push(CacheEntry { key, cached, misses: 0 });
                proof {
                    let after = self.entries@;
                    assert forall|a: int, b: int| 0 <= a < b < after.len() implies (
                    #[trigger] after[a]).key@ != (#[trigger] after[b]).key@ by {
                        if b == before.len() {
                            assert(before[a].key@ != key_view);
                        } else {
                            assert(before[a].key@ != before[b].key@);
                        }
                    }
                    lemma_place(after, before.len() as int);
                    assert forall|k: KeyView| held(after, k) <==> held(before, k) || k
                        == key_view by {
                        if held(before, k) {
                            let p = place(before, k);
                            assert(after[p].key@ == k);
                        }
                        if held(after, k) && k != key_view {
                            let p = place(after, k);
                            assert(before[p].key@ == k);
                        }
                    }
                    assert forall|k: KeyView| held(before, k) implies place(before, k) == place(
                        after,
                        k,
                    ) by {
                        let p = place(before, k);
                        assert(after[p].key@ == k);
                        lemma_place(after, p);
                    }
                    assert(self@ =~= stored(old(self)@, key_view, cached));
                }
            },
        }
    }

    /// Store the probes read from disk.
    pub fn warm_start(&mut self, entries: Vec<(CacheKey, Cached)>)
        requires
            old(self).wf(),
        ensures
            final(self).wf(),
            final(self)@ == stored_all(old(self)@, entries@),
            final(self).is_dirty() == old(self).is_dirty(),
    {
        let ghost all = entries@;
        let mut entries = entries;
        let ghost mut done: int = 0;
        assert(all.take(0) =~= Seq::empty());
        assert(entries@ =~= all.skip(0));
        while entries.len() > 0
            invariant
                self.wf(),
                0 <= done <= all.len(),
                entries@ == all.skip(done),
                self@ == stored_all(old(self)@, all.take(done)),
                self.is_dirty() == old(self).is_dirty(),
            decreases entries@.len(),
        {
            let (key, cached) = entries.remove(0);
            self.store(key, cached);
            proof {
                assert(entries@ =~= all.skip(done + 1));
                assert(all.take(done + 1).drop_last() =~= all.take(done));
                done = done + 1;
            }
        }
        assert(all.take(done) =~= all);
    }

    /// Fold this tick's probe outcomes into the cache, and return the keys of
    /// the devices that were seen. A completed full probe of a device that is
    /// kept on disk makes the cache worth writing.
    pub fn apply_outcomes(&mut self, outcomes: Vec<CacheOutcome>) -> (seen: Vec<CacheKey>)
        requires
            old(self).wf(),
        ensures
            final(self).wf(),
            final(self)@ == after_outcomes(old(self)@, outcomes@),
            final(self).is_dirty() == (old(self).is_dirty() || exists|i: int|
                0 <= i < outcomes@.len() && dirties(#[trigger] outcomes@[i])),
            keys_view(seen@).to_set() == seen_keys(outcomes@),
    {
        let mut seen: Vec<CacheKey> = Vec::new();
        let ghost all = outcomes@;
        let mut outcomes = outcomes;
        let ghost mut done: int = 0;
        assert(all.take(0) =~= Seq::empty());
        assert(outcomes@ =~= all.skip(0));
        while outcomes.len() > 0
            invariant
                self.wf(),
                0 <= done <= all.len(),
                outcomes@ == all.skip(done),
                self@ == after_outcomes(old(self)@, all.take(done)),
                self.is_dirty() == (old(self).is_dirty() || exists|i: int|
                    0 <= i < done && dirties(#[trigger] all[i])),
                forall|key: KeyView| #[trigger]
                    keys_view(seen@).contains(key) <==> exists|i: int|
                        0 <= i < done && outcome_key(#[trigger] all[i]) == Some(key),
            decreases outcomes@.len(),
        {
            let outcome = outcomes.remove(0);
            let ghost dirty_before = self.is_dirty();
            let ghost seen_before = keys_view(seen@);
            proof {
                assert(outcome == all[done]);
                assert(outcomes@ =~= all.skip(done + 1));
                assert(all.take(done + 1).drop_last() =~= all.take(done));
                assert(all.take(done + 1).last() == outcome);
            }
            match outcome {
                CacheOutcome::Fresh(key, cached) => {
                    seen.push(key.clone());
                    if key.is_persistable() {
                        self.dirty = true;
                    }
                    self.store(key, cached);
                },
                CacheOutcome::Update(key, cached) => {
                    seen.push(key.clone());
                    self.store(key, cached);
                },
                CacheOutcome::Seen(key) => {
                    seen.push(key);
                },
                CacheOutcome::Unkeyed => {},
            }
            proof {
                match outcome_key(outcome) {
                    Some(key) => {
                        assert(keys_view(seen@) =~= seen_before.push(key));
                        lemma_push_contains(seen_before, key);
                    },
                    None => {
                        assert(keys_view(seen@) =~= seen_before);
                    },
                }
                assert forall|key: KeyView| #[trigger]
                    keys_view(seen@).contains(key) <==> exists|i: int|
                        0 <= i < done + 1 && outcome_key(#[trigger] all[i]) == Some(key) by {
                    if seen_before.contains(key) {
                        let i = choose|i: int|
                            0 <= i < done && outcome_key(#[trigger] all[i]) == Some(key);
                        assert(0 <= i < done + 1);
                    }
                    if outcome_key(all[done]) == Some(key) {
                        assert(keys_view(seen@).contains(key));
                    }
                }
                assert(dirties(all[done]) == dirties(outcome));
                done = done + 1;
            }
        }
        assert(all.take(done) =~= all);
        assert(keys_view(seen@).to_set() =~= seen_keys(all));
        seen
    }

    /// Count a miss for every cached device that is not in `seen`, and drop the
    /// ones that have been missing for longer than the grace.
    pub fn evict_unseen(&mut self, seen: &[CacheKey])
        requires
            old(self).wf(),
        ensures
            final(self).wf(),
            final(self)@ == after_tick(old(self)@, keys_view(seen@).to_set()),
            final(self).is_dirty() == (old(self).is_dirty() || drops_persistable(
                old(self)@,
                keys_view(seen@).to_set(),
            )),
    {
        let ghost before = self.entries@;
        let mut rest: Vec<CacheEntry> = Vec::new();
        std::mem::swap(&mut rest, &mut self.entries);
        let mut kept: Vec<CacheEntry> = Vec::new();
        let mut dirty = self.dirty;
        let ghost mut done: int = 0;
        assert(rest@ =~= before.skip(0));
        while rest.len() > 0
            invariant
                distinct(before),
                forall|i: int|
                    0 <= i < before.len() ==> (#[trigger] before[i]).misses <= CACHE_MISS_GRACE,
                0 <= done <= before.len(),
                rest@ == before.skip(done),
                kept_of(before.take(done), keys_view(seen@).to_set(), kept@),
                dirty == (old(self).dirty || exists|i: int|
                    0 <= i < done && #[trigger] dropped(before[i], keys_view(seen@).to_set()) && persistable(
                        before[i].key@,
                    )),
            decreases rest@.len(),
        {
            let entry = rest.remove(0);
            proof {
                assert(entry == before[done]);
                assert(rest@ =~= before.skip(done + 1));
                assert(before.take(done + 1) =~= before.take(done).push(entry));
            }
            let ghost kept_before = kept@;
            let mut is_seen = false;
            for k in 0..seen.len()
                invariant
                    is_seen == keys_view(seen@).take(k as int).contains(entry.key@),
            {
                proof {
                    assert(keys_view(seen@).take(k + 1) =~= keys_view(seen@).take(k as int).push(
                        seen@[k as int]@,
                    ));
                    lemma_push_contains(keys_view(seen@).take(k as int), seen@[k as int]@);
                }
                if entry.key.same(&seen[k]) {
                    is_seen = true;
                }
            }
            assert(keys_view(seen@).take(seen@.len() as int) =~= keys_view(seen@));
            if is_seen {
                kept.push(CacheEntry { key: entry.key, cached: entry.cached, misses: 0 });
            } else if entry.misses < CACHE_MISS_GRACE {
                kept.push(
                    CacheEntry { key: entry.key, cached: entry.cached, misses: entry.misses + 1 },
                );
            } else if entry.key.is_persistable() {
                dirty = true;
            }
            proof {
                assert(dropped(before[done], keys_view(seen@).to_set()) == dropped(
                    entry,
                    keys_view(seen@).to_set(),
                ));
                if !dropped(entry, keys_view(seen@).to_set()) {
                    assert(kept@.drop_last() =~= kept_before);
                }
                lemma_kept_step(before.take(done), keys_view(seen@).to_set(), kept_before, entry, kept@);
                done = done + 1;
            }
        }
        self.entries = kept;
        self.dirty = dirty;
        proof {
            let keys = keys_view(seen@).to_set();
            assert(before.take(done) =~= before);
            lemma_kept_view(before, keys, kept@);
            if drops_persistable(old(self)@, keys) {
                let key = choose|key: KeyView|
                    #![trigger old(self)@.contains_key(key)]
                    old(self)@.contains_key(key) && !keys.contains(key) && expires(old(self)@[key])
                        && persistable(key);
                let i = place(before, key);
                assert(dropped(before[i], keys));
            }
            if exists|i: int|
                0 <= i < done && #[trigger] dropped(before[i], keys) && persistable(before[i].key@) {
                let i = choose|i: int|
                    0 <= i < done && #[trigger] dropped(before[i], keys) && persistable(
                        before[i].key@,
                    );
                lemma_place(before, i);
                assert(old(self)@.contains_key(before[i].key@));
            }
        }
    }

    /// The probes to write to disk.
    pub fn durable_entries(&self) -> (kept: Vec<(CacheKey, Cached)>)
        requires
            self.wf(),
        ensures
            entries_of(kept@, self@),
    {
        let mut kept: Vec<(CacheKey, Cached)> = Vec::new();
        for i in 0..self.entries.len()
            invariant
                self.wf(),
                forall|k: int|
                    0 <= k < kept@.len() ==> {
                        let key = (#[trigger] kept@[k]).0@;
                        persistable(key) && self@.contains_key(key) && kept@[k].1 == durable(
                            self@[key].cached,
                        )
                    },
                forall|j: int|
                    0 <= j < i && persistable((#[trigger] self.entries@[j]).key@) ==> exists|k: int|
                        0 <= k < kept@.len() && (#[trigger] kept@[k]).0@ == self.entries@[j].key@,
                forall|k: int|
                    0 <= k < kept@.len() ==> held(
                        self.entries@.take(i as int),
                        (#[trigger] kept@[k]).0@,
                    ),
                forall|k: int, l: int|
                    0 <= k < l < kept@.len() ==> (#[trigger] kept@[k]).0@ != (
                    #[trigger] kept@[l]).0@,
        {
            let entry = &self.entries[i];
            let ghost before = kept@;
            if entry.key.is_persistable() {
                proof {
                    lemma_place(self.entries@, i as int);
                }
                let mut probe = entry.cached.probe.clone();
                probe.battery = None;
                kept.push(
                    (
                        entry.key.clone(),
                        Cached { probe, battery: entry.cached.battery, probed_tick: 0 },
                    ),
                );
                assert(kept@[before.len() as int].0@ == self.entries@[i as int].key@);
                assert forall|k: int| 0 <= k < before.len() implies (#[trigger] kept@[k]).0@
                    != entry.key@ by {
                    assert(kept@[k] == before[k]);
                    let taken = self.entries@.take(i as int);
                    let j = place(taken, before[k].0@);
                    assert(taken[j] == self.entries@[j]);
                }
            }
            assert forall|k: int| 0 <= k < kept@.len() implies held(
                self.entries@.take(i + 1),
                (#[trigger] kept@[k]).0@,
            ) by {
                let longer = self.entries@.take(i + 1);
                if k < before.len() {
                    assert(kept@[k] == before[k]);
                    let taken = self.entries@.take(i as int);
                    let j = place(taken, before[k].0@);
                    assert(longer[j] == taken[j]);
                } else {
                    assert(longer[i as int] == self.entries@[i as int]);
                }
            }
            assert forall|j: int|
                0 <= j < i + 1 && persistable(
                    (#[trigger] self.entries@[j]).key@,
                ) implies exists|k: int|
                0 <= k < kept@.len() && (#[trigger] kept@[k]).0@ == self.entries@[j].key@ by {
                if j < i {
                    let k = choose|k: int|
                        0 <= k < before.len() && (#[trigger] before[k]).0@ == self.entries@[j].key@;
                    assert(kept@[k].0@ == self.entries@[j].key@);
                }
            }
        }
        kept
    }

    /// Whether the cache must be written to disk.
    pub fn needs_flush(&self) -> (dirty: bool)
        ensures
            dirty == self.is_dirty(),
    {
        self.dirty
    }

    /// Note that the cache was written to disk.
    pub fn flushed(&mut self)
        ensures
            final(self)@ == old(self)@,
            old(self).wf() ==> final(self).wf(),
            !final(self).is_dirty(),
    {
        self.dirty = false;
    }
}

/// Whether a tick that saw only `seen` drops this entry.
spec fn dropped(entry: CacheEntry, seen: Set<KeyView>) -> bool {
    !seen.contains(entry.key@) && entry.misses + 1 > CACHE_MISS_GRACE
}

/// What is left of `entries` after a tick that saw only `seen`.
spec fn kept_of(entries: Seq<CacheEntry>, seen: Set<KeyView>, kept: Seq<CacheEntry>) -> bool {
    &&& distinct(kept)
    &&& forall|k: int| 0 <= k < kept.len() ==> (#[trigger] kept[k]).misses <= CACHE_MISS_GRACE
    &&& forall|k: int|
        0 <= k < kept.len() ==> exists|i: int|
            0 <= i < entries.len() && survives_as(#[trigger] entries[i], seen, #[trigger] kept[k])
    &&& forall|i: int|
        0 <= i < entries.len() && !dropped(#[trigger] entries[i], seen) ==> held(
            kept,
            entries[i].key@,
        )
}

spec fn survives_as(entry: CacheEntry, seen: Set<KeyView>, kept: CacheEntry) -> bool {
    &&& !dropped(entry, seen)
    &&& kept.key@ == entry.key@
    &&& kept.cached == entry.cached
    &&& kept.misses == if seen.contains(entry.key@) {
        0int
    } else {
        entry.misses + 1
    }
}

proof fn lemma_kept_step(
    entries: Seq<CacheEntry>,
    seen: Set<KeyView>,
    kept: Seq<CacheEntry>,
    entry: CacheEntry,
    after: Seq<CacheEntry>,
)
    requires
        kept_of(entries, seen, kept),
        distinct(entries.push(entry)),
        dropped(entry, seen) ==> after == kept,
        !dropped(entry, seen) ==> after.len() == kept.len() + 1 && after.drop_last() == kept
            && survives_as(entry, seen, after.last()) && after.last().misses <= CACHE_MISS_GRACE,
    ensures
        kept_of(entries.push(entry), seen, after),
{
    let more = entries.push(entry);
    assert(more[entries.len() as int] == entry);
    assert forall|k: int| 0 <= k < after.len() implies exists|i: int|
        0 <= i < more.len() && survives_as(#[trigger] more[i], seen, #[trigger] after[k]) by {
        if k < kept.len() {
            assert(after[k] == kept[k]);
            let i = choose|i: int|
                0 <= i < entries.len() && survives_as(
                    #[trigger] entries[i],
                    seen,
                    #[trigger] kept[k],
                );
            assert(more[i] == entries[i]);
        } else {
            assert(survives_as(more[entries.len() as int], seen, after[k]));
        }
    }
    assert forall|i: int| 0 <= i < more.len() && !dropped(#[trigger] more[i], seen) implies held(
        after,
        more[i].key@,
    ) by {
        if i < entries.len() {
            assert(more[i] == entries[i]);
            let p = place(kept, entries[i].key@);
            assert(after[p] == kept[p]);
        } else {
            assert(after[after.len() - 1].key@ == entry.key@);
        }
    }
    assert forall|a: int, b: int| 0 <= a < b < after.len() implies (#[trigger] after[a]).key@ != (
    #[trigger] after[b]).key@ by {
        assert(after[a] == kept[a]);
        if b < kept.len() {
            assert(after[b] == kept[b]);
        } else {
            let i = choose|i: int|
                0 <= i < entries.len() && survives_as(
                    #[trigger] entries[i],
                    seen,
                    #[trigger] kept[a],
                );
            assert(more[i].key@ != more[entries.len() as int].key@);
        }
    }
    assert forall|k: int| 0 <= k < after.len() implies (#[trigger] after[k]).misses
        <= CACHE_MISS_GRACE by {
        if k < kept.len() {
            assert(after[k] == kept[k]);
        }
    }
}

proof fn lemma_kept_view(entries: Seq<CacheEntry>, seen: Set<KeyView>, kept: Seq<CacheEntry>)
    requires
        distinct(entries),
        kept_of(entries, seen, kept),
    ensures
        entries_view(kept) == after_tick(entries_view(entries), seen),
{
    let old_view = entries_view(entries);
    let expected = after_tick(old_view, seen);
    assert forall|key: KeyView| held(kept, key) implies expected.contains_key(key)
        && entries_view(kept)[key] == expected[key] by {
        let k = place(kept, key);
        let i = choose|i: int|
            0 <= i < entries.len() && survives_as(#[trigger] entries[i], seen, #[trigger] kept[k]);
        lemma_place(entries, i);
    }
    assert forall|key: KeyView| #[trigger] expected.contains_key(key) implies held(kept, key) by {
        let i = place(entries, key);
        assert(!dropped(entries[i], seen));
    }
    assert(entries_view(kept) =~= expected);
}

/// What a restart keeps of a cache: the probes worth keeping on disk, without
/// their volatile parts and with no tick missed.
pub open spec fn restarted(cache: Map<KeyView, EntryView>) -> Map<KeyView, EntryView> {
    Map::new(
        |key: KeyView| cache.contains_key(key) && persistable(key),
        |key: KeyView| EntryView { cached: durable(cache[key].cached), misses: 0 },
    )
}

/// Whether `entries` are what is kept on disk of `cache`, each key once.
pub open spec fn entries_of(
    entries: Seq<(CacheKey, Cached)>,
    cache: Map<KeyView, EntryView>,
) -> bool {
    &&& forall|i: int|
        0 <= i < entries.len() ==> {
            let key = (#[trigger] entries[i]).0@;
            persistable(key) && cache.contains_key(key) && entries[i].1 == durable(
                cache[key].cached,
            )
        }
    &&& forall|key: KeyView| #[trigger]
        cache.contains_key(key) && persistable(key) ==> exists|i: int|
            0 <= i < entries.len() && (#[trigger] entries[i]).0@ == key
    &&& forall|i: int, j: int|
        0 <= i < j < entries.len() ==> (#[trigger] entries[i]).0@ != (#[trigger] entries[j]).0@
}

/// Writing a cache to disk and reading it into a fresh process keeps exactly
/// the probes worth keeping, each with its identity.
pub proof fn lemma_restart_keeps_durable_probes(
    entries: Seq<(CacheKey, Cached)>,
    cache: Map<KeyView, EntryView>,
)
    requires
        entries_of(entries, cache),
    ensures
        stored_all(Map::empty(), entries) == restarted(cache),
{
    lemma_stored_all(entries, cache);
    assert forall|key: KeyView| cache.contains_key(key) && persistable(key) implies #[trigger]
        stored_all(Map::empty(), entries).contains_key(key) by {
        let i = choose|i: int| 0 <= i < entries.len() && (#[trigger] entries[i]).0@ == key;
        assert(0 <= i < entries.len() && entries[i].0@ == key);
    }
    assert(stored_all(Map::empty(), entries) =~= restarted(cache));
}

proof fn lemma_stored_all(entries: Seq<(CacheKey, Cached)>, cache: Map<KeyView, EntryView>)
    requires
        forall|i: int|
            0 <= i < entries.len() ==> {
                let key = (#[trigger] entries[i]).0@;
                persistable(key) && cache.contains_key(key) && entries[i].1 == durable(
                    cache[key].cached,
                )
            },
    ensures
        forall|key: KeyView| #[trigger]
            stored_all(Map::empty(), entries).contains_key(key) <==> exists|i: int|
                0 <= i < entries.len() && (#[trigger] entries[i]).0@ == key,
        forall|key: KeyView| #[trigger]
            stored_all(Map::empty(), entries).contains_key(key) ==> persistable(key)
                && cache.contains_key(key) && stored_all(Map::empty(), entries)[key] == (EntryView {
                cached: durable(cache[key].cached),
                misses: 0,
            }),
    decreases entries.len(),
{
    if entries.len() > 0 {
        let before = entries.drop_last();
        assert forall|i: int| 0 <= i < before.len() implies {
            let key = (#[trigger] before[i]).0@;
            persistable(key) && cache.contains_key(key) && before[i].1 == durable(
                cache[key].cached,
            )
        } by {
            assert(before[i] == entries[i]);
        }
        lemma_stored_all(before, cache);
        assert(entries[entries.len() - 1] == entries.last());
        assert forall|key: KeyView| #[trigger]
            stored_all(Map::empty(), entries).contains_key(key) <==> exists|i: int|
                0 <= i < entries.len() && (#[trigger] entries[i]).0@ == key by {
            if stored_all(Map::empty(), before).contains_key(key) {
                let i = choose|i: int| 0 <= i < before.len() && (#[trigger] before[i]).0@ == key;
                assert(entries[i].0@ == key);
            }
            if exists|i: int| 0 <= i < entries.len() && (#[trigger] entries[i]).0@ == key {
                let i = choose|i: int| 0 <= i < entries.len() && (#[trigger] entries[i]).0@ == key;
                if i < before.len() {
                    assert(before[i].0@ == key);
                }
            }
        }
    }
}

/// A cache after `n` ticks that saw nothing.
pub open spec fn unseen_ticks(cache: Map<KeyView, EntryView>, n: nat) -> Map<KeyView, EntryView>
    decreases n,
{
    if n == 0 {
        cache
    } else {
        after_tick(unseen_ticks(cache, (n - 1) as nat), Set::empty())
    }
}

/// A device last seen this tick keeps its cached probe, unchanged, through
/// exactly [`CACHE_MISS_GRACE`] ticks in a row without it, and no longer.
pub proof fn lemma_grace_is_exact(cache: Map<KeyView, EntryView>, key: KeyView, n: nat)
    requires
        cache.contains_key(key),
        cache[key].misses == 0,
    ensures
        unseen_ticks(cache, n).contains_key(key) <==> n <= CACHE_MISS_GRACE,
        n <= CACHE_MISS_GRACE ==> unseen_ticks(cache, n)[key] == (EntryView {
            cached: cache[key].cached,
            misses: n as u8,
        }),
    decreases n,
{
    if n > 0 {
        lemma_grace_is_exact(cache, key, (n - 1) as nat);
    }
}

/// Being seen starts the grace over, however many ticks were missed before.
pub proof fn lemma_sighting_resets_misses(
    cache: Map<KeyView, EntryView>,
    seen: Set<KeyView>,
    key: KeyView,
)
    requires
        cache.contains_key(key),
        seen.contains(key),
    ensures
        after_tick(cache, seen).contains_key(key),
        after_tick(cache, seen)[key] == (EntryView { cached: cache[key].cached, misses: 0 }),
{
}

/// The probe that an outcome brings for `key`.
pub open spec fn brings(outcome: CacheOutcome, key: KeyView) -> Option<Cached> {
    match outcome {
        CacheOutcome::Fresh(own, cached) if own@ == key => Some(cached),
        CacheOutcome::Update(own, cached) if own@ == key => Some(cached),
        _ => None,
    }
}

/// The newest probe of a device is the one that is cached: what the last
/// outcome for its key brought, or what was cached before where none brought
/// anything. The ticks that it missed are not touched.
pub proof fn lemma_newest_probe_is_cached(
    cache: Map<KeyView, EntryView>,
    outcomes: Seq<CacheOutcome>,
    key: KeyView,
    i: int,
)
    requires
        -1 <= i < outcomes.len(),
        i >= 0 ==> brings(outcomes[i], key) is Some,
        forall|k: int| i < k < outcomes.len() ==> brings(#[trigger] outcomes[k], key) is None,
    ensures
        ({
            let after = after_outcomes(cache, outcomes);
            &&& i < 0 ==> after.contains_key(key) == cache.contains_key(key)
            &&& i < 0 && cache.contains_key(key) ==> after[key] == cache[key]
            &&& i >= 0 ==> {
                &&& after.contains_key(key)
                &&& Some(after[key].cached) == brings(outcomes[i], key)
                &&& after[key].misses == if cache.contains_key(key) {
                    cache[key].misses
                } else {
                    0
                }
            }
        }),
    decreases outcomes.len(),
{
    if outcomes.len() > 0 {
        let before = outcomes.drop_last();
        assert(outcomes.last() == outcomes[outcomes.len() - 1]);
        assert forall|k: int| 0 <= k < before.len() implies #[trigger] before[k]
            == outcomes[k] by {}
        if i == outcomes.len() - 1 {
            lemma_misses_are_not_touched(cache, before, key);
        } else {
            lemma_newest_probe_is_cached(cache, before, key, i);
        }
    }
}

proof fn lemma_misses_are_not_touched(
    cache: Map<KeyView, EntryView>,
    outcomes: Seq<CacheOutcome>,
    key: KeyView,
)
    ensures
        ({
            let after = after_outcomes(cache, outcomes);
            &&& cache.contains_key(key) ==> after.contains_key(key) && after[key].misses
                == cache[key].misses
            &&& !cache.contains_key(key) && after.contains_key(key) ==> after[key].misses == 0
        }),
    decreases outcomes.len(),
{
    if outcomes.len() > 0 {
        lemma_misses_are_not_touched(cache, outcomes.drop_last(), key);
    }
}

/// A device counts as seen exactly where an outcome names its key.
pub proof fn lemma_every_named_device_is_seen(outcomes: Seq<CacheOutcome>, key: KeyView)
    ensures
        seen_keys(outcomes).contains(key) <==> exists|i: int|
            0 <= i < outcomes.len() && match #[trigger] outcomes[i] {
                CacheOutcome::Fresh(own, _) => own@ == key,
                CacheOutcome::Update(own, _) => own@ == key,
                CacheOutcome::Seen(own) => own@ == key,
                CacheOutcome::Unkeyed => false,
            },
{
    if seen_keys(outcomes).contains(key) {
        let i = choose|i: int|
            0 <= i < outcomes.len() && outcome_key(#[trigger] outcomes[i]) == Some(key);
        assert(outcome_key(outcomes[i]) == Some(key));
    }
    if exists|i: int|
        0 <= i < outcomes.len() && match #[trigger] outcomes[i] {
            CacheOutcome::Fresh(own, _) => own@ == key,
            CacheOutcome::Update(own, _) => own@ == key,
            CacheOutcome::Seen(own) => own@ == key,
            CacheOutcome::Unkeyed => false,
        } {
        let i = choose|i: int|
            0 <= i < outcomes.len() && match #[trigger] outcomes[i] {
                CacheOutcome::Fresh(own, _) => own@ == key,
                CacheOutcome::Update(own, _) => own@ == key,
                CacheOutcome::Seen(own) => own@ == key,
                CacheOutcome::Unkeyed => false,
            };
        assert(outcome_key(outcomes[i]) == Some(key));
    }
}

/// What a tick makes of one cached device: a sighting keeps it and forgets its
/// misses, a miss is counted while there is grace and drops it when there is
/// none, and the probe itself never changes.
pub proof fn lemma_tick_ages_one_device(
    cache: Map<KeyView, EntryView>,
    seen: Set<KeyView>,
    key: KeyView,
)
    ensures
        ({
            let after = after_tick(cache, seen);
            &&& after.contains_key(key) ==> cache.contains_key(key) && after[key].cached
                == cache[key].cached
            &&& cache.contains_key(key) && seen.contains(key) ==> after.contains_key(key)
                && after[key].misses == 0
            &&& cache.contains_key(key) && !seen.contains(key) ==> {
                &&& after.contains_key(key) <==> cache[key].misses < CACHE_MISS_GRACE
                &&& cache[key].misses < CACHE_MISS_GRACE ==> after[key].misses
                    == cache[key].misses + 1
            }
        }),
{
}

/// A device that was probed in a tick is cached after it, with what the probe
/// read and no tick missed, whatever happened before.
pub proof fn lemma_probed_device_survives_the_tick(
    cache: Map<KeyView, EntryView>,
    outcomes: Seq<CacheOutcome>,
    key: KeyView,
    i: int,
)
    requires
        0 <= i < outcomes.len(),
        brings(outcomes[i], key) is Some,
        forall|k: int| i < k < outcomes.len() ==> brings(#[trigger] outcomes[k], key) is None,
    ensures
        ({
            let after = after_tick(after_outcomes(cache, outcomes), seen_keys(outcomes));
            &&& after.contains_key(key)
            &&& Some(after[key].cached) == brings(outcomes[i], key)
            &&& after[key].misses == 0
        }),
{
    lemma_newest_probe_is_cached(cache, outcomes, key, i);
    lemma_every_named_device_is_seen(outcomes, key);
}

/// The cache is worth writing exactly after a full probe of a device told by
/// its unit id.
pub proof fn lemma_what_makes_the_cache_worth_writing(outcome: CacheOutcome)
    ensures
        dirties(outcome) <==> match outcome {
            CacheOutcome::Fresh(CacheKey::Bolt { .. }, _) => true,
            _ => false,
        },
{
}

/// Dropping a device is worth writing exactly where a device told by its unit
/// id is dropped.
pub proof fn lemma_what_dropping_is_worth_writing(
    cache: Map<KeyView, EntryView>,
    seen: Set<KeyView>,
)
    ensures
        drops_persistable(cache, seen) <==> exists|key: KeyView|
            #![trigger cache.contains_key(key)]
            key is Bolt && cache.contains_key(key) && !after_tick(cache, seen).contains_key(key),
{
    if drops_persistable(cache, seen) {
        let key = choose|key: KeyView|
            #![trigger cache.contains_key(key)]
            cache.contains_key(key) && !seen.contains(key) && expires(cache[key]) && persistable(
                key,
            );
        assert(cache.contains_key(key));
    }
}

/// Of what is stored under one key the last stands, and other keys are left
/// alone.
pub proof fn lemma_last_entry_stands(
    cache: Map<KeyView, EntryView>,
    entries: Seq<(CacheKey, Cached)>,
    key: KeyView,
    i: int,
)
    requires
        -1 <= i < entries.len(),
        i >= 0 ==> entries[i].0@ == key,
        forall|k: int| i < k < entries.len() ==> (#[trigger] entries[k]).0@ != key,
    ensures
        ({
            let after = stored_all(cache, entries);
            &&& i < 0 ==> after.contains_key(key) == cache.contains_key(key)
            &&& i < 0 && cache.contains_key(key) ==> after[key] == cache[key]
            &&& i >= 0 ==> after.contains_key(key) && after[key].cached == entries[i].1
        }),
    decreases entries.len(),
{
    if entries.len() > 0 {
        let before = entries.drop_last();
        assert(entries.last() == entries[entries.len() - 1]);
        assert forall|k: int| 0 <= k < before.len() implies #[trigger] before[k] == entries[k] by {}
        if i < entries.len() - 1 {
            lemma_last_entry_stands(cache, before, key, i);
        }
    }
}

/// What is kept on disk of a probe is all of it but the battery's reading, and
/// its age.
pub proof fn lemma_identity_is_kept_on_disk(cached: Cached)
    ensures
        ({
            let kept = durable(cached);
            &&& kept.probe.model_info == cached.probe.model_info
            &&& kept.probe.identity_incomplete == cached.probe.identity_incomplete
            &&& kept.probe.kind == cached.probe.kind
            &&& kept.probe.capabilities == cached.probe.capabilities
            &&& kept.battery == cached.battery
            &&& kept.probe.battery is None
            &&& kept.probed_tick == 0
        }),
{
}

} // verus!
