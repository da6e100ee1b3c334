//! The two caches a response reads from.
//!
//! The content cache holds fetched route bodies in the body pool. Its entries are
//! reference-counted, because a reader can outlive a step: eviction refuses a
//! region someone is still reading from.
//!
//! The variable table holds the `{{name}}` substitutions, keyed by name hash.

use crate::bytes::to_vec;
use crate::routes::{Route, MAX_ROUTES};
use vstd::prelude::*;

verus! {

/// Substitution variables held.
pub const MAX_VARS: usize = 16;
/// Longest substitution value kept.
pub const MAX_VAR_VALUE: usize = 64;
/// Most bytes moved in one send or one fetch.
pub const SEND_BUF_SIZE: usize = 4096;

// ── Variables ───────────────────────────────────────────────────────────

pub struct VarEntry {
    pub name_hash: u32,
    pub value: Vec<u8>,
}

impl VarEntry {
    pub fn new() -> (r: VarEntry)
        ensures
            r.name_hash == 0,
            r.value@.len() == 0,
    {
        VarEntry { name_hash: 0, value: Vec::new() }
    }
}

/// The substitution table: last write wins, and a full table keeps what it has.
pub struct VarTable {
    pub vars: Vec<VarEntry>,
}

/// The value of the first entry from `from` on with this hash.
pub open spec fn var_from(vars: Seq<VarEntry>, hash: u32, from: int) -> Option<Seq<u8>>
    decreases vars.len() - from,
{
    if from < 0 || from >= vars.len() {
        None
    } else if vars[from].name_hash == hash {
        Some(vars[from].value@)
    } else {
        var_from(vars, hash, from + 1)
    }
}

proof fn lemma_var_from(vars: Seq<VarEntry>, hash: u32, from: int)
    requires
        0 <= from <= vars.len(),
    ensures
        match var_from(vars, hash, from) {
            Some(v) => exists|i: int|
                from <= i < vars.len() && (#[trigger] vars[i]).name_hash == hash && vars[i].value@
                    == v && (forall|k: int|
                    from <= k < i ==> (#[trigger] vars[k]).name_hash != hash),
            None => forall|k: int|
                from <= k < vars.len() ==> (#[trigger] vars[k]).name_hash != hash,
        },
    decreases vars.len() - from,
{
    if from < vars.len() && vars[from].name_hash != hash {
        lemma_var_from(vars, hash, from + 1);
    }
}

impl VarTable {
    pub open spec fn wf(self) -> bool {
        &&& self.vars@.len() <= MAX_VARS
        &&& forall|i: int| 0 <= i < self.vars@.len() ==> (#[trigger] self.vars@[i]).value@.len()
            <= MAX_VAR_VALUE
        &&& forall|i: int, j: int|
            0 <= i < j < self.vars@.len() ==> (#[trigger] self.vars@[i]).name_hash != (
            #[trigger] self.vars@[j]).name_hash
    }

    /// What `{{name}}` with this hash stands for.
    pub open spec fn value_of(self, hash: u32) -> Option<Seq<u8>> {
        var_from(self.vars@, hash, 0)
    }

    pub fn new() -> (r: VarTable)
        ensures
            r.wf(),
            forall|h: u32| r.value_of(h) is None,
    {
        VarTable { vars: Vec::new() }
    }

    fn index_of(&self, hash: u32) -> (r: usize)
        ensures
            r <= self.vars@.len(),
            r < self.vars@.len() ==> self.vars@[r as int].name_hash == hash && self.value_of(hash)
                == Some(self.vars@[r as int].value@),
            r == self.vars@.len() ==> self.value_of(hash) is None,
    {
        let mut j: usize = 0;
        while j < self.vars.len()
            invariant
                j <= self.vars@.len(),
                var_from(self.vars@, hash, j as int) == self.value_of(hash),
            decreases self.vars@.len() - j,
        {
            if self.vars[j].name_hash == hash {
                return j;
            }
            j += 1;
        }
        j
    }

    /// Look a variable up.
    pub fn lookup_var(&self, hash: u32) -> (r: Option<&[u8]>)
        ensures
            match r {
                Some(v) => self.value_of(hash) == Some(v@),
                None => self.value_of(hash) is None,
            },
    {
        let i: usize = self.index_of(hash);
        if i < self.vars.len() {
            Some(self.vars[i].value.as_slice())
        } else {
            None
        }
    }

    /// Record a variable. A known one is overwritten; a new one is added while there
    /// is room and dropped otherwise. Values are cut to `MAX_VAR_VALUE`.
    pub fn store(&mut self, hash: u32, value: &[u8])
        requires
            old(self).wf(),
        ensures
            final(self).wf(),
            forall|h: u32|
                final(self).value_of(h) == if h == hash && (old(self).value_of(hash) is Some || old(
                    self,
                ).vars@.len() < MAX_VARS) {
                    Some(crate::bytes::clip(value@, MAX_VAR_VALUE as nat))
                } else {
                    old(self).value_of(h)
                },
    {
        let n: usize = if value.len() > MAX_VAR_VALUE {
            MAX_VAR_VALUE
        } else {
            value.len()
        };
        let kept = vstd::slice::slice_subrange(value, 0, n);
        let v: Vec<u8> = to_vec(kept);
        assert(v@ =~= crate::bytes::clip(value@, MAX_VAR_VALUE as nat));
        let slot: usize = self.index_of(hash);
        if slot >= MAX_VARS {
            return;
        }
        let ghost before = self.vars@;
        let e = VarEntry { name_hash: hash, value: v };
        if slot < self.vars.len() {
            self.vars[slot] = e;
        } else {
            self.vars.push(e);
        }
        proof {
            lemma_var_from(before, hash, 0);
            assert forall|h: u32| #[trigger]
                var_from(self.vars@, h, 0) == if h == hash {
                    Some(v@)
                } else {
                    var_from(before, h, 0)
                } by {
                lemma_var_from(before, h, 0);
                lemma_var_from(self.vars@, h, 0);
                assert(self.vars@[slot as int].name_hash == hash);
                assert(forall|k: int|
                    0 <= k < before.len() && k != slot ==> self.vars@[k] == before[k]);
            }
        }
    }
}

// ── Content cache ───────────────────────────────────────────────────────

/// One cached body: the pool region it fills, and who is reading it.
#[derive(Clone, Copy, PartialEq, Eq, Structural)]
pub struct CacheEntry {
    pub route_index: u8,
    /// The entry owns a pool region for `route_index`.
    pub valid: bool,
    /// The fill finished: the region holds the whole body, not a prefix.
    pub complete: bool,
    pub lru_tick: u8,
    /// How many readers hold the entry.
    pub retain: u8,
    pub arena_offset: u32,
    pub length: u32,
}

impl CacheEntry {
    pub fn new() -> (r: CacheEntry)
        ensures
            r == (CacheEntry {
                route_index: 0,
                valid: false,
                complete: false,
                lru_tick: 0,
                retain: 0,
                arena_offset: 0,
                length: 0,
            }),
    {
        CacheEntry {
            route_index: 0,
            valid: false,
            complete: false,
            lru_tick: 0,
            retain: 0,
            arena_offset: 0,
            length: 0,
        }
    }
}

/// The cache: its live entries, and the clock their last use is stamped from.
pub struct ContentCache {
    pub entries: Vec<CacheEntry>,
    pub tick: u8,
}

/// The first entry from `from` on that serves `route`, or the number of entries.
pub open spec fn entry_for(es: Seq<CacheEntry>, route: u8, whole: bool, from: int) -> int
    decreases es.len() - from,
{
    if from < 0 || from >= es.len() {
        es.len() as int
    } else if es[from].valid && es[from].route_index == route && (whole ==> es[from].complete) {
        from
    } else {
        entry_for(es, route, whole, from + 1)
    }
}

/// Where the inline bodies end in the pool: past the last byte of any route whose
/// body is not fetched.
pub open spec fn inline_end(routes: Seq<Route>, upto: int) -> int
    decreases upto,
{
    if upto <= 0 {
        0
    } else {
        let r = routes[upto - 1];
        let rest = inline_end(routes, upto - 1);
        let end = r.body_offset + r.body_len;
        if r.source_index < 0 && r.body_len > 0 && end > rest {
            end
        } else {
            rest
        }
    }
}

/// Whether every inline body ends where a pool offset can say.
pub open spec fn ends_fit(routes: Seq<Route>) -> bool {
    forall|i: int|
        0 <= i < routes.len() ==> (#[trigger] routes[i]).body_offset + routes[i].body_len
            <= u32::MAX
}

impl ContentCache {
    /// Whether a reader holds any entry.
    pub open spec fn held(self) -> bool {
        exists|i: int|
            0 <= i < self.entries@.len() && (#[trigger] self.entries@[i]).valid
                && self.entries@[i].retain > 0
    }

    pub fn new() -> (r: ContentCache)
        ensures
            r.entries@.len() == 0,
            r.tick == 0,
    {
        ContentCache { entries: Vec::new(), tick: 0 }
    }

    /// The entry holding the whole body of `route`. An entry still being filled is
    /// not found, so nobody renders part of a body.
    pub fn cache_lookup(&self, route: u8) -> (r: Option<usize>)
        ensures
            match r {
                Some(i) => i < self.entries@.len() && i == entry_for(self.entries@, route, true, 0)
                    && self.entries@[i as int].valid && self.entries@[i as int].complete
                    && self.entries@[i as int].route_index == route,
                None => entry_for(self.entries@, route, true, 0) == self.entries@.len(),
            },
    {
        let mut i: usize = 0;
        while i < self.entries.len()
            invariant
                i <= self.entries@.len(),
                entry_for(self.entries@, route, true, i as int) == entry_for(
                    self.entries@,
                    route,
                    true,
                    0,
                ),
            decreases self.entries@.len() - i,
        {
            let e: CacheEntry = self.entries[i];
            if e.valid && e.complete && e.route_index == route {
                return Some(i);
            }
            i += 1;
        }
        None
    }

    /// The entry for `route`, filled or not.
    pub fn cache_lookup_any(&self, route: u8) -> (r: Option<usize>)
        ensures
            match r {
                Some(i) => i < self.entries@.len() && i == entry_for(self.entries@, route, false, 0)
                    && self.entries@[i as int].valid && self.entries@[i as int].route_index
                    == route,
                None => entry_for(self.entries@, route, false, 0) == self.entries@.len(),
            },
    {
        let mut i: usize = 0;
        while i < self.entries.len()
            invariant
                i <= self.entries@.len(),
                entry_for(self.entries@, route, false, i as int) == entry_for(
                    self.entries@,
                    route,
                    false,
                    0,
                ),
            decreases self.entries@.len() - i,
        {
            let e: CacheEntry = self.entries[i];
            if e.valid && e.route_index == route {
                return Some(i);
            }
            i += 1;
        }
        None
    }

    /// True when no reader holds an entry.
    pub fn cache_evictable(&self) -> (r: bool)
        ensures
            r == !self.held(),
    {
        let mut i: usize = 0;
        while i < self.entries.len()
            invariant
                i <= self.entries@.len(),
                forall|k: int|
                    0 <= k < i ==> !((#[trigger] self.entries@[k]).valid && self.entries@[k].retain
                        > 0),
            decreases self.entries@.len() - i,
        {
            let e: CacheEntry = self.entries[i];
            if e.valid && e.retain > 0 {
                assert(self.entries@[i as int].valid);
                return false;
            }
            i += 1;
        }
        true
    }

    /// Count one more reader of `route`'s entry. Nothing without one.
    pub fn cache_retain_for_route(&mut self, route: u8)
        ensures
            final(self).tick == old(self).tick,
            final(self).entries@ == reader_count_changed(old(self).entries@, route, true),
    {
        match self.cache_lookup_any(route) {
            Some(i) => {
                let mut e: CacheEntry = self.entries[i];
                if e.retain < 255 {
                    e.retain = e.retain + 1;
                }
                self.entries[i] = e;
            },
            None => {},
        }
    }

    /// Count one reader of `route`'s entry less, never below none.
    pub fn cache_release_for_route(&mut self, route: u8)
        ensures
            final(self).tick == old(self).tick,
            final(self).entries@ == reader_count_changed(old(self).entries@, route, false),
    {
        match self.cache_lookup_any(route) {
            Some(i) => {
                let mut e: CacheEntry = self.entries[i];
                if e.retain > 0 {
                    e.retain = e.retain - 1;
                }
                self.entries[i] = e;
            },
            None => {},
        }
    }

    /// Drop every entry, and say where the inline bodies end.
    pub fn cache_evict_all(&mut self, routes: &Vec<Route>) -> (r: u32)
        requires
            ends_fit(routes@),
        ensures
            final(self).entries@.len() == 0,
            final(self).tick == old(self).tick,
            r == inline_end(routes@, routes@.len() as int),
    {
        self.entries.clear();
        let mut end: u32 = 0;
        let mut i: usize = 0;
        while i < routes.len()
            invariant
                i <= routes@.len(),
                ends_fit(routes@),
                end == inline_end(routes@, i as int),
            decreases routes@.len() - i,
        {
            if routes[i].source_index < 0 && routes[i].body_len > 0 {
                let e: u32 = routes[i].body_offset + routes[i].body_len;
                if e > end {
                    end = e;
                }
            }
            i += 1;
        }
        end
    }

    /// Take the pool region behind the inline bodies for a fresh fill of `route`.
    ///
    /// Refused, changing nothing, while a reader holds an entry: its region would be
    /// overwritten under it. Otherwise the new entry is the only one.
    pub fn cache_alloc(&mut self, routes: &Vec<Route>, route: u8) -> (r: bool)
        requires
            ends_fit(routes@),
        ensures
            r == !old(self).held(),
            !r ==> final(self).entries@ == old(self).entries@ && final(self).tick == old(
                self,
            ).tick,
            r ==> {
                &&& final(self).tick == old(self).tick.wrapping_add(1)
                &&& final(self).entries@ == seq![
                    CacheEntry {
                        route_index: route,
                        valid: true,
                        complete: false,
                        lru_tick: final(self).tick,
                        retain: 0,
                        arena_offset: inline_end(routes@, routes@.len() as int) as u32,
                        length: 0,
                    },
                ]
            },
    {
        if !self.cache_evictable() {
            return false;
        }
        let end: u32 = self.cache_evict_all(routes);
        self.tick = self.tick.wrapping_add(1);
        let e = CacheEntry {
            route_index: route,
            valid: true,
            complete: false,
            lru_tick: self.tick,
            retain: 0,
            arena_offset: end,
            length: 0,
        };
        self.entries.push(e);
        assert(self.entries@ =~= seq![e]);
        true
    }
}

/// `es` with the readers of `route`'s entry counted up or down by one.
pub open spec fn reader_count_changed(es: Seq<CacheEntry>, route: u8, up: bool) -> Seq<
    CacheEntry,
> {
    let i = entry_for(es, route, false, 0);
    if i >= es.len() {
        es
    } else {
        let n = es[i].retain;
        let retain = if up {
            if n < 255 {
                (n + 1) as u8
            } else {
                n
            }
        } else if n > 0 {
            (n - 1) as u8
        } else {
            0u8
        };
        es.update(i, CacheEntry { retain, ..es[i] })
    }
}

/// Taking a reader on and letting it go again leaves the cache as it was, short of
/// the 255 readers an entry can count.
pub proof fn law_retain_release_balance(es: Seq<CacheEntry>, route: u8)
    requires
        ({
            let i = entry_for(es, route, false, 0);
            i < es.len() ==> es[i].retain < 255
        }),
    ensures
        reader_count_changed(reader_count_changed(es, route, true), route, false) == es,
{
    let i = entry_for(es, route, false, 0);
    lemma_entry_for(es, route, 0);
    if i < es.len() {
        let up = reader_count_changed(es, route, true);
        lemma_same_entry(es, up, route, 0, i);
        assert(reader_count_changed(up, route, false) =~= es);
    }
}

proof fn lemma_entry_for(es: Seq<CacheEntry>, route: u8, from: int)
    requires
        0 <= from <= es.len(),
    ensures
        from <= entry_for(es, route, false, from) <= es.len(),
    decreases es.len() - from,
{
    if from < es.len() {
        lemma_entry_for(es, route, from + 1);
    }
}

proof fn lemma_same_entry(a: Seq<CacheEntry>, b: Seq<CacheEntry>, route: u8, from: int, i: int)
    requires
        0 <= from <= a.len(),
        0 <= i < a.len(),
        b == a.update(i, b[i]),
        b[i].valid == a[i].valid,
        b[i].complete == a[i].complete,
        b[i].route_index == a[i].route_index,
    ensures
        entry_for(a, route, false, from) == entry_for(b, route, false, from),
    decreases a.len() - from,
{
    if from < a.len() {
        lemma_same_entry(a, b, route, from + 1, i);
    }
}

// ── The shared file channel ─────────────────────────────────────────────

/// Who may drive the one file channel. A flush and a request on it belong
/// together, so one connection holds it for the whole fetch.
#[derive(Clone, Copy, PartialEq, Eq, Structural)]
pub struct FileLock {
    pub owner: Option<usize>,
}

impl FileLock {
    pub fn new() -> (r: FileLock)
        ensures
            r.owner is None,
    {
        FileLock { owner: None }
    }

    /// Take the channel for connection slot `slot`. Holding it already is success.
    pub fn try_acquire(&mut self, slot: usize) -> (r: bool)
        ensures
            r == (old(self).owner is None || old(self).owner == Some(slot)),
            final(self).owner == if r {
                Some(slot)
            } else {
                old(self).owner
            },
    {
        match self.owner {
            None => {
                self.owner = Some(slot);
                true
            },
            Some(o) => o == slot,
        }
    }

    /// Give the channel up. Nothing when `slot` does not hold it.
    pub fn release(&mut self, slot: usize)
        ensures
            final(self).owner == if old(self).owner == Some(slot) {
                None
            } else {
                old(self).owner
            },
    {
        if let Some(o) = self.owner {
            if o == slot {
                self.owner = None;
            }
        }
    }
}

// ── Fetching ────────────────────────────────────────────────────────────

/// What asking for a route's body came to.
#[derive(Clone, Copy, PartialEq, Eq, Structural)]
pub enum CacheLookup {
    /// The body is here; the route points at it and the caller holds the entry.
    Hit,
    /// Not here. The file channel is held and must be flushed and asked for this
    /// source; step the fetch until it is ready.
    Pending,
    /// Nothing to fetch from: fall back to an inline body.
    NoSource,
    /// The channel or the region is in use. Ask again later.
    Busy,
}

#[derive(Clone, Copy, PartialEq, Eq, Structural)]
pub enum CacheStepResult {
    Pending,
    Ready,
    Error,
}

/// What asking for the body of route `ri` comes to for connection slot `slot`.
pub open spec fn lookup_of(
    cache: ContentCache,
    lock: FileLock,
    routes: Seq<Route>,
    ri: int,
    slot: usize,
    chan_wired: bool,
) -> CacheLookup {
    if routes[ri].source_index < 0 || !chan_wired {
        CacheLookup::NoSource
    } else if entry_for(cache.entries@, ri as u8, true, 0) < cache.entries@.len() {
        CacheLookup::Hit
    } else if (lock.owner is None || lock.owner == Some(slot)) && !cache.held() {
        CacheLookup::Pending
    } else {
        CacheLookup::Busy
    }
}

/// Whether asking for the body of route `ri` has left cache, lock and routes as it
/// should: a hit is held and published on the route, a fetch takes the lock and the
/// region, and anything else changes nothing but gives the lock up.
pub open spec fn looked_up(
    old_cache: ContentCache,
    new_cache: ContentCache,
    old_lock: FileLock,
    new_lock: FileLock,
    old_routes: Seq<Route>,
    new_routes: Seq<Route>,
    ri: int,
    slot: usize,
    r: CacheLookup,
) -> bool {
    let i = entry_for(old_cache.entries@, ri as u8, true, 0);
    let e = old_cache.entries@[i];
    match r {
        CacheLookup::NoSource => new_cache == old_cache && new_lock == old_lock && new_routes
            == old_routes,
        CacheLookup::Busy => {
            &&& new_cache.entries@ == old_cache.entries@
            &&& new_cache.tick == old_cache.tick
            &&& new_routes == old_routes
            &&& new_lock.owner == if old_lock.owner == Some(slot) {
                None
            } else {
                old_lock.owner
            }
        },
        CacheLookup::Hit => {
            &&& new_lock == old_lock
            &&& new_cache.tick == old_cache.tick.wrapping_add(1)
            &&& new_cache.entries@ == old_cache.entries@.update(
                i,
                CacheEntry {
                    lru_tick: new_cache.tick,
                    retain: if e.retain < 255 {
                        (e.retain + 1) as u8
                    } else {
                        255u8
                    },
                    ..e
                },
            )
            &&& new_routes == old_routes.update(
                ri,
                Route { body_offset: e.arena_offset, body_len: e.length, ..old_routes[ri] },
            )
        },
        CacheLookup::Pending => {
            &&& new_lock.owner == Some(slot)
            &&& new_routes == old_routes
            &&& new_cache.tick == old_cache.tick.wrapping_add(1)
            &&& new_cache.entries@ == seq![
                CacheEntry {
                    route_index: ri as u8,
                    valid: true,
                    complete: false,
                    lru_tick: new_cache.tick,
                    retain: 0,
                    arena_offset: inline_end(old_routes, old_routes.len() as int) as u32,
                    length: 0,
                },
            ]
        },
    }
}

/// Look for the body of route `ri`, or begin fetching it for connection `slot`.
pub fn cache_try_or_fetch(
    cache: &mut ContentCache,
    lock: &mut FileLock,
    routes: &mut Vec<Route>,
    ri: usize,
    slot: usize,
    chan_wired: bool,
) -> (r: CacheLookup)
    requires
        ri < old(routes)@.len(),
        old(routes)@.len() <= MAX_ROUTES,
        ends_fit(old(routes)@),
    ensures
        r == lookup_of(*old(cache), *old(lock), old(routes)@, ri as int, slot, chan_wired),
        looked_up(
            *old(cache),
            *final(cache),
            *old(lock),
            *final(lock),
            old(routes)@,
            final(routes)@,
            ri as int,
            slot,
            r,
        ),
{
    if routes[ri].source_index < 0 || !chan_wired {
        return CacheLookup::NoSource;
    }
    match cache.cache_lookup(ri as u8) {
        Some(ci) => {
            cache.tick = cache.tick.wrapping_add(1);
            let mut e: CacheEntry = cache.entries[ci];
            e.lru_tick = cache.tick;
            if e.retain < 255 {
                e.retain = e.retain + 1;
            }
            cache.entries[ci] = e;
            routes[ri].body_offset = e.arena_offset;
            routes[ri].body_len = e.length;
            assert(routes@ =~= old(routes)@.update(
                ri as int,
                Route { body_offset: e.arena_offset, body_len: e.length, ..old(routes)@[ri as int] },
            ));
            return CacheLookup::Hit;
        },
        None => {},
    }
    if !lock.try_acquire(slot) {
        return CacheLookup::Busy;
    }
    if !cache.cache_alloc(routes, ri as u8) {
        lock.release(slot);
        return CacheLookup::Busy;
    }
    CacheLookup::Pending
}

/// What the fetch should do before its state moves.
#[derive(Clone, Copy, PartialEq, Eq, Structural)]
pub enum FetchAction {
    /// No channel, or nothing being fetched.
    Fail,
    /// Nothing has happened on the channel.
    Wait,
    /// Read at most this many bytes into the pool at `at`; possibly none.
    Read { at: usize, max: usize },
}

/// Decide the read of one fetch step from what polling the channel reported.
pub fn fetch_action(
    cache: &ContentCache,
    chan_wired: bool,
    in_ready: bool,
    hup: bool,
    pool_cap: usize,
) -> (r: FetchAction)
    ensures
        r is Fail <==> !chan_wired || cache.entries@.len() == 0,
        r is Wait <==> chan_wired && cache.entries@.len() > 0 && !in_ready && !hup,
        match r {
            FetchAction::Read { at, max } => {
                let used = cache.entries@[0].arena_offset + cache.entries@[0].length;
                let space = if in_ready && used < pool_cap {
                    pool_cap - used
                } else {
                    0
                };
                &&& max == if space < SEND_BUF_SIZE {
                    space
                } else {
                    SEND_BUF_SIZE as int
                }
                &&& max > 0 ==> at == used && at + max <= pool_cap
            },
            _ => true,
        },
{
    if !chan_wired || cache.entries.len() == 0 {
        return FetchAction::Fail;
    }
    if !in_ready && !hup {
        return FetchAction::Wait;
    }
    let used: u64 = cache.entries[0].arena_offset as u64 + cache.entries[0].length as u64;
    if !in_ready || used >= pool_cap as u64 {
        return FetchAction::Read { at: 0, max: 0 };
    }
    let at: usize = used as usize;
    let space: usize = pool_cap - at;
    let max: usize = if space < SEND_BUF_SIZE {
        space
    } else {
        SEND_BUF_SIZE
    };
    FetchAction::Read { at, max }
}

/// Settle one fetch step: `got` bytes arrived, and the channel was polled again
/// after the read. A hang-up ends the body only when nothing is left to read.
///
/// A finished body is marked whole, held for the reader that asked for it, and
/// published on the route the entry was taken for.
pub fn fetch_settle(
    cache: &mut ContentCache,
    routes: &mut Vec<Route>,
    got: u32,
    in_after: bool,
    hup_after: bool,
    pool_cap: usize,
) -> (r: CacheStepResult)
    requires
        old(cache).entries@.len() > 0,
        old(cache).entries@[0].length + got <= u32::MAX,
    ensures
        ({
            let e = old(cache).entries@[0];
            let length = (e.length + got) as u32;
            let full = e.arena_offset + length >= pool_cap;
            let done = (hup_after && !in_after) || full;
            let ri = e.route_index as int;
            &&& r is Ready <==> done
            &&& r is Pending <==> !done
            &&& final(cache).tick == old(cache).tick
            &&& final(cache).entries@ == old(cache).entries@.update(
                0,
                CacheEntry {
                    length,
                    complete: e.complete || done,
                    retain: if done && e.retain < 255 {
                        (e.retain + 1) as u8
                    } else {
                        e.retain
                    },
                    ..e
                },
            )
            &&& final(routes)@ == if done && ri < old(routes)@.len() {
                old(routes)@.update(
                    ri,
                    Route {
                        body_offset: e.arena_offset,
                        body_len: length,
                        ..old(routes)@[ri]
                    },
                )
            } else {
                old(routes)@
            }
        }),
{
    let mut e: CacheEntry = cache.entries[0];
    e.length = e.length + got;
    let full: bool = e.arena_offset as u64 + e.length as u64 >= pool_cap as u64;
    let done: bool = (hup_after && !in_after) || full;
    if done {
        e.complete = true;
        if e.retain < 255 {
            e.retain = e.retain + 1;
        }
    }
    cache.entries[0] = e;
    if !done {
        return CacheStepResult::Pending;
    }
    let ri: usize = e.route_index as usize;
    if ri < routes.len() {
        routes[ri].body_offset = e.arena_offset;
        routes[ri].body_len = e.length;
    }
    CacheStepResult::Ready
}

// ── What is found ───────────────────────────────────────────────────────

proof fn lemma_entry_found(es: Seq<CacheEntry>, route: u8, whole: bool, from: int)
    requires
        0 <= from <= es.len(),
    ensures
        ({
            let i = entry_for(es, route, whole, from);
            &&& from <= i <= es.len()
            &&& i < es.len() ==> es[i].valid && es[i].route_index == route && (whole
                ==> es[i].complete)
            &&& forall|k: int|
                from <= k < i ==> !((#[trigger] es[k]).valid && es[k].route_index == route && (whole
                    ==> es[k].complete))
        }),
    decreases es.len() - from,
{
    if from < es.len() && !(es[from].valid && es[from].route_index == route && (whole
        ==> es[from].complete)) {
        lemma_entry_found(es, route, whole, from + 1);
    }
}

/// A body is found in the cache where an entry holds it, whole if a whole one is asked for,
/// and the first such entry is found. Where none does, none is found.
pub proof fn law_cached_body_is_found(es: Seq<CacheEntry>, route: u8, whole: bool)
    ensures
        entry_for(es, route, whole, 0) < es.len() <==> exists|i: int|
            0 <= i < es.len() && (#[trigger] es[i]).valid && es[i].route_index == route && (whole
                ==> es[i].complete),
        forall|i: int|
            0 <= i < es.len() && (#[trigger] es[i]).valid && es[i].route_index == route && (whole
                ==> es[i].complete) ==> entry_for(es, route, whole, 0) <= i,
        forall|i: int|
            i == entry_for(es, route, whole, 0) && i < es.len() ==> 0 <= i && (
            #[trigger] es[i]).valid && es[i].route_index == route && (whole ==> es[i].complete),
{
    lemma_entry_found(es, route, whole, 0);
    let i = entry_for(es, route, whole, 0);
    if i < es.len() {
        assert(es[i].valid);
    }
}

proof fn lemma_inline_end(routes: Seq<Route>, upto: int)
    requires
        0 <= upto <= routes.len(),
    ensures
        0 <= inline_end(routes, upto),
        forall|i: int|
            0 <= i < upto && (#[trigger] routes[i]).source_index < 0 && routes[i].body_len > 0
                ==> routes[i].body_offset + routes[i].body_len <= inline_end(routes, upto),
        inline_end(routes, upto) > 0 ==> exists|i: int|
            0 <= i < upto && (#[trigger] routes[i]).source_index < 0 && routes[i].body_len > 0
                && inline_end(routes, upto) == routes[i].body_offset + routes[i].body_len,
    decreases upto,
{
    if upto > 0 {
        lemma_inline_end(routes, upto - 1);
        let r = routes[upto - 1];
        assert(r.source_index < 0 || r.source_index >= 0);
    }
}

/// No fetched body is put over an inline one: the inline bodies all end by where they are
/// said to, and one of them ends right there.
pub proof fn law_inline_bodies_end_there(routes: Seq<Route>)
    ensures
        forall|i: int|
            0 <= i < routes.len() && (#[trigger] routes[i]).source_index < 0 && routes[i].body_len
                > 0 ==> routes[i].body_offset + routes[i].body_len <= inline_end(
                routes,
                routes.len() as int,
            ),
        inline_end(routes, routes.len() as int) != 0 ==> exists|i: int|
            0 <= i < routes.len() && (#[trigger] routes[i]).source_index < 0 && routes[i].body_len
                > 0 && inline_end(routes, routes.len() as int) == routes[i].body_offset
                + routes[i].body_len,
{
    lemma_inline_end(routes, routes.len() as int);
}

/// While anybody reads a cached body, a lookup, whatever it is for, leaves every cached body
/// where it is and takes no reader away.
pub proof fn law_read_bodies_stay_where_they_are(
    old_cache: ContentCache,
    new_cache: ContentCache,
    old_lock: FileLock,
    new_lock: FileLock,
    old_routes: Seq<Route>,
    new_routes: Seq<Route>,
    ri: int,
    slot: usize,
    files: bool,
)
    requires
        old_cache.held(),
        looked_up(
            old_cache,
            new_cache,
            old_lock,
            new_lock,
            old_routes,
            new_routes,
            ri,
            slot,
            lookup_of(old_cache, old_lock, old_routes, ri, slot, files),
        ),
    ensures
        new_cache.entries@.len() == old_cache.entries@.len(),
        forall|k: int|
            0 <= k < old_cache.entries@.len() ==> {
                let a = old_cache.entries@[k];
                let b = #[trigger] new_cache.entries@[k];
                &&& b.valid == a.valid
                &&& b.route_index == a.route_index
                &&& b.complete == a.complete
                &&& b.arena_offset == a.arena_offset
                &&& b.length == a.length
                &&& b.retain >= a.retain
            },
{
    lemma_entry_found(old_cache.entries@, ri as u8, true, 0);
}

/// A body that is fetched goes behind every inline one, so that none is overwritten; and a
/// body that is found is served from where its own entry says it lies, with one reader more.
pub proof fn law_lookup_serves_its_own_body(
    old_cache: ContentCache,
    new_cache: ContentCache,
    old_lock: FileLock,
    new_lock: FileLock,
    old_routes: Seq<Route>,
    new_routes: Seq<Route>,
    ri: int,
    slot: usize,
    files: bool,
)
    requires
        0 <= ri < old_routes.len() <= MAX_ROUTES,
        ends_fit(old_routes),
        looked_up(
            old_cache,
            new_cache,
            old_lock,
            new_lock,
            old_routes,
            new_routes,
            ri,
            slot,
            lookup_of(old_cache, old_lock, old_routes, ri, slot, files),
        ),
    ensures
        ({
            let r = lookup_of(old_cache, old_lock, old_routes, ri, slot, files);
            &&& r is Pending ==> new_cache.entries@.len() == 1 && (forall|i: int|
                0 <= i < old_routes.len() && (#[trigger] old_routes[i]).source_index < 0
                    && old_routes[i].body_len > 0 ==> old_routes[i].body_offset
                    + old_routes[i].body_len <= new_cache.entries@[0].arena_offset)
            &&& r is Hit ==> exists|i: int|
                {
                    &&& 0 <= i < old_cache.entries@.len()
                    &&& (#[trigger] old_cache.entries@[i]).route_index == ri
                    &&& old_cache.entries@[i].valid && old_cache.entries@[i].complete
                    &&& new_routes[ri].body_offset == old_cache.entries@[i].arena_offset
                    &&& new_routes[ri].body_len == old_cache.entries@[i].length
                    &&& old_cache.entries@[i].retain < 255 ==> new_cache.entries@[i].retain
                        == old_cache.entries@[i].retain + 1
                }
            &&& forall|k: int|
                0 <= k < old_routes.len() && k != ri ==> #[trigger] new_routes[k] == old_routes[k]
        }),
{
    lemma_entry_found(old_cache.entries@, ri as u8, true, 0);
    lemma_inline_end(old_routes, old_routes.len() as int);
    let e = inline_end(old_routes, old_routes.len() as int);
    if e > 0 {
        let i = choose|i: int|
            0 <= i < old_routes.len() && (#[trigger] old_routes[i]).source_index < 0
                && old_routes[i].body_len > 0 && e == old_routes[i].body_offset
                + old_routes[i].body_len;
        assert(old_routes[i].body_offset + old_routes[i].body_len <= u32::MAX);
    }
    let r = lookup_of(old_cache, old_lock, old_routes, ri, slot, files);
    if r is Hit {
        let i = entry_for(old_cache.entries@, ri as u8, true, 0);
        assert(old_cache.entries@[i].route_index == ri);
    }
}

} // verus!
