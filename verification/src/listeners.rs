//! Listeners beyond the configured port.
//!
//! A table says which ports are wanted; bind records say what the network has
//! granted. Reconciling binds what is newly wanted and closes what is withdrawn. Only
//! cleartext listeners are bound; one marked for TLS is recorded and left alone.

use crate::bytes::{bytes_eq, clip, number_of, parse_u64, text};
use crate::fields::{dyn_field, dyn_u32, field_of, leading_u32};
use vstd::prelude::*;
use vstd::slice::slice_subrange;

verus! {

pub const MAX_DYN_LISTENERS: usize = 8;

/// Longest key that is stored.
pub const MAX_DYN_KEY: usize = 64;

/// Longest table prefix.
pub const MAX_DYN_PREFIX: usize = 64;

/// Wanted, and no bind issued yet.
pub const LISTENER_IDLE: u8 = 0;
/// A bind was issued; its answer is awaited.
pub const LISTENER_BINDING: u8 = 1;
/// Bound: connections on the port are accepted.
pub const LISTENER_BOUND: u8 = 2;
/// Refused: not retried, never accepts.
pub const LISTENER_REFUSED: u8 = 3;

/// One wanted listener.
#[derive(Clone, Copy)]
pub struct ListenerRow {
    pub key: [u8; 64],
    pub key_len: u8,
    pub port: u16,
    pub tls: bool,
    pub used: bool,
}

/// One wanted listener: the key as it is stored, the port and whether it is for TLS.
#[verifier::ext_equal]
pub struct RowModel {
    pub key: Seq<u8>,
    pub port: u16,
    pub tls: bool,
    pub used: bool,
}

impl View for ListenerRow {
    type V = RowModel;

    open spec fn view(&self) -> RowModel {
        RowModel {
            key: self.key@.take(self.key_len as int),
            port: self.port,
            tls: self.tls,
            used: self.used,
        }
    }
}

impl ListenerRow {
    pub open spec fn wf(self) -> bool {
        self.key_len <= MAX_DYN_KEY
    }

    pub open spec fn is_unused(self) -> bool {
        !self.used && self.port == 0 && !self.tls && self.key_len == 0
    }

    pub fn new() -> (r: ListenerRow)
        ensures
            r.is_unused(),
            r.wf(),
    {
        ListenerRow { key: [0; 64], key_len: 0, port: 0, tls: false, used: false }
    }

    fn has_key(&self, key: &[u8]) -> (r: bool)
        requires
            self.wf(),
        ensures
            r == (self@.key == key@),
    {
        let k = slice_subrange(self.key.as_slice(), 0, self.key_len as usize);
        assert(k@ =~= self@.key);
        bytes_eq(k, key)
    }
}

/// One bind record.
#[derive(Clone, Copy, PartialEq, Eq, Structural)]
pub struct BoundListener {
    pub port: u16,
    pub state: u8,
    pub used: bool,
    /// The network's listener, once bound; negative before.
    pub conn_id: i32,
}

impl BoundListener {
    pub open spec fn empty() -> BoundListener {
        BoundListener { port: 0, state: LISTENER_IDLE, used: false, conn_id: -1i32 }
    }

    pub fn new() -> (r: BoundListener)
        ensures
            r == BoundListener::empty(),
    {
        BoundListener { port: 0, state: LISTENER_IDLE, used: false, conn_id: -1 }
    }
}

/// The wanted listeners, a shadow set that a relist fills, and the bind records.
pub struct DynListeners {
    pub live: [ListenerRow; 8],
    pub shadow: [ListenerRow; 8],
    pub bound: [BoundListener; 8],
    /// Rows and binds dropped for want of room.
    pub dropped: u32,
}

/// The listener tables.
#[verifier::ext_equal]
pub struct ListenersModel {
    pub live: Seq<RowModel>,
    pub shadow: Seq<RowModel>,
    pub bound: Seq<BoundListener>,
    pub dropped: u32,
}

pub open spec fn rows(a: [ListenerRow; 8]) -> Seq<RowModel> {
    Seq::new(8, |i: int| a@[i]@)
}

pub open spec fn rows_wf(a: [ListenerRow; 8]) -> bool {
    forall|i: int| 0 <= i < 8 ==> (#[trigger] a@[i]).wf()
}

impl View for DynListeners {
    type V = ListenersModel;

    open spec fn view(&self) -> ListenersModel {
        ListenersModel {
            live: rows(self.live),
            shadow: rows(self.shadow),
            bound: self.bound@,
            dropped: self.dropped,
        }
    }
}

// ── The wanted set ──────────────────────────────────────────────────────

/// Where the last `b` in `s` before `to` stands, or -1.
pub open spec fn last_of(s: Seq<u8>, b: u8, to: int) -> int
    decreases to,
{
    if to <= 0 {
        -1
    } else if s[to - 1] == b {
        to - 1
    } else {
        last_of(s, b, to - 1)
    }
}

/// The port a key names: its last segment, read as a 16-bit number. Zero, which is
/// never bound, where the segment is no such number.
pub open spec fn port_of_key(key: Seq<u8>) -> u16 {
    match number_of(key.skip(last_of(key, 0x2f, key.len() as int) + 1)) {
        Some(n) => if n <= u16::MAX {
            n as u16
        } else {
            0
        },
        None => 0,
    }
}

/// Whether a value asks for TLS.
pub open spec fn wants_tls(value: Seq<u8>) -> bool {
    field_of(value, text("tls="), 0) matches Some(v) && leading_u32(v) != 0
}

fn listener_port_of_key(key: &[u8]) -> (r: u16)
    ensures
        r == port_of_key(key@),
{
    let n: usize = key.len();
    let mut at: usize = n;
    while at > 0 && key[at - 1] != 0x2f
        invariant
            at <= n,
            n == key@.len(),
            last_of(key@, 0x2f, at as int) == last_of(key@, 0x2f, n as int),
        decreases at,
    {
        at -= 1;
    }
    let seg = slice_subrange(key, at, n);
    assert(last_of(key@, 0x2f, n as int) == at - 1);
    assert(seg@ =~= key@.skip(last_of(key@, 0x2f, n as int) + 1));
    match parse_u64(seg) {
        Some(n) => if n <= 0xffff {
            n as u16
        } else {
            0
        },
        None => 0,
    }
}

/// The first used row with this key, from `from` on, or the number of rows.
pub open spec fn row_of(s: Seq<RowModel>, key: Seq<u8>, from: int) -> int
    decreases s.len() - from,
{
    if from < 0 || from >= s.len() {
        s.len() as int
    } else if s[from].used && s[from].key == key {
        from
    } else {
        row_of(s, key, from + 1)
    }
}

/// The first unused row, from `from` on, or the number of rows.
pub open spec fn free_row(s: Seq<RowModel>, from: int) -> int
    decreases s.len() - from,
{
    if from < 0 || from >= s.len() {
        s.len() as int
    } else if !s[from].used {
        from
    } else {
        free_row(s, from + 1)
    }
}

/// The row a key and value describe. A key is stored as far as there is room for it.
pub open spec fn row_for(key: Seq<u8>, value: Seq<u8>) -> RowModel {
    RowModel {
        key: clip(key, MAX_DYN_KEY as nat),
        port: port_of_key(key),
        tls: wants_tls(value),
        used: true,
    }
}

/// The rows after one is added or replaced. `None` when there is no room.
pub open spec fn upserted(s: Seq<RowModel>, key: Seq<u8>, value: Seq<u8>) -> Option<Seq<RowModel>> {
    let i = row_of(s, key, 0);
    let f = free_row(s, 0);
    if i < s.len() {
        Some(s.update(i, row_for(key, value)))
    } else if f < s.len() {
        Some(s.update(f, row_for(key, value)))
    } else {
        None
    }
}

/// The rows after one is withdrawn.
pub open spec fn withdrawn(s: Seq<RowModel>, key: Seq<u8>) -> Seq<RowModel> {
    let i = row_of(s, key, 0);
    if i < s.len() {
        s.update(i, RowModel { used: false, ..s[i] })
    } else {
        s
    }
}

/// Find a used row by its key.
fn find_row(a: &[ListenerRow; 8], key: &[u8]) -> (r: usize)
    requires
        rows_wf(*a),
    ensures
        r == row_of(rows(*a), key@, 0),
        r <= 8,
{
    let mut i: usize = 0;
    while i < 8
        invariant
            i <= 8,
            rows_wf(*a),
            row_of(rows(*a), key@, i as int) == row_of(rows(*a), key@, 0),
        decreases 8 - i,
    {
        assert(rows(*a)[i as int] == a@[i as int]@);
        assert(a@[i as int].wf());
        if a[i].used && a[i].has_key(key) {
            return i;
        }
        i += 1;
    }
    i
}

fn find_free_row(a: &[ListenerRow; 8]) -> (r: usize)
    ensures
        r == free_row(rows(*a), 0),
        r <= 8,
{
    let mut i: usize = 0;
    while i < 8
        invariant
            i <= 8,
            free_row(rows(*a), i as int) == free_row(rows(*a), 0),
        decreases 8 - i,
    {
        assert(rows(*a)[i as int] == a@[i as int]@);
        if !a[i].used {
            return i;
        }
        i += 1;
    }
    i
}

/// Make a row of a key and value.
fn make_row(key: &[u8], value: &[u8]) -> (r: ListenerRow)
    ensures
        r@ == row_for(key@, value@),
        r.wf(),
{
    let tls = match dyn_field(value, crate::bytes::lit("tls=")) {
        Some(v) => dyn_u32(v) != 0,
        None => false,
    };
    let mut r = ListenerRow::new();
    let n: usize = if key.len() > MAX_DYN_KEY {
        MAX_DYN_KEY
    } else {
        key.len()
    };
    let mut i: usize = 0;
    while i < n
        invariant
            i <= n <= 64,
            n <= key@.len(),
            forall|k: int| 0 <= k < i ==> r.key@[k] == key@[k],
        decreases n - i,
    {
        r.key[i] = key[i];
        i += 1;
    }
    r.key_len = n as u8;
    r.port = listener_port_of_key(key);
    r.tls = tls;
    r.used = true;
    assert(r@.key =~= clip(key@, MAX_DYN_KEY as nat));
    r
}

/// Add or replace a row. Returns false when there is no room.
fn upsert_row(a: &mut [ListenerRow; 8], key: &[u8], value: &[u8]) -> (ok: bool)
    requires
        rows_wf(*old(a)),
    ensures
        rows_wf(*final(a)),
        match upserted(rows(*old(a)), key@, value@) {
            Some(s) => ok && rows(*final(a)) == s,
            None => !ok && *final(a) == *old(a),
        },
{
    let mut i: usize = find_row(a, key);
    if i >= 8 {
        i = find_free_row(a);
    }
    if i >= 8 {
        return false;
    }
    let r = make_row(key, value);
    a[i] = r;
    assert(rows(*a) =~= rows(*old(a)).update(i as int, r@));
    true
}

fn remove_row(a: &mut [ListenerRow; 8], key: &[u8])
    requires
        rows_wf(*old(a)),
    ensures
        rows_wf(*final(a)),
        rows(*final(a)) == withdrawn(rows(*old(a)), key@),
{
    let i: usize = find_row(a, key);
    if i < 8 {
        let mut r = a[i];
        r.used = false;
        a[i] = r;
        assert(rows(*a) =~= withdrawn(rows(*old(a)), key@));
    }
}

/// A counter one further, wrapping.
pub open spec fn bumped(n: u32) -> u32 {
    if n == u32::MAX {
        0
    } else {
        (n + 1) as u32
    }
}

pub fn bump(n: u32) -> (r: u32)
    ensures
        r == bumped(n),
{
    n.wrapping_add(1)
}

// ── Bind records ────────────────────────────────────────────────────────

/// The first used bind record of `port`, from `from` on.
pub open spec fn bound_of(s: Seq<BoundListener>, port: u16, from: int) -> Option<int>
    decreases s.len() - from,
{
    if from < 0 || from >= s.len() {
        None
    } else if s[from].used && s[from].port == port {
        Some(from)
    } else {
        bound_of(s, port, from + 1)
    }
}

/// The first unused bind record, from `from` on.
pub open spec fn free_bound(s: Seq<BoundListener>, from: int) -> Option<int>
    decreases s.len() - from,
{
    if from < 0 || from >= s.len() {
        None
    } else if !s[from].used {
        Some(from)
    } else {
        free_bound(s, from + 1)
    }
}

/// Whether a bound listener owns `port`.
pub open spec fn owns_port(s: Seq<BoundListener>, port: u16) -> bool {
    exists|i: int|
        0 <= i < s.len() && (#[trigger] s[i]).used && s[i].state == LISTENER_BOUND && s[i].port
            == port
}

/// Whether a live row wants a cleartext listener on `port`.
pub open spec fn wanted(s: Seq<RowModel>, port: u16) -> bool {
    exists|i: int| 0 <= i < s.len() && (#[trigger] s[i]).used && s[i].port == port && !s[i].tls
}

/// No two used records name the same port.
pub open spec fn ports_apart(s: Seq<BoundListener>) -> bool {
    forall|i: int, j: int|
        0 <= i < s.len() && 0 <= j < s.len() && i != j && (#[trigger] s[i]).used && (
        #[trigger] s[j]).used ==> s[i].port != s[j].port
}

/// What reconciling one wanted row comes to.
#[derive(Clone, Copy, PartialEq, Eq, Structural)]
pub enum BindStep {
    /// Nothing to do for the row.
    Skip,
    /// There is no room for another bind record.
    Full,
    /// Issue a bind for `port`; it is tracked in record `record`.
    Bind { record: usize, port: u16 },
}

/// What reconciling row `li` comes to: a bind for a cleartext port that is wanted, is
/// not the configured one and is not tracked yet.
pub open spec fn bind_for(m: ListenersModel, li: int, static_port: u16) -> BindStep {
    let r = m.live[li];
    if !r.used || r.port == 0 || r.tls || r.port == static_port || bound_of(m.bound, r.port, 0)
        is Some {
        BindStep::Skip
    } else {
        match free_bound(m.bound, 0) {
            None => BindStep::Full,
            Some(i) => BindStep::Bind { record: i as usize, port: r.port },
        }
    }
}

/// The tables after a row has been reconciled.
pub open spec fn bind_done(m: ListenersModel, step: BindStep) -> ListenersModel {
    match step {
        BindStep::Skip => m,
        BindStep::Full => ListenersModel { dropped: bumped(m.dropped), ..m },
        BindStep::Bind { record, port } => ListenersModel {
            bound: m.bound.update(
                record as int,
                BoundListener { port, state: LISTENER_BINDING, used: true, conn_id: -1i32 },
            ),
            ..m
        },
    }
}

/// The tables after a bind has been granted. One for a port that is not tracked changes
/// nothing.
pub open spec fn bound_marked(m: ListenersModel, port: u16, conn_id: i32) -> ListenersModel {
    match bound_of(m.bound, port, 0) {
        Some(i) => ListenersModel {
            bound: m.bound.update(
                i,
                BoundListener { state: LISTENER_BOUND, conn_id, ..m.bound[i] },
            ),
            ..m
        },
        None => m,
    }
}

/// The tables after a bind has been refused.
pub open spec fn refused_marked(m: ListenersModel, port: u16) -> ListenersModel {
    match bound_of(m.bound, port, 0) {
        Some(i) => ListenersModel {
            bound: m.bound.update(i, BoundListener { state: LISTENER_REFUSED, ..m.bound[i] }),
            ..m
        },
        None => m,
    }
}

/// The listener to close when record `bi` is no longer wanted.
pub open spec fn close_for(m: ListenersModel, bi: int) -> Option<u16> {
    let b = m.bound[bi];
    if b.used && !wanted(m.live, b.port) && b.state == LISTENER_BOUND && b.conn_id >= 0 {
        Some(b.conn_id as u16)
    } else {
        None
    }
}

/// The tables after record `bi` has been dropped if it is no longer wanted.
pub open spec fn torn_down(m: ListenersModel, bi: int) -> ListenersModel {
    if m.bound[bi].used && !wanted(m.live, m.bound[bi].port) {
        ListenersModel { bound: m.bound.update(bi, BoundListener::empty()), ..m }
    } else {
        m
    }
}

impl DynListeners {
    pub open spec fn wf(self) -> bool {
        rows_wf(self.live) && rows_wf(self.shadow) && ports_apart(self.bound@)
    }

    pub fn new() -> (r: DynListeners)
        ensures
            r.wf(),
            forall|i: int| 0 <= i < 8 ==> !(#[trigger] r@.live[i]).used,
            forall|i: int| 0 <= i < 8 ==> !(#[trigger] r@.shadow[i]).used,
            forall|i: int| 0 <= i < 8 ==> (#[trigger] r@.bound[i]) == BoundListener::empty(),
            r@.dropped == 0,
    {
        let row = ListenerRow::new();
        let b = BoundListener::new();
        DynListeners { live: [row; 8], shadow: [row; 8], bound: [b; 8], dropped: 0 }
    }

    /// Add or replace a wanted listener, in the live set or in the shadow set.
    pub fn upsert(&mut self, key: &[u8], value: &[u8], shadow: bool)
        requires
            old(self).wf(),
        ensures
            final(self).wf(),
            final(self)@ == (match upserted(
                if shadow {
                    old(self)@.shadow
                } else {
                    old(self)@.live
                },
                key@,
                value@,
            ) {
                Some(s) => if shadow {
                    ListenersModel { shadow: s, ..old(self)@ }
                } else {
                    ListenersModel { live: s, ..old(self)@ }
                },
                None => ListenersModel { dropped: bumped(old(self).dropped), ..old(self)@ },
            }),
    {
        let ok = if shadow {
            upsert_row(&mut self.shadow, key, value)
        } else {
            upsert_row(&mut self.live, key, value)
        };
        if !ok {
            self.dropped = bump(self.dropped);
        }
    }

    /// Withdraw a wanted listener.
    pub fn remove(&mut self, key: &[u8], shadow: bool)
        requires
            old(self).wf(),
        ensures
            final(self).wf(),
            final(self)@ == if shadow {
                ListenersModel { shadow: withdrawn(old(self)@.shadow, key@), ..old(self)@ }
            } else {
                ListenersModel { live: withdrawn(old(self)@.live, key@), ..old(self)@ }
            },
    {
        if shadow {
            remove_row(&mut self.shadow, key);
        } else {
            remove_row(&mut self.live, key);
        }
    }

    /// Empty the shadow set.
    pub fn clear_shadow(&mut self)
        requires
            old(self).wf(),
        ensures
            final(self).wf(),
            final(self)@ == (ListenersModel {
                shadow: Seq::new(8, |i: int| RowModel { used: false, ..old(self)@.shadow[i] }),
                ..old(self)@
            }),
    {
        let mut i: usize = 0;
        while i < 8
            invariant
                i <= 8,
                rows_wf(self.shadow),
                self.live == old(self).live,
                self.bound == old(self).bound,
                self.dropped == old(self).dropped,
                forall|k: int|
                    0 <= k < 8 ==> (#[trigger] self.shadow@[k])@ == if k < i {
                        RowModel { used: false, ..old(self).shadow@[k]@ }
                    } else {
                        old(self).shadow@[k]@
                    },
            decreases 8 - i,
        {
            let mut r = self.shadow[i];
            r.used = false;
            self.shadow[i] = r;
            i += 1;
        }
        assert(self@.shadow =~= Seq::new(
            8,
            |i: int| RowModel { used: false, ..old(self)@.shadow[i] },
        ));
    }

    /// Put the shadow set in force. The bind records are not touched, so a relist never
    /// drops a listener that is up.
    pub fn swap_shadow(&mut self)
        requires
            old(self).wf(),
        ensures
            final(self).wf(),
            final(self)@ == (ListenersModel { live: old(self)@.shadow, ..old(self)@ }),
    {
        self.live = self.shadow;
    }

    /// Whether a bound listener owns `port`.
    pub fn port_is_bound(&self, port: u16) -> (r: bool)
        ensures
            r == owns_port(self@.bound, port),
    {
        let mut i: usize = 0;
        while i < 8
            invariant
                i <= 8,
                forall|k: int|
                    0 <= k < i ==> !((#[trigger] self.bound@[k]).used && self.bound@[k].state
                        == LISTENER_BOUND && self.bound@[k].port == port),
            decreases 8 - i,
        {
            let b = self.bound[i];
            if b.used && b.state == LISTENER_BOUND && b.port == port {
                assert(self@.bound[i as int].used);
                return true;
            }
            i += 1;
        }
        false
    }

    /// The bind record of `port`.
    pub fn bound_slot_for(&self, port: u16) -> (r: Option<usize>)
        ensures
            match r {
                Some(i) => bound_of(self@.bound, port, 0) == Some(i as int) && i < 8
                    && self.bound@[i as int].used && self.bound@[i as int].port == port,
                None => bound_of(self@.bound, port, 0) is None,
            },
    {
        let mut i: usize = 0;
        while i < 8
            invariant
                i <= 8,
                bound_of(self@.bound, port, i as int) == bound_of(self@.bound, port, 0),
            decreases 8 - i,
        {
            if self.bound[i].used && self.bound[i].port == port {
                return Some(i);
            }
            i += 1;
        }
        None
    }

    fn free_slot(&self) -> (r: Option<usize>)
        ensures
            match r {
                Some(i) => free_bound(self@.bound, 0) == Some(i as int) && i < 8
                    && !self.bound@[i as int].used,
                None => free_bound(self@.bound, 0) is None,
            },
    {
        let mut i: usize = 0;
        while i < 8
            invariant
                i <= 8,
                free_bound(self@.bound, i as int) == free_bound(self@.bound, 0),
            decreases 8 - i,
        {
            if !self.bound[i].used {
                return Some(i);
            }
            i += 1;
        }
        None
    }

    /// A bind was granted. One for a port that is not tracked is not ours.
    pub fn mark_bound(&mut self, port: u16, conn_id: i32)
        requires
            old(self).wf(),
        ensures
            final(self).wf(),
            final(self)@ == bound_marked(old(self)@, port, conn_id),
    {
        match self.bound_slot_for(port) {
            Some(i) => {
                let mut b = self.bound[i];
                b.state = LISTENER_BOUND;
                b.conn_id = conn_id;
                self.bound[i] = b;
            },
            None => {},
        }
    }

    /// A bind was refused. It is not retried.
    pub fn mark_refused(&mut self, port: u16)
        requires
            old(self).wf(),
        ensures
            final(self).wf(),
            final(self)@ == refused_marked(old(self)@, port),
    {
        match self.bound_slot_for(port) {
            Some(i) => {
                let mut b = self.bound[i];
                b.state = LISTENER_REFUSED;
                self.bound[i] = b;
            },
            None => {},
        }
    }

    /// Reconcile wanted row `li`: claim a bind record for it where one is due. The
    /// caller issues the bind and rolls back with `bind_failed` if it could not.
    pub fn bind_step(&mut self, li: usize, static_port: u16) -> (r: BindStep)
        requires
            old(self).wf(),
            li < 8,
        ensures
            final(self).wf(),
            r == bind_for(old(self)@, li as int, static_port),
            final(self)@ == bind_done(old(self)@, r),
            r matches BindStep::Bind { record, port } ==> record < 8,
    {
        proof {
            lemma_bound_of(self@.bound, self.live@[li as int].port, 0);
        }
        let row = self.live[li];
        assert(self@.live[li as int] == row@);
        if !row.used || row.port == 0 || row.tls || row.port == static_port {
            return BindStep::Skip;
        }
        if self.bound_slot_for(row.port).is_some() {
            return BindStep::Skip;
        }
        match self.free_slot() {
            None => {
                self.dropped = bump(self.dropped);
                BindStep::Full
            },
            Some(i) => {
                self.bound[i] = BoundListener {
                    port: row.port,
                    state: LISTENER_BINDING,
                    used: true,
                    conn_id: -1,
                };
                BindStep::Bind { record: i, port: row.port }
            },
        }
    }

    /// A bind could not be issued: forget it, so that a later pass tries again.
    pub fn bind_failed(&mut self, record: usize)
        requires
            old(self).wf(),
            record < 8,
        ensures
            final(self).wf(),
            final(self)@ == (ListenersModel {
                bound: old(self)@.bound.update(record as int, BoundListener::empty()),
                ..old(self)@
            }),
    {
        self.bound[record] = BoundListener::new();
    }

    fn is_wanted(&self, port: u16) -> (r: bool)
        ensures
            r == wanted(self@.live, port),
    {
        let mut i: usize = 0;
        while i < 8
            invariant
                i <= 8,
                forall|k: int|
                    0 <= k < i ==> !((#[trigger] self@.live[k]).used && self@.live[k].port == port
                        && !self@.live[k].tls),
            decreases 8 - i,
        {
            assert(self@.live[i as int] == self.live@[i as int]@);
            if self.live[i].used && self.live[i].port == port && !self.live[i].tls {
                return true;
            }
            i += 1;
        }
        false
    }

    /// Drop bind record `bi` if its port is no longer wanted. Returns the listener to
    /// close.
    pub fn teardown_step(&mut self, bi: usize) -> (r: Option<u16>)
        requires
            old(self).wf(),
            bi < 8,
        ensures
            final(self).wf(),
            r == close_for(old(self)@, bi as int),
            final(self)@ == torn_down(old(self)@, bi as int),
    {
        let b = self.bound[bi];
        if !b.used || self.is_wanted(b.port) {
            return None;
        }
        self.bound[bi] = BoundListener::new();
        if b.state == LISTENER_BOUND && b.conn_id >= 0 {
            Some(b.conn_id as u16)
        } else {
            None
        }
    }

    /// Empty tables.
    pub fn test_new() -> (r: DynListeners)
        ensures
            r.wf(),
            forall|i: int| 0 <= i < 8 ==> !(#[trigger] r@.live[i]).used,
            forall|i: int| 0 <= i < 8 ==> !(#[trigger] r@.shadow[i]).used,
            forall|i: int| 0 <= i < 8 ==> (#[trigger] r@.bound[i]) == BoundListener::empty(),
            r@.dropped == 0,
    {
        DynListeners::new()
    }

    /// Add or replace a row of the live set.
    pub fn test_program(&mut self, key: &[u8], value: &[u8])
        requires
            old(self).wf(),
        ensures
            final(self).wf(),
            final(self)@ == (match upserted(old(self)@.live, key@, value@) {
                Some(s) => ListenersModel { live: s, ..old(self)@ },
                None => ListenersModel { dropped: bumped(old(self).dropped), ..old(self)@ },
            }),
    {
        self.upsert(key, value, false);
    }

    /// Withdraw a row of the live set.
    pub fn test_remove(&mut self, key: &[u8])
        requires
            old(self).wf(),
        ensures
            final(self).wf(),
            final(self)@ == (ListenersModel {
                live: withdrawn(old(self)@.live, key@),
                ..old(self)@
            }),
    {
        self.remove(key, false);
    }

    /// State and listener of the bind record of `port`.
    pub fn test_bound_state(&self, port: u16) -> (r: Option<(u8, i32)>)
        ensures
            r == (match bound_of(self@.bound, port, 0) {
                Some(i) => Some((self@.bound[i].state, self@.bound[i].conn_id)),
                None => None,
            }),
    {
        match self.bound_slot_for(port) {
            Some(i) => Some((self.bound[i].state, self.bound[i].conn_id)),
            None => None,
        }
    }
}

/// What `bound_of` finds: no other used record names the port where it finds none.
pub proof fn lemma_bound_of(s: Seq<BoundListener>, port: u16, from: int)
    requires
        0 <= from <= s.len(),
    ensures
        match bound_of(s, port, from) {
            Some(i) => from <= i < s.len() && s[i].used && s[i].port == port,
            None => forall|k: int|
                from <= k < s.len() ==> !((#[trigger] s[k]).used && s[k].port == port),
        },
    decreases s.len() - from,
{
    if from < s.len() && !(s[from].used && s[from].port == port) {
        lemma_bound_of(s, port, from + 1);
    }
}

// ── Bind requests ───────────────────────────────────────────────────────

/// The payload of a bind request: the port, and the owner's tag where it has one.
pub open spec fn bind_payload(port: u16, owner_tag: u16) -> Seq<u8> {
    if owner_tag != 0 {
        crate::bytes::le16(port) + crate::bytes::le16(owner_tag)
    } else {
        crate::bytes::le16(port)
    }
}

pub fn fill_bind_payload(port: u16, owner_tag: u16) -> (r: Vec<u8>)
    ensures
        r@ == bind_payload(port, owner_tag),
{
    let mut v: Vec<u8> = Vec::new();
    v.push((port % 256) as u8);
    v.push((port / 256) as u8);
    if owner_tag != 0 {
        v.push((owner_tag % 256) as u8);
        v.push((owner_tag / 256) as u8);
    }
    assert(v@ =~= bind_payload(port, owner_tag));
    v
}

/// Whether connections on `port` are accepted: the configured port, or a bound
/// listener's.
pub fn is_listen_port(port: u16, static_port: u16, listeners: &DynListeners) -> (r: bool)
    ensures
        r == (port == static_port || owns_port(listeners@.bound, port)),
{
    port == static_port || listeners.port_is_bound(port)
}

/// A table prefix, as far as there is room for it.
pub fn set_listeners_prefix(value: &[u8]) -> (r: Vec<u8>)
    ensures
        r@ == clip(value@, MAX_DYN_PREFIX as nat),
{
    let mut v: Vec<u8> = Vec::new();
    crate::bytes::put_bytes(&mut v, MAX_DYN_PREFIX, value);
    assert(Seq::<u8>::empty() + value@ =~= value@);
    v
}

// ── Laws ────────────────────────────────────────────────────────────────

/// A port that is tracked is never bound again, refused or not, until its row is
/// withdrawn.
pub proof fn law_tracked_port_is_not_bound_again(m: ListenersModel, li: int, static_port: u16)
    requires
        0 <= li < m.live.len(),
        bound_of(m.bound, m.live[li].port, 0) is Some,
    ensures
        bind_for(m, li, static_port) is Skip,
{
}

/// Only a cleartext port that is wanted, and not the configured one, is bound; and no
/// two records come to name the same port.
pub proof fn law_only_wanted_ports_are_bound(m: ListenersModel, li: int, static_port: u16)
    requires
        0 <= li < m.live.len(),
        m.bound.len() <= usize::MAX,
        ports_apart(m.bound),
    ensures
        bind_for(m, li, static_port) matches BindStep::Bind { record, port } ==> wanted(
            m.live,
            port,
        ) && port != 0 && port != static_port,
        ports_apart(bind_done(m, bind_for(m, li, static_port)).bound),
{
    lemma_bound_of(m.bound, m.live[li].port, 0);
    lemma_free_bound(m.bound, 0);
}

proof fn lemma_free_bound(s: Seq<BoundListener>, from: int)
    requires
        0 <= from <= s.len(),
    ensures
        free_bound(s, from) matches Some(i) ==> from <= i < s.len() && !s[i].used,
    decreases s.len() - from,
{
    if from < s.len() && s[from].used {
        lemma_free_bound(s, from + 1);
    }
}

/// The tables after the records before `n` have been checked.
pub open spec fn swept(m: ListenersModel, n: nat) -> ListenersModel
    decreases n,
{
    if n == 0 {
        m
    } else {
        torn_down(swept(m, (n - 1) as nat), n - 1)
    }
}

/// After a sweep every record that is left is wanted, and a wanted one has not been
/// touched.
pub proof fn law_sweep_keeps_exactly_the_wanted(m: ListenersModel, n: nat)
    requires
        n <= m.bound.len(),
    ensures
        swept(m, n).live == m.live,
        swept(m, n).bound.len() == m.bound.len(),
        forall|i: int|
            0 <= i < m.bound.len() ==> (#[trigger] swept(m, n).bound[i]) == if i < n
                && m.bound[i].used && !wanted(m.live, m.bound[i].port) {
                BoundListener::empty()
            } else {
                m.bound[i]
            },
    decreases n,
{
    if n > 0 {
        law_sweep_keeps_exactly_the_wanted(m, (n - 1) as nat);
    }
}

/// What is added under a key is what a lookup of the key finds, and withdrawing the key
/// takes it out again. Keys longer than is stored are not found.
pub proof fn law_added_row_is_found(s: Seq<RowModel>, key: Seq<u8>, value: Seq<u8>)
    requires
        key.len() <= MAX_DYN_KEY,
        upserted(s, key, value) is Some,
    ensures
        ({
            let t = upserted(s, key, value)->0;
            let i = row_of(t, key, 0);
            &&& i < t.len()
            &&& t[i] == row_for(key, value)
            &&& withdrawn(t, key) == t.update(i, RowModel { used: false, ..t[i] })
        }),
{
    let t = upserted(s, key, value)->0;
    let i = row_of(s, key, 0);
    let f = free_row(s, 0);
    lemma_row_of(s, key, 0);
    lemma_free_row(s, 0);
    let at = if i < s.len() {
        i
    } else {
        f
    };
    lemma_row_of(t, key, 0);
    let j = row_of(t, key, 0);
    assert(t[at].used && t[at].key == key);
    if j < at {
        assert(t[j] == s[j]);
    }
}

proof fn lemma_row_of(s: Seq<RowModel>, key: Seq<u8>, from: int)
    requires
        0 <= from <= s.len(),
    ensures
        from <= row_of(s, key, from) <= s.len(),
        row_of(s, key, from) < s.len() ==> s[row_of(s, key, from)].used && s[row_of(
            s,
            key,
            from,
        )].key == key,
        forall|k: int|
            from <= k < row_of(s, key, from) ==> !((#[trigger] s[k]).used && s[k].key == key),
    decreases s.len() - from,
{
    if from < s.len() && !(s[from].used && s[from].key == key) {
        lemma_row_of(s, key, from + 1);
    }
}

proof fn lemma_free_row(s: Seq<RowModel>, from: int)
    requires
        0 <= from <= s.len(),
    ensures
        from <= free_row(s, from) <= s.len(),
        free_row(s, from) < s.len() ==> !s[free_row(s, from)].used,
    decreases s.len() - from,
{
    if from < s.len() && s[from].used {
        lemma_free_row(s, from + 1);
    }
}

/// A key names the port its last segment is the number of; a last segment that is none, or
/// one beyond 65535, names no port.
pub proof fn law_key_names_its_port(front: Seq<u8>, seg: Seq<u8>, port: u16)
    requires
        forall|i: int| 0 <= i < seg.len() ==> #[trigger] seg[i] != 0x2f,
    ensures
        seg == crate::bytes::decimal(port as nat) ==> port_of_key(front + seq![0x2fu8] + seg)
            == port && port_of_key(seg) == port,
        (exists|i: int| 0 <= i < seg.len() && !(0x30 <= #[trigger] seg[i] <= 0x39)) ==> port_of_key(
            front + seq![0x2fu8] + seg,
        ) == 0,
        (number_of(seg) matches Some(n) && n > 65535) ==> port_of_key(front + seq![0x2fu8] + seg)
            == 0,
{
    let key = front + seq![0x2fu8] + seg;
    let at = front.len() as int;
    assert forall|i: int| at < i < key.len() implies #[trigger] key[i] != 0x2f by {
        assert(key[i] == seg[i - at - 1]);
    }
    lemma_last_of(key, at, key.len() as int);
    assert(key.skip(at + 1) =~= seg);
    lemma_last_of(seg, -1, seg.len() as int);
    assert(seg.skip(0) =~= seg);
    crate::bytes::law_decimal_reads_back(port as u64);
    crate::bytes::law_only_digits_are_numbers(seg);
}

proof fn lemma_last_of(s: Seq<u8>, at: int, to: int)
    requires
        -1 <= at < to || at == -1 && to == 0,
        to <= s.len(),
        at >= 0 ==> s[at] == 0x2f,
        forall|i: int| at < i < to ==> #[trigger] s[i] != 0x2f,
    ensures
        last_of(s, 0x2f, to) == at,
    decreases to,
{
    if at + 1 < to {
        lemma_last_of(s, at, to - 1);
    }
}

/// A row asks for TLS exactly where its `tls` field begins with a number other than zero.
pub proof fn law_tls_is_asked_by_number(n: u32, rest: Seq<u8>)
    requires
        !rest.contains(0x3b),
        rest.len() == 0 || !(0x30 <= rest[0] <= 0x39),
    ensures
        wants_tls(text("tls=") + crate::bytes::decimal(n as nat) + rest) <==> n != 0,
{
    let d = crate::bytes::decimal(n as nat);
    let seg = text("tls=") + (d + rest);
    assert(text("tls=") + d + rest =~= seg);
    reveal_strlit("tls=");
    crate::bytes::lemma_text("tls=");
    crate::bytes::lemma_decimal(n as nat);
    assert(!seg.contains(0x3b)) by {
        if seg.contains(0x3b) {
            let i = choose|i: int| 0 <= i < seg.len() && seg[i] == 0x3b;
            if i >= 4 + d.len() {
                assert(rest[i - 4 - d.len()] == 0x3b);
            } else if i >= 4 {
                assert(crate::bytes::is_digit(d[i - 4]));
            }
        }
    }
    let segs = seq![seg];
    crate::fields::law_field_is_its_segment(segs, 0, text("tls="), d + rest);
    crate::fields::law_leading_number_is_read(n, rest);
}

/// A bind names its port, low byte first, and who asks only where somebody is named.
pub proof fn law_bind_names_its_port(lo: u8, hi: u8, tag_lo: u8, tag_hi: u8)
    ensures
        ({
            let port = (lo + 256 * hi) as u16;
            let tag = (tag_lo + 256 * tag_hi) as u16;
            &&& bind_payload(port, 0) == seq![lo, hi]
            &&& tag != 0 ==> bind_payload(port, tag) == seq![lo, hi, tag_lo, tag_hi]
        }),
{
    let port = (lo + 256 * hi) as u16;
    let tag = (tag_lo + 256 * tag_hi) as u16;
    assert(port % 256 == lo && port / 256 == hi);
    assert(tag % 256 == tag_lo && tag / 256 == tag_hi);
    assert(bind_payload(port, 0) =~= seq![lo, hi]);
    if tag != 0 {
        assert(bind_payload(port, tag) =~= seq![lo, hi, tag_lo, tag_hi]);
    }
}

proof fn lemma_free_record(s: Seq<BoundListener>, from: int)
    requires
        0 <= from <= s.len(),
    ensures
        match free_bound(s, from) {
            Some(i) => from <= i < s.len() && !s[i].used,
            None => forall|k: int| from <= k < s.len() ==> (#[trigger] s[k]).used,
        },
    decreases s.len() - from,
{
    if from < s.len() && s[from].used {
        lemma_free_record(s, from + 1);
    }
}

/// A plain port that a row asks for, and that is not bound yet, is bound where there is room
/// to keep track of it.
pub proof fn law_wanted_port_is_bound(m: ListenersModel, li: int, static_port: u16, room: int)
    requires
        0 <= li < m.live.len(),
        m.live[li].used,
        !m.live[li].tls,
        m.live[li].port != 0,
        m.live[li].port != static_port,
        bound_of(m.bound, m.live[li].port, 0) is None,
        m.bound.len() <= usize::MAX,
    ensures
        0 <= room < m.bound.len() && !m.bound[room].used ==> (bind_for(m, li, static_port)
            matches BindStep::Bind { record, port } && port == m.live[li].port && record
            < m.bound.len() && !m.bound[record as int].used),
        (forall|k: int| 0 <= k < m.bound.len() ==> (#[trigger] m.bound[k]).used) ==> bind_for(
            m,
            li,
            static_port,
        ) is Full,
{
    lemma_free_record(m.bound, 0);
    if 0 <= room < m.bound.len() && !m.bound[room].used {
        assert(!m.bound[room].used);
    }
}

} // verus!
