//! Configuration: routes and their bodies, as they arrive one parameter at a time.

use crate::bytes::{clip, extend, get_u16, get_u32, put_bytes, u16_at, u32_at};
use crate::cache::VarTable;
use crate::listeners::MAX_DYN_PREFIX;
use crate::reqbody::{doubled, doubled_to, lemma_doubled};
use crate::routes::{
    Route, HANDLER_FS_FILE, HANDLER_FS_LIST, HANDLER_STATIC, MAX_CONTENT_TYPE, MAX_FS_FILTER, MAX_FS_PATH, MAX_PATH, MAX_ROUTES,
};
use crate::site::{route_wf, Site};
use vstd::prelude::*;
use vstd::slice::slice_subrange;

verus! {

/// Room first reserved for route bodies.
pub const DEFAULT_BODY_POOL_SIZE: u32 = 262144;

/// What a server serves beside its named routes.
#[derive(Clone, Copy, PartialEq, Eq, Structural, Debug)]
pub enum Fallback {
    /// Its named routes only.
    Routes,
    /// One page.
    Page,
    /// The index of its files.
    Files,
}

/// A site being configured.
pub struct SiteConfig {
    pub routes: Vec<Route>,
    /// How many of the routes are in use.
    pub count: usize,
    /// Route bodies, one after another.
    pub pool: Vec<u8>,
    pub pool_cap: u32,
    pub routes_prefix: Vec<u8>,
}

/// `value` cut to `cap` bytes.
fn cut(value: &[u8], cap: usize) -> (r: Vec<u8>)
    ensures
        r@ == clip(value@, cap as nat),
        r@.len() <= cap,
{
    let mut v: Vec<u8> = Vec::new();
    put_bytes(&mut v, cap, value);
    assert(Seq::<u8>::empty() + value@ =~= value@);
    v
}

/// A number of one byte, or the default when there is none.
pub open spec fn u8_or(value: Seq<u8>, default: u8) -> u8 {
    if value.len() >= 1 {
        value[0]
    } else {
        default
    }
}

/// A number of two bytes, or the default when there are fewer.
pub open spec fn u16_or(value: Seq<u8>, default: u16) -> u16 {
    if value.len() >= 2 {
        u16_at(value, 0)
    } else {
        default
    }
}

/// A number of four bytes, or the default when there are fewer.
pub open spec fn u32_or(value: Seq<u8>, default: u32) -> u32 {
    if value.len() >= 4 {
        u32_at(value, 0)
    } else {
        default
    }
}

/// A file index from its two bytes, in two's complement.
pub open spec fn signed16(v: u16) -> i16 {
    if v < 0x8000 {
        v as i16
    } else {
        (v - 0x1_0000) as i16
    }
}

impl SiteConfig {
    pub open spec fn wf(self) -> bool {
        &&& self.routes@.len() == MAX_ROUTES
        &&& self.count <= MAX_ROUTES
        &&& self.pool@.len() <= self.pool_cap
        &&& self.routes_prefix@.len() <= MAX_DYN_PREFIX
        &&& forall|i: int|
            0 <= i < MAX_ROUTES ==> route_wf(#[trigger] self.routes@[i], self.pool@.len())
    }

    /// Whether this differs from `other` in route `idx` alone.
    pub open spec fn only_route(self, other: SiteConfig, idx: int) -> bool {
        &&& self == (SiteConfig { routes: self.routes, ..other })
        &&& self.routes@.len() == other.routes@.len()
        &&& forall|i: int|
            0 <= i < other.routes@.len() && i != idx ==> #[trigger] self.routes@[i]
                == other.routes@[i]
    }

    /// The body of route `i`.
    pub open spec fn body_of(self, i: int) -> Seq<u8> {
        self.pool@.subrange(
            self.routes@[i].body_offset as int,
            self.routes@[i].body_offset + self.routes@[i].body_len,
        )
    }

    /// No routes.
    pub fn new() -> (r: SiteConfig)
        ensures
            r.wf(),
            r.count == 0,
            r.pool@.len() == 0,
            r.pool_cap == DEFAULT_BODY_POOL_SIZE,
            r.routes_prefix@.len() == 0,
            forall|i: int| 0 <= i < MAX_ROUTES ==> (#[trigger] r.routes@[i]).body_len == 0,
    {
        let mut routes: Vec<Route> = Vec::new();
        let mut i: usize = 0;
        while i < MAX_ROUTES
            invariant
                i <= MAX_ROUTES,
                routes@.len() == i,
                forall|k: int| 0 <= k < i ==> route_wf(#[trigger] routes@[k], 0),
                forall|k: int| 0 <= k < i ==> (#[trigger] routes@[k]).body_len == 0,
            decreases MAX_ROUTES - i,
        {
            routes.push(Route::new());
            i += 1;
        }
        SiteConfig {
            routes,
            count: 0,
            pool: Vec::new(),
            pool_cap: DEFAULT_BODY_POOL_SIZE,
            routes_prefix: Vec::new(),
        }
    }

    /// The table prefix dynamic routes are read under; empty for none.
    pub fn set_routes_prefix(&mut self, value: &[u8])
        requires
            old(self).wf(),
        ensures
            *final(self) == (SiteConfig {
                routes_prefix: final(self).routes_prefix,
                ..*old(self)
            }),
            final(self).routes_prefix@ == clip(value@, MAX_DYN_PREFIX as nat),
            final(self).wf(),
    {
        self.routes_prefix = cut(value, MAX_DYN_PREFIX);
    }

    /// The path of a route. Naming one brings it, and those before it, into use.
    pub fn parse_route_path(&mut self, idx: usize, value: &[u8])
        requires
            old(self).wf(),
        ensures
            final(self).wf(),
            if idx >= MAX_ROUTES || value@.len() == 0 {
                *final(self) == *old(self)
            } else {
                &&& final(self).only_route(
                    SiteConfig {
                        count: if idx + 1 > old(self).count {
                            (idx + 1) as usize
                        } else {
                            old(self).count
                        },
                        ..*old(self)
                    },
                    idx as int,
                )
                &&& final(self).routes@[idx as int] == (Route {
                    path: final(self).routes@[idx as int].path,
                    ..old(self).routes@[idx as int]
                })
                &&& final(self).routes@[idx as int].path@ == clip(value@, MAX_PATH as nat)
            },
    {
        if idx >= MAX_ROUTES || value.len() == 0 {
            return;
        }
        assert(route_wf(self.routes@[idx as int], self.pool@.len()));
        self.routes[idx].path = cut(value, MAX_PATH);
        if idx + 1 > self.count {
            self.count = idx + 1;
        }
    }

    /// The room the pool has once `needed` bytes are in it.
    pub open spec fn pool_room(self, needed: u32) -> u32 {
        if needed <= self.pool_cap {
            self.pool_cap
        } else {
            doubled(
                if self.pool_cap == 0 {
                    1
                } else {
                    self.pool_cap
                },
                needed,
            )
        }
    }

    /// How much of a piece of body is stored: all of it, unless the pool is too small
    /// and cannot grow.
    pub open spec fn stored(self, value: Seq<u8>, grows: bool) -> Seq<u8> {
        if self.pool@.len() + value.len() <= self.pool_cap || grows {
            value
        } else {
            value.take(self.pool_cap - self.pool@.len())
        }
    }

    /// A piece of a route's body: appended to the pool, which doubles until it fits.
    /// `grows` says whether more memory is to be had; without it the piece is cut.
    pub fn parse_route_body(&mut self, idx: usize, value: &[u8], grows: bool)
        requires
            old(self).wf(),
            old(self).pool@.len() + value@.len() <= u32::MAX,
        ensures
            final(self).wf(),
            ({
                let kept = old(self).stored(value@, grows);
                let r = old(self).routes@[idx as int];
                if idx >= MAX_ROUTES || kept.len() == 0 {
                    *final(self) == *old(self)
                } else {
                    &&& final(self).only_route(
                        SiteConfig {
                            pool: final(self).pool,
                            pool_cap: final(self).pool_cap,
                            ..*old(self)
                        },
                        idx as int,
                    )
                    &&& final(self).pool@ == old(self).pool@ + kept
                    &&& final(self).pool_cap == if kept.len() == value@.len() {
                        old(self).pool_room((old(self).pool@.len() + value@.len()) as u32)
                    } else {
                        old(self).pool_cap
                    }
                    &&& final(self).routes@[idx as int] == (Route {
                        body_offset: if r.body_len == 0 {
                            old(self).pool@.len() as u32
                        } else {
                            r.body_offset
                        },
                        body_len: (r.body_len + kept.len()) as u32,
                        ..r
                    })
                }
            }),
    {
        if idx >= MAX_ROUTES || value.len() == 0 {
            return;
        }
        let offset: usize = self.pool.len();
        let needed: usize = offset + value.len();
        let mut n: usize = value.len();
        assert(value@.take(n as int) =~= value@);
        if needed > self.pool_cap as usize {
            if grows {
                let first: u32 = if self.pool_cap == 0 {
                    1
                } else {
                    self.pool_cap
                };
                proof {
                    lemma_doubled(first, needed as u32);
                }
                self.pool_cap = doubled_to(first, needed as u32);
            } else {
                n = self.pool_cap as usize - offset;
                if n == 0 {
                    return;
                }
            }
        }
        let piece = slice_subrange(value, 0, n);
        assert(piece@ =~= old(self).stored(value@, grows));
        assert(route_wf(self.routes@[idx as int], self.pool@.len()));
        extend(&mut self.pool, piece);
        if self.routes[idx].body_len == 0 {
            self.routes[idx].body_offset = offset as u32;
        }
        self.routes[idx].body_len = self.routes[idx].body_len + n as u32;
        assert forall|i: int| 0 <= i < MAX_ROUTES implies route_wf(
            #[trigger] self.routes@[i],
            self.pool@.len(),
        ) by {
            assert(route_wf(old(self).routes@[i], old(self).pool@.len()));
        }
    }

    pub fn set_route_handler(&mut self, idx: usize, value: &[u8])
        requires
            old(self).wf(),
        ensures
            final(self).wf(),
            if idx >= MAX_ROUTES {
                *final(self) == *old(self)
            } else {
                &&& final(self).only_route(*old(self), idx as int)
                &&& final(self).routes@[idx as int] == (Route {
                    handler: u8_or(value@, 0),
                    ..old(self).routes@[idx as int]
                })
            },
    {
        if idx < MAX_ROUTES {
            assert(route_wf(self.routes@[idx as int], self.pool@.len()));
            self.routes[idx].handler = if value.len() >= 1 {
                value[0]
            } else {
                0
            };
        }
    }

    pub fn set_route_proxy_ip(&mut self, idx: usize, value: &[u8])
        requires
            old(self).wf(),
        ensures
            final(self).wf(),
            if idx >= MAX_ROUTES {
                *final(self) == *old(self)
            } else {
                &&& final(self).only_route(*old(self), idx as int)
                &&& final(self).routes@[idx as int] == (Route {
                    proxy_ip: u32_or(value@, 0),
                    ..old(self).routes@[idx as int]
                })
            },
    {
        if idx < MAX_ROUTES {
            assert(route_wf(self.routes@[idx as int], self.pool@.len()));
            self.routes[idx].proxy_ip = if value.len() >= 4 {
                get_u32(value, 0)
            } else {
                0
            };
        }
    }

    pub fn set_route_proxy_port(&mut self, idx: usize, value: &[u8])
        requires
            old(self).wf(),
        ensures
            final(self).wf(),
            if idx >= MAX_ROUTES {
                *final(self) == *old(self)
            } else {
                &&& final(self).only_route(*old(self), idx as int)
                &&& final(self).routes@[idx as int] == (Route {
                    proxy_port: u16_or(value@, 0),
                    ..old(self).routes@[idx as int]
                })
            },
    {
        if idx < MAX_ROUTES {
            assert(route_wf(self.routes@[idx as int], self.pool@.len()));
            self.routes[idx].proxy_port = if value.len() >= 2 {
                get_u16(value, 0)
            } else {
                0
            };
        }
    }

    /// The file behind a route; all ones, or nothing, for none.
    pub fn set_route_source(&mut self, idx: usize, value: &[u8])
        requires
            old(self).wf(),
        ensures
            final(self).wf(),
            if idx >= MAX_ROUTES {
                *final(self) == *old(self)
            } else {
                &&& final(self).only_route(*old(self), idx as int)
                &&& final(self).routes@[idx as int] == (Route {
                    source_index: signed16(u16_or(value@, 0xffff)),
                    ..old(self).routes@[idx as int]
                })
            },
    {
        if idx < MAX_ROUTES {
            assert(route_wf(self.routes@[idx as int], self.pool@.len()));
            let v: u16 = if value.len() >= 2 {
                get_u16(value, 0)
            } else {
                0xffff
            };
            self.routes[idx].source_index = if v < 0x8000 {
                v as i16
            } else {
                (v as i32 - 0x1_0000) as i16
            };
        }
    }

    pub fn parse_route_content_type(&mut self, idx: usize, value: &[u8])
        requires
            old(self).wf(),
        ensures
            final(self).wf(),
            if idx >= MAX_ROUTES {
                *final(self) == *old(self)
            } else {
                &&& final(self).only_route(*old(self), idx as int)
                &&& final(self).routes@[idx as int] == (Route {
                    content_type: final(self).routes@[idx as int].content_type,
                    ..old(self).routes@[idx as int]
                })
                &&& final(self).routes@[idx as int].content_type@ == clip(
                    value@,
                    MAX_CONTENT_TYPE as nat,
                )
            },
    {
        if idx < MAX_ROUTES {
            assert(route_wf(self.routes@[idx as int], self.pool@.len()));
            self.routes[idx].content_type = cut(value, MAX_CONTENT_TYPE);
        }
    }

    /// The file or directory behind a route, served by `handler`.
    fn set_fs(&mut self, idx: usize, value: &[u8], handler: u8)
        requires
            old(self).wf(),
        ensures
            final(self).wf(),
            fs_set(*old(self), *final(self), idx as int, value@, handler),
    {
        if idx < MAX_ROUTES {
            assert(route_wf(self.routes@[idx as int], self.pool@.len()));
            self.routes[idx].fs_path = cut(value, MAX_FS_PATH);
            if value.len() > 0 {
                self.routes[idx].handler = handler;
            }
        }
    }

    /// The file a route serves. Naming one makes it a file route.
    pub fn set_route_fs_path(&mut self, idx: usize, value: &[u8])
        requires
            old(self).wf(),
        ensures
            final(self).wf(),
            fs_set(*old(self), *final(self), idx as int, value@, HANDLER_FS_FILE),
    {
        self.set_fs(idx, value, HANDLER_FS_FILE);
    }

    /// The directory a route lists. Naming one makes it a listing route.
    pub fn set_route_fs_list(&mut self, idx: usize, value: &[u8])
        requires
            old(self).wf(),
        ensures
            final(self).wf(),
            fs_set(*old(self), *final(self), idx as int, value@, HANDLER_FS_LIST),
    {
        self.set_fs(idx, value, HANDLER_FS_LIST);
    }

    /// The extensions a listing keeps.
    pub fn set_route_fs_filter(&mut self, idx: usize, value: &[u8])
        requires
            old(self).wf(),
        ensures
            final(self).wf(),
            if idx >= MAX_ROUTES {
                *final(self) == *old(self)
            } else {
                &&& final(self).only_route(*old(self), idx as int)
                &&& final(self).routes@[idx as int] == (Route {
                    fs_filter: final(self).routes@[idx as int].fs_filter,
                    ..old(self).routes@[idx as int]
                })
                &&& final(self).routes@[idx as int].fs_filter@ == clip(
                    value@,
                    MAX_FS_FILTER as nat,
                )
            },
    {
        if idx < MAX_ROUTES {
            assert(route_wf(self.routes@[idx as int], self.pool@.len()));
            self.routes[idx].fs_filter = cut(value, MAX_FS_FILTER);
        }
    }

    /// What a server without named routes serves: a body that was given without a path
    /// becomes the page `/`; without one, the file channel's index where there is a
    /// channel.
    pub fn settle(&mut self, files: bool) -> (r: Fallback)
        requires
            old(self).wf(),
        ensures
            final(self).wf(),
            ({
                let bare = old(self).count == 0;
                let page = old(self).routes@[0].body_len > 0;
                &&& r == if bare && page {
                    Fallback::Page
                } else if bare && files {
                    Fallback::Files
                } else {
                    Fallback::Routes
                }
                &&& if r is Page {
                    &&& final(self).only_route(SiteConfig { count: 1, ..*old(self) }, 0)
                    &&& final(self).routes@[0] == (Route {
                        path: final(self).routes@[0].path,
                        handler: HANDLER_STATIC,
                        ..old(self).routes@[0]
                    })
                    &&& final(self).routes@[0].path@ == seq![0x2fu8]
                } else {
                    *final(self) == *old(self)
                }
            }),
    {
        if self.count > 0 {
            return Fallback::Routes;
        }
        assert(route_wf(self.routes@[0], self.pool@.len()));
        if self.routes[0].body_len > 0 {
            let mut path: Vec<u8> = Vec::new();
            path.push(0x2f);
            assert(path@ =~= seq![0x2fu8]);
            self.routes[0].path = path;
            self.routes[0].handler = HANDLER_STATIC;
            self.count = 1;
            return Fallback::Page;
        }
        if files {
            Fallback::Files
        } else {
            Fallback::Routes
        }
    }

    /// The site as configured, with no variables set.
    pub fn finish(self) -> (r: Site)
        requires
            self.wf(),
        ensures
            r.wf(),
            r.routes@ == self.routes@.take(self.count as int),
            r.pool@ == self.pool@,
            forall|h: u32| r.vars.value_of(h) is None,
            forall|i: int| 0 <= i < self.count ==> #[trigger] r.body_of(i) == self.body_of(i),
    {
        let ghost all = self.routes@;
        let count: usize = self.count;
        let mut routes = self.routes;
        while routes.len() > count
            invariant
                count <= routes@.len() <= all.len(),
                routes@ == all.take(routes@.len() as int),
            decreases routes@.len(),
        {
            let last = routes.pop();
            assert(routes@ =~= all.take(routes@.len() as int));
        }
        Site { routes, pool: self.pool, vars: VarTable::new() }
    }
}

/// Whether a file or directory has been set behind a route.
pub open spec fn fs_set(
    before: SiteConfig,
    after: SiteConfig,
    idx: int,
    value: Seq<u8>,
    handler: u8,
) -> bool {
    if idx >= MAX_ROUTES {
        after == before
    } else {
        &&& after.only_route(before, idx)
        &&& after.routes@[idx] == (Route {
            fs_path: after.routes@[idx].fs_path,
            handler: if value.len() > 0 {
                handler
            } else {
                before.routes@[idx].handler
            },
            ..before.routes@[idx]
        })
        &&& after.routes@[idx].fs_path@ == clip(value, MAX_FS_PATH as nat)
    }
}

/// Stage a body of any length for a route.
pub fn test_stage_route_body(cfg: &mut SiteConfig, idx: usize, body: &[u8])
    requires
        old(cfg).wf(),
        old(cfg).pool@.len() + body@.len() <= u32::MAX,
    ensures
        final(cfg).wf(),
        staged(*old(cfg), *final(cfg), idx as int, body@),
{
    cfg.parse_route_body(idx, body, true);
}

/// Whether a piece of body has been staged whole for route `idx`.
pub open spec fn staged(before: SiteConfig, after: SiteConfig, idx: int, body: Seq<u8>) -> bool {
    let r = before.routes@[idx];
    if idx >= MAX_ROUTES || body.len() == 0 {
        after == before
    } else {
        &&& after.only_route(
            SiteConfig { pool: after.pool, pool_cap: after.pool_cap, ..before },
            idx,
        )
        &&& after.pool@ == before.pool@ + body
        &&& after.pool_cap == before.pool_room((before.pool@.len() + body.len()) as u32)
        &&& after.routes@[idx] == (Route {
            body_offset: if r.body_len == 0 {
                before.pool@.len() as u32
            } else {
                r.body_offset
            },
            body_len: (r.body_len + body.len()) as u32,
            ..r
        })
    }
}

/// Where a route's body lies, how long it is, and the room of the pool.
pub fn test_route_body_extent(cfg: &SiteConfig, idx: usize) -> (r: (u32, u32, u32))
    requires
        cfg.wf(),
        idx < MAX_ROUTES,
    ensures
        r == (
            cfg.routes@[idx as int].body_offset,
            cfg.routes@[idx as int].body_len,
            cfg.pool_cap,
        ),
{
    (cfg.routes[idx].body_offset, cfg.routes[idx].body_len, cfg.pool_cap)
}

/// Staging a body leaves the bodies of all other routes as they are, whether or not
/// the pool had to grow; and a route whose body ends the pool gets the piece appended
/// to it.
pub proof fn law_staging_preserves_bodies(
    before: SiteConfig,
    after: SiteConfig,
    idx: int,
    body: Seq<u8>,
)
    requires
        before.wf(),
        after.wf(),
        0 <= idx < MAX_ROUTES,
        before.pool@.len() + body.len() <= u32::MAX,
        staged(before, after, idx, body),
    ensures
        forall|i: int|
            0 <= i < MAX_ROUTES && i != idx ==> #[trigger] after.body_of(i) == before.body_of(i),
        before.routes@[idx].body_len == 0 ==> after.body_of(idx) == body,
        before.routes@[idx].body_offset + before.routes@[idx].body_len == before.pool@.len()
            ==> after.body_of(idx) == before.body_of(idx) + body,
{
    assert forall|i: int| 0 <= i < MAX_ROUTES && i != idx implies #[trigger] after.body_of(i)
        == before.body_of(i) by {
        assert(route_wf(before.routes@[i], before.pool@.len()));
        assert(after.body_of(i) =~= before.body_of(i));
    }
    assert(route_wf(before.routes@[idx], before.pool@.len()));
    assert(route_wf(after.routes@[idx], after.pool@.len()));
    if before.routes@[idx].body_len == 0 {
        assert(after.body_of(idx) =~= body);
    }
    if before.routes@[idx].body_offset + before.routes@[idx].body_len == before.pool@.len() {
        assert(after.body_of(idx) =~= before.body_of(idx) + body);
    }
}

/// A parameter is the number that its first bytes make, low byte first; one with too few
/// bytes is the default. A source of all ones is none.
pub proof fn law_parameters_are_their_bytes(a: u8, b: u8, c: u8, d: u8, rest: Seq<u8>, e: u32)
    ensures
        u8_or(seq![a] + rest, e as u8) == a,
        u8_or(Seq::empty(), e as u8) == e as u8,
        u16_or(seq![a, b] + rest, e as u16) == a + 256 * b,
        u16_or(seq![a], e as u16) == e as u16,
        u32_or(seq![a, b, c, d] + rest, e) == a + 256 * (b + 256 * (c + 256 * d)),
        u32_or(seq![a, b, c], e) == e,
        b < 128 ==> signed16(u16_or(seq![a, b] + rest, 0)) == a + 256 * b,
        b >= 128 ==> signed16(u16_or(seq![a, b] + rest, 0)) == a + 256 * b - 0x1_0000,
{
    let x = seq![a] + rest;
    let y = seq![a, b] + rest;
    let z = seq![a, b, c, d] + rest;
    assert(x[0] == a);
    assert(y[0] == a && y[1] == b);
    assert(z[0] == a && z[1] == b && z[2] == c && z[3] == d);
}

} // verus!
