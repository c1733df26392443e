//! A node that finds its relays only later comes back from its archive at once:
//! nothing has to be asked of a relay first.

use vstd::prelude::*;
use crate::archive::{Archive, ArchiveView, NamedRoutes, NamedRoutesView, PreparedJoinView, Reader};
use crate::archive_sound::{archives_are_sound, channel_sound, sound};
use crate::archive_check::Checks;
use crate::codec::{Protocol, RoleFacts};
use crate::error::Error;
use crate::model::{views, OwnedChannelRoute, OwnedChannelRouteView};
use crate::node_state::{ChannelState, NodeState, PreparedChannelJoin};
use crate::record::maybe_view;
use crate::restore::{admitted, open_archive};
use crate::restore_state::{channels_are, direct_is, direct_refusal, good_cores_come_back, joins_are, prepare_direct, restore_channels, restore_joins, DirectParts, Host, SettledRoute};
use crate::revive::{countable, elapsed_since, lapsed_of};
use crate::route_work::{has_run_out, plan_route, route_work, run_out, RoutePlace, RouteWork, RouteWorkView};
use crate::table::Table;

verus! {

/// The first of the first `n` entries with a name.
pub open spec fn routes_named(s: Seq<NamedRoutesView>, n: nat, name: Seq<char>) -> Option<NamedRoutesView>
    decreases n,
{
    if n == 0 {
        None
    } else {
        match routes_named(s, (n - 1) as nat, name) {
            Some(r) => Some(r),
            None => if s[n - 1].name == name {
                Some(s[n - 1])
            } else {
                None
            },
        }
    }
}

proof fn lemma_named_stays(s: Seq<NamedRoutesView>, m: nat, n: nat, name: Seq<char>)
    requires
        m <= n,
        routes_named(s, m, name) is Some,
    ensures
        routes_named(s, n, name) == routes_named(s, m, name),
    decreases n,
{
    if m < n {
        lemma_named_stays(s, m, (n - 1) as nat, name);
    }
}

/// The routes that an archive retained for a channel: the one in force, and the
/// one before it.
pub open spec fn retained_routes(a: ArchiveView, name: Seq<char>) -> (Option<OwnedChannelRouteView>, Option<OwnedChannelRouteView>) {
    match routes_named(a.routes, a.routes.len(), name) {
        Some(r) => (r.current, r.previous),
        None => (None, None),
    }
}

fn copy_route(route: &Option<OwnedChannelRoute>) -> (r: Option<OwnedChannelRoute>)
    ensures
        maybe_view(r) == maybe_view(*route),
{
    match route {
        Some(route) => Some(route.clone()),
        None => None,
    }
}

fn find_retained(routes: &Vec<NamedRoutes>, name: &String) -> (r: (Option<OwnedChannelRoute>, Option<OwnedChannelRoute>))
    ensures
        match routes_named(views(routes@), routes@.len(), name@) {
            Some(found) => maybe_view(r.0) == found.current && maybe_view(r.1) == found.previous,
            None => r.0 is None && r.1 is None,
        },
{
    let ghost v = views(routes@);
    let mut i: usize = 0;
    while i < routes.len()
        invariant
            i <= routes.len(),
            v == views(routes@),
            routes_named(v, i as nat, name@) is None,
        decreases routes.len() - i,
    {
        assert(v[i as int] == routes@[i as int]@);
        if routes[i].name == *name {
            proof {
                lemma_named_stays(v, (i + 1) as nat, v.len(), name@);
            }
            return (copy_route(&routes[i].current), copy_route(&routes[i].previous));
        }
        i += 1;
    }
    (None, None)
}

/// Where the own route of an archived channel is settled. An archived directory
/// never names the node itself.
pub open spec fn place_of<'a>(name: &'a String, owner: bool, role: &'a RoleFacts, h: Host<'a>, p: &'a Protocol) -> RoutePlace<'a> {
    RoutePlace { name, owner, role, known: None, keys: h.keys, codec: h.codec, p }
}

/// The own route of a channel while nothing can be provisioned, with the one that
/// was in force before it.
pub open spec fn offline_route(a: ArchiveView, i: int, name: &String, role: &RoleFacts, h: Host, p: &Protocol) -> Result<
    (OwnedChannelRouteView, Option<OwnedChannelRouteView>),
    Error,
> {
    let (current, previous) = retained_routes(a, a.channels[i].head.name);
    match route_work(current, previous, place_of(name, a.channels[i].head.owner, role, h, p), true, h.now_unix, false) {
        Ok(RouteWorkView::Settled { route, previous }) => Ok((route, previous)),
        Ok(_) => Err(Error::NotListed),
        Err(e) => Err(e),
    }
}

/// Whether a channel's own route came out so.
pub open spec fn settles(
    a: ArchiveView,
    i: int,
    out: Result<(OwnedChannelRouteView, Option<OwnedChannelRouteView>), Error>,
    h: Host,
    p: &Protocol,
) -> bool {
    exists|name: String, role: RoleFacts|
        name@ == a.channels[i].head.name && h.codec.role(a.channels[i].head.owner, a.channels[i].head.name, a.channels[i].head.blob)
            == Some(role) && #[trigger] offline_route(a, i, &name, &role, h, p) == out
}

/// Whether the own route of a channel cannot be settled.
pub open spec fn unsettled(a: ArchiveView, i: int, h: Host, p: &Protocol) -> bool {
    exists|e: Error| #[trigger] settles(a, i, Err(e), h, p)
}

/// Whether the own route of a channel is the first that cannot be settled, and why.
pub open spec fn first_unsettled(a: ArchiveView, i: int, e: Error, h: Host, p: &Protocol) -> bool {
    settles(a, i, Err(e), h, p) && forall|j: int| 0 <= j < i ==> !#[trigger] unsettled(a, j, h, p)
}

proof fn lemma_settled(a: ArchiveView, i: int, x: (OwnedChannelRouteView, Option<OwnedChannelRouteView>), h: Host, p: &Protocol)
    requires
        settles(a, i, Ok(x), h, p),
    ensures
        !unsettled(a, i, h, p),
{
    if unsettled(a, i, h, p) {
        let e = choose|e: Error| #[trigger] settles(a, i, Err(e), h, p);
        let head = a.channels[i].head;
        let (n, r) = choose|name: String, role: RoleFacts|
            name@ == head.name && h.codec.role(head.owner, head.name, head.blob) == Some(role) && #[trigger] offline_route(
                a,
                i,
                &name,
                &role,
                h,
                p,
            ) == Ok::<(OwnedChannelRouteView, Option<OwnedChannelRouteView>), Error>(x);
        let (m, q) = choose|name: String, role: RoleFacts|
            name@ == head.name && h.codec.role(head.owner, head.name, head.blob) == Some(role) && #[trigger] offline_route(
                a,
                i,
                &name,
                &role,
                h,
                p,
            ) == Err::<(OwnedChannelRouteView, Option<OwnedChannelRouteView>), Error>(e);
        assert(r == q);
        assert(n@ == m@);
    }
}

/// Whether routes are the settled ones of the first channels.
pub open spec fn all_settled(a: ArchiveView, routes: Seq<SettledRoute>, h: Host, p: &Protocol) -> bool {
    forall|i: int|
        0 <= i < routes.len() ==> settles(a, i, Ok((#[trigger] routes[i].own@, maybe_view(routes[i].previous))), h, p)
}

fn settle_offline(archive: &Archive, h: Host, p: &Protocol) -> (r: Result<Vec<SettledRoute>, Error>)
    requires
        sound(archive@, h.codec),
    ensures
        match r {
            Ok(routes) => routes@.len() == archive.channels@.len() && all_settled(archive@, routes@, h, p) && forall|i: int|
                0 <= i < archive@.channels.len() ==> !#[trigger] unsettled(archive@, i, h, p),
            Err(e) => exists|i: int| 0 <= i < archive@.channels.len() && #[trigger] first_unsettled(archive@, i, e, h, p),
        },
{
    let ghost a = archive@;
    let c = Checks { version: archive.version, codec: h.codec };
    let mut routes: Vec<SettledRoute> = Vec::new();
    let mut i: usize = 0;
    while i < archive.channels.len()
        invariant
            i <= archive.channels.len(),
            a == archive@,
            c == (Checks { version: archive.version, codec: h.codec }),
            sound(a, h.codec),
            routes@.len() == i,
            all_settled(a, routes@, h, p),
            forall|j: int| 0 <= j < i ==> !#[trigger] unsettled(a, j, h, p),
        decreases archive.channels.len() - i,
    {
        let head = &archive.channels[i].head;
        proof {
            assert(a.channels[i as int] == archive.channels@[i as int]@);
            assert(channel_sound(a.channels[i as int], c));
        }
        let role = match h.codec.restore_role(head.owner, &head.name, &head.blob) {
            Some(role) => role,
            None => {
                return Err(Error::NotListed);
            },
        };
        let (current, previous) = find_retained(&archive.routes, &head.name);
        let at = RoutePlace { name: &head.name, owner: head.owner, role, known: None, keys: h.keys, codec: h.codec, p };
        let ghost kept = retained_routes(a, a.channels[i as int].head.name);
        assert(kept == (maybe_view(current), maybe_view(previous)));
        let ghost out = offline_route(a, i as int, &head.name, role, h, p);
        match plan_route(current, previous, at, true, h.now_unix, false) {
            Ok(RouteWork::Settled { route, previous }) => {
                let ghost done = routes@;
                routes.push(SettledRoute { own: route, previous });
                proof {
                    assert(out == Ok::<(OwnedChannelRouteView, Option<OwnedChannelRouteView>), Error>((route@, maybe_view(previous))));
                    assert(settles(a, i as int, out, h, p));
                    lemma_settled(a, i as int, (route@, maybe_view(previous)), h, p);
                    assert forall|j: int| 0 <= j < routes@.len() implies settles(
                        a,
                        j,
                        Ok((#[trigger] routes@[j].own@, maybe_view(routes@[j].previous))),
                        h,
                        p,
                    ) by {
                        if j < i {
                            assert(settles(a, j, Ok((done[j].own@, maybe_view(done[j].previous))), h, p));
                        }
                    }
                }
            },
            Ok(_) => {
                assert(settles(a, i as int, out, h, p));
                assert(first_unsettled(a, i as int, Error::NotListed, h, p));
                return Err(Error::NotListed);
            },
            Err(e) => {
                assert(settles(a, i as int, out, h, p));
                assert(first_unsettled(a, i as int, e, h, p));
                return Err(e);
            },
        }
        i += 1;
    }
    Ok(routes)
}

/// Whether routes are those of the joins that have time left.
pub open spec fn joins_left(s: Seq<PreparedJoinView>, routes: Seq<Option<OwnedChannelRoute>>, now_unix: u64) -> bool {
    forall|i: int|
        0 <= i < routes.len() ==> match #[trigger] routes[i] {
            Some(route) => !run_out(s[i].route, now_unix) && route@ == s[i].route,
            None => run_out(s[i].route, now_unix),
        }
}

fn keep_joins(archive: &Archive, now_unix: u64) -> (r: Vec<Option<OwnedChannelRoute>>)
    ensures
        r@.len() == archive.prepared@.len(),
        joins_left(archive@.prepared, r@, now_unix),
{
    let ghost s = archive@.prepared;
    let mut routes: Vec<Option<OwnedChannelRoute>> = Vec::new();
    let mut i: usize = 0;
    while i < archive.prepared.len()
        invariant
            i <= archive.prepared.len(),
            s == archive@.prepared,
            routes@.len() == i,
            joins_left(s, routes@, now_unix),
        decreases archive.prepared.len() - i,
    {
        assert(s[i as int] == archive.prepared@[i as int]@);
        if has_run_out(&archive.prepared[i].route, now_unix) {
            routes.push(None);
        } else {
            routes.push(Some(archive.prepared[i].route.clone()));
        }
        i += 1;
    }
    routes
}

/// All that an archive brings back.
#[derive(Debug)]
pub struct Reopened {
    pub archive: Archive,
    pub parts: DirectParts,
    pub joins: Table<u64, PreparedChannelJoin>,
    pub channels: Table<String, ChannelState>,
}

/// Whether what came back is what an archive holds for a node.
pub open spec fn reopens(st: NodeState, a: ArchiveView, h: Host, p: &Protocol, t: Reopened) -> bool {
    &&& t.archive@ == a
    &&& direct_is(st, a, h, t.parts)
    &&& exists|routes: Seq<SettledRoute>|
        routes.len() == a.channels.len() && all_settled(a, routes, h, p) && #[trigger] channels_are(a, routes, h.codec, t.channels)
    &&& exists|routes: Seq<Option<OwnedChannelRoute>>|
        routes.len() == a.prepared.len() && joins_left(a.prepared, routes, h.now_unix) && #[trigger] joins_are(
            a.prepared,
            routes,
            t.joins,
        )
    &&& t.channels.wf()
    &&& t.joins.wf()
}

/// Whether an archive is refused for a reason: it cannot be read, else a route
/// cannot be settled, else its direct traffic cannot come back.
pub open spec fn refuses(st: NodeState, buf: Seq<u8>, h: Host, p: &Protocol, e: Error) -> bool {
    match admitted(st, buf, Reader { keys: h.keys, codec: h.codec, p }) {
        Err(why) => e == why,
        Ok(a) => {
            ||| exists|i: int| 0 <= i < a.channels.len() && #[trigger] first_unsettled(a, i, e, h, p)
            ||| (forall|i: int| 0 <= i < a.channels.len() ==> !#[trigger] unsettled(a, i, h, p)) && exists|lapsed: Vec<Vec<u8>>|
                views(lapsed@) == lapsed_of(
                    a.core.sessions,
                    a.core.sessions.len(),
                    elapsed_since(a.core.head.exported_ms, h.wall_ms),
                ) && #[trigger] direct_refusal(st, a, lapsed, h) == Some(e)
        },
    }
}

/// Reads an archive and makes all of it ready, without touching the node. The
/// host then admits what it holds, and `install` puts it in place.
pub fn reopen(st: &NodeState, buf: &[u8], h: Host, p: &Protocol) -> (r: Result<Reopened, Error>)
    requires
        countable(h.now),
    ensures
        match r {
            Ok(t) => admitted(*st, buf@, Reader { keys: h.keys, codec: h.codec, p }) matches Ok(a) && reopens(*st, a, h, p, t),
            Err(e) => refuses(*st, buf@, h, p, e),
        },
{
    let archive = match open_archive(st, buf, h.keys, h.codec, p) {
        Ok(archive) => archive,
        Err(e) => {
            return Err(e);
        },
    };
    proof {
        archives_are_sound(buf@, Reader { keys: h.keys, codec: h.codec, p });
        good_cores_come_back(archive@.core, Checks { version: archive@.version, codec: h.codec });
    }
    let kept = keep_joins(&archive, h.now_unix);
    let ghost join_routes = kept@;
    let joins = restore_joins(&archive, kept);
    let settled = match settle_offline(&archive, h, p) {
        Ok(settled) => settled,
        Err(e) => {
            return Err(e);
        },
    };
    let ghost routes = settled@;
    let channels = restore_channels(&archive, settled, h.codec);
    let parts = match prepare_direct(st, &archive, h) {
        Ok(parts) => parts,
        Err(e) => {
            return Err(e);
        },
    };
    assert(channels_are(archive@, routes, h.codec, channels));
    assert(joins_are(archive@.prepared, join_routes, joins));
    Ok(Reopened { archive, parts, joins, channels })
}

} // verus!
