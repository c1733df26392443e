//! What is to be done for the routes of restored channels and joins. Provisioning
//! and readmission are the host's; which of them is needed is decided here.

use vstd::prelude::*;
use crate::channel_route::{established_route_secret, established_secret, pending_channel_route, pending_public, retained_secret, unified_error, validate_unified_route};
use crate::codec::{Codec, NodeKeys, Protocol, RoleFacts};
use crate::error::Error;
use crate::model::{views, zeros, ChannelRoute, OwnedAlias, OwnedAliasView, OwnedChannelRoute, OwnedChannelRouteView};
use crate::record::maybe_view;

verus! {

/// Whether an alias of a route has run out.
pub open spec fn run_out(route: OwnedChannelRouteView, now_unix: u64) -> bool {
    exists|i: int| 0 <= i < route.aliases.len() && (#[trigger] route.aliases[i]).contact.expiry <= now_unix
}

pub fn has_run_out(route: &OwnedChannelRoute, now_unix: u64) -> (r: bool)
    ensures
        r == run_out(route@, now_unix),
{
    let ghost v = route@.aliases;
    let mut i: usize = 0;
    while i < route.aliases.len()
        invariant
            i <= route.aliases.len(),
            v == route@.aliases,
            forall|j: int| 0 <= j < i ==> (#[trigger] v[j]).contact.expiry > now_unix,
        decreases route.aliases.len() - i,
    {
        assert(v[i as int] == route.aliases@[i as int]@);
        if route.aliases[i].contact.expiry <= now_unix {
            return true;
        }
        i += 1;
    }
    false
}

/// What is to be done for a prepared join.
#[derive(Clone, Copy, Debug, PartialEq, Eq, Structural)]
pub enum JoinWork {
    /// Its route has run out, and the join with it.
    Drop,
    /// It is kept as it is.
    Keep,
    /// Its aliases are to be readmitted under the relay's first alias.
    Readmit,
}

pub open spec fn join_work(route: OwnedChannelRouteView, offline: bool, now_unix: u64, authority: bool) -> Result<JoinWork, Error> {
    if run_out(route, now_unix) {
        Ok(JoinWork::Drop)
    } else if offline {
        Ok(JoinWork::Keep)
    } else if !authority {
        Err(Error::NoChannelAuthority)
    } else {
        Ok(JoinWork::Readmit)
    }
}

/// Decides on a prepared join. `authority` says whether the relay has an alias.
pub fn plan_join(route: &OwnedChannelRoute, offline: bool, now_unix: u64, authority: bool) -> (r: Result<JoinWork, Error>)
    ensures
        r == join_work(route@, offline, now_unix, authority),
{
    if has_run_out(route, now_unix) {
        return Ok(JoinWork::Drop);
    }
    if offline {
        return Ok(JoinWork::Keep);
    }
    if !authority {
        return Err(Error::NoChannelAuthority);
    }
    Ok(JoinWork::Readmit)
}

/// What is to be done for the own route of a channel. The route that was in
/// force before goes with each.
#[derive(Debug)]
pub enum RouteWork {
    /// The route is settled.
    Settled { route: OwnedChannelRoute, previous: Option<OwnedChannelRoute> },
    /// The aliases of the route are to be readmitted under the relay's first alias.
    Readmit { route: OwnedChannelRoute, previous: Option<OwnedChannelRoute> },
    /// A route with this secret is to be provisioned.
    Provision { secret: [u8; 32], previous: Option<OwnedChannelRoute> },
}

pub enum RouteWorkView {
    Settled { route: OwnedChannelRouteView, previous: Option<OwnedChannelRouteView> },
    Readmit { route: OwnedChannelRouteView, previous: Option<OwnedChannelRouteView> },
    Provision { secret: [u8; 32], previous: Option<OwnedChannelRouteView> },
}

impl View for RouteWork {
    type V = RouteWorkView;

    open spec fn view(&self) -> RouteWorkView {
        match *self {
            RouteWork::Settled { route, previous } => RouteWorkView::Settled { route: route@, previous: maybe_view(previous) },
            RouteWork::Readmit { route, previous } => RouteWorkView::Readmit { route: route@, previous: maybe_view(previous) },
            RouteWork::Provision { secret, previous } => RouteWorkView::Provision { secret, previous: maybe_view(previous) },
        }
    }
}

/// A channel whose own route is to be settled.
#[derive(Clone, Copy)]
pub struct RoutePlace<'a> {
    pub name: &'a String,
    pub owner: bool,
    pub role: &'a RoleFacts,
    /// The route of this node in the channel's directory.
    pub known: Option<ChannelRoute>,
    pub keys: &'a NodeKeys,
    pub codec: &'a Codec,
    pub p: &'a Protocol,
}

/// A route without queues, as it is kept until one is provisioned.
pub open spec fn pending_route(at: RoutePlace) -> Result<OwnedChannelRouteView, Error> {
    match retained_secret(at.keys.seed@, at.name@, at.role.pseudonym, match at.known {
        Some(route) => route.direct_public,
        None => zeros::<32>(),
    }, *at.codec) {
        Err(e) => Err(e),
        Ok(secret) => Ok(
            OwnedChannelRouteView {
                public: pending_public(at.role.pseudonym, at.known),
                direct_secret: secret,
                aliases: Seq::empty(),
            },
        ),
    }
}

pub open spec fn route_work(
    retained: Option<OwnedChannelRouteView>,
    previous: Option<OwnedChannelRouteView>,
    at: RoutePlace,
    offline: bool,
    now_unix: u64,
    authority: bool,
) -> Result<RouteWorkView, Error> {
    match retained {
        Some(route) => if offline {
            Ok(RouteWorkView::Settled { route, previous })
        } else if run_out(route, now_unix) {
            Ok(RouteWorkView::Provision { secret: route.direct_secret, previous: Some(route) })
        } else if !authority {
            Err(Error::NoChannelAuthority)
        } else {
            Ok(RouteWorkView::Readmit { route, previous })
        },
        None => if offline {
            match pending_route(at) {
                Err(e) => Err(e),
                Ok(route) => Ok(RouteWorkView::Settled { route, previous }),
            }
        } else {
            match established_secret(at.keys.seed@, at.name@, at.owner, *at.role, *at.codec) {
                None => Err(Error::NotListed),
                Some(secret) => Ok(RouteWorkView::Provision { secret, previous }),
            }
        },
    }
}

pub open spec fn same_work(r: Result<RouteWork, Error>, s: Result<RouteWorkView, Error>) -> bool {
    match (r, s) {
        (Ok(x), Ok(y)) => x@ == y,
        (Err(a), Err(b)) => a == b,
        _ => false,
    }
}

/// Decides on the own route of a restored channel. A retained route is kept
/// where nothing can be provisioned, replaced where it has run out, and
/// readmitted otherwise; a route that was not retained is provisioned anew.
pub fn plan_route(
    retained: Option<OwnedChannelRoute>,
    previous: Option<OwnedChannelRoute>,
    at: RoutePlace,
    offline: bool,
    now_unix: u64,
    authority: bool,
) -> (r: Result<RouteWork, Error>)
    ensures
        same_work(r, route_work(maybe_view(retained), maybe_view(previous), at, offline, now_unix, authority)),
{
    match retained {
        Some(route) => {
            if offline {
                return Ok(RouteWork::Settled { route, previous });
            }
            if has_run_out(&route, now_unix) {
                return Ok(RouteWork::Provision { secret: route.direct_secret, previous: Some(route) });
            }
            if !authority {
                return Err(Error::NoChannelAuthority);
            }
            Ok(RouteWork::Readmit { route, previous })
        },
        None => {
            if offline {
                return match pending_channel_route(&at.keys.seed, at.name.as_str(), at.role.pseudonym, at.known, at.codec) {
                    Ok(route) => {
                        assert(route@.aliases =~= Seq::<OwnedAliasView>::empty());
                        Ok(RouteWork::Settled { route, previous })
                    },
                    Err(e) => Err(e),
                };
            }
            match established_route_secret(&at.keys.seed, at.name.as_str(), at.owner, at.role, at.codec) {
                Some(secret) => Ok(RouteWork::Provision { secret, previous }),
                None => Err(Error::NotListed),
            }
        },
    }
}

/// A readmitted route with its new aliases, where it is one of its channel.
pub fn settle_readmitted(route: OwnedChannelRoute, aliases: Vec<OwnedAlias>, at: RoutePlace) -> (r: Result<OwnedChannelRoute, Error>)
    ensures
        ({
            let settled = OwnedChannelRouteView { aliases: views(aliases@), ..route@ };
            match unified_error(settled, at.keys.seed@, at.name@, *at.role, *at.codec, *at.p) {
                Some(e) => r == Err::<OwnedChannelRoute, Error>(e),
                None => r matches Ok(out) && out@ == settled,
            }
        }),
{
    let settled = OwnedChannelRoute { public: route.public, direct_secret: route.direct_secret, aliases };
    match validate_unified_route(&settled, &at.keys.seed, at.name.as_str(), at.role, at.codec, at.p) {
        Ok(()) => Ok(settled),
        Err(e) => Err(e),
    }
}

} // verus!
