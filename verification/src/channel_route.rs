//! Channel routes with their private material: how they are checked, written,
//! sealed and read back.

use vstd::prelude::*;
use vstd::utf8::encode_utf8;
use crate::archive_frame::{LaneFrame, LaneView, OwnedRouteFrame, OwnedRouteView};
use crate::bytes::{copy_bytes, same_bytes, same_id, text_len, wipe};
use crate::codec::{aad_in, text_aad, Codec, NodeKeys, Protocol, RoleFacts};
use crate::error::Error;
use crate::model::{is_zero, views, zero_id, zeros, AliasContact, Capabilities, ChannelRoute, IpAddr, LeaseLimits, OwnedAlias, OwnedAliasView, OwnedChannelRoute, OwnedChannelRouteView, RelayTarget, SocketAddr};
use crate::owner_aliases::outcome;
use crate::owner_record::{bare, bare_layout};
use crate::record::{oversize, reads, rendered, take_frame, written_reads_back, Framed};
use crate::seal::{channel_seed_from, context_view, open_bytes, opened, seal_bytes, sealable, spec_channel_seed, x25519_public, x25519_public_key, ContextView, SessionContext};
use crate::table::Table;

verus! {

/// Whether a secret answers to a public key. The zero key stands for any.
pub open spec fn answers(secret: [u8; 32], public: [u8; 32]) -> bool {
    is_zero(public) || x25519_public(secret@) == public@
}

/// The secret behind a retained public key: of the node's seed, or else of the
/// channel's.
pub open spec fn retained_secret(
    seed: Seq<u8>,
    channel: Seq<char>,
    pseudonym: [u8; 32],
    public: [u8; 32],
    codec: Codec,
) -> Result<[u8; 32], Error> {
    let first = codec.secret(seed, pseudonym@);
    let second = codec.secret(spec_channel_seed(seed, channel), pseudonym@);
    if first is Some && answers(first->0, public) {
        Ok(first->0)
    } else if second is Some && answers(second->0, public) {
        Ok(second->0)
    } else {
        Err(Error::RetainedSecretMismatch)
    }
}

fn is_answer(secret: &[u8; 32], public: &[u8; 32]) -> (r: bool)
    ensures
        r == answers(*secret, *public),
{
    if zero_id(public) {
        return true;
    }
    let key = x25519_public_key(secret);
    same_bytes(&key, public)
}

pub fn retained_channel_direct_secret(
    seed: &[u8; 32],
    channel: &str,
    pseudonym: &[u8; 32],
    public: &[u8; 32],
    codec: &Codec,
) -> (r: Result<[u8; 32], Error>)
    ensures
        r == retained_secret(seed@, channel@, *pseudonym, *public, *codec),
{
    match codec.channel_direct_secret(seed, pseudonym) {
        Some(secret) => {
            if is_answer(&secret, public) {
                return Ok(secret);
            }
        },
        None => {},
    }
    let derived = channel_seed_from(seed, channel);
    match codec.channel_direct_secret(&derived, pseudonym) {
        Some(secret) => {
            if is_answer(&secret, public) {
                return Ok(secret);
            }
        },
        None => {},
    }
    Err(Error::RetainedSecretMismatch)
}

/// The contact of a route that is not provisioned yet.
pub open spec fn no_contact() -> AliasContact {
    AliasContact {
        target: RelayTarget {
            address: SocketAddr { ip: IpAddr::V4(zeros::<4>()), port: 0, flow_info: 0, scope_id: 0 },
            relay_service_id: zeros::<32>(),
        },
        queue_id: zeros::<32>(),
        epoch: 0,
        push_cap: zeros::<32>(),
        expiry: 0,
    }
}

/// The public part of a route that waits for its queues.
pub open spec fn pending_public(pseudonym: [u8; 32], previous: Option<ChannelRoute>) -> ChannelRoute {
    match previous {
        Some(route) => route,
        None => ChannelRoute { pseudonym, direct_public: zeros::<32>(), data: no_contact(), control: no_contact() },
    }
}

/// A route without queues, which recovery provisions later. Its contacts are
/// never advertised.
pub fn pending_channel_route(
    seed: &[u8; 32],
    channel: &str,
    pseudonym: [u8; 32],
    previous: Option<ChannelRoute>,
    codec: &Codec,
) -> (r: Result<OwnedChannelRoute, Error>)
    ensures
        match retained_secret(seed@, channel@, pseudonym, match previous {
            Some(route) => route.direct_public,
            None => zeros::<32>(),
        }, *codec) {
            Ok(secret) => r matches Ok(route) && route.public == pending_public(pseudonym, previous) && route.direct_secret == secret
                && route.aliases@.len() == 0,
            Err(e) => r == Err::<OwnedChannelRoute, Error>(e),
        },
{
    let public = match &previous {
        Some(route) => route.direct_public,
        None => [0u8; 32],
    };
    let direct_secret = retained_channel_direct_secret(seed, channel, &pseudonym, &public, codec)?;
    let empty = AliasContact {
        target: RelayTarget { address: SocketAddr::v4([0u8; 4], 0), relay_service_id: [0u8; 32] },
        queue_id: [0u8; 32],
        epoch: 0,
        push_cap: [0u8; 32],
        expiry: 0,
    };
    let public = match previous {
        Some(route) => route,
        None => ChannelRoute { pseudonym, direct_public: [0u8; 32], data: empty, control: empty },
    };
    Ok(OwnedChannelRoute { public, direct_secret, aliases: Vec::new() })
}

/// The secret of an established route: the owner's comes from the channel's
/// seed, a member's from the node's.
pub open spec fn established_secret(seed: Seq<u8>, name: Seq<char>, owner: bool, role: RoleFacts, codec: Codec) -> Option<[u8; 32]> {
    codec.secret(if owner { spec_channel_seed(seed, name) } else { seed }, role.pseudonym@)
}

pub fn established_route_secret(seed: &[u8; 32], name: &str, owner: bool, role: &RoleFacts, codec: &Codec) -> (r: Option<[u8; 32]>)
    ensures
        r == established_secret(seed@, name@, owner, *role, *codec),
{
    if owner {
        codec.channel_direct_secret(&channel_seed_from(seed, name), &role.pseudonym)
    } else {
        codec.channel_direct_secret(seed, &role.pseudonym)
    }
}

/// The encoding of a route.
pub open spec fn route_wire(codec: Codec, route: ChannelRoute) -> Option<Seq<u8>> {
    if exists|i: int| 0 <= i < codec.routes.entries@.len() && (#[trigger] codec.routes.entries@[i]).1 == route {
        Some(codec.routes.entries@[first_route(codec, route, codec.routes.entries@.len())].0@)
    } else {
        None
    }
}

/// The place of the first of the first `n` listed routes that is a given one.
pub open spec fn first_route(codec: Codec, route: ChannelRoute, n: nat) -> int
    decreases n,
{
    if n == 0 {
        0
    } else {
        let i = first_route(codec, route, (n - 1) as nat);
        if i < n - 1 || codec.routes.entries@[n - 1].1 == route {
            i
        } else {
            n as int
        }
    }
}

proof fn lemma_first_route(codec: Codec, route: ChannelRoute, n: nat)
    requires
        n <= codec.routes.entries@.len(),
    ensures
        0 <= first_route(codec, route, n) <= n,
        first_route(codec, route, n) < n ==> codec.routes.entries@[first_route(codec, route, n)].1 == route,
        forall|j: int| 0 <= j < first_route(codec, route, n) ==> (#[trigger] codec.routes.entries@[j]).1 != route,
    decreases n,
{
    if n > 0 {
        lemma_first_route(codec, route, (n - 1) as nat);
    }
}

pub fn encode_route(codec: &Codec, route: &ChannelRoute) -> (r: Option<Vec<u8>>)
    ensures
        match r {
            Some(bytes) => route_wire(*codec, *route) == Some(bytes@),
            None => route_wire(*codec, *route) is None,
        },
{
    let mut i: usize = 0;
    while i < codec.routes.entries.len()
        invariant
            i <= codec.routes.entries.len(),
            forall|j: int| 0 <= j < i ==> (#[trigger] codec.routes.entries@[j]).1 != *route,
        decreases codec.routes.entries.len() - i,
    {
        if codec.routes.entries[i].1.same(route) {
            proof {
                let n = codec.routes.entries@.len();
                assert(codec.routes.entries@[i as int].1 == *route);
                lemma_first_route(*codec, *route, n);
                if first_route(*codec, *route, n) > i {
                    assert(codec.routes.entries@[i as int].1 != *route);
                }
            }
            return Some(copy_bytes(codec.routes.entries[i].0.as_slice()));
        }
        i += 1;
    }
    None
}

/// How a queue's private material is written.
pub open spec fn lane_of(alias: OwnedAliasView) -> LaneView {
    LaneView {
        push: alias.capabilities.push,
        sub: alias.capabilities.sub,
        admin: alias.capabilities.admin,
        max_queue_cells: alias.limits.max_queue_cells,
        max_queue_bytes: alias.limits.max_queue_bytes,
        create_path: alias.create_path,
        lease_create: alias.lease_create,
    }
}

/// The queue that private material belongs to.
pub open spec fn lane_alias(lane: LaneView, contact: AliasContact) -> OwnedAliasView {
    OwnedAliasView {
        contact,
        capabilities: Capabilities { push: lane.push, sub: lane.sub, admin: lane.admin },
        limits: LeaseLimits { max_queue_cells: lane.max_queue_cells, max_queue_bytes: lane.max_queue_bytes },
        create_path: lane.create_path,
        lease_create: lane.lease_create,
    }
}

pub open spec fn lane_error(lane: LaneView, codec: Codec) -> Option<Error> {
    if encode_utf8(lane.create_path).len() >= 0x1_0000 {
        Some(Error::FieldTooLarge)
    } else if !codec.carries(lane.lease_create) {
        Some(Error::CellRefused)
    } else {
        oversize::<LaneFrame>(lane, bare())
    }
}

/// How a route is written.
pub open spec fn frame_of(route: OwnedChannelRouteView, codec: Codec) -> OwnedRouteView {
    OwnedRouteView {
        public: route_wire(codec, route.public)->0,
        data: lane_of(route.aliases[0]),
        control: lane_of(route.aliases[1]),
    }
}

/// Why a route cannot be written.
pub open spec fn write_error(route: OwnedChannelRouteView, codec: Codec) -> Option<Error> {
    if route.aliases.len() != 2 {
        Some(Error::Malformed)
    } else {
        match route_wire(codec, route.public) {
            None => Some(Error::NotListed),
            Some(wire) => if wire.len() >= 0x1_0000_0000 {
                Some(Error::FieldTooLarge)
            } else {
                match lane_error(lane_of(route.aliases[0]), codec) {
                    Some(e) => Some(e),
                    None => lane_error(lane_of(route.aliases[1]), codec),
                }
            },
        }
    }
}

/// The plain bytes of a route.
pub open spec fn route_plain(route: OwnedChannelRouteView, codec: Codec) -> Seq<u8> {
    rendered::<OwnedRouteFrame>(frame_of(route, codec), bare())
}

fn lane(alias: &OwnedAlias) -> (r: LaneFrame)
    ensures
        r@ == lane_of(alias@),
{
    LaneFrame {
        push: alias.capabilities.push,
        sub: alias.capabilities.sub,
        admin: alias.capabilities.admin,
        max_queue_cells: alias.limits.max_queue_cells,
        max_queue_bytes: alias.limits.max_queue_bytes,
        create_path: alias.create_path.clone(),
        lease_create: alias.lease_create.clone(),
    }
}

fn check_lane(lane: &LaneFrame, codec: &Codec) -> (r: Result<(), Error>)
    ensures
        r == outcome(lane_error(lane@, *codec)),
{
    if text_len(lane.create_path.as_str()) >= 0x1_0000 {
        return Err(Error::FieldTooLarge);
    }
    if !codec.can_carry(&lane.lease_create) {
        return Err(Error::CellRefused);
    }
    let mut trial: Vec<u8> = Vec::new();
    let r = lane.put_into(&mut trial, bare_layout());
    wipe(&mut trial);
    r
}

pub fn encode_owned_route(route: &OwnedChannelRoute, codec: &Codec) -> (r: Result<Vec<u8>, Error>)
    ensures
        match r {
            Ok(plain) => write_error(route@, *codec) is None && plain@ == route_plain(route@, *codec),
            Err(e) => write_error(route@, *codec) == Some(e),
        },
{
    if route.aliases.len() != 2 {
        return Err(Error::Malformed);
    }
    assert(route@.aliases[0] == route.aliases@[0]@ && route@.aliases[1] == route.aliases@[1]@);
    let public = match encode_route(codec, &route.public) {
        Some(public) => public,
        None => {
            return Err(Error::NotListed);
        },
    };
    if public.len() as u64 >= 0x1_0000_0000 {
        return Err(Error::FieldTooLarge);
    }
    let data = lane(&route.aliases[0]);
    let control = lane(&route.aliases[1]);
    match check_lane(&data, codec) {
        Ok(()) => {},
        Err(e) => {
            return Err(e);
        },
    }
    match check_lane(&control, codec) {
        Ok(()) => {},
        Err(e) => {
            return Err(e);
        },
    }
    let frame = OwnedRouteFrame { public, data, control };
    let mut plain: Vec<u8> = Vec::new();
    proof {
        lemma_route_size(frame@, *codec);
    }
    match frame.put_into(&mut plain, bare_layout()) {
        Ok(()) => {},
        Err(e) => {
            return Err(e);
        },
    }
    assert(plain@ =~= route_plain(route@, *codec));
    Ok(plain)
}

proof fn lemma_route_size(f: OwnedRouteView, codec: Codec)
    requires
        f.public.len() < 0x1_0000_0000,
        lane_error(f.data, codec) is None,
        lane_error(f.control, codec) is None,
    ensures
        oversize::<OwnedRouteFrame>(f, bare()) is None,
{
    broadcast use crate::record::size_then;

    crate::bytes::lemma_be_limits();
}

/// The route that plain bytes hold, for a pseudonym.
pub open spec fn route_of(plain: Seq<u8>, pseudonym: [u8; 32], secret: [u8; 32], codec: Codec) -> Option<OwnedChannelRouteView> {
    match reads::<OwnedRouteFrame>(bare(), plain, 0) {
        Some((f, q)) if q == plain.len() => match codec.route(f.public) {
            Some(public) => if public.pseudonym == pseudonym && codec.carries(f.data.lease_create) && codec.carries(
                f.control.lease_create,
            ) && f.data.push == public.data.push_cap && f.control.push == public.control.push_cap {
                Some(
                    OwnedChannelRouteView {
                        public,
                        direct_secret: secret,
                        aliases: seq![lane_alias(f.data, public.data), lane_alias(f.control, public.control)],
                    },
                )
            } else {
                None
            },
            None => None,
        },
        _ => None,
    }
}

fn alias_of(lane: LaneFrame, contact: AliasContact) -> (r: OwnedAlias)
    ensures
        r@ == lane_alias(lane@, contact),
{
    OwnedAlias {
        contact,
        capabilities: Capabilities { push: lane.push, sub: lane.sub, admin: lane.admin },
        limits: LeaseLimits { max_queue_cells: lane.max_queue_cells, max_queue_bytes: lane.max_queue_bytes },
        create_path: lane.create_path,
        lease_create: lane.lease_create,
    }
}

pub fn decode_owned_route(plain: &[u8], pseudonym: [u8; 32], direct_secret: [u8; 32], codec: &Codec) -> (r: Result<OwnedChannelRoute, Error>)
    ensures
        match r {
            Ok(route) => route_of(plain@, pseudonym, direct_secret, *codec) == Some(route@),
            Err(e) => e == Error::Malformed && route_of(plain@, pseudonym, direct_secret, *codec) is None,
        },
{
    let mut position: usize = 0;
    let frame = take_frame::<OwnedRouteFrame>(plain, &mut position, bare_layout())?;
    if position != plain.len() {
        return Err(Error::Malformed);
    }
    let public = match codec.decode_route(&frame.public) {
        Some(public) => public,
        None => {
            return Err(Error::Malformed);
        },
    };
    if !same_id(&public.pseudonym, &pseudonym) || !codec.can_carry(&frame.data.lease_create) || !codec.can_carry(
        &frame.control.lease_create,
    ) || !same_id(&frame.data.push, &public.data.push_cap) || !same_id(&frame.control.push, &public.control.push_cap) {
        return Err(Error::Malformed);
    }
    let OwnedRouteFrame { public: _, data, control } = frame;
    let ghost wanted = seq![lane_alias(data@, public.data), lane_alias(control@, public.control)];
    let mut aliases: Vec<OwnedAlias> = Vec::new();
    aliases.push(alias_of(data, public.data));
    aliases.push(alias_of(control, public.control));
    assert(views(aliases@) =~= wanted);
    Ok(OwnedChannelRoute { public, direct_secret, aliases })
}

pub open spec fn alias_in_order(alias: OwnedAliasView, contact: AliasContact, p: Protocol) -> bool {
    let c = alias.capabilities;
    &&& alias.contact == contact
    &&& c.push == contact.push_cap
    &&& !is_zero(c.push) && !is_zero(c.sub) && !is_zero(c.admin)
    &&& c.push != contact.queue_id && c.sub != contact.queue_id && c.admin != contact.queue_id
    &&& c.push != c.sub && c.push != c.admin && c.sub != c.admin
    &&& alias.limits.max_queue_cells != 0
    &&& alias.limits.max_queue_bytes != 0
    &&& 0 < encode_utf8(alias.create_path).len() <= 256
    &&& alias.lease_create.raw_type == p.relay_sub
    &&& alias.lease_create.payload.len() == p.lease_create_len
}

/// Why a route is not one of a role with a secret.
pub open spec fn route_error(route: OwnedChannelRouteView, secret: [u8; 32], role: RoleFacts, codec: Codec, p: Protocol) -> Option<Error> {
    if route.public.pseudonym != role.pseudonym || !codec.validates(route.public) || route.direct_secret != secret
        || route.public.direct_public@ != x25519_public(secret@) || route.aliases.len() != 2 {
        Some(Error::InvalidEstablishedRoute)
    } else if !alias_in_order(route.aliases[0], route.public.data, p) || !alias_in_order(
        route.aliases[1],
        route.public.control,
        p,
    ) {
        Some(Error::InvalidEstablishedAlias)
    } else {
        None
    }
}

fn is_alias_in_order(alias: &OwnedAlias, contact: &AliasContact, p: &Protocol) -> (r: bool)
    ensures
        r == alias_in_order(alias@, *contact, *p),
{
    let push = &alias.capabilities.push;
    let sub = &alias.capabilities.sub;
    let admin = &alias.capabilities.admin;
    let path: usize = text_len(alias.create_path.as_str());
    alias.contact.same(contact) && same_id(push, &contact.push_cap) && !zero_id(push) && !zero_id(sub) && !zero_id(admin)
        && !same_id(push, &contact.queue_id) && !same_id(sub, &contact.queue_id) && !same_id(admin, &contact.queue_id) && !same_id(
        push,
        sub,
    ) && !same_id(push, admin) && !same_id(sub, admin) && alias.limits.max_queue_cells != 0 && alias.limits.max_queue_bytes
        != 0 && path > 0 && path <= 256 && alias.lease_create.raw_type == p.relay_sub && alias.lease_create.payload.len()
        == p.lease_create_len
}

pub fn validate_owned_route(route: &OwnedChannelRoute, secret: &[u8; 32], role: &RoleFacts, codec: &Codec, p: &Protocol) -> (r: Result<(), Error>)
    ensures
        r == outcome(route_error(route@, *secret, *role, *codec, *p)),
{
    let key = x25519_public_key(secret);
    if !same_id(&route.public.pseudonym, &role.pseudonym) || !codec.is_valid_route(&route.public) || !same_id(
        &route.direct_secret,
        secret,
    ) || !same_bytes(&route.public.direct_public, &key) || route.aliases.len() != 2 {
        return Err(Error::InvalidEstablishedRoute);
    }
    assert(route@.aliases[0] == route.aliases@[0]@ && route@.aliases[1] == route.aliases@[1]@);
    if !is_alias_in_order(&route.aliases[0], &route.public.data, p) || !is_alias_in_order(
        &route.aliases[1],
        &route.public.control,
        p,
    ) {
        return Err(Error::InvalidEstablishedAlias);
    }
    Ok(())
}

/// Why a route is not an established one of its channel.
pub open spec fn established_error(
    route: OwnedChannelRouteView,
    seed: Seq<u8>,
    name: Seq<char>,
    owner: bool,
    role: RoleFacts,
    codec: Codec,
    p: Protocol,
) -> Option<Error> {
    match established_secret(seed, name, owner, role, codec) {
        None => Some(Error::NotListed),
        Some(secret) => route_error(route, secret, role, codec, p),
    }
}

pub fn validate_established_route(
    route: &OwnedChannelRoute,
    seed: &[u8; 32],
    name: &str,
    owner: bool,
    role: &RoleFacts,
    codec: &Codec,
    p: &Protocol,
) -> (r: Result<(), Error>)
    ensures
        r == outcome(established_error(route@, seed@, name@, owner, *role, *codec, *p)),
{
    match established_route_secret(seed, name, owner, role, codec) {
        None => Err(Error::NotListed),
        Some(secret) => validate_owned_route(route, &secret, role, codec, p),
    }
}

/// Why a route is not one of its channel, whoever first derived its secret.
pub open spec fn unified_error(
    route: OwnedChannelRouteView,
    seed: Seq<u8>,
    name: Seq<char>,
    role: RoleFacts,
    codec: Codec,
    p: Protocol,
) -> Option<Error> {
    match retained_secret(seed, name, role.pseudonym, route.public.direct_public, codec) {
        Err(e) => Some(e),
        Ok(secret) => if route.direct_secret != secret {
            Some(Error::InvalidRetainedSecret)
        } else {
            route_error(route, secret, role, codec, p)
        },
    }
}

pub fn validate_unified_route(
    route: &OwnedChannelRoute,
    seed: &[u8; 32],
    name: &str,
    role: &RoleFacts,
    codec: &Codec,
    p: &Protocol,
) -> (r: Result<(), Error>)
    ensures
        r == outcome(unified_error(route@, seed@, name@, *role, *codec, *p)),
{
    match retained_channel_direct_secret(seed, name, &role.pseudonym, &route.public.direct_public, codec) {
        Err(e) => Err(e),
        Ok(secret) => {
            if !same_id(&route.direct_secret, &secret) {
                return Err(Error::InvalidRetainedSecret);
            }
            validate_owned_route(route, &secret, role, codec, p)
        },
    }
}

pub open spec fn prepared_context(identity: Seq<u8>, pseudonym: [u8; 32]) -> ContextView {
    context_view(identity, encode_utf8("pending-join"@), pseudonym@, encode_utf8("gc1/prepared-route/v1"@))
}

/// What an established route, or the one before it, is sealed to.
pub open spec fn route_context(identity: Seq<u8>, role: RoleFacts, previous: bool) -> ContextView {
    context_view(
        identity,
        if previous {
            encode_utf8("gc1/previous-channel-route/v1"@)
        } else {
            encode_utf8("gc1/established-channel-route/v1"@)
        },
        role.pseudonym@,
        role.channel_id@,
    )
}

pub fn prepared_route_context(keys: &NodeKeys, pseudonym: &[u8; 32]) -> (r: SessionContext)
    ensures
        r@ == prepared_context(keys.identity_public@, *pseudonym),
{
    SessionContext::of_identity(
        keys.identity_public.as_slice(),
        "pending-join".as_bytes(),
        pseudonym,
        "gc1/prepared-route/v1".as_bytes(),
    )
}

fn established_route_context(keys: &NodeKeys, role: &RoleFacts) -> (r: SessionContext)
    ensures
        r@ == route_context(keys.identity_public@, *role, false),
{
    SessionContext::of_identity(
        keys.identity_public.as_slice(),
        "gc1/established-channel-route/v1".as_bytes(),
        &role.pseudonym,
        role.channel_id.as_slice(),
    )
}

fn previous_route_context(keys: &NodeKeys, role: &RoleFacts) -> (r: SessionContext)
    ensures
        r@ == route_context(keys.identity_public@, *role, true),
{
    SessionContext::of_identity(
        keys.identity_public.as_slice(),
        "gc1/previous-channel-route/v1".as_bytes(),
        &role.pseudonym,
        role.channel_id.as_slice(),
    )
}

/// How the sealing of plain bytes for a context comes out.
pub open spec fn sealed_for(key: Seq<u8>, aad: Option<Seq<u8>>, plain: Seq<u8>, r: Result<Vec<u8>, Error>) -> bool {
    match aad {
        None => r == Err::<Vec<u8>, Error>(Error::ContextRefused),
        Some(aad) => if !sealable(plain.len(), aad.len()) {
            r == Err::<Vec<u8>, Error>(Error::SealFailed)
        } else {
            r matches Ok(sealed) && sealed@.len() == plain.len() + 28 && opened(key, aad, sealed@) == Ok::<Seq<u8>, Error>(plain)
        },
    }
}

pub fn seal_for(key: &[u8; 32], context: &SessionContext, plain: &[u8], codec: &Codec) -> (r: Result<Vec<u8>, Error>)
    ensures
        sealed_for(key@, codec.aad(context@), plain@, r),
{
    match codec.context_aad(context) {
        Ok(aad) => seal_bytes(key, aad.as_slice(), plain),
        Err(e) => Err(e),
    }
}

/// What is in a sealed value of a context.
pub open spec fn opened_for(key: Seq<u8>, aad: Option<Seq<u8>>, sealed: Seq<u8>) -> Result<Seq<u8>, Error> {
    match aad {
        None => Err(Error::ContextRefused),
        Some(aad) => opened(key, aad, sealed),
    }
}

pub fn open_for(key: &[u8; 32], context: &SessionContext, sealed: &[u8], codec: &Codec) -> (r: Result<Vec<u8>, Error>)
    ensures
        match r {
            Ok(plain) => opened_for(key@, codec.aad(context@), sealed@) == Ok::<Seq<u8>, Error>(plain@),
            Err(e) => opened_for(key@, codec.aad(context@), sealed@) == Err::<Seq<u8>, Error>(e),
        },
{
    open_under(key, context, sealed, &codec.contexts)
}

/// Opens a sealed value of a context that a table may hold.
pub fn open_under(key: &[u8; 32], context: &SessionContext, sealed: &[u8], contexts: &Table<SessionContext, Vec<u8>>) -> (r: Result<
    Vec<u8>,
    Error,
>)
    ensures
        match r {
            Ok(plain) => opened_for(key@, aad_in(*contexts, context@), sealed@) == Ok::<Seq<u8>, Error>(plain@),
            Err(e) => opened_for(key@, aad_in(*contexts, context@), sealed@) == Err::<Seq<u8>, Error>(e),
        },
{
    match contexts.get(context) {
        Some(text) => open_bytes(key, text_aad(text).as_slice(), sealed),
        None => Err(Error::ContextRefused),
    }
}

/// How the sealing of a prepared route comes out.
pub open spec fn seals_prepared(route: OwnedChannelRouteView, keys: NodeKeys, codec: Codec, r: Result<Vec<u8>, Error>) -> bool {
    match write_error(route, codec) {
        Some(e) => r == Err::<Vec<u8>, Error>(e),
        None => sealed_for(
            keys.archive_key@,
            codec.aad(prepared_context(keys.identity_public@, route.public.pseudonym)),
            route_plain(route, codec),
            r,
        ),
    }
}

pub fn seal_prepared_route(route: &OwnedChannelRoute, keys: &NodeKeys, codec: &Codec) -> (r: Result<Vec<u8>, Error>)
    ensures
        seals_prepared(route@, *keys, *codec, r),
{
    let mut plain = match encode_owned_route(route, codec) {
        Ok(plain) => plain,
        Err(e) => {
            return Err(e);
        },
    };
    let r = seal_for(&keys.archive_key, &prepared_route_context(keys, &route.public.pseudonym), plain.as_slice(), codec);
    wipe(&mut plain);
    r
}

/// The prepared route in a sealed value.
pub open spec fn prepared_route(sealed: Seq<u8>, pseudonym: [u8; 32], keys: NodeKeys, codec: Codec) -> Result<OwnedChannelRouteView, Error> {
    match opened_for(keys.archive_key@, codec.aad(prepared_context(keys.identity_public@, pseudonym)), sealed) {
        Err(e) => Err(e),
        Ok(plain) => match codec.secret(keys.seed@, pseudonym@) {
            None => Err(Error::NotListed),
            Some(secret) => match route_of(plain, pseudonym, secret, codec) {
                None => Err(Error::Malformed),
                Some(route) => Ok(route),
            },
        },
    }
}

pub open spec fn same_route(r: Result<OwnedChannelRoute, Error>, s: Result<OwnedChannelRouteView, Error>) -> bool {
    match (r, s) {
        (Ok(x), Ok(y)) => x@ == y,
        (Err(a), Err(b)) => a == b,
        _ => false,
    }
}

pub fn open_prepared_route(sealed: &[u8], pseudonym: &[u8; 32], keys: &NodeKeys, codec: &Codec) -> (r: Result<OwnedChannelRoute, Error>)
    ensures
        same_route(r, prepared_route(sealed@, *pseudonym, *keys, *codec)),
{
    let mut plain = match open_for(&keys.archive_key, &prepared_route_context(keys, pseudonym), sealed, codec) {
        Ok(plain) => plain,
        Err(e) => {
            return Err(e);
        },
    };
    let r = match codec.channel_direct_secret(&keys.seed, pseudonym) {
        Some(secret) => decode_owned_route(plain.as_slice(), *pseudonym, secret, codec),
        None => Err(Error::NotListed),
    };
    wipe(&mut plain);
    r
}

/// The most bytes that a sealed route may have.
pub open spec fn max_sealed_route() -> nat {
    0x1_0000
}

/// The established route in a sealed value, or the one before it.
pub open spec fn established_route(
    sealed: Seq<u8>,
    name: Seq<char>,
    owner: bool,
    role: RoleFacts,
    previous: bool,
    keys: NodeKeys,
    codec: Codec,
    p: Protocol,
) -> Result<OwnedChannelRouteView, Error> {
    if sealed.len() > max_sealed_route() {
        Err(Error::Malformed)
    } else {
        match opened_for(keys.archive_key@, codec.aad(route_context(keys.identity_public@, role, previous)), sealed) {
            Err(e) => Err(e),
            Ok(plain) => match established_secret(keys.seed@, name, owner, role, codec) {
                None => Err(Error::NotListed),
                Some(secret) => match route_of(plain, role.pseudonym, secret, codec) {
                    None => Err(Error::Malformed),
                    Some(route) => match established_error(route, keys.seed@, name, owner, role, codec, p) {
                        Some(e) => Err(e),
                        None => Ok(route),
                    },
                },
            },
        }
    }
}

fn open_role_route(
    sealed: &[u8],
    context: &SessionContext,
    name: &str,
    owner: bool,
    role: &RoleFacts,
    Ghost(previous): Ghost<bool>,
    keys: &NodeKeys,
    codec: &Codec,
    p: &Protocol,
) -> (r: Result<OwnedChannelRoute, Error>)
    requires
        context@ == route_context(keys.identity_public@, *role, previous),
    ensures
        same_route(r, established_route(sealed@, name@, owner, *role, previous, *keys, *codec, *p)),
{
    if sealed.len() > 0x1_0000 {
        return Err(Error::Malformed);
    }
    let mut plain = match open_for(&keys.archive_key, context, sealed, codec) {
        Ok(plain) => plain,
        Err(e) => {
            return Err(e);
        },
    };
    let secret = match established_route_secret(&keys.seed, name, owner, role, codec) {
        Some(secret) => secret,
        None => {
            wipe(&mut plain);
            return Err(Error::NotListed);
        },
    };
    let r = decode_owned_route(plain.as_slice(), role.pseudonym, secret, codec);
    wipe(&mut plain);
    match r {
        Err(e) => Err(e),
        Ok(route) => match validate_established_route(&route, &keys.seed, name, owner, role, codec, p) {
            Ok(()) => Ok(route),
            Err(e) => Err(e),
        },
    }
}

pub fn open_established_route(
    sealed: &[u8],
    name: &str,
    owner: bool,
    role: &RoleFacts,
    keys: &NodeKeys,
    codec: &Codec,
    p: &Protocol,
) -> (r: Result<OwnedChannelRoute, Error>)
    ensures
        same_route(r, established_route(sealed@, name@, owner, *role, false, *keys, *codec, *p)),
{
    open_role_route(sealed, &established_route_context(keys, role), name, owner, role, Ghost(false), keys, codec, p)
}

pub fn open_previous_route(
    sealed: &[u8],
    name: &str,
    owner: bool,
    role: &RoleFacts,
    keys: &NodeKeys,
    codec: &Codec,
    p: &Protocol,
) -> (r: Result<OwnedChannelRoute, Error>)
    ensures
        same_route(r, established_route(sealed@, name@, owner, *role, true, *keys, *codec, *p)),
{
    open_role_route(sealed, &previous_route_context(keys, role), name, owner, role, Ghost(true), keys, codec, p)
}

/// How the sealing of a route in force, or of the one before it, comes out.
pub open spec fn seals_unified(
    route: OwnedChannelRouteView,
    name: Seq<char>,
    role: RoleFacts,
    previous: bool,
    keys: NodeKeys,
    codec: Codec,
    p: Protocol,
    r: Result<Vec<u8>, Error>,
) -> bool {
    match unified_error(route, keys.seed@, name, role, codec, p) {
        Some(e) => r == Err::<Vec<u8>, Error>(e),
        None => {
            let aad = codec.aad(route_context(keys.identity_public@, role, previous));
            if aad is None {
                r == Err::<Vec<u8>, Error>(Error::ContextRefused)
            } else {
                match write_error(route, codec) {
                    Some(e) => r == Err::<Vec<u8>, Error>(e),
                    None => sealed_for(keys.archive_key@, aad, route_plain(route, codec), r),
                }
            }
        },
    }
}

pub fn unified_context(keys: &NodeKeys, role: &RoleFacts, previous: bool) -> (r: SessionContext)
    ensures
        r@ == route_context(keys.identity_public@, *role, previous),
{
    if previous {
        previous_route_context(keys, role)
    } else {
        established_route_context(keys, role)
    }
}

pub fn seal_unified_route(
    route: &OwnedChannelRoute,
    name: &str,
    role: &RoleFacts,
    previous: bool,
    keys: &NodeKeys,
    codec: &Codec,
    p: &Protocol,
) -> (r: Result<Vec<u8>, Error>)
    ensures
        seals_unified(route@, name@, *role, previous, *keys, *codec, *p, r),
{
    match validate_unified_route(route, &keys.seed, name, role, codec, p) {
        Ok(()) => {},
        Err(e) => {
            return Err(e);
        },
    }
    let context = unified_context(keys, role, previous);
    let aad = match codec.context_aad(&context) {
        Ok(aad) => aad,
        Err(e) => {
            return Err(e);
        },
    };
    let mut plain = match encode_owned_route(route, codec) {
        Ok(plain) => plain,
        Err(e) => {
            return Err(e);
        },
    };
    let r = seal_bytes(&keys.archive_key, aad.as_slice(), plain.as_slice());
    wipe(&mut plain);
    r
}

/// The route in force in a sealed value, or the one before it.
pub open spec fn unified_route(
    sealed: Seq<u8>,
    name: Seq<char>,
    role: RoleFacts,
    previous: bool,
    keys: NodeKeys,
    codec: Codec,
    p: Protocol,
) -> Result<OwnedChannelRouteView, Error> {
    if sealed.len() > max_sealed_route() {
        Err(Error::Malformed)
    } else {
        match opened_for(keys.archive_key@, codec.aad(route_context(keys.identity_public@, role, previous)), sealed) {
            Err(e) => Err(e),
            Ok(plain) => match route_of(plain, role.pseudonym, zeros::<32>(), codec) {
                None => Err(Error::Malformed),
                Some(route) => rekeyed(route, name, role, keys, codec, p),
            },
        }
    }
}

/// A route with the secret that its public key calls for, held to its channel.
pub open spec fn rekeyed(
    route: OwnedChannelRouteView,
    name: Seq<char>,
    role: RoleFacts,
    keys: NodeKeys,
    codec: Codec,
    p: Protocol,
) -> Result<OwnedChannelRouteView, Error> {
    match retained_secret(keys.seed@, name, role.pseudonym, route.public.direct_public, codec) {
        Err(e) => Err(e),
        Ok(secret) => {
            let known = OwnedChannelRouteView { direct_secret: secret, ..route };
            match unified_error(known, keys.seed@, name, role, codec, p) {
                Some(e) => Err(e),
                None => Ok(known),
            }
        },
    }
}

pub fn rekey(route: OwnedChannelRoute, name: &str, role: &RoleFacts, keys: &NodeKeys, codec: &Codec, p: &Protocol) -> (r: Result<OwnedChannelRoute, Error>)
    ensures
        same_route(r, rekeyed(route@, name@, *role, *keys, *codec, *p)),
{
    let secret = match retained_channel_direct_secret(&keys.seed, name, &role.pseudonym, &route.public.direct_public, codec) {
        Ok(secret) => secret,
        Err(e) => {
            return Err(e);
        },
    };
    let known = OwnedChannelRoute { public: route.public, direct_secret: secret, aliases: route.aliases };
    match validate_unified_route(&known, &keys.seed, name, role, codec, p) {
        Ok(()) => Ok(known),
        Err(e) => Err(e),
    }
}

pub fn open_unified_route(
    sealed: &[u8],
    name: &str,
    role: &RoleFacts,
    previous: bool,
    keys: &NodeKeys,
    codec: &Codec,
    p: &Protocol,
) -> (r: Result<OwnedChannelRoute, Error>)
    ensures
        same_route(r, unified_route(sealed@, name@, *role, previous, *keys, *codec, *p)),
{
    if sealed.len() > 0x1_0000 {
        return Err(Error::Malformed);
    }
    let mut plain = match open_for(&keys.archive_key, &unified_context(keys, role, previous), sealed, codec) {
        Ok(plain) => plain,
        Err(e) => {
            return Err(e);
        },
    };
    let r = decode_owned_route(plain.as_slice(), role.pseudonym, [0u8; 32], codec);
    wipe(&mut plain);
    match r {
        Err(e) => Err(e),
        Ok(route) => rekey(route, name, role, keys, codec, p),
    }
}

/// A route is listed under its encoding: what it is written as is read as itself.
pub proof fn routes_read_as_written(codec: Codec, route: ChannelRoute)
    requires
        codec.routes.wf(),
        route_wire(codec, route) is Some,
    ensures
        codec.route(route_wire(codec, route)->0) == Some(route),
{
    let n = codec.routes.entries@.len();
    let wire = route_wire(codec, route)->0;
    lemma_first_route(codec, route, n);
    let i = first_route(codec, route, n);
    let k = choose|k: int| 0 <= k < n && (#[trigger] codec.routes.entries@[k]).1 == route;
    assert(i <= k);
    crate::table::lemma_place(codec.routes.keys(), wire);
    assert(codec.routes.keys()[i] == wire);
    assert(codec.routes.keys().contains(wire));
    let j = crate::table::place(codec.routes.keys(), wire);
    assert(i == j) by {
        if i < j {
            assert(codec.routes.keys()[i] != codec.routes.keys()[j]);
        } else if j < i {
            assert(codec.routes.keys()[j] != codec.routes.keys()[i]);
        }
    }
}

/// The route that is written decodes as itself.
pub proof fn lemma_route_reads(route: OwnedChannelRouteView, secret: [u8; 32], codec: Codec)
    requires
        write_error(route, codec) is None,
        codec.routes.wf(),
        route.aliases[0].contact == route.public.data,
        route.aliases[1].contact == route.public.control,
        route.aliases[0].capabilities.push == route.public.data.push_cap,
        route.aliases[1].capabilities.push == route.public.control.push_cap,
    ensures
        route_of(route_plain(route, codec), route.public.pseudonym, secret, codec) == Some(
            OwnedChannelRouteView { direct_secret: secret, ..route },
        ),
{
    let f = frame_of(route, codec);
    let plain = route_plain(route, codec);
    lemma_route_size(f, codec);
    assert(plain.subrange(0, plain.len() as int) =~= plain);
    written_reads_back::<OwnedRouteFrame>(f, bare(), plain, 0);
    let n = codec.routes.entries@.len();
    lemma_first_route(codec, route.public, n);
    let i = first_route(codec, route.public, n);
    let k = choose|k: int| 0 <= k < n && (#[trigger] codec.routes.entries@[k]).1 == route.public;
    assert(i <= k);
    crate::table::lemma_place(codec.routes.keys(), f.public);
    assert(codec.routes.keys()[i] == f.public);
    assert(codec.routes.keys().contains(f.public));
    let j = crate::table::place(codec.routes.keys(), f.public);
    assert(i == j) by {
        if i < j {
            assert(codec.routes.keys()[i] != codec.routes.keys()[j]);
        } else if j < i {
            assert(codec.routes.keys()[j] != codec.routes.keys()[i]);
        }
    }
    assert(codec.route(f.public) == Some(route.public));
    assert(seq![lane_alias(f.data, route.public.data), lane_alias(f.control, route.public.control)] =~= route.aliases);
}

/// A sealed value that holds a route opens as that route.
pub proof fn lemma_route_opens(
    route: OwnedChannelRouteView,
    name: Seq<char>,
    role: RoleFacts,
    previous: bool,
    keys: NodeKeys,
    codec: Codec,
    p: Protocol,
    sealed: Seq<u8>,
)
    requires
        unified_error(route, keys.seed@, name, role, codec, p) is None,
        write_error(route, codec) is None,
        opened_for(keys.archive_key@, codec.aad(route_context(keys.identity_public@, role, previous)), sealed) == Ok::<Seq<u8>, Error>(
            route_plain(route, codec),
        ),
        codec.routes.wf(),
        sealed.len() <= max_sealed_route(),
    ensures
        unified_route(sealed, name, role, previous, keys, codec, p) == Ok::<OwnedChannelRouteView, Error>(route),
{
    lemma_route_reads(route, zeros::<32>(), codec);
    let bare_route = OwnedChannelRouteView { direct_secret: zeros::<32>(), ..route };
    let secret = retained_secret(keys.seed@, name, role.pseudonym, route.public.direct_public, codec)->Ok_0;
    assert(OwnedChannelRouteView { direct_secret: secret, ..bare_route } == route);
}

/// A route that is sealed opens as itself: under the same node, channel and role,
/// and for the same use. Routes have one encoding each, and what is sealed is not
/// longer than readers take.
pub proof fn sealed_route_opens(
    route: OwnedChannelRouteView,
    name: Seq<char>,
    role: RoleFacts,
    previous: bool,
    keys: NodeKeys,
    codec: Codec,
    p: Protocol,
    sealed: Vec<u8>,
)
    requires
        seals_unified(route, name, role, previous, keys, codec, p, Ok(sealed)),
        codec.routes.wf(),
        sealed@.len() <= max_sealed_route(),
    ensures
        unified_route(sealed@, name, role, previous, keys, codec, p) == Ok::<OwnedChannelRouteView, Error>(route),
{
    lemma_route_opens(route, name, role, previous, keys, codec, p, sealed@);
}

/// A prepared route that is sealed opens as itself, with the secret that the
/// node derives for it.
pub proof fn sealed_prepared_route_opens(route: OwnedChannelRouteView, keys: NodeKeys, codec: Codec, sealed: Vec<u8>)
    requires
        seals_prepared(route, keys, codec, Ok(sealed)),
        codec.routes.wf(),
        codec.secret(keys.seed@, route.public.pseudonym@) == Some(route.direct_secret),
        route.aliases[0].contact == route.public.data,
        route.aliases[1].contact == route.public.control,
        route.aliases[0].capabilities.push == route.public.data.push_cap,
        route.aliases[1].capabilities.push == route.public.control.push_cap,
    ensures
        prepared_route(sealed@, route.public.pseudonym, keys, codec) == Ok::<OwnedChannelRouteView, Error>(route),
{
    lemma_route_reads(route, route.direct_secret, codec);
    assert(OwnedChannelRouteView { direct_secret: route.direct_secret, ..route } == route);
}

} // verus!
