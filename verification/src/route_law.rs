//! What the routes of channels must satisfy, and whose secrets are theirs.

use vstd::prelude::*;
use vstd::utf8::encode_utf8;
use crate::archive::{ArchiveView, NamedRoutesView};
use crate::archive_frame::{LaneFrame, LaneView, OwnedRouteFrame};
use crate::channel_route::{answers, established_error, established_route, established_secret, frame_of, lane_alias, lane_of, pending_public, prepared_context, prepared_route, retained_secret, route_context, route_error, route_of, route_wire, unified_error, unified_route, write_error};
use crate::codec::{Codec, NodeKeys, Protocol, RoleFacts};
use crate::error::Error;
use crate::model::{AliasContact, ChannelRoute, IpAddr, OwnedAliasView, OwnedChannelRouteView};
use crate::owner_record::bare;
use crate::record::{oversize, reads};
use crate::reopen::{retained_routes, routes_named};
use crate::seal::{hkdf_sha256, opened, sha256_digest, spec_channel_seed, x25519_public};

verus! {

/// The owner of a channel has a seed for it that is derived from the node's own, the
/// channel's name, and a label.
pub proof fn a_channel_has_a_seed_of_its_own(seed: Seq<u8>, name: Seq<char>)
    ensures
        spec_channel_seed(seed, name) == hkdf_sha256(seed, encode_utf8(name), encode_utf8("gc1/channel-seed"@)),
{
}

/// A secret answers to the public key that is computed from it, and to the key of
/// thirty-two zeros, which stands for any.
pub proof fn a_secret_answers_to_its_key(secret: [u8; 32], public: [u8; 32])
    ensures
        x25519_public(secret@) == public@ ==> answers(secret, public),
        (forall|i: int| 0 <= i < 32 ==> public[i] == 0) ==> answers(secret, public),
        x25519_public(secret@) != public@ && (exists|i: int| 0 <= i < 32 && public[i] != 0) ==> !answers(secret, public),
{
}

/// The secret of a retained route is the node's where that answers, else the
/// channel's where that does; there is no third.
pub proof fn retained_secrets_answer(seed: Seq<u8>, name: Seq<char>, pseudonym: [u8; 32], public: [u8; 32], codec: Codec)
    ensures
        ({
            let own = codec.secret(seed, pseudonym@);
            let channel = codec.secret(spec_channel_seed(seed, name), pseudonym@);
            let r = retained_secret(seed, name, pseudonym, public, codec);
            &&& own is Some && answers(own->0, public) ==> r == Ok::<[u8; 32], Error>(own->0)
            &&& !(own is Some && answers(own->0, public)) && channel is Some && answers(channel->0, public) ==> r == Ok::<[u8; 32], Error>(
                channel->0,
            )
            &&& r is Err ==> r == Err::<[u8; 32], Error>(Error::RetainedSecretMismatch)
            &&& r is Err ==> !(own is Some && answers(own->0, public)) && !(channel is Some && answers(channel->0, public))
            &&& r matches Ok(secret) ==> answers(secret, public)
        }),
{
}

/// The secret of an established route is derived from the channel's seed for its
/// owner, and from the node's for a member, under the role's pseudonym.
pub proof fn owners_and_members_have_their_secrets(seed: Seq<u8>, name: Seq<char>, role: RoleFacts, codec: Codec)
    ensures
        established_secret(seed, name, true, role, codec) == codec.secret(spec_channel_seed(seed, name), role.pseudonym@),
        established_secret(seed, name, false, role, codec) == codec.secret(seed, role.pseudonym@),
{
}

/// A route that waits for its queues goes by what it was known as before, or else by
/// the pseudonym alone, with no key and two contacts that lead nowhere.
pub proof fn waiting_routes_go_by_what_was_known(pseudonym: [u8; 32], before: ChannelRoute)
    ensures
        pending_public(pseudonym, Some(before)) == before,
        ({
            let fresh = pending_public(pseudonym, None);
            &&& fresh.pseudonym == pseudonym
            &&& forall|i: int| 0 <= i < 32 ==> fresh.direct_public[i] == 0
            &&& fresh.data == fresh.control
            &&& fresh.data.expiry == 0 && fresh.data.epoch == 0
            &&& fresh.data.target.address.port == 0
            &&& fresh.data.target.address.ip matches IpAddr::V4(a)
            &&& forall|i: int| 0 <= i < 4 ==> a[i] == 0
            &&& forall|i: int| 0 <= i < 32 ==> fresh.data.queue_id[i] == 0 && fresh.data.push_cap[i] == 0 && fresh.data.target.relay_service_id[i] == 0
        }),
{
}

/// The private material of a queue is written field by field, and gives the queue
/// back with its contact.
pub proof fn private_material_belongs_to_its_queue(alias: OwnedAliasView, lane: LaneView, contact: AliasContact)
    ensures
        lane_of(alias).push == alias.capabilities.push,
        lane_of(alias).sub == alias.capabilities.sub,
        lane_of(alias).admin == alias.capabilities.admin,
        lane_of(alias).max_queue_cells == alias.limits.max_queue_cells,
        lane_of(alias).max_queue_bytes == alias.limits.max_queue_bytes,
        lane_of(alias).create_path == alias.create_path,
        lane_of(alias).lease_create == alias.lease_create,
        lane_alias(lane_of(alias), alias.contact) == alias,
        lane_alias(lane, contact).contact == contact,
        lane_of(lane_alias(lane, contact)) == lane,
{
}

/// The queue for messages is written first, the one for control second.
pub proof fn routes_are_written_messages_first(route: OwnedChannelRouteView, codec: Codec)
    ensures
        frame_of(route, codec).data == lane_of(route.aliases[0]),
        frame_of(route, codec).control == lane_of(route.aliases[1]),
        route_wire(codec, route.public) matches Some(wire) ==> frame_of(route, codec).public == wire,
{
}

/// A route that reads from bytes takes all of them, is of the pseudonym asked for, has
/// the secret given, and two queues: the first behind the contact for messages, the
/// second behind the one for control, each with the push capability of its contact and
/// a lease that can be carried.
pub proof fn read_routes_are_what_their_bytes_say(plain: Seq<u8>, pseudonym: [u8; 32], secret: [u8; 32], codec: Codec)
    ensures
        route_of(plain, pseudonym, secret, codec) matches Some(route) ==> {
            let f = (reads::<OwnedRouteFrame>(bare(), plain, 0)->0).0;
            &&& reads::<OwnedRouteFrame>(bare(), plain, 0) matches Some(read) && read.1 == plain.len()
            &&& codec.route(f.public) == Some(route.public)
            &&& route.public.pseudonym == pseudonym
            &&& route.direct_secret == secret
            &&& route.aliases.len() == 2
            &&& route.aliases[0] == lane_alias(f.data, route.public.data)
            &&& route.aliases[1] == lane_alias(f.control, route.public.control)
            &&& route.aliases[0].capabilities.push == route.public.data.push_cap
            &&& route.aliases[1].capabilities.push == route.public.control.push_cap
            &&& codec.carries(route.aliases[0].lease_create)
            &&& codec.carries(route.aliases[1].lease_create)
        },
        reads::<OwnedRouteFrame>(bare(), plain, 0) matches Some(read) ==> (codec.route(read.0.public) matches Some(public) ==> (read.1
            == plain.len() && public.pseudonym == pseudonym && codec.carries(read.0.data.lease_create) && codec.carries(
            read.0.control.lease_create,
        ) && read.0.data.push == public.data.push_cap && read.0.control.push == public.control.push_cap ==> route_of(
            plain,
            pseudonym,
            secret,
            codec,
        ) is Some)),
{
}

/// Whether a queue is in order behind a contact: its push capability is that of the
/// contact; its capabilities are none of them zero, equal, or the queue's identifier;
/// it has limits, a path of at most so many bytes, and a lease operation.
pub open spec fn queue_in_order(alias: OwnedAliasView, contact: AliasContact, p: Protocol) -> bool {
    &&& alias.contact == contact
    &&& alias.capabilities.push == contact.push_cap
    &&& exists|i: int| 0 <= i < 32 && alias.capabilities.push[i] != 0
    &&& exists|i: int| 0 <= i < 32 && alias.capabilities.sub[i] != 0
    &&& exists|i: int| 0 <= i < 32 && alias.capabilities.admin[i] != 0
    &&& alias.capabilities.push != alias.capabilities.sub
    &&& alias.capabilities.push != alias.capabilities.admin
    &&& alias.capabilities.sub != alias.capabilities.admin
    &&& alias.capabilities.push != contact.queue_id
    &&& alias.capabilities.sub != contact.queue_id
    &&& alias.capabilities.admin != contact.queue_id
    &&& alias.limits.max_queue_cells > 0
    &&& alias.limits.max_queue_bytes > 0
    &&& encode_utf8(alias.create_path).len() > 0
    &&& encode_utf8(alias.create_path).len() <= 256
    &&& alias.lease_create.raw_type == p.relay_sub
    &&& alias.lease_create.payload.len() == p.lease_create_len
}

/// A route is one of a role exactly where it is valid, goes by the role's pseudonym,
/// has the secret and the key computed from it, and its two queues are in order behind
/// the contacts for messages and for control.
pub proof fn routes_in_order(route: OwnedChannelRouteView, secret: [u8; 32], role: RoleFacts, codec: Codec, p: Protocol)
    ensures
        route_error(route, secret, role, codec, p) is None <==> {
            &&& route.public.pseudonym == role.pseudonym
            &&& codec.validates(route.public)
            &&& route.direct_secret == secret
            &&& route.public.direct_public@ == x25519_public(secret@)
            &&& route.aliases.len() == 2
            &&& queue_in_order(route.aliases[0], route.public.data, p)
            &&& queue_in_order(route.aliases[1], route.public.control, p)
        },
        route_error(route, secret, role, codec, p) matches Some(e) ==> e == Error::InvalidEstablishedRoute || e == Error::InvalidEstablishedAlias,
        route_error(route, secret, role, codec, p) == Some(Error::InvalidEstablishedAlias) ==> route.public.pseudonym == role.pseudonym
            && codec.validates(route.public) && route.direct_secret == secret && route.public.direct_public@ == x25519_public(secret@)
            && route.aliases.len() == 2,
{
}

/// A route in force is held to the secret that its key calls for; a route of the
/// earlier form to the one of its role. Without a secret it is refused.
pub proof fn routes_are_held_to_their_secret(
    route: OwnedChannelRouteView,
    seed: Seq<u8>,
    name: Seq<char>,
    owner: bool,
    role: RoleFacts,
    codec: Codec,
    p: Protocol,
)
    ensures
        unified_error(route, seed, name, role, codec, p) is None <==> {
            &&& retained_secret(seed, name, role.pseudonym, route.public.direct_public, codec) == Ok::<[u8; 32], Error>(route.direct_secret)
            &&& route_error(route, route.direct_secret, role, codec, p) is None
        },
        established_error(route, seed, name, owner, role, codec, p) is None <==> {
            &&& established_secret(seed, name, owner, role, codec) == Some(route.direct_secret)
            &&& route_error(route, route.direct_secret, role, codec, p) is None
        },
        retained_secret(seed, name, role.pseudonym, route.public.direct_public, codec) matches Ok(secret) ==> (secret != route.direct_secret
            ==> unified_error(route, seed, name, role, codec, p) == Some(Error::InvalidRetainedSecret)),
        established_secret(seed, name, owner, role, codec) is None ==> established_error(route, seed, name, owner, role, codec, p) == Some(
            Error::NotListed,
        ),
{
}

/// A route that was sealed as in force, or as the one before, opens under the archive
/// key and for its place alone, is held to its channel, and is at most so many bytes.
pub proof fn opened_routes_are_held_to_their_channel(
    sealed: Seq<u8>,
    name: Seq<char>,
    owner: bool,
    role: RoleFacts,
    previous: bool,
    keys: NodeKeys,
    codec: Codec,
    p: Protocol,
)
    ensures
        unified_route(sealed, name, role, previous, keys, codec, p) matches Ok(route) ==> {
            &&& sealed.len() <= 65_536
            &&& codec.aad(route_context(keys.identity_public@, role, previous)) matches Some(aad)
            &&& opened(keys.archive_key@, aad, sealed) matches Ok(plain)
            &&& route_of(plain, role.pseudonym, route.direct_secret, codec) == Some(route)
            &&& unified_error(route, keys.seed@, name, role, codec, p) is None
        },
        established_route(sealed, name, owner, role, previous, keys, codec, p) matches Ok(route) ==> {
            &&& sealed.len() <= 65_536
            &&& codec.aad(route_context(keys.identity_public@, role, previous)) matches Some(aad)
            &&& opened(keys.archive_key@, aad, sealed) matches Ok(plain)
            &&& route_of(plain, role.pseudonym, route.direct_secret, codec) == Some(route)
            &&& established_error(route, keys.seed@, name, owner, role, codec, p) is None
        },
        prepared_route(sealed, role.pseudonym, keys, codec) matches Ok(route) ==> {
            &&& codec.aad(prepared_context(keys.identity_public@, role.pseudonym)) matches Some(aad)
            &&& opened(keys.archive_key@, aad, sealed) matches Ok(plain)
            &&& codec.secret(keys.seed@, role.pseudonym@) == Some(route.direct_secret)
            &&& route_of(plain, role.pseudonym, route.direct_secret, codec) == Some(route)
        },
        sealed.len() > 65_536 ==> unified_route(sealed, name, role, previous, keys, codec, p) == Err::<OwnedChannelRouteView, Error>(
            Error::Malformed,
        ),
        sealed.len() > 65_536 ==> established_route(sealed, name, owner, role, previous, keys, codec, p) == Err::<
            OwnedChannelRouteView,
            Error,
        >(Error::Malformed),
{
}

/// Routes are sealed to the node, to the role that they are of, and to their use: the
/// one in force, the one before, and one that is prepared are told apart.
pub proof fn routes_are_sealed_to_their_use(identity: Seq<u8>, pseudonym: [u8; 32], role: RoleFacts)
    ensures
        ({
            let current = route_context(identity, role, false);
            &&& current.identity == sha256_digest(identity)
            &&& current.first == encode_utf8("gc1/established-channel-route/v1"@)
            &&& current.second == role.pseudonym@
            &&& current.third == role.channel_id@
        }),
        ({
            let before = route_context(identity, role, true);
            &&& before.identity == sha256_digest(identity)
            &&& before.first == encode_utf8("gc1/previous-channel-route/v1"@)
            &&& before.second == role.pseudonym@
            &&& before.third == role.channel_id@
        }),
        ({
            let prepared = prepared_context(identity, pseudonym);
            &&& prepared.identity == sha256_digest(identity)
            &&& prepared.first == encode_utf8("pending-join"@)
            &&& prepared.second == pseudonym@
            &&& prepared.third == encode_utf8("gc1/prepared-route/v1"@)
        }),
{
}

/// A route can be written exactly where it has two queues, its public part has an
/// encoding that fits, and both queues have a path that fits and a lease that can be
/// carried.
pub proof fn routes_that_can_be_written(route: OwnedChannelRouteView, codec: Codec)
    ensures
        write_error(route, codec) is None <==> {
            &&& route.aliases.len() == 2
            &&& route_wire(codec, route.public) is Some
            &&& (route_wire(codec, route.public)->0).len() < 0x1_0000_0000
            &&& encode_utf8(route.aliases[0].create_path).len() < 65_536
            &&& encode_utf8(route.aliases[1].create_path).len() < 65_536
            &&& codec.carries(route.aliases[0].lease_create)
            &&& codec.carries(route.aliases[1].lease_create)
            &&& oversize::<LaneFrame>(lane_of(route.aliases[0]), bare()) is None
            &&& oversize::<LaneFrame>(lane_of(route.aliases[1]), bare()) is None
        },
        route.aliases.len() != 2 ==> write_error(route, codec) == Some(Error::Malformed),
        route.aliases.len() == 2 && route_wire(codec, route.public) is None ==> write_error(route, codec) == Some(Error::NotListed),
{
}

proof fn lemma_named(s: Seq<NamedRoutesView>, n: nat, name: Seq<char>)
    requires
        n <= s.len(),
    ensures
        match routes_named(s, n, name) {
            Some(r) => exists|i: int| 0 <= i < n && #[trigger] s[i] == r && r.name == name && forall|j: int| 0 <= j < i ==> (#[trigger] s[j]).name != name,
            None => forall|j: int| 0 <= j < n ==> (#[trigger] s[j]).name != name,
        },
    decreases n,
{
    if n > 0 {
        lemma_named(s, (n - 1) as nat, name);
        if routes_named(s, (n - 1) as nat, name) is None && s[n - 1].name == name {
            assert(s[n - 1] == routes_named(s, n, name)->0);
        }
    }
}

/// The routes that an archive retained for a channel are those of the first entry with
/// its name, and none where there is no such entry.
pub proof fn retained_routes_go_by_name(a: ArchiveView, name: Seq<char>, i: int)
    requires
        0 <= i < a.routes.len(),
    ensures
        a.routes[i].name == name && (forall|j: int| 0 <= j < i ==> (#[trigger] a.routes[j]).name != name) ==> retained_routes(a, name).0
            == a.routes[i].current && retained_routes(a, name).1 == a.routes[i].previous,
        (forall|j: int| 0 <= j < a.routes.len() ==> (#[trigger] a.routes[j]).name != name) ==> retained_routes(a, name).0 is None && retained_routes(
            a,
            name,
        ).1 is None,
{
    lemma_named(a.routes, a.routes.len(), name);
    if a.routes[i].name == name && (forall|j: int| 0 <= j < i ==> (#[trigger] a.routes[j]).name != name) {
        let r = routes_named(a.routes, a.routes.len(), name)->0;
        let k = choose|k: int|
            0 <= k < a.routes.len() && #[trigger] a.routes[k] == r && r.name == name && forall|j: int|
                0 <= j < k ==> (#[trigger] a.routes[j]).name != name;
        assert(k == i);
    }
}

} // verus!
