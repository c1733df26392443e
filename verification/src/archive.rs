//! Reading a node archive of any version.

use vstd::prelude::*;
use vstd::utf8::encode_utf8;
use crate::archive_check::{body_good, core_good, is_body_good, is_core_good, is_credited, is_policy_good, has_credited_prefix, number_core, numbered, policy_good, reconcile, reconciled, ChannelChecks, ChannelFacts, Checks};
use crate::archive_frame::{ArchivedChannel, ArchivedChannelView, CentralOwnership, CentralView, ChannelBody, ChannelHead, ChannelHeadView, CoreFrame, CoreView, InboxFrame, InboxFrameView, NameFrame, PendingFrame, PendingView, PolicyFrame, PolicyView, PreparedFrame, SessionFrame, SessionView};
use crate::bytes::{same_bytes, text_len};
use crate::channel_route::{established_route, open_established_route, open_prepared_route, open_previous_route, open_unified_route, prepared_route, rekey, rekeyed, unified_route};
use crate::codec::{Codec, NodeKeys, Protocol, RoleFacts};
use crate::error::Error;
use crate::grammar::{maybe, parse, Shape, Tree};
use crate::model::{views, OwnedChannelRoute, OwnedChannelRouteView};
use crate::owner_aliases::{Record, RecordView};
use crate::owner_record::{open_unbound, opened_record};
use crate::record::{bytes_view, maybe_view, reads, take32, take_count, take_frame, take_opt32, take_u64, Framed, Layout};
use crate::sealed_parts::{open_application_inbox, open_central_ownership, open_machine_ownership, open_receipts, open_routing_directory, open_tls_identity, opened_central, opened_directory, opened_inbox, opened_machine, opened_receipts, opened_tls};
use crate::table::among;

verus! {

/// The most bytes that an archive may have.
pub open spec fn max_archive() -> nat {
    0x1000_0000
}

/// The version that the last byte of a magic number stands for.
pub open spec fn version_code(b: u8) -> Option<u8> {
    if 0x31 <= b <= 0x39 {
        Some((b - 0x30) as u8)
    } else if 0x41 <= b <= 0x4c {
        Some((b - 0x37) as u8)
    } else {
        None
    }
}

/// The version that an archive says it has.
pub open spec fn magic_version(buf: Seq<u8>) -> Option<u8> {
    if buf.len() >= 6 && buf[0] == 0x47 && buf[1] == 0x43 && buf[2] == 0x4e && buf[3] == 0x53 && buf[4] == 0x54 {
        version_code(buf[5])
    } else {
        None
    }
}

pub fn version_of(buf: &[u8]) -> (r: Option<u8>)
    ensures
        r == magic_version(buf@),
{
    if buf.len() >= 6 && buf[0] == 0x47 && buf[1] == 0x43 && buf[2] == 0x4e && buf[3] == 0x53 && buf[4] == 0x54 {
        let b: u8 = buf[5];
        if b >= 0x31 && b <= 0x39 {
            Some(b - 0x30)
        } else if b >= 0x41 && b <= 0x4c {
            Some(b - 0x37)
        } else {
            None
        }
    } else {
        None
    }
}

pub open spec fn layout_of(version: u8, p: Protocol) -> Layout {
    Layout {
        version,
        channel_max: p.channel_max,
        channel_ack_limit: p.channel_ack_limit,
        forward_grants_max: p.forward_grants_max,
        application_inbox_limit: p.application_inbox_limit,
    }
}

pub fn layout_for(version: u8, p: &Protocol) -> (r: Layout)
    ensures
        r == layout_of(version, *p),
{
    Layout {
        version,
        channel_max: p.channel_max,
        channel_ack_limit: p.channel_ack_limit,
        forward_grants_max: p.forward_grants_max,
        application_inbox_limit: p.application_inbox_limit,
    }
}

/// The routes of this node in a channel: the one in force and the one before it.
#[derive(Debug)]
pub struct NamedRoutes {
    pub name: String,
    pub current: Option<OwnedChannelRoute>,
    pub previous: Option<OwnedChannelRoute>,
}

pub struct NamedRoutesView {
    pub name: Seq<char>,
    pub current: Option<OwnedChannelRouteView>,
    pub previous: Option<OwnedChannelRouteView>,
}

impl View for NamedRoutes {
    type V = NamedRoutesView;

    open spec fn view(&self) -> NamedRoutesView {
        NamedRoutesView { name: self.name@, current: maybe_view(self.current), previous: maybe_view(self.previous) }
    }
}

/// A prepared join with its route.
#[derive(Debug)]
pub struct PreparedJoin {
    pub id: u64,
    pub display: String,
    pub mls: Vec<u8>,
    pub route: OwnedChannelRoute,
}

pub struct PreparedJoinView {
    pub id: u64,
    pub display: Seq<char>,
    pub mls: Seq<u8>,
    pub route: OwnedChannelRouteView,
}

impl View for PreparedJoin {
    type V = PreparedJoinView;

    open spec fn view(&self) -> PreparedJoinView {
        PreparedJoinView { id: self.id, display: self.display@, mls: self.mls@, route: self.route@ }
    }
}

/// What an archive holds.
#[derive(Debug)]
pub struct Archive {
    pub version: u8,
    pub core: CoreFrame,
    pub channels: Vec<ArchivedChannel>,
    pub routes: Vec<NamedRoutes>,
    pub policy: PolicyFrame,
    pub application_inbox: InboxFrame,
    pub next_prep_id: u64,
    pub prepared: Vec<PreparedJoin>,
    pub tls_identity: Option<Vec<u8>>,
    pub central_ownership: Option<CentralOwnership>,
    pub machine_owned: bool,
    pub owner_aliases: Option<Record>,
    pub routing_directory: Option<Vec<u8>>,
    pub receipts: Option<Vec<u8>>,
}

pub struct ArchiveView {
    pub version: u8,
    pub core: CoreView,
    pub channels: Seq<ArchivedChannelView>,
    pub routes: Seq<NamedRoutesView>,
    pub policy: PolicyView,
    pub application_inbox: InboxFrameView,
    pub next_prep_id: u64,
    pub prepared: Seq<PreparedJoinView>,
    pub tls_identity: Option<Seq<u8>>,
    pub central_ownership: Option<CentralView>,
    pub machine_owned: bool,
    pub owner_aliases: Option<RecordView>,
    pub routing_directory: Option<Seq<u8>>,
    pub receipts: Option<Seq<u8>>,
}

impl View for Archive {
    type V = ArchiveView;

    open spec fn view(&self) -> ArchiveView {
        ArchiveView {
            version: self.version,
            core: self.core@,
            channels: views(self.channels@),
            routes: views(self.routes@),
            policy: self.policy@,
            application_inbox: self.application_inbox@,
            next_prep_id: self.next_prep_id,
            prepared: views(self.prepared@),
            tls_identity: bytes_view(self.tls_identity),
            central_ownership: maybe_view(self.central_ownership),
            machine_owned: self.machine_owned,
            owner_aliases: maybe_view(self.owner_aliases),
            routing_directory: bytes_view(self.routing_directory),
            receipts: bytes_view(self.receipts),
        }
    }
}

impl Archive {
    /// The retained record is a map.
    pub open spec fn wf(self) -> bool {
        self.owner_aliases is Some ==> self.owner_aliases->0.wf()
    }
}

/// What reading is done with.
#[derive(Clone, Copy)]
pub struct Reader<'a> {
    pub keys: &'a NodeKeys,
    pub codec: &'a Codec,
    pub p: &'a Protocol,
}

pub open spec fn same_archive(r: Result<Archive, Error>, s: Result<ArchiveView, Error>) -> bool {
    match (r, s) {
        (Ok(x), Ok(y)) => x@ == y && x.wf(),
        (Err(a), Err(b)) => a == b,
        _ => false,
    }
}

/// The bytes of a field, and where it ends.
pub open spec fn field_at(buf: Seq<u8>, at: int) -> Option<(Seq<u8>, int)> {
    match parse(Shape::Field(4), buf, at) {
        Some((Tree::Bytes(b), q)) => Some((b, q)),
        _ => None,
    }
}

/// An optional field, and where it ends.
pub open spec fn option_at(buf: Seq<u8>, at: int) -> Option<(Option<Seq<u8>>, int)> {
    match parse(maybe(Shape::Field(4)), buf, at) {
        Some((Tree::Either(tag, t), q)) => match *t {
            Tree::Bytes(b) if tag == 1 => Some((Some(b), q)),
            _ => Some((None, q)),
        },
        _ => None,
    }
}

/// A count, and where it ends, unless it is more than a reader takes.
pub open spec fn count_at(buf: Seq<u8>, at: int, maximum: nat) -> Option<(nat, int)> {
    match parse(Shape::Number(4), buf, at) {
        Some((Tree::Number(n), q)) if n <= maximum => Some((n, q)),
        _ => None,
    }
}

fn take_option(buf: &[u8], position: &mut usize) -> (r: Result<Option<Vec<u8>>, Error>)
    ensures
        match r {
            Ok(x) => option_at(buf@, *old(position) as int) == Some((bytes_view(x), *final(position) as int)),
            Err(e) => e == Error::Malformed && option_at(buf@, *old(position) as int) is None,
        },
{
    take_opt32(buf, position)
}

pub open spec fn channel_names(channels: Seq<ArchivedChannelView>) -> Seq<Seq<char>> {
    Seq::new(channels.len(), |i: int| channels[i].head.name)
}

/// The role of the first channel with a name.
pub open spec fn role_named(channels: Seq<ArchivedChannelView>, name: Seq<char>, codec: Codec) -> Option<RoleFacts> {
    if channel_names(channels).contains(name) {
        let head = channels[crate::table::place(channel_names(channels), name)].head;
        codec.role(head.owner, head.name, head.blob)
    } else {
        None
    }
}

/// The routes that a channel keeps with its role, in the one version that does.
pub open spec fn inline_routes(
    buf: Seq<u8>,
    at: int,
    head: ChannelHeadView,
    role: RoleFacts,
    version: u8,
    d: Reader,
) -> Result<(Option<NamedRoutesView>, int), Error> {
    if version != 17 {
        Ok((None, at))
    } else {
        match field_at(buf, at) {
            None => Err(Error::Malformed),
            Some((sealed, q)) => match established_route(sealed, head.name, head.owner, role, false, *d.keys, *d.codec, *d.p) {
                Err(e) => Err(e),
                Ok(route) => match option_at(buf, q) {
                    None => Err(Error::Malformed),
                    Some((None, end)) => Ok(
                        (Some(NamedRoutesView { name: head.name, current: Some(route), previous: None }), end),
                    ),
                    Some((Some(sealed), end)) => match established_route(
                        sealed,
                        head.name,
                        head.owner,
                        role,
                        true,
                        *d.keys,
                        *d.codec,
                        *d.p,
                    ) {
                        Err(e) => Err(e),
                        Ok(previous) => Ok(
                            (
                                Some(NamedRoutesView { name: head.name, current: Some(route), previous: Some(previous) }),
                                end,
                            ),
                        ),
                    },
                },
            },
        }
    }
}

/// One channel after those before it.
#[verifier::opaque]
pub open spec fn channel_at(buf: Seq<u8>, at: int, before: Seq<ArchivedChannelView>, version: u8, d: Reader) -> Result<
    (ArchivedChannelView, Option<NamedRoutesView>, int),
    Error,
> {
    let layout = layout_of(version, *d.p);
    match reads::<ChannelHead>(layout, buf, at) {
        None => Err(Error::Malformed),
        Some((head, q)) => if encode_utf8(head.name).len() == 0 || channel_names(before).contains(head.name) {
            Err(Error::Malformed)
        } else {
            match d.codec.role(head.owner, head.name, head.blob) {
                None => Err(Error::Malformed),
                Some(role) => match inline_routes(buf, q, head, role, version, d) {
                    Err(e) => Err(e),
                    Ok((routes, q)) => match reads::<ChannelBody>(layout, buf, q) {
                        None => Err(Error::Malformed),
                        Some((body, end)) => {
                            let k = ChannelFacts { c: Checks { version, codec: d.codec }, name: head.name, role };
                            if body_good(body, k) {
                                Ok((ArchivedChannelView { head, body: reconciled(body, k) }, routes, end))
                            } else {
                                Err(Error::Malformed)
                            }
                        },
                    },
                },
            }
        },
    }
}

/// The first `n` channels from a place on, with the routes kept beside them.
pub open spec fn channels_at(buf: Seq<u8>, at: int, n: nat, version: u8, d: Reader) -> Result<
    (Seq<ArchivedChannelView>, Seq<NamedRoutesView>, int),
    Error,
>
    decreases n,
{
    if n == 0 {
        Ok((Seq::empty(), Seq::empty(), at))
    } else {
        match channels_at(buf, at, (n - 1) as nat, version, d) {
            Err(e) => Err(e),
            Ok((before, routes, q)) => match channel_at(buf, q, before, version, d) {
                Err(e) => Err(e),
                Ok((channel, kept, end)) => Ok(
                    (
                        before.push(channel),
                        match kept {
                            Some(r) => routes.push(r),
                            None => routes,
                        },
                        end,
                    ),
                ),
            },
        }
    }
}

proof fn lemma_channels_stop(buf: Seq<u8>, at: int, m: nat, n: nat, version: u8, d: Reader)
    requires
        m <= n,
        channels_at(buf, at, m, version, d) is Err,
    ensures
        channels_at(buf, at, n, version, d) == channels_at(buf, at, m, version, d),
    decreases n,
{
    if m < n {
        lemma_channels_stop(buf, at, m, (n - 1) as nat, version, d);
    }
}

fn take_inline_routes(
    buf: &[u8],
    position: &mut usize,
    head: &ChannelHead,
    role: &RoleFacts,
    version: u8,
    d: Reader,
) -> (r: Result<Option<NamedRoutes>, Error>)
    ensures
        match r {
            Ok(x) => inline_routes(buf@, *old(position) as int, head@, *role, version, d) == Ok::<
                (Option<NamedRoutesView>, int),
                Error,
            >((maybe_view(x), *final(position) as int)),
            Err(e) => inline_routes(buf@, *old(position) as int, head@, *role, version, d) == Err::<
                (Option<NamedRoutesView>, int),
                Error,
            >(e),
        },
{
    if version != 17 {
        return Ok(None);
    }
    let sealed = match take32(buf, position) {
        Ok(sealed) => sealed,
        Err(e) => {
            return Err(e);
        },
    };
    let route = match open_established_route(sealed, head.name.as_str(), head.owner, role, d.keys, d.codec, d.p) {
        Ok(route) => route,
        Err(e) => {
            return Err(e);
        },
    };
    let previous = match take_option(buf, position) {
        Ok(Some(sealed)) => match open_previous_route(
            sealed.as_slice(),
            head.name.as_str(),
            head.owner,
            role,
            d.keys,
            d.codec,
            d.p,
        ) {
            Ok(previous) => Some(previous),
            Err(e) => {
                return Err(e);
            },
        },
        Ok(None) => None,
        Err(e) => {
            return Err(e);
        },
    };
    Ok(Some(NamedRoutes { name: head.name.clone(), current: Some(route), previous }))
}

fn take_channel(buf: &[u8], position: &mut usize, names: &Vec<String>, Ghost(before): Ghost<Seq<ArchivedChannelView>>, version: u8, d: Reader) -> (r: Result<
    (ArchivedChannel, Option<NamedRoutes>),
    Error,
>)
    requires
        views(names@) == channel_names(before),
    ensures
        match r {
            Ok((channel, routes)) => channel_at(buf@, *old(position) as int, before, version, d) == Ok::<
                (ArchivedChannelView, Option<NamedRoutesView>, int),
                Error,
            >((channel@, maybe_view(routes), *final(position) as int)),
            Err(e) => channel_at(buf@, *old(position) as int, before, version, d) == Err::<
                (ArchivedChannelView, Option<NamedRoutesView>, int),
                Error,
            >(e),
        },
{
    proof {
        reveal(channel_at);
    }
    let layout = layout_for(version, d.p);
    let head = match take_frame::<ChannelHead>(buf, position, layout) {
        Ok(head) => head,
        Err(e) => {
            return Err(e);
        },
    };
    if text_len(head.name.as_str()) == 0 || among(names, &head.name) {
        return Err(Error::Malformed);
    }
    let role = match d.codec.restore_role(head.owner, &head.name, &head.blob) {
        Some(role) => role,
        None => {
            return Err(Error::Malformed);
        },
    };
    let routes = match take_inline_routes(buf, position, &head, role, version, d) {
        Ok(routes) => routes,
        Err(e) => {
            return Err(e);
        },
    };
    let body = match take_frame::<ChannelBody>(buf, position, layout) {
        Ok(body) => body,
        Err(e) => {
            return Err(e);
        },
    };
    let k = ChannelChecks { c: Checks { version, codec: d.codec }, name: &head.name, role };
    if !is_body_good(&body, k) {
        return Err(Error::Malformed);
    }
    let body = reconcile(body, k);
    Ok((ArchivedChannel { head, body }, routes))
}

/// A presence list or ledger that is empty.
pub open spec fn no_inbox() -> InboxFrameView {
    InboxFrameView { next_sequence: 1, entries: Seq::empty() }
}

/// The end of an archive: receipts, where the version has them, and nothing more.
pub open spec fn receipts_stage(buf: Seq<u8>, at: int, a: ArchiveView, d: Reader) -> Result<ArchiveView, Error> {
    if a.version < 21 {
        if at == buf.len() {
            Ok(a)
        } else {
            Err(Error::Malformed)
        }
    } else {
        match field_at(buf, at) {
            None => Err(Error::Malformed),
            Some((sealed, q)) => match opened_receipts(sealed, *d.keys, *d.codec, *d.p) {
                Err(e) => Err(e),
                Ok(plain) => if q == buf.len() {
                    Ok(ArchiveView { receipts: Some(plain), ..a })
                } else {
                    Err(Error::Malformed)
                },
            },
        }
    }
}

/// Whether a session of a peer is there.
pub open spec fn has_session(sessions: Seq<SessionView>, peer: Seq<u8>) -> bool {
    exists|i: int| 0 <= i < sessions.len() && (#[trigger] sessions[i]).peer == peer
}

pub open spec fn has_credited_session(sessions: Seq<SessionView>, peer: Seq<u8>) -> bool {
    exists|i: int| 0 <= i < sessions.len() && (#[trigger] sessions[i]).peer == peer && is_credited(sessions[i].sealed)
}

/// Whether a message may wait as it does. Without cells it waits for routing, or
/// behind a session, and only as a record that can be kept.
pub open spec fn may_wait(v: PendingView, a: ArchiveView, codec: Codec) -> bool {
    let peer = codec.card(v.delivery.card)->0.identity_pk;
    if a.version >= 20 && has_credited_session(a.core.sessions, peer) && v.logical is Some && codec.is_direct(v.logical->0) {
        true
    } else {
        v.delivery.cells.len() > 0 || ((a.routing_directory is Some || (a.version >= 19 && has_session(a.core.sessions, peer)))
            && v.logical is Some && codec.is_durable(v.logical->0))
    }
}

pub open spec fn all_may_wait(a: ArchiveView, codec: Codec) -> bool {
    forall|i: int| 0 <= i < a.core.pending.len() ==> may_wait(#[trigger] a.core.pending[i], a, codec)
}

/// What holds of the whole before the end.
pub open spec fn whole_stage(buf: Seq<u8>, at: int, a: ArchiveView, d: Reader) -> Result<ArchiveView, Error> {
    if a.machine_owned && a.central_ownership is Some {
        Err(Error::Malformed)
    } else if !all_may_wait(a, *d.codec) {
        Err(Error::Malformed)
    } else {
        receipts_stage(buf, at, a, d)
    }
}

fn find_session(sessions: &Vec<SessionFrame>, peer: &Vec<u8>, credited: bool) -> (r: bool)
    ensures
        r == (if credited {
            has_credited_session(views(sessions@), peer@)
        } else {
            has_session(views(sessions@), peer@)
        }),
{
    let ghost v = views(sessions@);
    let mut i: usize = 0;
    while i < sessions.len()
        invariant
            i <= sessions.len(),
            v == views(sessions@),
            forall|j: int| 0 <= j < i ==> !((#[trigger] v[j]).peer == peer@ && (credited ==> is_credited(v[j].sealed))),
        decreases sessions.len() - i,
    {
        assert(v[i as int] == sessions@[i as int]@);
        if same_bytes(sessions[i].peer.as_slice(), peer.as_slice()) && (!credited || has_credited_prefix(
            sessions[i].sealed.as_slice(),
        )) {
            return true;
        }
        i += 1;
    }
    false
}

fn can_wait(f: &PendingFrame, a: &Archive, codec: &Codec) -> (r: bool)
    requires
        codec.card(f.delivery.card@) is Some,
    ensures
        r == may_wait(f@, a@, *codec),
{
    assert(f@.delivery.cells.len() == f.delivery.cells@.len());
    match codec.decode_card(&f.delivery.card) {
        None => false,
        Some(info) => {
            if a.version >= 20 && find_session(&a.core.sessions, &info.identity_pk, true) {
                match &f.logical {
                    Some(record) => {
                        if codec.is_direct_record(record) {
                            return true;
                        }
                    },
                    None => {},
                }
            }
            if f.delivery.cells.len() > 0 {
                return true;
            }
            let routed = a.routing_directory.is_some() || (a.version >= 19 && find_session(
                &a.core.sessions,
                &info.identity_pk,
                false,
            ));
            routed && match &f.logical {
                Some(record) => codec.is_durable_direct_data(record),
                None => false,
            }
        },
    }
}

fn can_all_wait(a: &Archive, codec: &Codec) -> (r: bool)
    requires
        core_good(a.core@, Checks { version: a.version, codec }),
    ensures
        r == all_may_wait(a@, *codec),
{
    let ghost v = a@.core.pending;
    let mut i: usize = 0;
    while i < a.core.pending.len()
        invariant
            i <= a.core.pending.len(),
            v == views(a.core.pending@),
            v == a@.core.pending,
            core_good(a.core@, Checks { version: a.version, codec }),
            forall|j: int| 0 <= j < i ==> may_wait(#[trigger] v[j], a@, *codec),
        decreases a.core.pending.len() - i,
    {
        assert(v[i as int] == a.core.pending@[i as int]@);
        assert(<PendingFrame as crate::archive_check::Entry>::good(v[i as int], Checks { version: a.version, codec })) by {
            reveal(core_good);
        }
        if !can_wait(&a.core.pending[i], a, codec) {
            return false;
        }
        i += 1;
    }
    true
}

fn read_receipts(buf: &[u8], position: usize, a: Archive, d: Reader) -> (r: Result<Archive, Error>)
    requires
        a.wf(),
    ensures
        same_archive(r, receipts_stage(buf@, position as int, a@, d)),
{
    if a.version < 21 {
        if position == buf.len() {
            return Ok(a);
        }
        return Err(Error::Malformed);
    }
    let mut at: usize = position;
    let sealed = match take32(buf, &mut at) {
        Ok(sealed) => sealed,
        Err(e) => {
            return Err(e);
        },
    };
    let plain = match open_receipts(sealed, d.keys, d.codec, d.p) {
        Ok(plain) => plain,
        Err(e) => {
            return Err(e);
        },
    };
    if at != buf.len() {
        return Err(Error::Malformed);
    }
    let mut a = a;
    a.receipts = Some(plain);
    Ok(a)
}

fn read_whole(buf: &[u8], position: usize, a: Archive, d: Reader) -> (r: Result<Archive, Error>)
    requires
        a.wf(),
        core_good(a.core@, Checks { version: a.version, codec: d.codec }),
    ensures
        same_archive(r, whole_stage(buf@, position as int, a@, d)),
{
    if a.machine_owned && a.central_ownership.is_some() {
        return Err(Error::Malformed);
    }
    if !can_all_wait(&a, d.codec) {
        return Err(Error::Malformed);
    }
    read_receipts(buf, position, a, d)
}

pub open spec fn route_names(routes: Seq<NamedRoutesView>) -> Seq<Seq<char>> {
    Seq::new(routes.len(), |i: int| routes[i].name)
}

fn find_role<'a>(channels: &Vec<ArchivedChannel>, name: &String, codec: &'a Codec) -> (r: Option<&'a RoleFacts>)
    ensures
        match r {
            Some(role) => role_named(views(channels@), name@, *codec) == Some(*role),
            None => role_named(views(channels@), name@, *codec) is None,
        },
{
    let ghost v = views(channels@);
    let ghost names = channel_names(v);
    let mut i: usize = 0;
    while i < channels.len()
        invariant
            i <= channels.len(),
            v == views(channels@),
            names == channel_names(v),
            forall|j: int| 0 <= j < i ==> names[j] != name@,
        decreases channels.len() - i,
    {
        assert(names[i as int] == channels@[i as int].head.name@);
        if channels[i].head.name == *name {
            proof {
                crate::table::lemma_place_is(names, name@, i as int);
                assert(names.contains(name@));
            }
            return codec.restore_role(channels[i].head.owner, &channels[i].head.name, &channels[i].head.blob);
        }
        i += 1;
    }
    assert(!names.contains(name@));
    None
}

fn has_route_name(routes: &Vec<NamedRoutes>, name: &String) -> (r: bool)
    ensures
        r == route_names(views(routes@)).contains(name@),
{
    let ghost names = route_names(views(routes@));
    let mut i: usize = 0;
    while i < routes.len()
        invariant
            i <= routes.len(),
            names == route_names(views(routes@)),
            forall|j: int| 0 <= j < i ==> names[j] != name@,
        decreases routes.len() - i,
    {
        assert(names[i as int] == routes@[i as int].name@);
        if routes[i].name == *name {
            return true;
        }
        i += 1;
    }
    false
}

/// A sealed route in force, or the one before it, where it is there.
pub open spec fn unified_at(buf: Seq<u8>, at: int, name: Seq<char>, role: RoleFacts, previous: bool, d: Reader) -> Result<
    (Option<OwnedChannelRouteView>, int),
    Error,
> {
    match option_at(buf, at) {
        None => Err(Error::Malformed),
        Some((None, q)) => Ok((None, q)),
        Some((Some(sealed), q)) => match unified_route(sealed, name, role, previous, *d.keys, *d.codec, *d.p) {
            Err(e) => Err(e),
            Ok(route) => Ok((Some(route), q)),
        },
    }
}

/// The routes of one channel, after those of others.
pub open spec fn named_at(buf: Seq<u8>, at: int, before: Seq<NamedRoutesView>, channels: Seq<ArchivedChannelView>, version: u8, d: Reader) -> Result<
    (NamedRoutesView, int),
    Error,
> {
    match reads::<NameFrame>(layout_of(version, *d.p), buf, at) {
        None => Err(Error::Malformed),
        Some((v, q)) => if route_names(before).contains(v.name) {
            Err(Error::Malformed)
        } else {
            match role_named(channels, v.name, *d.codec) {
                None => Err(Error::Malformed),
                Some(role) => match unified_at(buf, q, v.name, role, false, d) {
                    Err(e) => Err(e),
                    Ok((current, q)) => match unified_at(buf, q, v.name, role, true, d) {
                        Err(e) => Err(e),
                        Ok((previous, end)) => if current is None && previous is None {
                            Err(Error::Malformed)
                        } else {
                            Ok((NamedRoutesView { name: v.name, current, previous }, end))
                        },
                    },
                },
            }
        },
    }
}

/// The routes of one channel in the recovery grammar of version sixteen.
pub open spec fn recovered_at(buf: Seq<u8>, at: int, before: Seq<NamedRoutesView>, channels: Seq<ArchivedChannelView>, version: u8, d: Reader) -> Result<
    (NamedRoutesView, int),
    Error,
> {
    match reads::<NameFrame>(layout_of(version, *d.p), buf, at) {
        None => Err(Error::Malformed),
        Some((v, q)) => match role_named(channels, v.name, *d.codec) {
            None => Err(Error::Malformed),
            Some(role) => match field_at(buf, q) {
                None => Err(Error::Malformed),
                Some((sealed, end)) => if sealed.len() > 0x1_0000 {
                    Err(Error::Malformed)
                } else {
                    match prepared_route(sealed, role.pseudonym, *d.keys, *d.codec) {
                        Err(e) => Err(e),
                        Ok(route) => match rekeyed(route, v.name, role, *d.keys, *d.codec, *d.p) {
                            Err(e) => Err(e),
                            Ok(route) => if route_names(before).contains(v.name) {
                                Err(Error::Malformed)
                            } else {
                                Ok((NamedRoutesView { name: v.name, current: Some(route), previous: None }, end))
                            },
                        },
                    }
                },
            },
        },
    }
}

/// The routes of one channel, in the grammar of recovery or the later one.
#[verifier::opaque]
pub open spec fn one_at(
    buf: Seq<u8>,
    at: int,
    recovered: bool,
    before: Seq<NamedRoutesView>,
    channels: Seq<ArchivedChannelView>,
    version: u8,
    d: Reader,
) -> Result<(NamedRoutesView, int), Error> {
    if recovered {
        recovered_at(buf, at, before, channels, version, d)
    } else {
        named_at(buf, at, before, channels, version, d)
    }
}

/// The routes of the first `n` channels from a place on.
pub open spec fn routes_at(
    buf: Seq<u8>,
    at: int,
    n: nat,
    recovered: bool,
    channels: Seq<ArchivedChannelView>,
    version: u8,
    d: Reader,
) -> Result<(Seq<NamedRoutesView>, int), Error>
    decreases n,
{
    if n == 0 {
        Ok((Seq::empty(), at))
    } else {
        match routes_at(buf, at, (n - 1) as nat, recovered, channels, version, d) {
            Err(e) => Err(e),
            Ok((before, q)) => match one_at(buf, q, recovered, before, channels, version, d) {
                Err(e) => Err(e),
                Ok((routes, end)) => Ok((before.push(routes), end)),
            },
        }
    }
}

proof fn lemma_routes_stop(buf: Seq<u8>, at: int, m: nat, n: nat, recovered: bool, channels: Seq<ArchivedChannelView>, version: u8, d: Reader)
    requires
        m <= n,
        routes_at(buf, at, m, recovered, channels, version, d) is Err,
    ensures
        routes_at(buf, at, n, recovered, channels, version, d) == routes_at(buf, at, m, recovered, channels, version, d),
    decreases n,
{
    if m < n {
        lemma_routes_stop(buf, at, m, (n - 1) as nat, recovered, channels, version, d);
    }
}

fn take_unified(buf: &[u8], position: &mut usize, name: &String, role: &RoleFacts, previous: bool, d: Reader) -> (r: Result<
    Option<OwnedChannelRoute>,
    Error,
>)
    ensures
        match r {
            Ok(x) => unified_at(buf@, *old(position) as int, name@, *role, previous, d) == Ok::<
                (Option<OwnedChannelRouteView>, int),
                Error,
            >((maybe_view(x), *final(position) as int)),
            Err(e) => unified_at(buf@, *old(position) as int, name@, *role, previous, d) == Err::<
                (Option<OwnedChannelRouteView>, int),
                Error,
            >(e),
        },
{
    match take_option(buf, position) {
        Err(e) => Err(e),
        Ok(None) => Ok(None),
        Ok(Some(sealed)) => match open_unified_route(sealed.as_slice(), name.as_str(), role, previous, d.keys, d.codec, d.p) {
            Err(e) => Err(e),
            Ok(route) => Ok(Some(route)),
        },
    }
}

fn take_named(buf: &[u8], position: &mut usize, before: &Vec<NamedRoutes>, channels: &Vec<ArchivedChannel>, version: u8, d: Reader) -> (r: Result<
    NamedRoutes,
    Error,
>)
    ensures
        match r {
            Ok(x) => named_at(buf@, *old(position) as int, views(before@), views(channels@), version, d) == Ok::<
                (NamedRoutesView, int),
                Error,
            >((x@, *final(position) as int)),
            Err(e) => named_at(buf@, *old(position) as int, views(before@), views(channels@), version, d) == Err::<
                (NamedRoutesView, int),
                Error,
            >(e),
        },
{
    let named = match take_frame::<NameFrame>(buf, position, layout_for(version, d.p)) {
        Ok(named) => named,
        Err(e) => {
            return Err(e);
        },
    };
    let name = named.name;
    if has_route_name(before, &name) {
        return Err(Error::Malformed);
    }
    let role = match find_role(channels, &name, d.codec) {
        Some(role) => role,
        None => {
            return Err(Error::Malformed);
        },
    };
    let current = match take_unified(buf, position, &name, role, false, d) {
        Ok(current) => current,
        Err(e) => {
            return Err(e);
        },
    };
    let previous = match take_unified(buf, position, &name, role, true, d) {
        Ok(previous) => previous,
        Err(e) => {
            return Err(e);
        },
    };
    if current.is_none() && previous.is_none() {
        return Err(Error::Malformed);
    }
    Ok(NamedRoutes { name, current, previous })
}

fn take_recovered(
    buf: &[u8],
    position: &mut usize,
    before: &Vec<NamedRoutes>,
    channels: &Vec<ArchivedChannel>,
    version: u8,
    d: Reader,
) -> (r: Result<NamedRoutes, Error>)
    ensures
        match r {
            Ok(x) => recovered_at(buf@, *old(position) as int, views(before@), views(channels@), version, d) == Ok::<
                (NamedRoutesView, int),
                Error,
            >((x@, *final(position) as int)),
            Err(e) => recovered_at(buf@, *old(position) as int, views(before@), views(channels@), version, d) == Err::<
                (NamedRoutesView, int),
                Error,
            >(e),
        },
{
    let named = match take_frame::<NameFrame>(buf, position, layout_for(version, d.p)) {
        Ok(named) => named,
        Err(e) => {
            return Err(e);
        },
    };
    let name = named.name;
    let role = match find_role(channels, &name, d.codec) {
        Some(role) => role,
        None => {
            return Err(Error::Malformed);
        },
    };
    let sealed = match take32(buf, position) {
        Ok(sealed) => sealed,
        Err(e) => {
            return Err(e);
        },
    };
    if sealed.len() > 0x1_0000 {
        return Err(Error::Malformed);
    }
    let route = match open_prepared_route(sealed, &role.pseudonym, d.keys, d.codec) {
        Ok(route) => route,
        Err(e) => {
            return Err(e);
        },
    };
    let route = match rekey(route, name.as_str(), role, d.keys, d.codec, d.p) {
        Ok(route) => route,
        Err(e) => {
            return Err(e);
        },
    };
    if has_route_name(before, &name) {
        return Err(Error::Malformed);
    }
    Ok(NamedRoutes { name, current: Some(route), previous: None })
}

fn take_one(
    buf: &[u8],
    position: &mut usize,
    recovered: bool,
    before: &Vec<NamedRoutes>,
    channels: &Vec<ArchivedChannel>,
    version: u8,
    d: Reader,
) -> (r: Result<NamedRoutes, Error>)
    ensures
        match r {
            Ok(x) => one_at(buf@, *old(position) as int, recovered, views(before@), views(channels@), version, d) == Ok::<
                (NamedRoutesView, int),
                Error,
            >((x@, *final(position) as int)),
            Err(e) => one_at(buf@, *old(position) as int, recovered, views(before@), views(channels@), version, d) == Err::<
                (NamedRoutesView, int),
                Error,
            >(e),
        },
{
    proof {
        reveal(one_at);
    }
    if recovered {
        take_recovered(buf, position, before, channels, version, d)
    } else {
        take_named(buf, position, before, channels, version, d)
    }
}

fn take_routes(
    buf: &[u8],
    position: &mut usize,
    count: usize,
    recovered: bool,
    channels: &Vec<ArchivedChannel>,
    version: u8,
    d: Reader,
) -> (r: Result<Vec<NamedRoutes>, Error>)
    ensures
        match r {
            Ok(x) => routes_at(buf@, *old(position) as int, count as nat, recovered, views(channels@), version, d) == Ok::<
                (Seq<NamedRoutesView>, int),
                Error,
            >((views(x@), *final(position) as int)),
            Err(e) => routes_at(buf@, *old(position) as int, count as nat, recovered, views(channels@), version, d) == Err::<
                (Seq<NamedRoutesView>, int),
                Error,
            >(e),
        },
{
    let ghost start = *position as int;
    let ghost cs = views(channels@);
    let mut routes: Vec<NamedRoutes> = Vec::new();
    let mut i: usize = 0;
    assert(views(routes@) =~= Seq::<NamedRoutesView>::empty());
    while i < count
        invariant
            i <= count,
            start == *old(position) as int,
            cs == views(channels@),
            routes_at(buf@, start, i as nat, recovered, cs, version, d) == Ok::<(Seq<NamedRoutesView>, int), Error>(
                (views(routes@), *position as int),
            ),
        decreases count - i,
    {
        let ghost before = views(routes@);
        match take_one(buf, position, recovered, &routes, channels, version, d) {
            Ok(item) => {
                routes.push(item);
                assert(views(routes@) =~= before.push(item@));
            },
            Err(e) => {
                proof {
                    lemma_routes_stop(buf@, start, (i + 1) as nat, count as nat, recovered, cs, version, d);
                }
                return Err(e);
            },
        }
        i += 1;
    }
    Ok(routes)
}

/// What the trailer of an archive says.
pub struct TrailerView {
    pub machine_owned: bool,
    pub owner: Option<RecordView>,
    pub directory: Option<Seq<u8>>,
    pub routes: Seq<NamedRoutesView>,
}

pub open spec fn no_trailer() -> TrailerView {
    TrailerView { machine_owned: false, owner: None, directory: None, routes: Seq::empty() }
}

/// The machine-scope grammar of version sixteen, to the end of the archive.
pub open spec fn retained_trailer(buf: Seq<u8>, at: int, central: bool, d: Reader) -> Result<TrailerView, Error> {
    match field_at(buf, at) {
        None => Err(Error::Malformed),
        Some((sealed, q)) => match opened_machine(sealed, *d.keys, *d.codec) {
            Err(e) => Err(e),
            Ok(machine) => match field_at(buf, q) {
                None => Err(Error::Malformed),
                Some((sealed, end)) => match opened_record(sealed, *d.keys, *d.codec, *d.p) {
                    Err(e) => Err(e),
                    Ok(owner) => if end != buf.len() || (machine && central) {
                        Err(Error::Malformed)
                    } else {
                        Ok(TrailerView { machine_owned: machine, owner: Some(owner), ..no_trailer() })
                    },
                },
            },
        },
    }
}

/// An owner's record in a field that may be empty.
pub open spec fn owner_in(sealed: Seq<u8>, d: Reader) -> Result<Option<RecordView>, Error> {
    if sealed.len() == 0 {
        Ok(None)
    } else {
        match opened_record(sealed, *d.keys, *d.codec, *d.p) {
            Err(e) => Err(e),
            Ok(owner) => Ok(Some(owner)),
        }
    }
}

/// The routing-recovery grammar of version sixteen, to the end of the archive.
pub open spec fn routed_trailer(buf: Seq<u8>, at: int, channels: Seq<ArchivedChannelView>, version: u8, d: Reader) -> Result<TrailerView, Error> {
    match field_at(buf, at) {
        None => Err(Error::Malformed),
        Some((sealed, q)) => match owner_in(sealed, d) {
            Err(e) => Err(e),
            Ok(owner) => match field_at(buf, q) {
                None => Err(Error::Malformed),
                Some((sealed, q)) => match opened_directory(sealed, *d.keys, *d.codec) {
                    Err(e) => Err(e),
                    Ok(directory) => match count_at(buf, q, 1024) {
                        None => Err(Error::Malformed),
                        Some((n, q)) => match routes_at(buf, q, n, true, channels, version, d) {
                            Err(e) => Err(e),
                            Ok((routes, end)) => if end != buf.len() {
                                Err(Error::Malformed)
                            } else {
                                Ok(TrailerView { machine_owned: false, owner, directory: Some(directory), routes })
                            },
                        },
                    },
                },
            },
        },
    }
}

/// The trailer of version sixteen, where one of its two grammars reads it and the
/// other does not.
pub open spec fn either_trailer(buf: Seq<u8>, at: int, central: bool, channels: Seq<ArchivedChannelView>, version: u8, d: Reader) -> Result<
    TrailerView,
    Error,
> {
    match (retained_trailer(buf, at, central, d), routed_trailer(buf, at, channels, version, d)) {
        (Ok(t), Err(_)) => Ok(t),
        (Err(_), Ok(t)) => Ok(t),
        _ => Err(Error::AmbiguousTrailer),
    }
}

/// The trailer of the versions after sixteen, and where it ends.
pub open spec fn unified_trailer(buf: Seq<u8>, at: int, channels: Seq<ArchivedChannelView>, version: u8, d: Reader) -> Result<
    (TrailerView, int),
    Error,
> {
    match field_at(buf, at) {
        None => Err(Error::Malformed),
        Some((sealed, q)) => match opened_machine(sealed, *d.keys, *d.codec) {
            Err(e) => Err(e),
            Ok(machine_owned) => match field_at(buf, q) {
                None => Err(Error::Malformed),
                Some((sealed, q)) => if version == 17 {
                    match opened_record(sealed, *d.keys, *d.codec, *d.p) {
                        Err(e) => Err(e),
                        Ok(owner) => Ok((TrailerView { machine_owned, owner: Some(owner), ..no_trailer() }, q)),
                    }
                } else {
                    match owner_in(sealed, d) {
                        Err(e) => Err(e),
                        Ok(owner) => routing_trailer(buf, q, machine_owned, owner, channels, version, d),
                    }
                },
            },
        },
    }
}

/// A routing directory in a field that may be empty.
pub open spec fn directory_in(sealed: Seq<u8>, d: Reader) -> Result<Option<Seq<u8>>, Error> {
    if sealed.len() == 0 {
        Ok(None)
    } else {
        match opened_directory(sealed, *d.keys, *d.codec) {
            Err(e) => Err(e),
            Ok(directory) => Ok(Some(directory)),
        }
    }
}

pub open spec fn routing_trailer(
    buf: Seq<u8>,
    at: int,
    machine_owned: bool,
    owner: Option<RecordView>,
    channels: Seq<ArchivedChannelView>,
    version: u8,
    d: Reader,
) -> Result<(TrailerView, int), Error> {
    match field_at(buf, at) {
        None => Err(Error::Malformed),
        Some((sealed, q)) => match directory_in(sealed, d) {
            Err(e) => Err(e),
            Ok(directory) => if owner is None && directory is None {
                Err(Error::Malformed)
            } else {
                match count_at(buf, q, 1024) {
                    None => Err(Error::Malformed),
                    Some((n, q)) => match routes_at(buf, q, n, false, channels, version, d) {
                        Err(e) => Err(e),
                        Ok((routes, end)) => Ok((TrailerView { machine_owned, owner, directory, routes }, end)),
                    },
                }
            },
        },
    }
}

/// The trailer of an archive, and where it ends.
pub open spec fn trailer_at(buf: Seq<u8>, at: int, a: ArchiveView, d: Reader) -> Result<(TrailerView, int), Error> {
    if a.version == 16 {
        match either_trailer(buf, at, a.central_ownership is Some, a.channels, a.version, d) {
            Err(e) => Err(e),
            Ok(t) => Ok((t, buf.len() as int)),
        }
    } else if a.version >= 17 {
        unified_trailer(buf, at, a.channels, a.version, d)
    } else if a.version == 15 {
        match field_at(buf, at) {
            None => Err(Error::Malformed),
            Some((sealed, q)) => match opened_record(sealed, *d.keys, *d.codec, *d.p) {
                Err(e) => Err(e),
                Ok(owner) => Ok((TrailerView { owner: Some(owner), ..no_trailer() }, q)),
            },
        }
    } else {
        Ok((no_trailer(), at))
    }
}

/// An archive with its trailer. Only version seventeen keeps its routes elsewhere.
pub open spec fn with_trailer(a: ArchiveView, t: TrailerView) -> ArchiveView {
    ArchiveView {
        machine_owned: t.machine_owned,
        owner_aliases: t.owner,
        routing_directory: t.directory,
        routes: if a.version == 17 {
            a.routes
        } else {
            t.routes
        },
        ..a
    }
}

#[verifier::opaque]
pub open spec fn trailer_stage(buf: Seq<u8>, at: int, a: ArchiveView, d: Reader) -> Result<ArchiveView, Error> {
    match trailer_at(buf, at, a, d) {
        Err(e) => Err(e),
        Ok((t, q)) => whole_stage(buf, q, with_trailer(a, t), d),
    }
}

struct Trailer {
    machine_owned: bool,
    owner: Option<Record>,
    directory: Option<Vec<u8>>,
    routes: Vec<NamedRoutes>,
}

impl View for Trailer {
    type V = TrailerView;

    closed spec fn view(&self) -> TrailerView {
        TrailerView {
            machine_owned: self.machine_owned,
            owner: maybe_view(self.owner),
            directory: bytes_view(self.directory),
            routes: views(self.routes@),
        }
    }
}

spec fn same_trailer(r: Result<Trailer, Error>, s: Result<TrailerView, Error>) -> bool {
    match (r, s) {
        (Ok(x), Ok(y)) => x@ == y && (x.owner is Some ==> x.owner->0.wf()),
        (Err(a), Err(b)) => a == b,
        _ => false,
    }
}

fn take_retained(buf: &[u8], position: usize, central: bool, d: Reader) -> (r: Result<Trailer, Error>)
    ensures
        same_trailer(r, retained_trailer(buf@, position as int, central, d)),
{
    let mut at: usize = position;
    let sealed = match take32(buf, &mut at) {
        Ok(sealed) => sealed,
        Err(e) => {
            return Err(e);
        },
    };
    let machine_owned = match open_machine_ownership(sealed, d.keys, d.codec) {
        Ok(machine) => machine,
        Err(e) => {
            return Err(e);
        },
    };
    let sealed = match take32(buf, &mut at) {
        Ok(sealed) => sealed,
        Err(e) => {
            return Err(e);
        },
    };
    let owner = match open_unbound(sealed, d.keys, d.codec, d.p) {
        Ok(owner) => owner,
        Err(e) => {
            return Err(e);
        },
    };
    if at != buf.len() || (machine_owned && central) {
        return Err(Error::Malformed);
    }
    let routes: Vec<NamedRoutes> = Vec::new();
    assert(views(routes@) =~= Seq::<NamedRoutesView>::empty());
    Ok(Trailer { machine_owned, owner: Some(owner), directory: None, routes })
}

fn take_owner(sealed: &[u8], d: Reader) -> (r: Result<Option<Record>, Error>)
    ensures
        match (r, owner_in(sealed@, d)) {
            (Ok(x), Ok(y)) => maybe_view(x) == y && (x is Some ==> x->0.wf()),
            (Err(a), Err(b)) => a == b,
            _ => false,
        },
{
    if sealed.len() == 0 {
        return Ok(None);
    }
    match open_unbound(sealed, d.keys, d.codec, d.p) {
        Ok(owner) => Ok(Some(owner)),
        Err(e) => Err(e),
    }
}

fn take_routed(buf: &[u8], position: usize, channels: &Vec<ArchivedChannel>, version: u8, d: Reader) -> (r: Result<Trailer, Error>)
    ensures
        same_trailer(r, routed_trailer(buf@, position as int, views(channels@), version, d)),
{
    let mut at: usize = position;
    let sealed = match take32(buf, &mut at) {
        Ok(sealed) => sealed,
        Err(e) => {
            return Err(e);
        },
    };
    let owner = match take_owner(sealed, d) {
        Ok(owner) => owner,
        Err(e) => {
            return Err(e);
        },
    };
    let sealed = match take32(buf, &mut at) {
        Ok(sealed) => sealed,
        Err(e) => {
            return Err(e);
        },
    };
    let directory = match open_routing_directory(sealed, d.keys, d.codec) {
        Ok(directory) => directory,
        Err(e) => {
            return Err(e);
        },
    };
    let count: usize = match take_count(buf, &mut at, 1024) {
        Ok(count) => count,
        Err(e) => {
            return Err(e);
        },
    };
    let routes = match take_routes(buf, &mut at, count, true, channels, version, d) {
        Ok(routes) => routes,
        Err(e) => {
            return Err(e);
        },
    };
    if at != buf.len() {
        return Err(Error::Malformed);
    }
    Ok(Trailer { machine_owned: false, owner, directory: Some(directory), routes })
}

fn take_either(buf: &[u8], position: usize, central: bool, channels: &Vec<ArchivedChannel>, version: u8, d: Reader) -> (r: Result<Trailer, Error>)
    ensures
        same_trailer(r, either_trailer(buf@, position as int, central, views(channels@), version, d)),
{
    let retained = take_retained(buf, position, central, d);
    let routed = take_routed(buf, position, channels, version, d);
    match (retained, routed) {
        (Ok(t), Err(_)) => Ok(t),
        (Err(_), Ok(t)) => Ok(t),
        _ => Err(Error::AmbiguousTrailer),
    }
}

spec fn same_end(r: Result<Trailer, Error>, end: int, s: Result<(TrailerView, int), Error>) -> bool {
    match (r, s) {
        (Ok(x), Ok((y, q))) => x@ == y && q == end && (x.owner is Some ==> x.owner->0.wf()),
        (Err(a), Err(b)) => a == b,
        _ => false,
    }
}

fn take_unified_trailer(buf: &[u8], position: &mut usize, channels: &Vec<ArchivedChannel>, version: u8, d: Reader) -> (r: Result<Trailer, Error>)
    ensures
        same_end(r, *final(position) as int, unified_trailer(buf@, *old(position) as int, views(channels@), version, d)),
{
    let sealed = match take32(buf, position) {
        Ok(sealed) => sealed,
        Err(e) => {
            return Err(e);
        },
    };
    let machine_owned = match open_machine_ownership(sealed, d.keys, d.codec) {
        Ok(machine) => machine,
        Err(e) => {
            return Err(e);
        },
    };
    let sealed = match take32(buf, position) {
        Ok(sealed) => sealed,
        Err(e) => {
            return Err(e);
        },
    };
    if version == 17 {
        let owner = match open_unbound(sealed, d.keys, d.codec, d.p) {
            Ok(owner) => owner,
            Err(e) => {
                return Err(e);
            },
        };
        let routes: Vec<NamedRoutes> = Vec::new();
        assert(views(routes@) =~= Seq::<NamedRoutesView>::empty());
        return Ok(Trailer { machine_owned, owner: Some(owner), directory: None, routes });
    }
    let owner = match take_owner(sealed, d) {
        Ok(owner) => owner,
        Err(e) => {
            return Err(e);
        },
    };
    let sealed = match take32(buf, position) {
        Ok(sealed) => sealed,
        Err(e) => {
            return Err(e);
        },
    };
    let directory = if sealed.len() == 0 {
        None
    } else {
        match open_routing_directory(sealed, d.keys, d.codec) {
            Ok(directory) => Some(directory),
            Err(e) => {
                return Err(e);
            },
        }
    };
    if owner.is_none() && directory.is_none() {
        return Err(Error::Malformed);
    }
    let count: usize = match take_count(buf, position, 1024) {
        Ok(count) => count,
        Err(e) => {
            return Err(e);
        },
    };
    let routes = match take_routes(buf, position, count, false, channels, version, d) {
        Ok(routes) => routes,
        Err(e) => {
            return Err(e);
        },
    };
    Ok(Trailer { machine_owned, owner, directory, routes })
}

fn take_trailer(buf: &[u8], position: &mut usize, a: &Archive, d: Reader) -> (r: Result<Trailer, Error>)
    ensures
        same_end(r, *final(position) as int, trailer_at(buf@, *old(position) as int, a@, d)),
{
    if a.version == 16 {
        let r = take_either(buf, *position, a.central_ownership.is_some(), &a.channels, a.version, d);
        *position = buf.len();
        r
    } else if a.version >= 17 {
        take_unified_trailer(buf, position, &a.channels, a.version, d)
    } else {
        let owner = if a.version == 15 {
            let sealed = match take32(buf, position) {
                Ok(sealed) => sealed,
                Err(e) => {
                    return Err(e);
                },
            };
            match open_unbound(sealed, d.keys, d.codec, d.p) {
                Ok(owner) => Some(owner),
                Err(e) => {
                    return Err(e);
                },
            }
        } else {
            None
        };
        let routes: Vec<NamedRoutes> = Vec::new();
        assert(views(routes@) =~= Seq::<NamedRoutesView>::empty());
        Ok(Trailer { machine_owned: false, owner, directory: None, routes })
    }
}

fn read_trailer(buf: &[u8], position: usize, a: Archive, d: Reader) -> (r: Result<Archive, Error>)
    requires
        core_good(a.core@, Checks { version: a.version, codec: d.codec }),
    ensures
        same_archive(r, trailer_stage(buf@, position as int, a@, d)),
{
    proof {
        reveal(trailer_stage);
    }
    let mut at: usize = position;
    let t = match take_trailer(buf, &mut at, &a, d) {
        Ok(t) => t,
        Err(e) => {
            return Err(e);
        },
    };
    let ghost before = a@;
    let ghost tv = t@;
    let mut a = a;
    a.machine_owned = t.machine_owned;
    a.owner_aliases = t.owner;
    a.routing_directory = t.directory;
    if a.version != 17 {
        a.routes = t.routes;
    }
    assert(a@ == with_trailer(before, tv));
    read_whole(buf, at, a, d)
}

pub open spec fn central_stage(buf: Seq<u8>, at: int, a: ArchiveView, d: Reader) -> Result<ArchiveView, Error> {
    if a.version < 14 {
        trailer_stage(buf, at, a, d)
    } else {
        match field_at(buf, at) {
            None => Err(Error::Malformed),
            Some((sealed, q)) => match opened_central(sealed, *d.keys, *d.codec) {
                Err(e) => Err(e),
                Ok(central_ownership) => trailer_stage(buf, q, ArchiveView { central_ownership, ..a }, d),
            },
        }
    }
}

fn read_central(buf: &[u8], position: usize, a: Archive, d: Reader) -> (r: Result<Archive, Error>)
    requires
        core_good(a.core@, Checks { version: a.version, codec: d.codec }),
    ensures
        same_archive(r, central_stage(buf@, position as int, a@, d)),
{
    let mut at: usize = position;
    let mut a = a;
    if a.version >= 14 {
        let sealed = match take32(buf, &mut at) {
            Ok(sealed) => sealed,
            Err(e) => {
                return Err(e);
            },
        };
        match open_central_ownership(sealed, d.keys, d.codec) {
            Ok(central) => {
                a.central_ownership = central;
            },
            Err(e) => {
                return Err(e);
            },
        }
    }
    read_trailer(buf, at, a, d)
}

pub open spec fn tls_stage(buf: Seq<u8>, at: int, a: ArchiveView, d: Reader) -> Result<ArchiveView, Error> {
    if a.version < 13 {
        central_stage(buf, at, a, d)
    } else {
        match field_at(buf, at) {
            None => Err(Error::Malformed),
            Some((sealed, q)) => if sealed.len() == 0 {
                central_stage(buf, q, a, d)
            } else {
                match opened_tls(sealed, *d.keys, *d.codec) {
                    Err(e) => Err(e),
                    Ok(identity) => central_stage(buf, q, ArchiveView { tls_identity: Some(identity), ..a }, d),
                }
            },
        }
    }
}

fn read_tls(buf: &[u8], position: usize, a: Archive, d: Reader) -> (r: Result<Archive, Error>)
    requires
        core_good(a.core@, Checks { version: a.version, codec: d.codec }),
    ensures
        same_archive(r, tls_stage(buf@, position as int, a@, d)),
{
    let mut at: usize = position;
    let mut a = a;
    if a.version >= 13 {
        let sealed = match take32(buf, &mut at) {
            Ok(sealed) => sealed,
            Err(e) => {
                return Err(e);
            },
        };
        if sealed.len() > 0 {
            match open_tls_identity(sealed, d.keys, d.codec) {
                Ok(identity) => {
                    a.tls_identity = Some(identity);
                },
                Err(e) => {
                    return Err(e);
                },
            }
        }
    }
    read_central(buf, at, a, d)
}

pub open spec fn join_ids(joins: Seq<PreparedJoinView>) -> Seq<u64> {
    Seq::new(joins.len(), |i: int| joins[i].id)
}

/// One prepared join after those before it.
#[verifier::opaque]
pub open spec fn join_at(buf: Seq<u8>, at: int, before: Seq<PreparedJoinView>, next: u64, version: u8, d: Reader) -> Result<
    (PreparedJoinView, int),
    Error,
> {
    match reads::<PreparedFrame>(layout_of(version, *d.p), buf, at) {
        None => Err(Error::Malformed),
        Some((f, end)) => if f.id == 0 || f.id >= next || join_ids(before).contains(f.id) {
            Err(Error::Malformed)
        } else {
            match d.codec.joins.lookup(f.mls) {
                None => Err(Error::Malformed),
                Some(pseudonym) => match prepared_route(f.route, pseudonym, *d.keys, *d.codec) {
                    Err(e) => Err(e),
                    Ok(route) => Ok((PreparedJoinView { id: f.id, display: f.display, mls: f.mls, route }, end)),
                },
            }
        },
    }
}

/// The first `n` prepared joins from a place on.
pub open spec fn joins_at(buf: Seq<u8>, at: int, n: nat, next: u64, version: u8, d: Reader) -> Result<(Seq<PreparedJoinView>, int), Error>
    decreases n,
{
    if n == 0 {
        Ok((Seq::empty(), at))
    } else {
        match joins_at(buf, at, (n - 1) as nat, next, version, d) {
            Err(e) => Err(e),
            Ok((before, q)) => match join_at(buf, q, before, next, version, d) {
                Err(e) => Err(e),
                Ok((join, end)) => Ok((before.push(join), end)),
            },
        }
    }
}

proof fn lemma_joins_stop(buf: Seq<u8>, at: int, m: nat, n: nat, next: u64, version: u8, d: Reader)
    requires
        m <= n,
        joins_at(buf, at, m, next, version, d) is Err,
    ensures
        joins_at(buf, at, n, next, version, d) == joins_at(buf, at, m, next, version, d),
    decreases n,
{
    if m < n {
        lemma_joins_stop(buf, at, m, (n - 1) as nat, next, version, d);
    }
}

fn has_join(joins: &Vec<PreparedJoin>, id: u64) -> (r: bool)
    ensures
        r == join_ids(views(joins@)).contains(id),
{
    let ghost ids = join_ids(views(joins@));
    let mut i: usize = 0;
    while i < joins.len()
        invariant
            i <= joins.len(),
            ids == join_ids(views(joins@)),
            forall|j: int| 0 <= j < i ==> ids[j] != id,
        decreases joins.len() - i,
    {
        assert(ids[i as int] == joins@[i as int].id);
        if joins[i].id == id {
            return true;
        }
        i += 1;
    }
    false
}

fn take_join(buf: &[u8], position: &mut usize, before: &Vec<PreparedJoin>, next: u64, version: u8, d: Reader) -> (r: Result<PreparedJoin, Error>)
    ensures
        match r {
            Ok(x) => join_at(buf@, *old(position) as int, views(before@), next, version, d) == Ok::<
                (PreparedJoinView, int),
                Error,
            >((x@, *final(position) as int)),
            Err(e) => join_at(buf@, *old(position) as int, views(before@), next, version, d) == Err::<
                (PreparedJoinView, int),
                Error,
            >(e),
        },
{
    proof {
        reveal(join_at);
    }
    let frame = match take_frame::<PreparedFrame>(buf, position, layout_for(version, d.p)) {
        Ok(frame) => frame,
        Err(e) => {
            return Err(e);
        },
    };
    if frame.id == 0 || frame.id >= next || has_join(before, frame.id) {
        return Err(Error::Malformed);
    }
    let pseudonym = match d.codec.joins.get(&frame.mls) {
        Some(pseudonym) => *pseudonym,
        None => {
            return Err(Error::Malformed);
        },
    };
    let route = match open_prepared_route(frame.route.as_slice(), &pseudonym, d.keys, d.codec) {
        Ok(route) => route,
        Err(e) => {
            return Err(e);
        },
    };
    Ok(PreparedJoin { id: frame.id, display: frame.display, mls: frame.mls, route })
}

fn take_joins(buf: &[u8], position: &mut usize, count: usize, next: u64, version: u8, d: Reader) -> (r: Result<Vec<PreparedJoin>, Error>)
    ensures
        match r {
            Ok(x) => joins_at(buf@, *old(position) as int, count as nat, next, version, d) == Ok::<
                (Seq<PreparedJoinView>, int),
                Error,
            >((views(x@), *final(position) as int)),
            Err(e) => joins_at(buf@, *old(position) as int, count as nat, next, version, d) == Err::<
                (Seq<PreparedJoinView>, int),
                Error,
            >(e),
        },
{
    let ghost start = *position as int;
    let mut joins: Vec<PreparedJoin> = Vec::new();
    let mut i: usize = 0;
    assert(views(joins@) =~= Seq::<PreparedJoinView>::empty());
    while i < count
        invariant
            i <= count,
            start == *old(position) as int,
            joins_at(buf@, start, i as nat, next, version, d) == Ok::<(Seq<PreparedJoinView>, int), Error>(
                (views(joins@), *position as int),
            ),
        decreases count - i,
    {
        let ghost before = views(joins@);
        match take_join(buf, position, &joins, next, version, d) {
            Ok(join) => {
                joins.push(join);
                assert(views(joins@) =~= before.push(join@));
            },
            Err(e) => {
                proof {
                    lemma_joins_stop(buf@, start, (i + 1) as nat, count as nat, next, version, d);
                }
                return Err(e);
            },
        }
        i += 1;
    }
    Ok(joins)
}

/// A number, and where it ends.
pub open spec fn number_at(buf: Seq<u8>, at: int) -> Option<(u64, int)> {
    match parse(Shape::Number(8), buf, at) {
        Some((Tree::Number(n), q)) => Some((n as u64, q)),
        _ => None,
    }
}

pub open spec fn prepared_stage(buf: Seq<u8>, at: int, a: ArchiveView, d: Reader) -> Result<ArchiveView, Error> {
    if a.version < 12 {
        tls_stage(buf, at, a, d)
    } else {
        match number_at(buf, at) {
            None => Err(Error::Malformed),
            Some((next, q)) => match count_at(buf, q, 64) {
                None => Err(Error::Malformed),
                Some((n, q)) => match joins_at(buf, q, n, next, a.version, d) {
                    Err(e) => Err(e),
                    Ok((prepared, q)) => if next == 0 {
                        Err(Error::Malformed)
                    } else {
                        tls_stage(buf, q, ArchiveView { next_prep_id: next, prepared, ..a }, d)
                    },
                },
            },
        }
    }
}

fn read_prepared(buf: &[u8], position: usize, a: Archive, d: Reader) -> (r: Result<Archive, Error>)
    requires
        core_good(a.core@, Checks { version: a.version, codec: d.codec }),
    ensures
        same_archive(r, prepared_stage(buf@, position as int, a@, d)),
{
    let mut at: usize = position;
    let mut a = a;
    if a.version >= 12 {
        let next: u64 = match take_u64(buf, &mut at) {
            Ok(next) => next,
            Err(e) => {
                return Err(e);
            },
        };
        let count: usize = match take_count(buf, &mut at, 64) {
            Ok(count) => count,
            Err(e) => {
                return Err(e);
            },
        };
        let joins = match take_joins(buf, &mut at, count, next, a.version, d) {
            Ok(joins) => joins,
            Err(e) => {
                return Err(e);
            },
        };
        if next == 0 {
            return Err(Error::Malformed);
        }
        a.next_prep_id = next;
        a.prepared = joins;
    }
    read_tls(buf, at, a, d)
}

#[verifier::opaque]
pub open spec fn inbox_stage(buf: Seq<u8>, at: int, a: ArchiveView, d: Reader) -> Result<ArchiveView, Error> {
    if a.version < 11 {
        prepared_stage(buf, at, a, d)
    } else {
        match field_at(buf, at) {
            None => Err(Error::Malformed),
            Some((sealed, q)) => match opened_inbox(sealed, *d.keys, *d.codec, *d.p) {
                Err(e) => Err(e),
                Ok(application_inbox) => prepared_stage(buf, q, ArchiveView { application_inbox, ..a }, d),
            },
        }
    }
}

fn read_inbox(buf: &[u8], position: usize, a: Archive, d: Reader) -> (r: Result<Archive, Error>)
    requires
        core_good(a.core@, Checks { version: a.version, codec: d.codec }),
    ensures
        same_archive(r, inbox_stage(buf@, position as int, a@, d)),
{
    proof {
        reveal(inbox_stage);
    }
    let mut at: usize = position;
    let mut a = a;
    if a.version >= 11 {
        let sealed = match take32(buf, &mut at) {
            Ok(sealed) => sealed,
            Err(e) => {
                return Err(e);
            },
        };
        match open_application_inbox(sealed, d.keys, d.codec, d.p) {
            Ok(inbox) => {
                a.application_inbox = inbox;
            },
            Err(e) => {
                return Err(e);
            },
        }
    }
    read_prepared(buf, at, a, d)
}

pub open spec fn policy_stage(buf: Seq<u8>, at: int, a: ArchiveView, d: Reader) -> Result<ArchiveView, Error> {
    match reads::<PolicyFrame>(layout_of(a.version, *d.p), buf, at) {
        None => Err(Error::Malformed),
        Some((policy, q)) => if policy_good(policy, channel_names(a.channels), Checks { version: a.version, codec: d.codec }) {
            inbox_stage(buf, q, ArchiveView { policy, ..a }, d)
        } else {
            Err(Error::Malformed)
        },
    }
}

fn names_of(channels: &Vec<ArchivedChannel>) -> (r: Vec<String>)
    ensures
        views(r@) == channel_names(views(channels@)),
{
    let mut names: Vec<String> = Vec::new();
    let mut i: usize = 0;
    while i < channels.len()
        invariant
            i <= channels.len(),
            names@.len() == i,
            forall|j: int| 0 <= j < i ==> (#[trigger] names@[j])@ == channels@[j].head.name@,
        decreases channels.len() - i,
    {
        names.push(channels[i].head.name.clone());
        i += 1;
    }
    assert(views(names@) =~= channel_names(views(channels@)));
    names
}

fn read_policy(buf: &[u8], position: usize, a: Archive, d: Reader) -> (r: Result<Archive, Error>)
    requires
        core_good(a.core@, Checks { version: a.version, codec: d.codec }),
    ensures
        same_archive(r, policy_stage(buf@, position as int, a@, d)),
{
    let mut at: usize = position;
    let policy = match take_frame::<PolicyFrame>(buf, &mut at, layout_for(a.version, d.p)) {
        Ok(policy) => policy,
        Err(e) => {
            return Err(e);
        },
    };
    let names = names_of(&a.channels);
    if !is_policy_good(&policy, &names, Checks { version: a.version, codec: d.codec }) {
        return Err(Error::Malformed);
    }
    let mut a = a;
    a.policy = policy;
    read_inbox(buf, at, a, d)
}

pub open spec fn channel_stage(buf: Seq<u8>, at: int, a: ArchiveView, d: Reader) -> Result<ArchiveView, Error> {
    match count_at(buf, at, d.p.channel_max as nat) {
        None => Err(Error::Malformed),
        Some((n, q)) => match channels_at(buf, q, n, a.version, d) {
            Err(e) => Err(e),
            Ok((channels, routes, q)) => policy_stage(buf, q, ArchiveView { channels, routes, ..a }, d),
        },
    }
}

fn take_channels(buf: &[u8], position: &mut usize, count: usize, version: u8, d: Reader) -> (r: Result<
    (Vec<ArchivedChannel>, Vec<NamedRoutes>),
    Error,
>)
    ensures
        match r {
            Ok((channels, routes)) => channels_at(buf@, *old(position) as int, count as nat, version, d) == Ok::<
                (Seq<ArchivedChannelView>, Seq<NamedRoutesView>, int),
                Error,
            >((views(channels@), views(routes@), *final(position) as int)),
            Err(e) => channels_at(buf@, *old(position) as int, count as nat, version, d) == Err::<
                (Seq<ArchivedChannelView>, Seq<NamedRoutesView>, int),
                Error,
            >(e),
        },
{
    let ghost start = *position as int;
    let mut channels: Vec<ArchivedChannel> = Vec::new();
    let mut routes: Vec<NamedRoutes> = Vec::new();
    let mut names: Vec<String> = Vec::new();
    let mut i: usize = 0;
    assert(views(channels@) =~= Seq::<ArchivedChannelView>::empty());
    assert(views(routes@) =~= Seq::<NamedRoutesView>::empty());
    assert(views(names@) =~= channel_names(views(channels@)));
    while i < count
        invariant
            i <= count,
            start == *old(position) as int,
            views(names@) == channel_names(views(channels@)),
            channels_at(buf@, start, i as nat, version, d) == Ok::<
                (Seq<ArchivedChannelView>, Seq<NamedRoutesView>, int),
                Error,
            >((views(channels@), views(routes@), *position as int)),
        decreases count - i,
    {
        let ghost before = views(channels@);
        let ghost kept = views(routes@);
        let ghost named = views(names@);
        match take_channel(buf, position, &names, Ghost(before), version, d) {
            Ok((channel, beside)) => {
                names.push(channel.head.name.clone());
                channels.push(channel);
                assert(views(channels@) =~= before.push(channel@));
                proof {
                    assert(views(names@) =~= named.push(channel@.head.name));
                    assert(channel_names(before.push(channel@)) =~= channel_names(before).push(channel@.head.name));
                }
                match beside {
                    Some(r) => {
                        routes.push(r);
                        assert(views(routes@) =~= kept.push(r@));
                    },
                    None => {},
                }
            },
            Err(e) => {
                proof {
                    lemma_channels_stop(buf@, start, (i + 1) as nat, count as nat, version, d);
                }
                return Err(e);
            },
        }
        i += 1;
    }
    Ok((channels, routes))
}

fn read_channels(buf: &[u8], position: usize, a: Archive, d: Reader) -> (r: Result<Archive, Error>)
    requires
        core_good(a.core@, Checks { version: a.version, codec: d.codec }),
    ensures
        same_archive(r, channel_stage(buf@, position as int, a@, d)),
{
    let mut at: usize = position;
    let count: usize = match take_count(buf, &mut at, d.p.channel_max) {
        Ok(count) => count,
        Err(e) => {
            return Err(e);
        },
    };
    match take_channels(buf, &mut at, count, a.version, d) {
        Ok((channels, routes)) => {
            let mut a = a;
            a.channels = channels;
            a.routes = routes;
            read_policy(buf, at, a, d)
        },
        Err(e) => Err(e),
    }
}

/// An archive of which nothing but the core has been read.
pub open spec fn core_only(version: u8, core: CoreView) -> ArchiveView {
    ArchiveView {
        version,
        core,
        channels: Seq::empty(),
        routes: Seq::empty(),
        policy: PolicyView { peers: Seq::empty(), channels: Seq::empty(), grants: Seq::empty() },
        application_inbox: no_inbox(),
        next_prep_id: 1,
        prepared: Seq::empty(),
        tls_identity: None,
        central_ownership: None,
        machine_owned: false,
        owner_aliases: None,
        routing_directory: None,
        receipts: None,
    }
}

/// What an archive holds, or why it is refused. Each part is read and checked
/// before the next, and the first defect is the answer.
pub open spec fn decoded(buf: Seq<u8>, d: Reader) -> Result<ArchiveView, Error> {
    match magic_version(buf) {
        Some(version) if version >= 2 && buf.len() <= max_archive() => match reads::<CoreFrame>(layout_of(version, *d.p), buf, 6) {
            None => Err(Error::Malformed),
            Some((core, q)) => {
                let core = numbered(core, version);
                if core_good(core, Checks { version, codec: d.codec }) {
                    channel_stage(buf, q, core_only(version, core), d)
                } else {
                    Err(Error::Malformed)
                }
            },
        },
        _ => Err(Error::NotAnExport),
    }
}

/// Reads an archive of any version but the first.
pub fn decode_v2(buf: &[u8], keys: &NodeKeys, codec: &Codec, p: &Protocol) -> (r: Result<Archive, Error>)
    ensures
        same_archive(r, decoded(buf@, Reader { keys, codec, p })),
{
    let d = Reader { keys, codec, p };
    let version: u8 = match version_of(buf) {
        Some(version) => version,
        None => {
            return Err(Error::NotAnExport);
        },
    };
    if version < 2 || buf.len() > 0x1000_0000 {
        return Err(Error::NotAnExport);
    }
    let mut at: usize = 6;
    let core = match take_frame::<CoreFrame>(buf, &mut at, layout_for(version, p)) {
        Ok(core) => core,
        Err(e) => {
            return Err(e);
        },
    };
    let core = number_core(core, version);
    if !is_core_good(&core, Checks { version, codec }) {
        return Err(Error::Malformed);
    }
    let a = Archive {
        version,
        core,
        channels: Vec::new(),
        routes: Vec::new(),
        policy: PolicyFrame { peers: Vec::new(), channels: Vec::new(), grants: Vec::new() },
        application_inbox: InboxFrame { next_sequence: 1, entries: Vec::new() },
        next_prep_id: 1,
        prepared: Vec::new(),
        tls_identity: None,
        central_ownership: None,
        machine_owned: false,
        owner_aliases: None,
        routing_directory: None,
        receipts: None,
    };
    proof {
        let v = core_only(version, a.core@);
        assert(a@.channels =~= v.channels);
        assert(a@.routes =~= v.routes);
        assert(a@.prepared =~= v.prepared);
        assert(a@.policy.peers =~= v.policy.peers);
        assert(a@.policy.channels =~= v.policy.channels);
        assert(a@.policy.grants =~= v.policy.grants);
        assert(a@.application_inbox.entries =~= v.application_inbox.entries);
        assert(a@ == v);
    }
    read_channels(buf, at, a, d)
}

} // verus!
