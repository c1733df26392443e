//! Archives of the first version: sessions and channels, and nothing of journals.

use vstd::prelude::*;
use crate::archive::{count_at, magic_version, version_of};
use crate::archive_frame::{ChannelHead, ChannelHeadView, MemberFrame, MemberView, SessionFrame, SessionView};
use crate::bytes::{copy_bytes, same_id};
use crate::channel_route::{established_route_secret, established_secret, pending_channel_route, pending_public, retained_secret};
use crate::codec::{Codec, Protocol, RoleFacts};
use crate::error::Error;
use crate::grammar::{parse, Shape, Tree};
use crate::model::{views, zeros, ChannelRoute, OwnedChannelRoute, OwnedChannelRouteView};
use crate::node_state::{ChannelState, DirectSessionState, NodeState, PeerSession};
use crate::record::{lemma_seen, reads, seen, take_count, take_frame, take_many, trees, Framed, Layout};
use crate::restore::OpenedSession;
use crate::table::{among, Table};

verus! {

pub open spec fn first_layout() -> Layout {
    Layout { version: 1, channel_max: 0, channel_ack_limit: 0, forward_grants_max: 0, application_inbox_limit: 0 }
}

pub(crate) fn layout_one() -> (r: Layout)
    ensures
        r == first_layout(),
{
    Layout { version: 1, channel_max: 0, channel_ack_limit: 0, forward_grants_max: 0, application_inbox_limit: 0 }
}

/// The records of a list that stands at a place, and where it ends.
pub open spec fn reads_list<R: Framed>(layout: Layout, maximum: nat, s: Seq<u8>, p: int) -> Option<(Seq<R::V>, int)> {
    match parse(Shape::Many(maximum, Box::new(R::shape(layout))), s, p) {
        Some((Tree::Many(ts), q)) => Some((Seq::new(ts.len(), |i: int| seen::<R>(ts[i], layout)), q)),
        _ => None,
    }
}

pub(crate) fn take_list<R: Framed>(buf: &[u8], position: &mut usize, maximum: usize, layout: Layout) -> (r: Result<Vec<R>, Error>)
    ensures
        match r {
            Ok(x) => reads_list::<R>(layout, maximum as nat, buf@, *old(position) as int) == Some((views(x@), *final(position) as int)),
            Err(e) => e == Error::Malformed && reads_list::<R>(layout, maximum as nat, buf@, *old(position) as int) is None,
        },
{
    let ghost at = *position as int;
    match take_many::<R>(buf, position, maximum, layout) {
        Ok(x) => {
            proof {
                let v = views(x@);
                let ts = trees::<R>(v, layout);
                assert(Seq::new(ts.len(), |i: int| seen::<R>(ts[i], layout)) =~= v) by {
                    assert forall|i: int| 0 <= i < v.len() implies seen::<R>(#[trigger] ts[i], layout) == v[i] by {
                        assert(R::plain(v[i], layout));
                        lemma_seen::<R>(v[i], layout);
                    }
                }
            }
            Ok(x)
        },
        Err(e) => Err(e),
    }
}

/// The route of a member: stored as such, or made of a card's contacts.
pub open spec fn member_route(v: MemberView, role: RoleFacts, codec: Codec) -> Option<ChannelRoute> {
    match codec.route(v.route) {
        Some(route) => Some(route),
        None => match (codec.card(v.route), role.named(v.member)) {
            (Some(info), Some(pseudonym)) => if info.aliases.len() > 1 {
                let route = ChannelRoute {
                    pseudonym,
                    direct_public: zeros::<32>(),
                    data: info.aliases[0],
                    control: info.aliases[1],
                };
                if codec.validates(route) {
                    Some(route)
                } else {
                    None
                }
            } else {
                None
            },
            _ => None,
        },
    }
}

fn find_member_route(f: &MemberFrame, role: &RoleFacts, codec: &Codec) -> (r: Option<ChannelRoute>)
    ensures
        r == member_route(f@, *role, *codec),
{
    match codec.decode_route(&f.route) {
        Some(route) => {
            return Some(route);
        },
        None => {},
    }
    let info = match codec.decode_card(&f.route) {
        Some(info) => info,
        None => {
            return None;
        },
    };
    let pseudonym = match role.pseudonym_for_name(&f.member) {
        Some(id) => id,
        None => {
            return None;
        },
    };
    match (info.primary(), info.control()) {
        (Some(data), Some(control)) => {
            let zero = [0u8; 32];
            proof {
                crate::record::lemma_same_array(zero, zeros::<32>());
            }
            let route = ChannelRoute { pseudonym, direct_public: zero, data, control };
            if codec.is_valid_route(&route) {
                Some(route)
            } else {
                None
            }
        },
        _ => None,
    }
}

/// The directory that the first `n` members make; of two by one name the later
/// counts.
pub open spec fn directory_of(s: Seq<MemberView>, n: nat, role: RoleFacts, codec: Codec) -> Option<Map<Seq<char>, ChannelRoute>>
    decreases n,
{
    if n == 0 {
        Some(Map::empty())
    } else {
        match (directory_of(s, (n - 1) as nat, role, codec), member_route(s[n - 1], role, codec)) {
            (Some(before), Some(route)) => Some(before.insert(s[n - 1].member, route)),
            _ => None,
        }
    }
}

/// Whether a table says what a map says.
pub open spec fn says<V>(t: Table<String, V>, m: Map<Seq<char>, V>) -> bool {
    forall|k: Seq<char>| #[trigger] t.lookup(k) == (if m.dom().contains(k) {
        Some(m[k])
    } else {
        None
    })
}

proof fn lemma_directory_stops(s: Seq<MemberView>, m: nat, n: nat, role: RoleFacts, codec: Codec)
    requires
        m <= n,
        directory_of(s, m, role, codec) is None,
    ensures
        directory_of(s, n, role, codec) is None,
    decreases n,
{
    if m < n {
        lemma_directory_stops(s, m, (n - 1) as nat, role, codec);
    }
}

fn make_directory(members: &Vec<MemberFrame>, role: &RoleFacts, codec: &Codec) -> (r: Option<Table<String, ChannelRoute>>)
    ensures
        match r {
            Some(t) => t.wf() && (directory_of(views(members@), members@.len(), *role, *codec) matches Some(m) && says(t, m)),
            None => directory_of(views(members@), members@.len(), *role, *codec) is None,
        },
{
    let ghost v = views(members@);
    let mut table: Table<String, ChannelRoute> = Table::new();
    let mut i: usize = 0;
    while i < members.len()
        invariant
            i <= members.len(),
            v == views(members@),
            table.wf(),
            directory_of(v, i as nat, *role, *codec) is Some,
            says(table, directory_of(v, i as nat, *role, *codec)->0),
        decreases members.len() - i,
    {
        assert(v[i as int] == members@[i as int]@);
        match find_member_route(&members[i], role, codec) {
            Some(route) => {
                let ghost before = table;
                let ghost m = directory_of(v, i as nat, *role, *codec)->0;
                table.insert(members[i].member.clone(), route);
                assert forall|k: Seq<char>| #[trigger] table.lookup(k) == (if m.insert(v[i as int].member, route).dom().contains(k) {
                    Some(m.insert(v[i as int].member, route)[k])
                } else {
                    None
                }) by {
                    if k != v[i as int].member {
                        assert(table.lookup(k) == before.lookup(k));
                    }
                }
            },
            None => {
                proof {
                    lemma_directory_stops(v, (i + 1) as nat, v.len(), *role, *codec);
                }
                return None;
            },
        }
        i += 1;
    }
    Some(table)
}

/// A channel of the first version.
#[derive(Debug)]
pub struct LegacyChannel {
    pub head: ChannelHead,
    pub directory: Table<String, ChannelRoute>,
}

pub struct LegacyChannelView {
    pub head: ChannelHeadView,
    pub directory: Map<Seq<char>, ChannelRoute>,
}

impl LegacyChannel {
    pub open spec fn is(self, v: LegacyChannelView) -> bool {
        self.head@ == v.head && self.directory.wf() && says(self.directory, v.directory)
    }
}

/// What reading is done with.
#[derive(Clone, Copy)]
pub struct LegacyReader<'a> {
    pub codec: &'a Codec,
    pub p: &'a Protocol,
}

/// One channel that stands at a place, and where it ends.
#[verifier::opaque]
pub open spec fn legacy_at(buf: Seq<u8>, at: int, d: LegacyReader) -> Result<(LegacyChannelView, int), Error> {
    match reads::<ChannelHead>(first_layout(), buf, at) {
        None => Err(Error::Malformed),
        Some((head, q)) => match d.codec.role(head.owner, head.name, head.blob) {
            None => Err(Error::RoleRefused),
            Some(role) => match reads_list::<MemberFrame>(first_layout(), 1024, buf, q) {
                None => Err(Error::Malformed),
                Some((members, end)) => match directory_of(members, members.len(), role, *d.codec) {
                    None => Err(Error::Malformed),
                    Some(directory) => Ok((LegacyChannelView { head, directory }, end)),
                },
            },
        },
    }
}

fn take_legacy(buf: &[u8], position: &mut usize, d: LegacyReader) -> (r: Result<LegacyChannel, Error>)
    ensures
        match r {
            Ok(c) => legacy_at(buf@, *old(position) as int, d) matches Ok((v, q)) && c.is(v) && q == *final(position),
            Err(e) => legacy_at(buf@, *old(position) as int, d) == Err::<(LegacyChannelView, int), Error>(e),
        },
{
    proof {
        reveal(legacy_at);
    }
    let head = match take_frame::<ChannelHead>(buf, position, layout_one()) {
        Ok(head) => head,
        Err(e) => {
            return Err(e);
        },
    };
    let role = match d.codec.restore_role(head.owner, &head.name, &head.blob) {
        Some(role) => role,
        None => {
            return Err(Error::RoleRefused);
        },
    };
    let members = match take_list::<MemberFrame>(buf, position, 1024, layout_one()) {
        Ok(members) => members,
        Err(e) => {
            return Err(e);
        },
    };
    match make_directory(&members, role, d.codec) {
        Some(directory) => Ok(LegacyChannel { head, directory }),
        None => Err(Error::Malformed),
    }
}

/// The first `n` channels from a place on.
pub open spec fn legacies_at(buf: Seq<u8>, at: int, n: nat, d: LegacyReader) -> Result<(Seq<LegacyChannelView>, int), Error>
    decreases n,
{
    if n == 0 {
        Ok((Seq::empty(), at))
    } else {
        match legacies_at(buf, at, (n - 1) as nat, d) {
            Err(e) => Err(e),
            Ok((before, q)) => match legacy_at(buf, q, d) {
                Err(e) => Err(e),
                Ok((channel, end)) => Ok((before.push(channel), end)),
            },
        }
    }
}

proof fn lemma_legacies_stop(buf: Seq<u8>, at: int, m: nat, n: nat, d: LegacyReader)
    requires
        m <= n,
        legacies_at(buf, at, m, d) is Err,
    ensures
        legacies_at(buf, at, n, d) == legacies_at(buf, at, m, d),
    decreases n,
{
    if m < n {
        lemma_legacies_stop(buf, at, m, (n - 1) as nat, d);
    }
}

/// What an archive of the first version holds.
#[derive(Debug)]
pub struct LegacyArchive {
    pub sessions: Vec<SessionFrame>,
    pub channels: Vec<LegacyChannel>,
}

pub struct LegacyArchiveView {
    pub sessions: Seq<SessionView>,
    pub channels: Seq<LegacyChannelView>,
}

impl LegacyArchive {
    pub open spec fn is(self, v: LegacyArchiveView) -> bool {
        &&& views(self.sessions@) == v.sessions
        &&& self.channels@.len() == v.channels.len()
        &&& forall|i: int| 0 <= i < v.channels.len() ==> (#[trigger] self.channels@[i]).is(v.channels[i])
    }
}

/// Whether every session decodes.
pub open spec fn all_decode(s: Seq<SessionView>, codec: Codec) -> bool {
    forall|i: int| 0 <= i < s.len() ==> views(codec.plain_sessions@).contains((#[trigger] s[i]).sealed)
}

fn do_all_decode(s: &Vec<SessionFrame>, codec: &Codec) -> (r: bool)
    ensures
        r == all_decode(views(s@), *codec),
{
    let ghost v = views(s@);
    let mut i: usize = 0;
    while i < s.len()
        invariant
            i <= s.len(),
            v == views(s@),
            forall|j: int| 0 <= j < i ==> views(codec.plain_sessions@).contains((#[trigger] v[j]).sealed),
        decreases s.len() - i,
    {
        assert(v[i as int] == s@[i as int]@);
        if !among(&codec.plain_sessions, &s[i].sealed) {
            return false;
        }
        i += 1;
    }
    true
}

/// What an archive of the first version holds, or why it is refused.
pub open spec fn legacy_decoded(buf: Seq<u8>, d: LegacyReader) -> Result<LegacyArchiveView, Error> {
    if buf.len() < 14 || magic_version(buf) != Some(1u8) {
        Err(Error::NotAnExport)
    } else {
        match reads_list::<SessionFrame>(first_layout(), 8192, buf, 6) {
            None => Err(Error::Malformed),
            Some((sessions, q)) => if !all_decode(sessions, *d.codec) {
                Err(Error::Malformed)
            } else {
                match count_at(buf, q, d.p.channel_max as nat) {
                    None => Err(Error::Malformed),
                    Some((n, q)) => match legacies_at(buf, q, n, d) {
                        Err(e) => Err(e),
                        Ok((channels, end)) => if end == buf.len() {
                            Ok(LegacyArchiveView { sessions, channels })
                        } else {
                            Err(Error::Malformed)
                        },
                    },
                }
            },
        }
    }
}

/// Reads an archive of the first version.
pub fn decode_legacy(buf: &[u8], codec: &Codec, p: &Protocol) -> (r: Result<LegacyArchive, Error>)
    ensures
        match r {
            Ok(a) => legacy_decoded(buf@, LegacyReader { codec, p }) matches Ok(v) && a.is(v),
            Err(e) => legacy_decoded(buf@, LegacyReader { codec, p }) == Err::<LegacyArchiveView, Error>(e),
        },
{
    let d = LegacyReader { codec, p };
    let first = match version_of(buf) {
        Some(version) => version == 1,
        None => false,
    };
    if buf.len() < 14 || !first {
        return Err(Error::NotAnExport);
    }
    let mut at: usize = 6;
    let sessions = match take_list::<SessionFrame>(buf, &mut at, 8192, layout_one()) {
        Ok(sessions) => sessions,
        Err(e) => {
            return Err(e);
        },
    };
    if !do_all_decode(&sessions, codec) {
        return Err(Error::Malformed);
    }
    let count: usize = match take_count(buf, &mut at, p.channel_max) {
        Ok(count) => count,
        Err(e) => {
            return Err(e);
        },
    };
    let ghost start = at as int;
    let ghost mut read: Seq<LegacyChannelView> = Seq::empty();
    let mut channels: Vec<LegacyChannel> = Vec::new();
    let mut i: usize = 0;
    while i < count
        invariant
            i <= count,
            d == (LegacyReader { codec, p }),
            legacies_at(buf@, start, i as nat, d) == Ok::<(Seq<LegacyChannelView>, int), Error>((read, at as int)),
            read.len() == i,
            channels@.len() == i,
            forall|j: int| 0 <= j < i ==> (#[trigger] channels@[j]).is(read[j]),
            legacy_decoded(buf@, d) == (match legacies_at(buf@, start, count as nat, d) {
                Err(e) => Err::<LegacyArchiveView, Error>(e),
                Ok((channels, end)) => if end == buf@.len() {
                    Ok::<LegacyArchiveView, Error>(LegacyArchiveView { sessions: views(sessions@), channels })
                } else {
                    Err::<LegacyArchiveView, Error>(Error::Malformed)
                },
            }),
        decreases count - i,
    {
        match take_legacy(buf, &mut at, d) {
            Ok(channel) => {
                proof {
                    let (_, q) = legacies_at(buf@, start, i as nat, d)->Ok_0;
                    let (v, _) = legacy_at(buf@, q, d)->Ok_0;
                    read = read.push(v);
                }
                channels.push(channel);
            },
            Err(e) => {
                proof {
                    lemma_legacies_stop(buf@, start, (i + 1) as nat, count as nat, d);
                }
                return Err(e);
            },
        }
        i += 1;
    }
    if at != buf.len() {
        return Err(Error::Malformed);
    }
    Ok(LegacyArchive { sessions, channels })
}

/// The first place of a pseudonym among the first `n` members of a directory.
pub open spec fn place_of(s: Seq<(String, ChannelRoute)>, pseudonym: [u8; 32], n: nat) -> Option<int>
    decreases n,
{
    if n == 0 {
        None
    } else {
        match place_of(s, pseudonym, (n - 1) as nat) {
            Some(i) => Some(i),
            None => if s[n - 1].1.pseudonym == pseudonym {
                Some(n - 1)
            } else {
                None
            },
        }
    }
}

proof fn lemma_place_stays(s: Seq<(String, ChannelRoute)>, pseudonym: [u8; 32], m: nat, n: nat)
    requires
        m <= n,
        place_of(s, pseudonym, m) is Some,
    ensures
        place_of(s, pseudonym, n) == place_of(s, pseudonym, m),
    decreases n,
{
    if m < n {
        lemma_place_stays(s, pseudonym, m, (n - 1) as nat);
    }
}

fn find_place(s: &Vec<(String, ChannelRoute)>, pseudonym: &[u8; 32]) -> (r: Option<usize>)
    ensures
        match r {
            Some(i) => i < s@.len() && place_of(s@, *pseudonym, s@.len()) == Some(i as int),
            None => place_of(s@, *pseudonym, s@.len()) is None,
        },
{
    let mut i: usize = 0;
    while i < s.len()
        invariant
            i <= s.len(),
            place_of(s@, *pseudonym, i as nat) is None,
        decreases s.len() - i,
    {
        if same_id(&s[i].1.pseudonym, pseudonym) {
            proof {
                lemma_place_stays(s@, *pseudonym, (i + 1) as nat, s@.len());
            }
            return Some(i);
        }
        i += 1;
    }
    None
}

/// Whether a directory names this node's new route wherever it named the node,
/// and is else as it was.
pub open spec fn renamed(before: Table<String, ChannelRoute>, pseudonym: [u8; 32], own: ChannelRoute, codec: Codec, after: Table<String, ChannelRoute>) -> bool {
    match place_of(before.entries@, pseudonym, before.entries@.len()) {
        Some(i) if codec.validates(own) => forall|k: Seq<char>| #[trigger]
            after.lookup(k) == (if k == before.entries@[i].0@ {
                Some(own)
            } else {
                before.lookup(k)
            }),
        _ => after == before,
    }
}

/// What is done for the route of a channel of the first version.
#[derive(Debug)]
pub enum LegacyRoute {
    /// The route waits for its queues, which recovery provisions later.
    Pending { route: OwnedChannelRoute },
    /// A route is leased with this secret.
    Provision { secret: [u8; 32] },
}

/// What the directory of a channel says of a member by its pseudonym.
pub open spec fn route_by(directory: Table<String, ChannelRoute>, pseudonym: [u8; 32]) -> Option<ChannelRoute> {
    match place_of(directory.entries@, pseudonym, directory.entries@.len()) {
        Some(i) => Some(directory.entries@[i].1),
        None => None,
    }
}

/// Plans the route of a channel of the first version, which kept none. With routing it
/// waits, as what the directory says of this node; without, it is leased at once.
pub fn plan_legacy_route(c: &LegacyChannel, role: &RoleFacts, routed: bool, seed: &[u8; 32], codec: &Codec) -> (r: Result<LegacyRoute, Error>)
    ensures
        if routed {
            let previous = route_by(c.directory, role.pseudonym);
            match retained_secret(seed@, c.head.name@, role.pseudonym, match previous {
                Some(route) => route.direct_public,
                None => zeros::<32>(),
            }, *codec) {
                Ok(secret) => r matches Ok(LegacyRoute::Pending { route }) && route.public == pending_public(role.pseudonym, previous)
                    && route.direct_secret == secret && route.aliases@.len() == 0,
                Err(e) => r == Err::<LegacyRoute, Error>(e),
            }
        } else {
            match established_secret(seed@, c.head.name@, c.head.owner, *role, *codec) {
                Some(wanted) => r matches Ok(LegacyRoute::Provision { secret }) && secret == wanted,
                None => r == Err::<LegacyRoute, Error>(Error::NotListed),
            }
        },
{
    if routed {
        let previous = match find_place(&c.directory.entries, &role.pseudonym) {
            Some(i) => Some(c.directory.entries[i].1),
            None => None,
        };
        match pending_channel_route(seed, c.head.name.as_str(), role.pseudonym, previous, codec) {
            Ok(route) => Ok(LegacyRoute::Pending { route }),
            Err(e) => Err(e),
        }
    } else {
        match established_route_secret(seed, c.head.name.as_str(), c.head.owner, role, codec) {
            Some(secret) => Ok(LegacyRoute::Provision { secret }),
            None => Err(Error::NotListed),
        }
    }
}

/// Whether a channel is one of the first version, come back with a route.
pub open spec fn legacy_is(c: LegacyChannel, pseudonym: [u8; 32], own: OwnedChannelRouteView, codec: Codec, t: ChannelState) -> bool {
    &&& !t.public
    &&& t.owner == c.head.owner
    &&& t.blob@ == c.head.blob@
    &&& t.own_route@ == own
    &&& t.previous_own_route is None
    &&& renamed(c.directory, pseudonym, own.public, codec, t.directory)
    &&& t.message_outbox.entries@.len() == 0
    &&& t.membership_outbox is None
    &&& t.pending_control@.len() == 0
    &&& t.admission_cache.entries@.len() == 0 && t.admission_cache_order@.len() == 0
    &&& t.completed_removals@.len() == 0
    &&& t.commit_ack_cache.entries@.len() == 0 && t.commit_ack_order@.len() == 0
    &&& t.unrouted_ack_journal.entries@.len() == 0 && t.unrouted_ack_order@.len() == 0
    &&& t.invites.entries@.len() == 0 && t.invite_order@.len() == 0
}

/// Brings a channel of the first version back: private, with no journals, and
/// with this node's route in the directory where the node was in it.
pub fn restore_legacy_channel(c: LegacyChannel, pseudonym: &[u8; 32], own_route: OwnedChannelRoute, codec: &Codec) -> (r: ChannelState)
    ensures
        legacy_is(c, *pseudonym, own_route@, *codec, r),
        c.directory.wf() ==> r.directory.wf(),
{
    let mut directory = c.directory;
    match find_place(&directory.entries, pseudonym) {
        Some(i) => {
            if codec.is_valid_route(&own_route.public) {
                let name = directory.entries[i].0.clone();
                directory.insert(name, own_route.public);
            }
        },
        None => {},
    }
    ChannelState {
        public: false,
        owner: c.head.owner,
        blob: c.head.blob,
        own_route,
        previous_own_route: None,
        directory,
        message_outbox: Table::new(),
        membership_outbox: None,
        pending_control: Vec::new(),
        admission_cache: Table::new(),
        admission_cache_order: Vec::new(),
        completed_removals: Vec::new(),
        commit_ack_cache: Table::new(),
        commit_ack_order: Vec::new(),
        unrouted_ack_journal: Table::new(),
        unrouted_ack_order: Vec::new(),
        invites: Table::new(),
        invite_order: Vec::new(),
    }
}

/// What the sessions of the first `n` entries make of a table of sessions; of two
/// by one peer the later counts.
pub open spec fn last_session(s: Seq<SessionView>, n: nat, peer: Seq<u8>) -> Option<Seq<u8>>
    decreases n,
{
    if n == 0 {
        None
    } else if s[n - 1].peer == peer {
        Some(s[n - 1].sealed)
    } else {
        last_session(s, (n - 1) as nat, peer)
    }
}

/// Whether the sessions of an archive were put over those of a node, each of
/// them established.
pub open spec fn sessions_over(st: NodeState, s: Seq<SessionView>, n: nat, opened: Table<Vec<u8>, OpenedSession>, t: NodeState) -> bool {
    &&& forall|k: Seq<u8>|
        match last_session(s, n, k) {
            Some(sealed) => #[trigger] t.sessions.lookup(k) matches Some(x) && x.sealed@ == opened.at(sealed).sealed@ && x.tag
                == opened.at(sealed).tag && x.usage == opened.at(sealed).usage,
            None => t.sessions.lookup(k) == st.sessions.lookup(k),
        }
    &&& forall|k: Seq<u8>| #[trigger]
        t.session_states.lookup(k) == (if last_session(s, n, k) is Some {
            Some(DirectSessionState::Established)
        } else {
            st.session_states.lookup(k)
        })
}

/// Puts an archive of the first version into a node. Its sessions are established.
pub fn install_legacy(
    st: &mut NodeState,
    sessions: &Vec<SessionFrame>,
    channels: Table<String, ChannelState>,
    opened: &Table<Vec<u8>, OpenedSession>,
)
    requires
        old(st).tables_wf(),
        channels.wf(),
        forall|i: int| 0 <= i < sessions@.len() ==> opened.has((#[trigger] views(sessions@)[i]).sealed),
    ensures
        sessions_over(*old(st), views(sessions@), sessions@.len(), *opened, *final(st)),
        crate::restore_state::over(old(st).channels, channels, final(st).channels),
        *final(st) == (NodeState {
            sessions: final(st).sessions,
            session_states: final(st).session_states,
            channels: final(st).channels,
            ..*old(st)
        }),
        final(st).tables_wf(),
{
    let ghost v = views(sessions@);
    let ghost before = *st;
    let mut i: usize = 0;
    while i < sessions.len()
        invariant
            i <= sessions.len(),
            v == views(sessions@),
            forall|i: int| 0 <= i < sessions@.len() ==> opened.has((#[trigger] v[i]).sealed),
            sessions_over(before, v, i as nat, *opened, *st),
            *st == (NodeState { sessions: st.sessions, session_states: st.session_states, ..before }),
            st.tables_wf(),
        decreases sessions.len() - i,
    {
        assert(v[i as int] == sessions@[i as int]@);
        let ghost mid = *st;
        match opened.get(&sessions[i].sealed) {
            Some(o) => {
                let session = PeerSession { sealed: copy_bytes(o.sealed.as_slice()), tag: o.tag, usage: o.usage };
                st.sessions.insert(copy_bytes(sessions[i].peer.as_slice()), session);
                st.session_states.insert(copy_bytes(sessions[i].peer.as_slice()), DirectSessionState::Established);
            },
            None => {},
        }
        proof {
            let next = (i + 1) as nat;
            assert forall|k: Seq<u8>| match last_session(v, next, k) {
                Some(sealed) => #[trigger] st.sessions.lookup(k) matches Some(x) && x.sealed@ == opened.at(sealed).sealed@ && x.tag
                    == opened.at(sealed).tag && x.usage == opened.at(sealed).usage,
                None => st.sessions.lookup(k) == before.sessions.lookup(k),
            } by {
                if k != v[i as int].peer {
                    assert(st.sessions.lookup(k) == mid.sessions.lookup(k));
                }
            }
            assert forall|k: Seq<u8>| #[trigger] st.session_states.lookup(k) == (if last_session(v, next, k) is Some {
                Some(DirectSessionState::Established)
            } else {
                before.session_states.lookup(k)
            }) by {
                if k != v[i as int].peer {
                    assert(st.session_states.lookup(k) == mid.session_states.lookup(k));
                }
            }
        }
        i += 1;
    }
    st.channels.absorb(channels);
}

} // verus!
