//! Routing belongs to the node, not to its applications: which relays it may
//! learn of, when it makes itself known as one, and how its inboxes and channel
//! routes are recovered. Circuits and discovery are the host's.

use vstd::prelude::*;
use vstd::string::StrSliceExecFns;
use vstd::utf8::encode_utf8;
use crate::bytes::same_id;
use crate::error::Error;
use crate::model::{copy_aliases, same_aliases, views, ChannelRoute, OwnedAlias, OwnedAliasView, OwnedChannelRoute, OwnedChannelRouteView, RelayProvision, RelayTarget, SocketAddr};
use crate::node_state::{ChannelState, NodeState, PreparedChannelJoin};
use crate::owner_state::has_target;
use crate::relay_service::ProvisionAuthorities;
use crate::seal::{hkdf_expand, hkdf_sha256, sha256, sha256_digest};
use crate::table::{among, lemma_place, place, Table};
use crate::time::{Duration, Instant};

verus! {

/// The parts between commas, the last one being still open.
pub open spec fn parts(s: Seq<char>, n: nat) -> (Seq<Seq<char>>, Seq<char>)
    decreases n,
{
    if n == 0 {
        (Seq::empty(), Seq::empty())
    } else {
        let (done, open) = parts(s, (n - 1) as nat);
        if s[n - 1] == ',' {
            if open.len() > 0 {
                (done.push(open), Seq::empty())
            } else {
                (done, open)
            }
        } else {
            (done, open.push(s[n - 1]))
        }
    }
}

/// The names in a list separated by commas. Nothing between two commas is no name.
pub open spec fn names_in(s: Seq<char>) -> Seq<Seq<char>> {
    let (done, open) = parts(s, s.len());
    if open.len() > 0 {
        done.push(open)
    } else {
        done
    }
}

proof fn lemma_open_part(s: Seq<char>, n: nat, from: int)
    requires
        0 <= from <= n <= s.len(),
        parts(s, from as nat).1.len() == 0,
        forall|j: int| from <= j < n ==> s[j] != ',',
    ensures
        parts(s, n).0 == parts(s, from as nat).0,
        parts(s, n).1 == s.subrange(from, n as int),
    decreases n,
{
    if n > from {
        lemma_open_part(s, (n - 1) as nat, from);
        assert(s.subrange(from, n as int) =~= s.subrange(from, n - 1).push(s[n - 1]));
    } else {
        assert(parts(s, n).1 =~= s.subrange(from, n as int));
    }
}

proof fn lemma_parts_before(a: Seq<char>, rest: Seq<char>, n: nat)
    requires
        n <= a.len(),
    ensures
        parts(a + rest, n) == parts(a, n),
    decreases n,
{
    if n > 0 {
        lemma_parts_before(a, rest, (n - 1) as nat);
        assert((a + rest)[n - 1] == a[n - 1]);
    }
}

proof fn lemma_parts_after(a: Seq<char>, b: Seq<char>, n: nat)
    requires
        n <= b.len(),
    ensures
        parts(a + seq![','] + b, a.len() + 1 + n) == (names_in(a) + parts(b, n).0, parts(b, n).1),
    decreases n,
{
    let s = a + seq![','] + b;
    if n > 0 {
        lemma_parts_after(a, b, (n - 1) as nat);
        assert(s[(a.len() + n) as int] == b[n - 1]);
        let (done, open) = parts(b, (n - 1) as nat);
        assert(names_in(a) + done.push(open) =~= (names_in(a) + done).push(open));
    } else {
        assert(s =~= a + (seq![','] + b));
        lemma_parts_before(a, seq![','] + b, a.len());
        assert(s[a.len() as int] == ',');
        assert(names_in(a) + parts(b, 0).0 =~= names_in(a));
    }
}

/// A list is split at its commas: what stands before one and what stands after it
/// are lists of their own, a text without a comma is one name, and an empty text is
/// none.
pub proof fn lists_are_split_at_commas(a: Seq<char>, b: Seq<char>)
    ensures
        names_in(a + seq![','] + b) == names_in(a) + names_in(b),
        a.len() > 0 && !a.contains(',') ==> names_in(a) == seq![a],
        a.len() == 0 ==> names_in(a).len() == 0,
{
    lemma_parts_after(a, b, b.len());
    let (done, open) = parts(b, b.len());
    assert(names_in(a) + done.push(open) =~= (names_in(a) + done).push(open));
    assert(names_in(a + seq![','] + b) =~= names_in(a) + names_in(b));
    if !a.contains(',') {
        lemma_open_part(a, a.len(), 0);
        assert(a.subrange(0, a.len() as int) =~= a);
        if a.len() > 0 {
            assert(names_in(a) =~= seq![a]);
        }
    }
}

/// The catalog origins that an environment names.
pub fn split_origins(s: &str) -> (r: Vec<String>)
    ensures
        views(r@) == names_in(s@),
{
    let len: usize = s.unicode_len();
    let mut out: Vec<String> = Vec::new();
    let mut from: usize = 0;
    let mut i: usize = 0;
    assert(views(out@) =~= Seq::<Seq<char>>::empty());
    while i < len
        invariant
            from <= i <= len,
            len == s@.len(),
            views(out@) == parts(s@, from as nat).0,
            parts(s@, from as nat).1.len() == 0,
            forall|j: int| from <= j < i ==> s@[j] != ',',
        decreases len - i,
    {
        let c = s.get_char(i);
        if c == ',' {
            proof {
                lemma_open_part(s@, i as nat, from as int);
            }
            if from < i {
                let ghost before = views(out@);
                let part = s.substring_char(from, i);
                out.push(part.to_string());
                assert(views(out@) =~= before.push(s@.subrange(from as int, i as int)));
            } else {
                assert(s@.subrange(from as int, i as int).len() == 0);
            }
            from = i + 1;
        }
        i += 1;
    }
    proof {
        lemma_open_part(s@, len as nat, from as int);
    }
    if from < len {
        let ghost before = views(out@);
        let part = s.substring_char(from, len);
        out.push(part.to_string());
        assert(views(out@) =~= before.push(s@.subrange(from as int, len as int)));
    }
    out
}

/// Whether the catalog origins are few enough, and each of them a host name.
pub open spec fn origins_good(origins: Seq<Seq<char>>, hosts: Seq<Seq<char>>) -> bool {
    origins.len() <= 8 && forall|i: int| 0 <= i < origins.len() ==> hosts.contains(#[trigger] origins[i])
}

/// Checks the catalog origins. `hosts` are those of them that are host names.
pub fn check_origins(origins: &Vec<String>, hosts: &Vec<String>) -> (r: Result<(), Error>)
    ensures
        r == (if origins_good(views(origins@), views(hosts@)) {
            Ok::<(), Error>(())
        } else {
            Err::<(), Error>(Error::InvalidCatalogOrigins)
        }),
{
    if origins.len() > 8 {
        return Err(Error::InvalidCatalogOrigins);
    }
    let ghost v = views(origins@);
    let mut i: usize = 0;
    while i < origins.len()
        invariant
            i <= origins.len(),
            v == views(origins@),
            forall|j: int| 0 <= j < i ==> views(hosts@).contains(#[trigger] v[j]),
        decreases origins.len() - i,
    {
        if !among(hosts, &origins[i]) {
            assert(!views(hosts@).contains(v[i as int]));
            return Err(Error::InvalidCatalogOrigins);
        }
        i += 1;
    }
    Ok(())
}

/// Checks that retained routing material has one owner: a node with a store of
/// its own brings none from an archive.
pub fn check_owner(has_store: bool, introductions: usize) -> (r: Result<(), Error>)
    ensures
        r == (if has_store && introductions > 0 {
            Err::<(), Error>(Error::RoutingStateOwned)
        } else {
            Ok::<(), Error>(())
        }),
{
    if has_store && introductions > 0 {
        Err(Error::RoutingStateOwned)
    } else {
        Ok(())
    }
}

/// Checks retained introductions: but for fixtures, all of them are public.
pub fn check_introductions(fixture: bool, nonpublic: usize) -> (r: Result<(), Error>)
    ensures
        r == (if !fixture && nonpublic > 0 {
            Err::<(), Error>(Error::NonpublicRelay)
        } else {
            Ok::<(), Error>(())
        }),
{
    if !fixture && nonpublic > 0 {
        Err(Error::NonpublicRelay)
    } else {
        Ok(())
    }
}

/// What the routing of a node remembers between its steps.
#[derive(Debug)]
pub struct RoutingRuntime {
    /// Where the node's own relay service listens, once it is attached.
    pub service: Option<SocketAddr>,
    pub catalog_origins: Vec<String>,
    /// Whether the node's inbox is still to be recovered.
    pub recovering_owner: bool,
    /// Whether the node is known to others as a relay.
    pub published: bool,
    pub automatic_connectivity: bool,
    pub stopping: bool,
    pub provision_target: Option<RelayTarget>,
    pub fixture: bool,
    pub channel_ready: Vec<String>,
    pub prepared_ready: Vec<u64>,
    /// Whether a node's state is bound to it.
    pub bound: bool,
    /// The digest of the directory as it was last kept.
    pub saved: Option<[u8; 32]>,
}

impl RoutingRuntime {
    /// A runtime that has recovered nothing and published nothing.
    pub fn new(catalog_origins: Vec<String>, hosts: &Vec<String>, automatic_connectivity: bool, fixture: bool) -> (r: Result<Self, Error>)
        ensures
            match r {
                Ok(t) => {
                    &&& origins_good(views(catalog_origins@), views(hosts@))
                    &&& t.catalog_origins == catalog_origins
                    &&& t.service is None && t.recovering_owner && !t.published && !t.stopping && t.provision_target is None
                    &&& t.automatic_connectivity == automatic_connectivity && t.fixture == fixture
                    &&& t.channel_ready@.len() == 0 && t.prepared_ready@.len() == 0 && !t.bound && t.saved is None
                },
                Err(e) => e == Error::InvalidCatalogOrigins && !origins_good(views(catalog_origins@), views(hosts@)),
            },
    {
        match check_origins(&catalog_origins, hosts) {
            Ok(()) => {},
            Err(e) => {
                return Err(e);
            },
        }
        Ok(
            RoutingRuntime {
                service: None,
                catalog_origins,
                recovering_owner: true,
                published: false,
                automatic_connectivity,
                stopping: false,
                provision_target: None,
                fixture,
                channel_ready: Vec::new(),
                prepared_ready: Vec::new(),
                bound: false,
                saved: None,
            },
        )
    }

    /// Binds the state of a node, once.
    pub fn bind_state(&mut self) -> (r: Result<(), Error>)
        ensures
            r == (if old(self).bound {
                Err::<(), Error>(Error::RoutingAttached)
            } else {
                Ok::<(), Error>(())
            }),
            *final(self) == (RoutingRuntime { bound: true, ..*old(self) }),
    {
        if self.bound {
            return Err(Error::RoutingAttached);
        }
        self.bound = true;
        Ok(())
    }

    /// Stops for good: no proof that comes later makes the node known again.
    pub fn stop_publication(&mut self)
        ensures
            *final(self) == (RoutingRuntime { stopping: true, published: false, ..*old(self) }),
    {
        self.stopping = true;
        self.published = false;
    }

    /// Notes a new place of the node's listener. Until a proof of it comes the
    /// node is not known as a relay. `Some` means that the place is new, and
    /// holds the service that is to be told to the directory, if there is one;
    /// once it is told, `endpoint_settled` follows.
    pub fn update_endpoint(&mut self, address: SocketAddr) -> (r: Result<Option<Option<RelayTarget>>, Error>)
        ensures
            match old(self).service {
                None => r == Err::<Option<Option<RelayTarget>>, Error>(Error::ListenerNotAttached) && *final(self) == *old(self),
                Some(at) => if at == address {
                    r == Ok::<Option<Option<RelayTarget>>, Error>(None) && *final(self) == *old(self)
                } else {
                    let moved = match old(self).provision_target {
                        Some(target) => Some(RelayTarget { address, ..target }),
                        None => None,
                    };
                    r == Ok::<Option<Option<RelayTarget>>, Error>(Some(moved)) && *final(self) == (RoutingRuntime {
                        published: false,
                        provision_target: moved,
                        ..*old(self)
                    })
                },
            },
    {
        match self.service {
            None => Err(Error::ListenerNotAttached),
            Some(at) => {
                if at.same(&address) {
                    return Ok(None);
                }
                self.published = false;
                let moved = match self.provision_target {
                    Some(target) => Some(RelayTarget { address, relay_service_id: target.relay_service_id }),
                    None => None,
                };
                self.provision_target = moved;
                Ok(Some(moved))
            },
        }
    }

    /// The node's own service now goes by the new place.
    pub fn endpoint_settled(&mut self, address: SocketAddr)
        ensures
            *final(self) == (RoutingRuntime { service: Some(address), ..*old(self) }),
    {
        self.service = Some(address);
    }

    /// Attaches the node's own relay service. What it gives back is the seed of
    /// the service's own key, apart from the user's.
    pub fn attach(&mut self, target: &RelayTarget, private_key: &[u8]) -> (r: [u8; 32])
        ensures
            r@ == hkdf_sha256(target.relay_service_id@, private_key@, encode_utf8("ghost.relay.private-service.v1"@)),
            *final(self) == (RoutingRuntime {
                provision_target: Some(*target),
                service: Some(target.address),
                ..*old(self)
            }),
    {
        self.provision_target = Some(*target);
        self.service = Some(target.address);
        hkdf_expand(&target.relay_service_id, private_key, "ghost.relay.private-service.v1".as_bytes())
    }

    /// Whether the service gates transit until the node is known as a relay.
    pub fn gates_transit(&self) -> (r: bool)
        ensures
            r == self.automatic_connectivity,
    {
        self.automatic_connectivity
    }

    /// What a relay's door goes by: whether the node is known as a relay, where it
    /// must be before it takes real work.
    pub open spec fn gate(self) -> Option<bool> {
        if self.automatic_connectivity {
            Some(self.published)
        } else {
            None
        }
    }

    /// Tells the relay's door whether the node is known as a relay.
    pub fn gate_transit(&self, authorities: &mut ProvisionAuthorities)
        ensures
            *final(authorities) == (ProvisionAuthorities { transit_ready: self.gate(), ..*old(authorities) }),
    {
        authorities.transit_ready = if self.gates_transit() {
            Some(self.published)
        } else {
            None
        };
    }

    /// Whether the directory is to be kept before a connection is made, and the
    /// digest to note once it is.
    pub fn needs_checkpoint(&self, directory: &[u8]) -> (r: Option<[u8; 32]>)
        ensures
            match r {
                Some(digest) => digest@ == sha256_digest(directory@) && self.saved != Some(digest),
                None => self.saved is Some && self.saved->0@ == sha256_digest(directory@),
            },
    {
        let digest = sha256(directory);
        match &self.saved {
            Some(saved) => {
                if same_id(saved, &digest) {
                    return None;
                }
            },
            None => {},
        }
        Some(digest)
    }

    /// Notes that the directory was kept.
    pub fn checkpointed(&mut self, digest: [u8; 32])
        ensures
            *final(self) == (RoutingRuntime { saved: Some(digest), ..*old(self) }),
    {
        self.saved = Some(digest);
    }

    /// Notes that an alias of the node's inbox no longer answers.
    pub fn owner_unavailable(&mut self, relay: &RelayProvision, alias: &OwnedAlias)
        ensures
            *final(self) == (RoutingRuntime {
                recovering_owner: old(self).recovering_owner || leased(views(relay.aliases@), alias.contact.queue_id),
                ..*old(self)
            }),
    {
        let mut i: usize = 0;
        let ghost v = views(relay.aliases@);
        while i < relay.aliases.len()
            invariant
                i <= relay.aliases.len(),
                v == views(relay.aliases@),
                *self == *old(self),
                forall|j: int| 0 <= j < i ==> (#[trigger] v[j]).contact.queue_id != alias.contact.queue_id,
            decreases relay.aliases.len() - i,
        {
            assert(v[i as int] == relay.aliases@[i as int]@);
            if same_id(&relay.aliases[i].contact.queue_id, &alias.contact.queue_id) {
                self.recovering_owner = true;
                return;
            }
            i += 1;
        }
    }

    /// What a proof at an address makes of it.
    pub open spec fn proved(self, at: SocketAddr, verified: bool) -> RoutingRuntime {
        if !self.stopping && self.service == Some(at) {
            RoutingRuntime { published: verified, ..self }
        } else {
            self
        }
    }

    /// Takes the outcome of a proof that the node can be reached at a place. One
    /// for a place that the node has left, or that comes after the end, does not
    /// count.
    pub fn note_proof(&mut self, at: &SocketAddr, verified: bool)
        ensures
            *final(self) == old(self).proved(*at, verified),
    {
        let current = match &self.service {
            Some(address) => address.same(at),
            None => false,
        };
        if !self.stopping && current {
            self.published = verified;
        }
    }

    /// Takes the outcome of an attempt to recover the node's inbox, and counts
    /// the failures. Channels are recovered anew after it.
    pub fn note_owner_recovery(&mut self, recovered: bool, failures: u32) -> (r: u32)
        ensures
            r == failures_after(recovered, failures),
            recovered ==> {
                &&& !final(self).recovering_owner
                &&& final(self).channel_ready@.len() == 0
                &&& final(self).prepared_ready@.len() == 0
                &&& *final(self) == (RoutingRuntime {
                    recovering_owner: false,
                    channel_ready: final(self).channel_ready,
                    prepared_ready: final(self).prepared_ready,
                    ..*old(self)
                })
            },
            !recovered ==> *final(self) == *old(self),
    {
        if recovered {
            self.recovering_owner = false;
            self.channel_ready = Vec::new();
            self.prepared_ready = Vec::new();
            return 0;
        }
        failures.saturating_add(1)
    }
}

/// Whether a queue is one of those that aliases lease.
pub open spec fn leased(aliases: Seq<OwnedAliasView>, queue_id: [u8; 32]) -> bool {
    exists|i: int| 0 <= i < aliases.len() && (#[trigger] aliases[i]).contact.queue_id == queue_id
}

/// No proof makes a stopped node known as a relay again, and its door stays shut.
pub proof fn a_stop_is_final(t: RoutingRuntime, at: SocketAddr, verified: bool)
    requires
        t.stopping && !t.published,
    ensures
        t.proved(at, verified).stopping && !t.proved(at, verified).published,
        t.proved(at, verified).gate() != Some(true),
{
}

/// The failures in a row after an attempt.
pub open spec fn failures_after(recovered: bool, failures: u32) -> u32 {
    if recovered {
        0
    } else if failures < u32::MAX {
        (failures + 1) as u32
    } else {
        u32::MAX
    }
}

/// The nanoseconds that an attempt to recover an inbox may take.
pub open spec fn deadline_nanos(fixture: bool) -> int {
    if fixture {
        10_000_000_000
    } else {
        90_000_000_000
    }
}

/// The nanoseconds between two rounds.
pub open spec fn pause_nanos(fixture: bool, chance: u64) -> int {
    if fixture {
        200_000_000
    } else {
        (25 + chance % 11) * 1_000_000_000
    }
}

/// How long an attempt to recover an inbox may take.
pub fn recovery_deadline(fixture: bool) -> (r: Duration)
    ensures
        r.nanos == deadline_nanos(fixture),
{
    if fixture {
        Duration::from_secs(10)
    } else {
        Duration::from_secs(90)
    }
}

/// How long the runtime rests between two rounds; `chance` is drawn anew for each.
pub fn round_pause(fixture: bool, chance: u64) -> (r: Duration)
    ensures
        r.nanos == pause_nanos(fixture, chance),
{
    if fixture {
        Duration::from_millis(200)
    } else {
        Duration::from_secs(25 + chance % 11)
    }
}

/// When the node makes itself known next, and how often it failed to.
#[derive(Clone, Copy, Debug)]
pub struct Publication {
    pub next: Instant,
    pub failures: u32,
    /// The place that it last made known.
    pub last: Option<SocketAddr>,
}

/// The seconds until the next attempt: five minutes after a success, else five
/// seconds doubled with every failure up to as much.
pub open spec fn retry_secs(verified: bool, failures: u32) -> u64 {
    if verified {
        300
    } else if failures == 0 {
        5
    } else if failures == 1 {
        10
    } else if failures == 2 {
        20
    } else if failures == 3 {
        40
    } else if failures == 4 {
        80
    } else if failures == 5 {
        160
    } else {
        300
    }
}

impl Publication {
    pub fn start(now: Instant) -> (r: Self)
        ensures
            r.next == now && r.failures == 0 && r.last is None,
    {
        Publication { next: now, failures: 0, last: None }
    }

    /// Whether the node makes itself known now. A new place is made known at once,
    /// and only fixtures make known a place that is not public.
    pub fn due(&mut self, at: &SocketAddr, now: Instant, fixture: bool, public: bool) -> (r: bool)
        ensures
            *final(self) == (if old(self).last == Some(*at) {
                *old(self)
            } else {
                Publication { next: now, failures: 0, last: Some(*at) }
            }),
            r == (now.nanos >= final(self).next.nanos && (fixture || public)),
    {
        let same = match &self.last {
            Some(last) => last.same(at),
            None => false,
        };
        if !same {
            self.next = now;
            self.failures = 0;
            self.last = Some(*at);
        }
        now.nanos >= self.next.nanos && (fixture || public)
    }

    /// Takes the outcome of an attempt and sets the next, up to a quarter of the
    /// pause later by chance.
    pub fn attempted(&mut self, verified: bool, now: Instant, chance: u64)
        requires
            now.nanos <= u128::MAX - 1_000_000_000_000,
        ensures
            final(self).failures == (if verified {
                0
            } else if old(self).failures < u32::MAX {
                (old(self).failures + 1) as u32
            } else {
                u32::MAX
            }),
            ({
                let retry = retry_secs(verified, final(self).failures);
                final(self).next.nanos == now.nanos + (retry + chance % ((retry / 4 + 1) as u64)) * 1_000_000_000
            }),
            final(self).last == old(self).last,
    {
        self.failures = if verified {
            0
        } else {
            self.failures.saturating_add(1)
        };
        let retry: u64 = if verified {
            300
        } else if self.failures == 0 {
            5
        } else if self.failures == 1 {
            10
        } else if self.failures == 2 {
            20
        } else if self.failures == 3 {
            40
        } else if self.failures == 4 {
            80
        } else if self.failures == 5 {
            160
        } else {
            300
        };
        let pause = Duration::from_secs(retry + chance % (retry / 4 + 1));
        self.next = Instant { nanos: now.nanos + pause.nanos };
    }
}

/// The least expiry of the first `n` aliases.
pub open spec fn soonest(aliases: Seq<OwnedAliasView>, n: nat) -> u64
    decreases n,
{
    if n <= 1 {
        aliases[0].contact.expiry
    } else {
        let before = soonest(aliases, (n - 1) as nat);
        let last = aliases[n - 1].contact.expiry;
        if last < before {
            last
        } else {
            before
        }
    }
}

/// Until when retained aliases can be recovered, and how long the attempt may
/// take at most.
#[derive(Clone, Copy, Debug, PartialEq, Eq, Structural)]
pub struct RecoveryPlan {
    pub expiry: u64,
    pub timeout_secs: u64,
}

pub open spec fn recovery_plan(retained: Seq<OwnedAliasView>, now_unix: u64) -> Result<RecoveryPlan, Error> {
    if retained.len() == 0 {
        Err(Error::MissingRetainedAliases)
    } else {
        let expiry = soonest(retained, retained.len());
        if expiry <= now_unix {
            Err(Error::RetainedRouteExpired)
        } else {
            let left = (expiry - now_unix) as u64;
            Ok(RecoveryPlan { expiry, timeout_secs: if left < 60 { left } else { 60 } })
        }
    }
}

/// Plans the recovery of retained aliases: within their lifetime, and a minute at
/// most.
pub fn plan_recovery(retained: &Vec<OwnedAlias>, now_unix: u64) -> (r: Result<RecoveryPlan, Error>)
    ensures
        r == recovery_plan(views(retained@), now_unix),
{
    if retained.len() == 0 {
        return Err(Error::MissingRetainedAliases);
    }
    let ghost v = views(retained@);
    assert(v[0] == retained@[0]@);
    let mut expiry: u64 = retained[0].contact.expiry;
    let mut i: usize = 1;
    while i < retained.len()
        invariant
            1 <= i <= retained.len(),
            v == views(retained@),
            expiry == soonest(v, i as nat),
        decreases retained.len() - i,
    {
        assert(v[i as int] == retained@[i as int]@);
        if retained[i].contact.expiry < expiry {
            expiry = retained[i].contact.expiry;
        }
        i += 1;
    }
    if expiry <= now_unix {
        return Err(Error::RetainedRouteExpired);
    }
    let left: u64 = expiry - now_unix;
    Ok(RecoveryPlan { expiry, timeout_secs: if left < 60 { left } else { 60 } })
}

/// Whether aliases speak for the same queues with the same authority.
pub open spec fn all_same_authority(a: Seq<OwnedAlias>, b: Seq<OwnedAlias>) -> bool {
    a.len() == b.len() && forall|i: int| 0 <= i < a.len() ==> (#[trigger] a[i]).spec_same_authority(b[i])
}

/// Takes recovered aliases, where each is the one that was retained and they did
/// not run out meanwhile.
pub fn accept_recovered(retained: &Vec<OwnedAlias>, restored: &Vec<OwnedAlias>, plan: RecoveryPlan, now_unix: u64) -> (r: Result<(), Error>)
    ensures
        r == (if !all_same_authority(restored@, retained@) {
            Err::<(), Error>(Error::RecoveryChangedAuthority)
        } else if now_unix >= plan.expiry {
            Err::<(), Error>(Error::ExpiredDuringRecovery)
        } else {
            Ok::<(), Error>(())
        }),
{
    if retained.len() != restored.len() {
        return Err(Error::RecoveryChangedAuthority);
    }
    let mut i: usize = 0;
    while i < restored.len()
        invariant
            i <= restored.len(),
            retained.len() == restored.len(),
            forall|j: int| 0 <= j < i ==> (#[trigger] restored@[j]).spec_same_authority(retained@[j]),
        decreases restored.len() - i,
    {
        if !restored[i].same_authority(&retained[i]) {
            return Err(Error::RecoveryChangedAuthority);
        }
        i += 1;
    }
    if now_unix >= plan.expiry {
        return Err(Error::ExpiredDuringRecovery);
    }
    Ok(())
}

/// Those of the first `n` channels that are not ready, and at most four of them, each
/// with its route.
pub open spec fn unready(s: Seq<(String, ChannelState)>, n: nat, ready: Seq<Seq<char>>) -> Seq<(Seq<char>, OwnedChannelRouteView)>
    decreases n,
{
    if n == 0 {
        Seq::empty()
    } else {
        let before = unready(s, (n - 1) as nat, ready);
        if before.len() < 4 && !ready.contains(s[n - 1].0@) {
            before.push((s[n - 1].0@, s[n - 1].1.own_route@))
        } else {
            before
        }
    }
}

/// Those of the first `n` joins that are not ready, and at most four of them, each with
/// the aliases of its route.
pub open spec fn unready_joins(s: Seq<(u64, PreparedChannelJoin)>, n: nat, ready: Seq<u64>) -> Seq<(u64, Seq<OwnedAliasView>)>
    decreases n,
{
    if n == 0 {
        Seq::empty()
    } else {
        let before = unready_joins(s, (n - 1) as nat, ready);
        if before.len() < 4 && !ready.contains(s[n - 1].0) {
            before.push((s[n - 1].0, s[n - 1].1.route@.aliases))
        } else {
            before
        }
    }
}

/// A round takes on four channels at most, and none that is ready.
pub proof fn a_round_is_small(s: Seq<(String, ChannelState)>, n: nat, ready: Seq<Seq<char>>)
    ensures
        unready(s, n, ready).len() <= 4,
        forall|i: int|
            0 <= i < unready(s, n, ready).len() ==> match #[trigger] unready(s, n, ready)[i] {
                (name, _) => !ready.contains(name),
            },
    decreases n,
{
    if n > 0 {
        a_round_is_small(s, (n - 1) as nat, ready);
    }
}

/// The ready channels that the node still has, in order.
pub open spec fn still_known(ready: Seq<Seq<char>>, n: nat, channels: Table<String, ChannelState>) -> Seq<Seq<char>>
    decreases n,
{
    if n == 0 {
        Seq::empty()
    } else {
        let before = still_known(ready, (n - 1) as nat, channels);
        if channels.has(ready[n - 1]) {
            before.push(ready[n - 1])
        } else {
            before
        }
    }
}

/// The ready joins that the node still has, in order.
pub open spec fn still_prepared(ready: Seq<u64>, n: nat, joins: Table<u64, PreparedChannelJoin>) -> Seq<u64>
    decreases n,
{
    if n == 0 {
        Seq::empty()
    } else {
        let before = still_prepared(ready, (n - 1) as nat, joins);
        if joins.has(ready[n - 1]) {
            before.push(ready[n - 1])
        } else {
            before
        }
    }
}

fn keep_known(ready: &Vec<String>, channels: &Table<String, ChannelState>) -> (r: Vec<String>)
    ensures
        views(r@) == still_known(views(ready@), ready@.len(), *channels),
{
    let ghost v = views(ready@);
    let mut out: Vec<String> = Vec::new();
    let mut i: usize = 0;
    assert(views(out@) =~= Seq::<Seq<char>>::empty());
    while i < ready.len()
        invariant
            i <= ready.len(),
            v == views(ready@),
            views(out@) == still_known(v, i as nat, *channels),
        decreases ready.len() - i,
    {
        assert(v[i as int] == ready@[i as int]@);
        if channels.contains_key(&ready[i]) {
            let ghost before = views(out@);
            out.push(ready[i].clone());
            assert(views(out@) =~= before.push(v[i as int]));
        }
        i += 1;
    }
    out
}

fn keep_prepared(ready: &Vec<u64>, joins: &Table<u64, PreparedChannelJoin>) -> (r: Vec<u64>)
    ensures
        r@ == still_prepared(ready@, ready@.len(), *joins),
{
    let mut out: Vec<u64> = Vec::new();
    let mut i: usize = 0;
    while i < ready.len()
        invariant
            i <= ready.len(),
            out@ == still_prepared(ready@, i as nat, *joins),
        decreases ready.len() - i,
    {
        if joins.contains_key(&ready[i]) {
            out.push(ready[i]);
        }
        i += 1;
    }
    out
}

fn has_number(ids: &Vec<u64>, id: u64) -> (r: bool)
    ensures
        r == ids@.contains(id),
{
    let mut i: usize = 0;
    while i < ids.len()
        invariant
            i <= ids.len(),
            forall|j: int| 0 <= j < i ==> ids@[j] != id,
        decreases ids.len() - i,
    {
        if ids[i] == id {
            return true;
        }
        i += 1;
    }
    false
}

/// A channel to recover, with its route as it was when that was decided.
#[derive(Debug)]
pub struct ChannelRecovery {
    pub name: String,
    pub began: OwnedChannelRoute,
}

impl View for ChannelRecovery {
    type V = (Seq<char>, OwnedChannelRouteView);

    open spec fn view(&self) -> (Seq<char>, OwnedChannelRouteView) {
        (self.name@, self.began@)
    }
}

/// A prepared join to recover, with its aliases as they were when that was decided.
#[derive(Debug)]
pub struct JoinRecovery {
    pub id: u64,
    pub retained: Vec<OwnedAlias>,
}

impl View for JoinRecovery {
    type V = (u64, Seq<OwnedAliasView>);

    open spec fn view(&self) -> (u64, Seq<OwnedAliasView>) {
        (self.id, views(self.retained@))
    }
}

/// What a round of recovery takes on: an alias to do it under, the relay to lease new
/// routes of, and some of the channels and joins that are not ready.
#[derive(Debug)]
pub struct RecoveryRound {
    pub authority: OwnedAlias,
    pub relay: RelayProvision,
    pub channels: Vec<ChannelRecovery>,
    pub joins: Vec<JoinRecovery>,
}

impl RoutingRuntime {
    /// Selects what to recover next. Channels and joins that are gone are
    /// forgotten; without an inbox nothing is recovered.
    pub fn select_recovery(&mut self, st: &NodeState) -> (r: Result<RecoveryRound, Error>)
        ensures
            match r {
                Ok(round) => {
                    let ready = still_known(views(old(self).channel_ready@), old(self).channel_ready@.len(), st.channels);
                    let joined = still_prepared(old(self).prepared_ready@, old(self).prepared_ready@.len(), st.prepared);
                    &&& st.owner.client_relay.aliases@.len() > 0
                    &&& round.authority@ == st.owner.client_relay.aliases@[0]@
                    &&& round.relay@ == st.owner.client_relay@
                    &&& views(round.channels@) == unready(st.channels.entries@, st.channels.entries@.len(), ready)
                    &&& views(round.joins@) == unready_joins(st.prepared.entries@, st.prepared.entries@.len(), joined)
                    &&& views(final(self).channel_ready@) == ready
                    &&& final(self).prepared_ready@ == joined
                    &&& *final(self) == (RoutingRuntime {
                        channel_ready: final(self).channel_ready,
                        prepared_ready: final(self).prepared_ready,
                        ..*old(self)
                    })
                },
                Err(e) => e == Error::InboxUnavailable && st.owner.client_relay.aliases@.len() == 0 && *final(self) == *old(self),
            },
    {
        if st.owner.client_relay.aliases.len() == 0 {
            return Err(Error::InboxUnavailable);
        }
        let authority = st.owner.client_relay.aliases[0].clone();
        let relay = st.owner.client_relay.clone();
        self.channel_ready = keep_known(&self.channel_ready, &st.channels);
        self.prepared_ready = keep_prepared(&self.prepared_ready, &st.prepared);
        let ghost ready = views(self.channel_ready@);
        let mut channels: Vec<ChannelRecovery> = Vec::new();
        let ghost s = st.channels.entries@;
        let mut i: usize = 0;
        assert(views(channels@) =~= Seq::<(Seq<char>, OwnedChannelRouteView)>::empty());
        while i < st.channels.entries.len()
            invariant
                i <= st.channels.entries.len(),
                s == st.channels.entries@,
                ready == views(self.channel_ready@),
                views(channels@) == unready(s, i as nat, ready),
            decreases st.channels.entries.len() - i,
        {
            assert(views(channels@).len() == channels@.len());
            if channels.len() < 4 && !among(&self.channel_ready, &st.channels.entries[i].0) {
                let ghost before = views(channels@);
                let name = st.channels.entries[i].0.clone();
                channels.push(ChannelRecovery { name, began: st.channels.entries[i].1.own_route.clone() });
                assert(views(channels@) =~= before.push((s[i as int].0@, s[i as int].1.own_route@)));
            }
            i += 1;
        }
        let ghost joined = self.prepared_ready@;
        let mut joins: Vec<JoinRecovery> = Vec::new();
        let ghost t = st.prepared.entries@;
        let mut i: usize = 0;
        assert(views(joins@) =~= Seq::<(u64, Seq<OwnedAliasView>)>::empty());
        while i < st.prepared.entries.len()
            invariant
                i <= st.prepared.entries.len(),
                t == st.prepared.entries@,
                joined == self.prepared_ready@,
                views(joins@) == unready_joins(t, i as nat, joined),
            decreases st.prepared.entries.len() - i,
        {
            assert(views(joins@).len() == joins@.len());
            if joins.len() < 4 && !has_number(&self.prepared_ready, st.prepared.entries[i].0) {
                let ghost before = views(joins@);
                let retained = copy_aliases(&st.prepared.entries[i].1.route.aliases);
                joins.push(JoinRecovery { id: st.prepared.entries[i].0, retained });
                assert(views(joins@) =~= before.push((t[i as int].0, t[i as int].1.route@.aliases)));
            }
            i += 1;
        }
        Ok(RecoveryRound { authority, relay, channels, joins })
    }

    /// Counts a channel as ready.
    pub fn mark_channel_ready(&mut self, name: String)
        ensures
            views(final(self).channel_ready@) == (if views(old(self).channel_ready@).contains(name@) {
                views(old(self).channel_ready@)
            } else {
                views(old(self).channel_ready@).push(name@)
            }),
            *final(self) == (RoutingRuntime { channel_ready: final(self).channel_ready, ..*old(self) }),
    {
        if !among(&self.channel_ready, &name) {
            let ghost before = views(self.channel_ready@);
            self.channel_ready.push(name);
            assert(views(self.channel_ready@) =~= before.push(name@));
        }
    }

    /// Counts a join as ready.
    pub fn mark_join_ready(&mut self, id: u64)
        ensures
            final(self).prepared_ready@ == (if old(self).prepared_ready@.contains(id) {
                old(self).prepared_ready@
            } else {
                old(self).prepared_ready@.push(id)
            }),
            *final(self) == (RoutingRuntime { prepared_ready: final(self).prepared_ready, ..*old(self) }),
    {
        if !has_number(&self.prepared_ready, id) {
            self.prepared_ready.push(id);
        }
    }
}

/// What became of a recovered route.
#[derive(Clone, Copy, Debug, PartialEq, Eq, Structural)]
pub enum Installed {
    /// What it was recovered for is gone, or has changed meanwhile.
    Obsolete,
    Done,
}

/// A state with the aliases of one join replaced.
pub open spec fn with_join_aliases(st: NodeState, at: int, aliases: Seq<OwnedAlias>, t: NodeState) -> bool {
    let (id, join) = st.prepared.entries@[at];
    &&& t.prepared.entries@.len() == st.prepared.entries@.len()
    &&& forall|i: int| 0 <= i < st.prepared.entries@.len() && i != at ==> t.prepared.entries@[i] == st.prepared.entries@[i]
    &&& ({
        let (new_id, new_join) = t.prepared.entries@[at];
        &&& new_id == id
        &&& new_join.route.aliases@ == aliases
        &&& new_join == (PreparedChannelJoin { route: OwnedChannelRoute { aliases: new_join.route.aliases, ..join.route }, ..join })
    })
    &&& t == (NodeState { prepared: t.prepared, ..st })
}

/// Puts the recovered aliases of a join in place. A join keeps its exact route:
/// where its aliases are no longer those that were recovered, nothing is done.
pub fn install_join_aliases(st: &mut NodeState, id: u64, expected: &Vec<OwnedAlias>, restored: Vec<OwnedAlias>) -> (r: Installed)
    ensures
        ({
            let at = place(old(st).prepared.keys(), id);
            let fits = old(st).prepared.has(id) && views(old(st).prepared.entries@[at].1.route.aliases@) == views(expected@);
            if fits {
                r == Installed::Done && with_join_aliases(*old(st), at, restored@, *final(st))
            } else {
                r == Installed::Obsolete && *final(st) == *old(st)
            }
        }),
{
    match st.prepared.find(&id) {
        None => Installed::Obsolete,
        Some(at) => {
            if !same_aliases(&st.prepared.entries[at].1.route.aliases, expected) {
                return Installed::Obsolete;
            }
            let (id, join) = st.prepared.entries.remove(at);
            let mut join = join;
            join.route.aliases = restored;
            st.prepared.entries.insert(at, (id, join));
            Installed::Done
        },
    }
}

/// A state with the own route of one channel replaced, and the role as it is after
/// the announcement.
pub open spec fn with_own_route(st: NodeState, at: int, route: OwnedChannelRoute, blob: Vec<u8>, t: NodeState) -> bool {
    let (name, c) = st.channels.entries@[at];
    &&& t.channels.entries@ == st.channels.entries@.update(at, (name, ChannelState { own_route: route, blob, ..c }))
    &&& t == (NodeState { channels: t.channels, ..st })
}

/// Whether a channel still has the route that a recovery began with.
pub open spec fn route_unchanged(st: NodeState, name: Seq<char>, public: ChannelRoute, retained: Seq<OwnedAliasView>) -> bool {
    match st.channels.lookup(name) {
        Some(c) => c.own_route.public == public && views(c.own_route.aliases@) == retained,
        None => false,
    }
}

/// What becomes of a channel's route after an attempt to recover its aliases.
#[derive(Debug)]
pub enum ChannelStep {
    /// The route goes on with the aliases that came back.
    Take { route: OwnedChannelRoute },
    /// A new route is leased, under the same pseudonym and secret.
    Provision { pseudonym: [u8; 32], secret: [u8; 32] },
}

/// Takes a route up where its aliases came back, and else asks for a new one: an active
/// channel may announce another route, as a join that is under way may not.
pub fn after_recovery(began: &OwnedChannelRoute, recovered: Option<Vec<OwnedAlias>>) -> (r: ChannelStep)
    ensures
        match (recovered, r) {
            (Some(aliases), ChannelStep::Take { route }) => route@ == (OwnedChannelRouteView { aliases: views(aliases@), ..began@ }),
            (None, ChannelStep::Provision { pseudonym, secret }) => pseudonym == began.public.pseudonym && secret
                == began.direct_secret,
            _ => false,
        },
{
    match recovered {
        Some(aliases) => ChannelStep::Take {
            route: OwnedChannelRoute { public: began.public, direct_secret: began.direct_secret, aliases },
        },
        None => ChannelStep::Provision { pseudonym: began.public.pseudonym, secret: began.direct_secret },
    }
}

/// Whether a recovered route is still wanted by its channel.
pub fn is_route_unchanged(st: &NodeState, name: &String, public: &ChannelRoute, retained: &Vec<OwnedAlias>) -> (r: bool)
    ensures
        r == route_unchanged(*st, name@, *public, views(retained@)),
{
    match st.channels.get(name) {
        Some(c) => c.own_route.public.same(public) && same_aliases(&c.own_route.aliases, retained),
        None => false,
    }
}

/// Puts a recovered or new route of a channel in place, with the role as it is
/// once the route is announced.
pub fn install_own_route(st: &mut NodeState, name: &String, public: &ChannelRoute, retained: &Vec<OwnedAlias>, route: OwnedChannelRoute, blob: Vec<u8>) -> (r: Installed)
    ensures
        if route_unchanged(*old(st), name@, *public, views(retained@)) {
            r == Installed::Done && with_own_route(*old(st), place(old(st).channels.keys(), name@), route, blob, *final(st))
        } else {
            r == Installed::Obsolete && *final(st) == *old(st)
        },
{
    if !is_route_unchanged(st, name, public, retained) {
        return Installed::Obsolete;
    }
    match st.channels.find(name) {
        None => Installed::Obsolete,
        Some(at) => {
            let ghost before = st.channels.entries@;
            let (name, c) = st.channels.entries.remove(at);
            let mut c = c;
            c.own_route = route;
            c.blob = blob;
            st.channels.entries.insert(at, (name, c));
            assert(st.channels.entries@ =~= before.update(at as int, (name, c)));
            Installed::Done
        },
    }
}

/// Whether an inbox can be gone on with: it has aliases, each with time left and
/// none at a relay that this node itself is.
pub open spec fn inbox_live(aliases: Seq<OwnedAliasView>, now_unix: u64, own: Seq<RelayTarget>) -> bool {
    aliases.len() > 0 && forall|i: int|
        0 <= i < aliases.len() ==> (#[trigger] aliases[i]).contact.expiry > now_unix && !own.contains(aliases[i].contact.target)
}

pub fn is_inbox_live(relay: &RelayProvision, now_unix: u64, own: &Vec<RelayTarget>) -> (r: bool)
    ensures
        r == inbox_live(views(relay.aliases@), now_unix, own@),
{
    if relay.aliases.len() == 0 {
        return false;
    }
    let ghost v = views(relay.aliases@);
    let mut i: usize = 0;
    while i < relay.aliases.len()
        invariant
            i <= relay.aliases.len(),
            v == views(relay.aliases@),
            forall|j: int| 0 <= j < i ==> (#[trigger] v[j]).contact.expiry > now_unix && !own@.contains(v[j].contact.target),
        decreases relay.aliases.len() - i,
    {
        assert(v[i as int] == relay.aliases@[i as int]@);
        if relay.aliases[i].contact.expiry <= now_unix || has_target(own, &relay.aliases[i].contact.target) {
            return false;
        }
        i += 1;
    }
    true
}

/// The next step in recovering an inbox.
#[derive(Clone, Copy, Debug, PartialEq, Eq)]
pub enum OwnerStep {
    /// Go on with the inbox that the node has.
    Resume,
    /// Provision another, not at the relay given here.
    Replace { excluded: Option<RelayTarget> },
}

/// The relay that a replacement must not be at.
pub open spec fn replaced_relay(aliases: Seq<OwnedAliasView>) -> Option<RelayTarget> {
    if aliases.len() > 0 {
        Some(aliases[0].contact.target)
    } else {
        None
    }
}

/// Begins the recovery of an inbox: a live one is resumed, any other replaced.
pub fn begin_owner_recovery(relay: &RelayProvision, now_unix: u64, own: &Vec<RelayTarget>) -> (r: OwnerStep)
    ensures
        r == (if inbox_live(views(relay.aliases@), now_unix, own@) {
            OwnerStep::Resume
        } else {
            OwnerStep::Replace { excluded: replaced_relay(views(relay.aliases@)) }
        }),
{
    if is_inbox_live(relay, now_unix, own) {
        return OwnerStep::Resume;
    }
    OwnerStep::Replace { excluded: first_target(relay) }
}

fn first_target(relay: &RelayProvision) -> (r: Option<RelayTarget>)
    ensures
        r == replaced_relay(views(relay.aliases@)),
{
    if relay.aliases.len() > 0 {
        assert(views(relay.aliases@)[0] == relay.aliases@[0]@);
        Some(relay.aliases[0].contact.target)
    } else {
        None
    }
}

/// What follows when a live inbox could not be resumed: it is replaced once that
/// failed twice before, and else waited for.
pub fn after_failed_resume(relay: &RelayProvision, failures: u32) -> (r: Result<OwnerStep, Error>)
    ensures
        r == (if failures >= 2 {
            Ok::<OwnerStep, Error>(OwnerStep::Replace { excluded: replaced_relay(views(relay.aliases@)) })
        } else {
            Err::<OwnerStep, Error>(Error::RecoveryPending)
        }),
{
    if failures < 2 {
        return Err(Error::RecoveryPending);
    }
    Ok(OwnerStep::Replace { excluded: first_target(relay) })
}

/// The relay whose inbox is resumed.
pub fn resume_target(relay: &RelayProvision) -> (r: Result<RelayTarget, Error>)
    ensures
        r == (match replaced_relay(views(relay.aliases@)) {
            Some(target) => Ok::<RelayTarget, Error>(target),
            None => Err::<RelayTarget, Error>(Error::NoRetainedInbox),
        }),
{
    match first_target(relay) {
        Some(target) => Ok(target),
        None => Err(Error::NoRetainedInbox),
    }
}

/// Checks that a retained service was introduced anew, at the place and under the
/// name that it had.
pub fn find_introduction(introductions: &Vec<RelayTarget>, target: &RelayTarget) -> (r: Result<RelayTarget, Error>)
    ensures
        r == (if introductions@.contains(*target) {
            Ok::<RelayTarget, Error>(*target)
        } else {
            Err::<RelayTarget, Error>(Error::NoFreshIntroduction)
        }),
{
    if has_target(introductions, target) {
        Ok(*target)
    } else {
        Err(Error::NoFreshIntroduction)
    }
}

/// Checks that the node's inbox is still the one whose recovery began.
pub fn check_owner_unchanged(st: &NodeState, current: &RelayProvision) -> (r: Result<(), Error>)
    ensures
        r == (if st.owner.client_relay@ == current@ {
            Ok::<(), Error>(())
        } else {
            Err::<(), Error>(Error::OwnerRouteChanged)
        }),
{
    if st.owner.client_relay.same(current) {
        Ok(())
    } else {
        Err(Error::OwnerRouteChanged)
    }
}

proof fn lemma_still_known(ready: Seq<Seq<char>>, n: nat, channels: Table<String, ChannelState>, name: Seq<char>)
    requires
        n <= ready.len(),
    ensures
        still_known(ready, n, channels).contains(name) <==> channels.has(name) && exists|i: int| 0 <= i < n && #[trigger] ready[i] == name,
    decreases n,
{
    if n > 0 {
        let m = (n - 1) as nat;
        lemma_still_known(ready, m, channels, name);
        let before = still_known(ready, m, channels);
        let now = still_known(ready, n, channels);
        if before.contains(name) {
            assert(now[before.index_of(name)] == name);
        }
        if channels.has(ready[m as int]) {
            assert(now[before.len() as int] == ready[m as int]);
            if now.contains(name) {
                let j = now.index_of(name);
                if j < before.len() {
                    assert(before[j] == name);
                }
            }
        }
    }
}

proof fn lemma_still_prepared(ready: Seq<u64>, n: nat, joins: Table<u64, PreparedChannelJoin>, id: u64)
    requires
        n <= ready.len(),
    ensures
        still_prepared(ready, n, joins).contains(id) <==> joins.has(id) && exists|i: int| 0 <= i < n && #[trigger] ready[i] == id,
    decreases n,
{
    if n > 0 {
        let m = (n - 1) as nat;
        lemma_still_prepared(ready, m, joins, id);
        let before = still_prepared(ready, m, joins);
        let now = still_prepared(ready, n, joins);
        if before.contains(id) {
            assert(now[before.index_of(id)] == id);
        }
        if joins.has(ready[m as int]) {
            assert(now[before.len() as int] == ready[m as int]);
            if now.contains(id) {
                let j = now.index_of(id);
                if j < before.len() {
                    assert(before[j] == id);
                }
            }
        }
    }
}

/// What counts as ready after a look at the node: what did before and is still there.
pub proof fn readiness_outlives_nothing(
    ready: Seq<Seq<char>>,
    channels: Table<String, ChannelState>,
    name: Seq<char>,
    joined: Seq<u64>,
    joins: Table<u64, PreparedChannelJoin>,
    id: u64,
)
    ensures
        still_known(ready, ready.len(), channels).contains(name) <==> ready.contains(name) && channels.has(name),
        still_prepared(joined, joined.len(), joins).contains(id) <==> joined.contains(id) && joins.has(id),
{
    lemma_still_known(ready, ready.len(), channels, name);
    lemma_still_prepared(joined, joined.len(), joins, id);
    if ready.contains(name) {
        assert(ready[ready.index_of(name)] == name);
    }
    if joined.contains(id) {
        assert(joined[joined.index_of(id)] == id);
    }
}

proof fn lemma_round(s: Seq<(String, ChannelState)>, n: nat, ready: Seq<Seq<char>>)
    requires
        n <= s.len(),
    ensures
        ({
            let rest = s.take(n as int).filter(|e: (String, ChannelState)| !ready.contains(e.0@));
            let round = unready(s, n, ready);
            &&& round.len() == (if rest.len() < 4 { rest.len() } else { 4 })
            &&& forall|i: int| 0 <= i < round.len() ==> #[trigger] round[i] == (rest[i].0@, rest[i].1.own_route@)
        }),
    decreases n,
{
    reveal(Seq::filter);
    if n > 0 {
        let m = (n - 1) as nat;
        lemma_round(s, m, ready);
        assert(s.take(n as int).drop_last() =~= s.take(m as int));
        assert(s.take(n as int).last() == s[m as int]);
    }
}

proof fn lemma_round_of_joins(s: Seq<(u64, PreparedChannelJoin)>, n: nat, ready: Seq<u64>)
    requires
        n <= s.len(),
    ensures
        ({
            let rest = s.take(n as int).filter(|e: (u64, PreparedChannelJoin)| !ready.contains(e.0));
            let round = unready_joins(s, n, ready);
            &&& round.len() == (if rest.len() < 4 { rest.len() } else { 4 })
            &&& forall|i: int| 0 <= i < round.len() ==> #[trigger] round[i] == (rest[i].0, views(rest[i].1.route.aliases@))
        }),
    decreases n,
{
    reveal(Seq::filter);
    if n > 0 {
        let m = (n - 1) as nat;
        lemma_round_of_joins(s, m, ready);
        assert(s.take(n as int).drop_last() =~= s.take(m as int));
        assert(s.take(n as int).last() == s[m as int]);
    }
}

/// A round takes on the first four channels that are not ready, in the node's order,
/// each with the route that it has; and so it does with the joins, each with the
/// aliases of its route.
pub proof fn a_round_is_the_first_four(channels: Seq<(String, ChannelState)>, ready: Seq<Seq<char>>, joins: Seq<(u64, PreparedChannelJoin)>, joined: Seq<u64>)
    ensures
        ({
            let rest = channels.filter(|e: (String, ChannelState)| !ready.contains(e.0@));
            let round = unready(channels, channels.len(), ready);
            &&& round.len() == (if rest.len() < 4 { rest.len() } else { 4 })
            &&& forall|i: int| 0 <= i < round.len() ==> #[trigger] round[i] == (rest[i].0@, rest[i].1.own_route@)
        }),
        ({
            let rest = joins.filter(|e: (u64, PreparedChannelJoin)| !joined.contains(e.0));
            let round = unready_joins(joins, joins.len(), joined);
            &&& round.len() == (if rest.len() < 4 { rest.len() } else { 4 })
            &&& forall|i: int| 0 <= i < round.len() ==> #[trigger] round[i] == (rest[i].0, views(rest[i].1.route.aliases@))
        }),
{
    lemma_round(channels, channels.len(), ready);
    assert(channels.take(channels.len() as int) =~= channels);
    lemma_round_of_joins(joins, joins.len(), joined);
    assert(joins.take(joins.len() as int) =~= joins);
}

proof fn lemma_round_holds(s: Seq<(String, ChannelState)>, n: nat, ready: Seq<Seq<char>>, name: Seq<char>)
    requires
        n <= s.len(),
    ensures
        (exists|j: int| 0 <= j < unready(s, n, ready).len() && (#[trigger] unready(s, n, ready)[j]).0 == name) ==> !ready.contains(name)
            && exists|i: int| 0 <= i < n && (#[trigger] s[i]).0@ == name,
        unready(s, n, ready).len() < 4 && !ready.contains(name) && (exists|i: int| 0 <= i < n && (#[trigger] s[i]).0@ == name) ==> exists|j: int|
            0 <= j < unready(s, n, ready).len() && (#[trigger] unready(s, n, ready)[j]).0 == name,
    decreases n,
{
    if n > 0 {
        let m = (n - 1) as nat;
        lemma_round_holds(s, m, ready, name);
        let before = unready(s, m, ready);
        let now = unready(s, n, ready);
        if exists|j: int| 0 <= j < now.len() && (#[trigger] now[j]).0 == name {
            let j = choose|j: int| 0 <= j < now.len() && (#[trigger] now[j]).0 == name;
            if j < before.len() {
                assert(before[j].0 == name);
            } else {
                assert(s[m as int].0@ == name);
            }
        }
        if now.len() < 4 && !ready.contains(name) && (exists|i: int| 0 <= i < n && (#[trigger] s[i]).0@ == name) {
            let i = choose|i: int| 0 <= i < n && (#[trigger] s[i]).0@ == name;
            if i < m {
                let j = choose|j: int| 0 <= j < before.len() && (#[trigger] before[j]).0 == name;
                assert(now[j].0 == name);
            } else {
                assert(now[before.len() as int].0 == name);
            }
        }
    }
}

/// No channel is passed over: every channel of the node that does not count as
/// ready is in the round, unless the round is full with four. A round that is not
/// full names exactly the channels that are not ready.
pub proof fn a_round_passes_nobody_over(st: NodeState, ready: Seq<Seq<char>>, name: Seq<char>)
    ensures
        ({
            let round = unready(st.channels.entries@, st.channels.entries@.len(), still_known(ready, ready.len(), st.channels));
            let named = exists|j: int| 0 <= j < round.len() && (#[trigger] round[j]).0 == name;
            &&& round.len() <= 4
            &&& named ==> st.channels.has(name) && !ready.contains(name)
            &&& st.channels.has(name) && !ready.contains(name) ==> named || round.len() == 4
            &&& round.len() < 4 ==> (named <==> st.channels.has(name) && !ready.contains(name))
        }),
{
    let s = st.channels.entries@;
    let known = still_known(ready, ready.len(), st.channels);
    readiness_outlives_nothing(ready, st.channels, name, Seq::empty(), st.prepared, 0);
    lemma_round_holds(s, s.len(), known, name);
    a_round_is_small(s, s.len(), known);
    let keys = st.channels.keys();
    if st.channels.has(name) {
        let i = keys.index_of(name);
        assert(s[i].0@ == name);
    }
    if exists|i: int| 0 <= i < s.len() && (#[trigger] s[i]).0@ == name {
        let i = choose|i: int| 0 <= i < s.len() && (#[trigger] s[i]).0@ == name;
        assert(keys[i] == name);
    }
}

proof fn lemma_soonest(aliases: Seq<OwnedAliasView>, n: nat)
    requires
        1 <= n <= aliases.len(),
    ensures
        forall|i: int| 0 <= i < n ==> soonest(aliases, n) <= (#[trigger] aliases[i]).contact.expiry,
        exists|i: int| 0 <= i < n && soonest(aliases, n) == (#[trigger] aliases[i]).contact.expiry,
    decreases n,
{
    if n > 1 {
        let m = (n - 1) as nat;
        lemma_soonest(aliases, m);
        let i = choose|i: int| 0 <= i < m && soonest(aliases, m) == (#[trigger] aliases[i]).contact.expiry;
        assert(soonest(aliases, n) == aliases[i].contact.expiry || soonest(aliases, n) == aliases[m as int].contact.expiry);
    } else {
        assert(soonest(aliases, n) == aliases[0].contact.expiry);
    }
}

/// Retained aliases can be recovered exactly while there are some and none has run
/// out. The plan goes by the first that will, and takes no longer than it has left,
/// nor than a minute.
pub proof fn recovery_stays_within_every_lease(retained: Seq<OwnedAliasView>, now_unix: u64)
    ensures
        recovery_plan(retained, now_unix) is Ok <==> retained.len() > 0 && forall|i: int|
            0 <= i < retained.len() ==> (#[trigger] retained[i]).contact.expiry > now_unix,
        retained.len() == 0 ==> recovery_plan(retained, now_unix) == Err::<RecoveryPlan, Error>(Error::MissingRetainedAliases),
        retained.len() > 0 && recovery_plan(retained, now_unix) is Err ==> recovery_plan(retained, now_unix) == Err::<RecoveryPlan, Error>(
            Error::RetainedRouteExpired,
        ),
        recovery_plan(retained, now_unix) matches Ok(plan) ==> {
            &&& forall|i: int| 0 <= i < retained.len() ==> plan.expiry <= (#[trigger] retained[i]).contact.expiry
            &&& exists|i: int| 0 <= i < retained.len() && plan.expiry == (#[trigger] retained[i]).contact.expiry
            &&& 0 < plan.timeout_secs <= 60
            &&& now_unix + plan.timeout_secs <= plan.expiry
            &&& plan.timeout_secs < 60 ==> now_unix + plan.timeout_secs == plan.expiry
        },
{
    if retained.len() > 0 {
        lemma_soonest(retained, retained.len());
    }
}

/// An inbox is live while it has aliases, every one with time left and at a relay of
/// another; one alias that has run out, or that is at a relay of the node's own,
/// is enough for it not to be.
pub proof fn one_dead_alias_is_enough(aliases: Seq<OwnedAliasView>, now_unix: u64, own: Seq<RelayTarget>, i: int)
    requires
        0 <= i < aliases.len(),
    ensures
        aliases[i].contact.expiry <= now_unix ==> !inbox_live(aliases, now_unix, own),
        own.contains(aliases[i].contact.target) ==> !inbox_live(aliases, now_unix, own),
        !inbox_live(aliases, now_unix, own) ==> exists|j: int|
            0 <= j < aliases.len() && ((#[trigger] aliases[j]).contact.expiry <= now_unix || own.contains(aliases[j].contact.target)),
        !inbox_live(Seq::empty(), now_unix, own),
        replaced_relay(aliases) == Some(aliases[0].contact.target),
        replaced_relay(Seq::empty()) is None,
{
}

/// The pause after a failure starts at ten seconds, doubles with each further one,
/// and is never more than the five minutes that follow a success.
pub proof fn pauses_double_up_to_five_minutes(failures: u32)
    ensures
        retry_secs(true, failures) == 300,
        retry_secs(false, 0) == 5,
        failures < 5 ==> retry_secs(false, (failures + 1) as u32) == 2 * retry_secs(false, failures),
        failures >= 6 ==> retry_secs(false, failures) == 300,
{
}

/// A proof counts exactly where the node goes on and it is for the place that the
/// node now has. Then the node is known as a relay where it was verified, and not
/// where it failed. What the door goes by is that, and only where connectivity is
/// automatic.
pub proof fn proofs_count_at_the_place_they_are_of(t: RoutingRuntime, at: SocketAddr, verified: bool)
    ensures
        !t.stopping && t.service == Some(at) ==> t.proved(at, verified).published == verified,
        t.stopping || t.service != Some(at) ==> t.proved(at, verified).published == t.published,
        t.proved(at, verified) == (RoutingRuntime { published: t.proved(at, verified).published, ..t }),
        t.automatic_connectivity ==> t.gate() == Some(t.published),
        !t.automatic_connectivity ==> t.gate() is None,
{
}

/// A recovered route is wanted while the channel is there with the public route and
/// the aliases that the recovery began with.
pub proof fn changed_routes_are_not_replaced(st: NodeState, name: Seq<char>, public: ChannelRoute, retained: Seq<OwnedAliasView>)
    ensures
        st.channels.lookup(name) is None ==> !route_unchanged(st, name, public, retained),
        st.channels.lookup(name) matches Some(c) ==> (route_unchanged(st, name, public, retained) <==> c.own_route.public == public && views(
            c.own_route.aliases@,
        ) == retained),
{
}

/// A route put in place is the channel's own, with the role that announces it, and
/// everything else of the node stays as it was.
pub proof fn installing_touches_one_route(a: NodeState, b: NodeState, name: Seq<char>, route: OwnedChannelRoute, blob: Vec<u8>)
    requires
        a.channels.has(name),
        with_own_route(a, place(a.channels.keys(), name), route, blob, b),
    ensures
        b.channels.lookup(name) matches Some(c) && c.own_route == route && c.blob == blob && c == (ChannelState {
            own_route: c.own_route,
            blob: c.blob,
            ..a.channels.at(name)
        }),
        forall|k: Seq<char>| k != name ==> #[trigger] b.channels.lookup(k) == a.channels.lookup(k),
        b == (NodeState { channels: b.channels, ..a }),
{
    let p = place(a.channels.keys(), name);
    lemma_place(a.channels.keys(), name);
    assert(b.channels.keys() =~= a.channels.keys());
    assert forall|k: Seq<char>| k != name implies #[trigger] b.channels.lookup(k) == a.channels.lookup(k) by {
        lemma_place(a.channels.keys(), k);
        if a.channels.has(k) {
            let q = place(a.channels.keys(), k);
            assert(q != p);
        }
    }
}

/// Aliases put in place are the join's own; its pseudonym, its secret, its group and
/// its name stay, and so does every other join and all else of the node.
pub proof fn installing_touches_one_join(a: NodeState, b: NodeState, id: u64, aliases: Seq<OwnedAlias>)
    requires
        a.prepared.has(id),
        with_join_aliases(a, place(a.prepared.keys(), id), aliases, b),
    ensures
        b.prepared.lookup(id) matches Some(join) && join.route.aliases@ == aliases && join.route.public == a.prepared.at(id).route.public
            && join.route.direct_secret == a.prepared.at(id).route.direct_secret && join.mls == a.prepared.at(id).mls && join.display
            == a.prepared.at(id).display,
        forall|k: u64| k != id ==> #[trigger] b.prepared.lookup(k) == a.prepared.lookup(k),
        b == (NodeState { prepared: b.prepared, ..a }),
{
    let p = place(a.prepared.keys(), id);
    lemma_place(a.prepared.keys(), id);
    assert(b.prepared.keys() =~= a.prepared.keys()) by {
        assert forall|i: int| 0 <= i < a.prepared.entries@.len() implies b.prepared.keys()[i] == a.prepared.keys()[i] by {
            if i != p {
                assert(b.prepared.entries@[i] == a.prepared.entries@[i]);
            }
        }
    }
    assert forall|k: u64| k != id implies #[trigger] b.prepared.lookup(k) == a.prepared.lookup(k) by {
        lemma_place(a.prepared.keys(), k);
        if a.prepared.has(k) {
            let q = place(a.prepared.keys(), k);
            assert(q != p);
            assert(b.prepared.entries@[q] == a.prepared.entries@[q]);
        }
    }
}

/// Failures in a row are counted one by one, as far as they can be, and forgotten with
/// a success. An attempt may take a minute and a half, and rounds are twenty-five to
/// thirty-five seconds apart, each whole number of them for some chance; fixtures are
/// given ten seconds and a fifth of one.
pub proof fn attempts_are_counted_and_timed(failures: u32, chance: u64)
    ensures
        failures_after(true, failures) == 0,
        failures < u32::MAX ==> failures_after(false, failures) == failures + 1,
        failures_after(false, u32::MAX) == u32::MAX,
        deadline_nanos(false) == 90 * 1_000_000_000,
        deadline_nanos(true) == 10 * 1_000_000_000,
        25 * 1_000_000_000 <= pause_nanos(false, chance) <= 35 * 1_000_000_000,
        chance <= 10 ==> pause_nanos(false, chance) == (25 + chance) * 1_000_000_000,
        chance <= u64::MAX - 11 ==> pause_nanos(false, (chance + 11) as u64) == pause_nanos(false, chance),
        5 * pause_nanos(true, chance) == 1_000_000_000,
{
}

/// Catalog origins are in order exactly where there are at most eight, each of them a
/// host name.
pub proof fn catalog_origins_are_a_few_hosts(origins: Seq<Seq<char>>, hosts: Seq<Seq<char>>)
    ensures
        origins.len() > 8 ==> !origins_good(origins, hosts),
        (exists|i: int| 0 <= i < origins.len() && !hosts.contains(#[trigger] origins[i])) ==> !origins_good(origins, hosts),
        !origins_good(origins, hosts) ==> origins.len() > 8 || exists|i: int| 0 <= i < origins.len() && !hosts.contains(#[trigger] origins[i]),
{
}

/// A queue is leased where some alias is for it, and aliases are the same where each is
/// for the queue of its counterpart, with the same authority, and none is left over.
pub proof fn aliases_are_compared_one_by_one(aliases: Seq<OwnedAliasView>, queue_id: [u8; 32], a: Seq<OwnedAlias>, b: Seq<OwnedAlias>)
    ensures
        leased(aliases, queue_id) <==> exists|i: int| 0 <= i < aliases.len() && (#[trigger] aliases[i]).contact.queue_id == queue_id,
        all_same_authority(a, b) <==> a.len() == b.len() && forall|i: int|
            0 <= i < a.len() ==> (#[trigger] a[i]).contact == b[i].contact && a[i].capabilities == b[i].capabilities && a[i].limits == b[i].limits,
{
}

} // verus!
