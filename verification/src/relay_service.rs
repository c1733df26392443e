//! What this node grants as a relay: forwarding authority, administration of
//! leases, and the answers to cells.

use vstd::prelude::*;
use crate::bytes::same_id;
use crate::error::Error;
use crate::model::{views, AliasContact, RelayTarget};
use crate::table::{distinct, lemma_place, lemma_place_is, place, Key, Table};

verus! {

/// Idle lifetime of forwarding authority activated by a consumed provision or
/// refreshed by later administrative traffic on its create paths.
pub const PROVISION_FRWD_IDLE_SECS: u64 = 86_400;

/// Grace added to the admission-grant lifetime for never-consumed provisions.
pub const PROVISION_GRANT_MARGIN_SECS: u64 = 60;

/// Maximum simultaneous never-consumed public provisions.
pub const MAX_PENDING_PROVISIONS: usize = 256;

/// The right to have cells forwarded through this node.
#[derive(Debug)]
pub struct FrwdAuthority {
    pub hop_key: [u8; 32],
    pub expires_at: Option<u64>,
    pub create_paths: Vec<String>,
    /// `Some` means a temporary, fixed-lifetime grant to exactly these queues.
    pub destinations: Option<Vec<AliasContact>>,
}

pub struct AuthorityView {
    pub hop_key: [u8; 32],
    pub expires_at: Option<u64>,
    pub create_paths: Seq<Seq<char>>,
    pub destinations: Option<Seq<AliasContact>>,
}

impl View for FrwdAuthority {
    type V = AuthorityView;

    open spec fn view(&self) -> AuthorityView {
        AuthorityView {
            hop_key: self.hop_key,
            expires_at: self.expires_at,
            create_paths: views(self.create_paths@),
            destinations: match self.destinations {
                Some(d) => Some(d@),
                None => None,
            },
        }
    }
}

pub open spec fn expired(a: AuthorityView, now: u64) -> bool {
    a.expires_at matches Some(at) && at <= now
}

/// An authority after use at a moment: a sliding one lasts at least an idle
/// lifetime longer, a permanent or temporary one stays as it is.
pub open spec fn slid(a: AuthorityView, now: u64) -> AuthorityView {
    match (a.destinations, a.expires_at) {
        (None, Some(at)) => {
            let later = if now + PROVISION_FRWD_IDLE_SECS > u64::MAX {
                u64::MAX
            } else {
                (now + PROVISION_FRWD_IDLE_SECS) as u64
            };
            AuthorityView {
                expires_at: Some(if at >= later {
                    at
                } else {
                    later
                }),
                ..a
            }
        },
        _ => a,
    }
}

/// The push that a forwarding order carries.
#[derive(Clone, Copy, Debug, PartialEq, Eq)]
pub struct ForwardedPush {
    pub queue_id: [u8; 32],
    pub epoch: u64,
}

/// An authenticated forwarding order. Cover carries no push.
#[derive(Clone, Copy, Debug, PartialEq, Eq)]
pub struct Frwd {
    pub target: RelayTarget,
    pub relay_push: Option<ForwardedPush>,
}

/// Whether one of some destinations is live and is where an order goes.
pub open spec fn goes_to(destinations: Seq<AliasContact>, target: RelayTarget, push: ForwardedPush, now: u64) -> bool {
    exists|i: int|
        0 <= i < destinations.len() && (#[trigger] destinations[i]).expiry > now && destinations[i].target == target
            && destinations[i].queue_id == push.queue_id && destinations[i].epoch == push.epoch
}

/// Whether an authority covers an order made with a hop key.
pub open spec fn covers(a: AuthorityView, hop_key: [u8; 32], frwd: Frwd, now: u64) -> bool {
    &&& a.hop_key == hop_key
    &&& !expired(a, now)
    &&& match (a.destinations, frwd.relay_push) {
        (Some(destinations), Some(push)) => goes_to(destinations, frwd.target, push, now),
        _ => true,
    }
}

impl FrwdAuthority {
    fn is_expired(&self, now: u64) -> (r: bool)
        ensures
            r == expired(self@, now),
    {
        match self.expires_at {
            Some(at) => at <= now,
            None => false,
        }
    }

    fn slide(&mut self, now: u64)
        ensures
            final(self)@ == slid(old(self)@, now),
            final(self).create_paths == old(self).create_paths,
            final(self).destinations == old(self).destinations,
    {
        if self.destinations.is_none() {
            if let Some(at) = self.expires_at {
                let later: u64 = now.saturating_add(PROVISION_FRWD_IDLE_SECS);
                self.expires_at = Some(if at >= later { at } else { later });
            }
        }
    }

    #[verifier::loop_isolation(false)]
    fn does_cover(&self, hop_key: &[u8; 32], frwd: &Frwd, now: u64) -> (r: bool)
        ensures
            r == covers(self@, *hop_key, *frwd, now),
    {
        if !same_id(&self.hop_key, hop_key) || self.is_expired(now) {
            return false;
        }
        let destinations = match &self.destinations {
            Some(destinations) => destinations,
            None => {
                return true;
            },
        };
        let push = match frwd.relay_push {
            Some(push) => push,
            None => {
                return true;
            },
        };
        let mut i: usize = 0;
        while i < destinations.len()
            invariant
                i <= destinations.len(),
                forall|j: int|
                    0 <= j < i ==> !((#[trigger] destinations@[j]).expiry > now && destinations@[j].target == frwd.target
                        && destinations@[j].queue_id == push.queue_id && destinations@[j].epoch == push.epoch),
            decreases destinations.len() - i,
        {
            let d = destinations[i];
            if d.expiry > now && d.target.same(&frwd.target) && same_id(&d.queue_id, &push.queue_id) && d.epoch == push.epoch {
                assert(destinations@[i as int] == d);
                assert(goes_to(destinations@, frwd.target, push, now));
                return true;
            }
            i += 1;
        }
        assert(!goes_to(destinations@, frwd.target, push, now));
        false
    }
}

/// Forwarding authority by path, and the administration paths that refresh it.
#[derive(Debug)]
pub struct ProvisionAuthorities {
    /// Full automatic listeners require a current independent probe before
    /// accepting real relay work; its last result, where one is required.
    pub transit_ready: Option<bool>,
    pub frwd: Table<String, FrwdAuthority>,
    pub by_create_path: Table<String, String>,
    pub pending: Table<String, ()>,
    /// Real (non-cover) forwarding orders admitted; diagnostics only.
    pub admitted: u64,
}

impl Default for ProvisionAuthorities {
    fn default() -> (r: Self)
        ensures
            r.wf(),
            r.transit_ready is None,
            r.admitted == 0,
            r.frwd.entries@.len() == 0,
            r.by_create_path.entries@.len() == 0,
            r.pending.entries@.len() == 0,
    {
        ProvisionAuthorities {
            transit_ready: None,
            frwd: Table::new(),
            by_create_path: Table::new(),
            pending: Table::new(),
            admitted: 0,
        }
    }
}

impl ProvisionAuthorities {
    pub open spec fn wf(self) -> bool {
        self.frwd.wf() && self.by_create_path.wf() && self.pending.wf()
    }

    /// The authority at a forwarding path.
    pub open spec fn authority(self, path: Seq<char>) -> Option<AuthorityView> {
        match self.frwd.lookup(path) {
            Some(a) => Some(a@),
            None => None,
        }
    }

    /// The forwarding path that an administration path refreshes.
    pub open spec fn refreshed_by(self, create_path: Seq<char>) -> Option<Seq<char>> {
        match self.by_create_path.lookup(create_path) {
            Some(path) => Some(path@),
            None => None,
        }
    }

    pub open spec fn same_beside_frwd(self, other: ProvisionAuthorities) -> bool {
        &&& self.transit_ready == other.transit_ready
        &&& self.admitted == other.admitted
        &&& self.by_create_path == other.by_create_path
        &&& self.pending == other.pending
    }

    pub fn insert_permanent(&mut self, frwd_path: &str, hop_key: [u8; 32])
        requires
            old(self).wf(),
        ensures
            final(self).wf(),
            final(self).same_beside_frwd(*old(self)),
            final(self).authority(frwd_path@) == Some(
                AuthorityView { hop_key, expires_at: None, create_paths: Seq::empty(), destinations: None },
            ),
            forall|k: Seq<char>| k != frwd_path@ ==> #[trigger] final(self).authority(k) == old(self).authority(k),
    {
        let entry = FrwdAuthority { hop_key, expires_at: None, create_paths: Vec::new(), destinations: None };
        assert(entry@.create_paths =~= Seq::empty());
        let _ = self.frwd.insert(frwd_path.to_owned(), entry);
        assert forall|k: Seq<char>| k != frwd_path@ implies #[trigger] self.authority(k) == old(self).authority(k) by {
            assert(self.frwd.lookup(k) == old(self).frwd.lookup(k));
        }
    }

    /// Whether another public provision may wait to be consumed.
    pub fn ensure_capacity(&self) -> (r: Result<(), Error>)
        ensures
            r == (if self.pending.entries@.len() >= MAX_PENDING_PROVISIONS {
                Err::<(), Error>(Error::ProvisioningCapacity)
            } else {
                Ok::<(), Error>(())
            }),
    {
        if self.pending.entries.len() >= MAX_PENDING_PROVISIONS {
            return Err(Error::ProvisioningCapacity);
        }
        Ok(())
    }

    pub fn register_provision(&mut self, create_paths: Vec<String>, frwd_path: &str, hop_key: [u8; 32], expires_at: u64)
        requires
            old(self).wf(),
        ensures
            final(self).wf(),
            final(self).transit_ready == old(self).transit_ready,
            final(self).admitted == old(self).admitted,
            final(self).authority(frwd_path@) == Some(
                AuthorityView {
                    hop_key,
                    expires_at: Some(expires_at),
                    create_paths: views(create_paths@),
                    destinations: None,
                },
            ),
            forall|k: Seq<char>| k != frwd_path@ ==> #[trigger] final(self).authority(k) == old(self).authority(k),
            forall|k: Seq<char>|
                #[trigger] final(self).refreshed_by(k) == (if views(create_paths@).contains(k) {
                    Some(frwd_path@)
                } else {
                    old(self).refreshed_by(k)
                }),
            forall|k: Seq<char>| #[trigger] final(self).pending.has(k) == (k == frwd_path@ || old(self).pending.has(k)),
            final(self).pending.entries@.len() == old(self).pending.entries@.len() + (if old(self).pending.has(frwd_path@) {
                0int
            } else {
                1int
            }),
    {
        let ghost paths = views(create_paths@);
        let mut i: usize = 0;
        while i < create_paths.len()
            invariant
                i <= create_paths.len(),
                paths == views(create_paths@),
                self.wf(),
                self.transit_ready == old(self).transit_ready,
                self.admitted == old(self).admitted,
                self.frwd == old(self).frwd,
                self.pending == old(self).pending,
                forall|k: Seq<char>|
                    #[trigger] self.refreshed_by(k) == (if paths.take(i as int).contains(k) {
                        Some(frwd_path@)
                    } else {
                        old(self).refreshed_by(k)
                    }),
            decreases create_paths.len() - i,
        {
            let ghost before = *self;
            let _ = self.by_create_path.insert(create_paths[i].clone(), frwd_path.to_owned());
            proof {
                let path = paths[i as int];
                assert forall|k: Seq<char>|
                    #[trigger] self.refreshed_by(k) == (if paths.take(i + 1).contains(k) {
                        Some(frwd_path@)
                    } else {
                        old(self).refreshed_by(k)
                    }) by {
                    lemma_take_push(paths, i as int, k);
                    if k != path {
                        assert(self.by_create_path.lookup(k) == before.by_create_path.lookup(k));
                        assert(self.refreshed_by(k) == before.refreshed_by(k));
                    }
                }
            }
            i += 1;
        }
        assert(paths.take(i as int) =~= paths);
        let ghost mid = *self;
        let _ = self.frwd.insert(
            frwd_path.to_owned(),
            FrwdAuthority { hop_key, expires_at: Some(expires_at), create_paths, destinations: None },
        );
        let _ = self.pending.insert(frwd_path.to_owned(), ());
        proof {
            assert forall|k: Seq<char>| k != frwd_path@ implies #[trigger] self.authority(k) == old(self).authority(k) by {
                assert(self.frwd.lookup(k) == old(self).frwd.lookup(k));
            }
            assert forall|k: Seq<char>| #[trigger] self.refreshed_by(k) == mid.refreshed_by(k) by {}
            assert forall|k: Seq<char>| #[trigger] self.pending.has(k) == (k == frwd_path@ || old(self).pending.has(k)) by {
                if k != frwd_path@ {
                    assert(self.pending.lookup(k) == old(self).pending.lookup(k));
                } else {
                    assert(self.pending.lookup(k) is Some);
                }
            }
            if old(self).pending.has(frwd_path@) {
                assert(self.pending.keys().len() == old(self).pending.keys().len());
            }
        }
    }
}

/// An item is among the first `n + 1` exactly where it is among the first `n`
/// or the next.
proof fn lemma_take_push<T>(s: Seq<T>, n: int, k: T)
    requires
        0 <= n < s.len(),
    ensures
        s.take(n + 1).contains(k) == (s.take(n).contains(k) || s[n] == k),
{
    if s.take(n).contains(k) {
        let j = s.take(n).index_of(k);
        assert(s.take(n + 1)[j] == k);
    }
    if s[n] == k {
        assert(s.take(n + 1)[n] == k);
    }
    if s.take(n + 1).contains(k) && s[n] != k {
        let j = s.take(n + 1).index_of(k);
        assert(s.take(n)[j] == k);
    }
}

/// What use of an administration path does: its authority slides and no longer
/// waits to be consumed. A temporary grant does neither.
pub open spec fn notes_use(before: ProvisionAuthorities, after: ProvisionAuthorities, create_path: Seq<char>, now: u64) -> bool {
    match before.refreshed_by(create_path) {
        None => after == before,
        Some(path) => if before.authority(path) matches Some(a) && a.destinations is Some {
            after == before
        } else {
            &&& after.transit_ready == before.transit_ready
            &&& after.admitted == before.admitted
            &&& after.by_create_path == before.by_create_path
            &&& after.authority(path) == (match before.authority(path) {
                Some(a) => Some(slid(a, now)),
                None => None,
            })
            &&& forall|k: Seq<char>| k != path ==> #[trigger] after.authority(k) == before.authority(k)
            &&& forall|k: Seq<char>| #[trigger] after.pending.has(k) == (k != path && before.pending.has(k))
        },
    }
}

impl ProvisionAuthorities {
    /// Lets the authority at a path slide.
    fn slide(&mut self, i: usize, now: u64)
        requires
            old(self).wf(),
            i < old(self).frwd.entries@.len(),
        ensures
            final(self).wf(),
            final(self).same_beside_frwd(*old(self)),
            final(self).frwd.keys() == old(self).frwd.keys(),
            ({
                let path = old(self).frwd.keys()[i as int];
                &&& final(self).authority(path) == Some(slid(old(self).frwd.entries@[i as int].1@, now))
                &&& forall|k: Seq<char>| k != path ==> #[trigger] final(self).authority(k) == old(self).authority(k)
            }),
    {
        let ghost ks = self.frwd.keys();
        let ghost before = self.frwd.entries@;
        let (path, mut entry) = self.frwd.entries.remove(i);
        entry.slide(now);
        self.frwd.entries.insert(i, (path, entry));
        proof {
            let after = self.frwd.entries@;
            assert forall|j: int| 0 <= j < before.len() && j != i implies after[j] == before[j] by {}
            assert(self.frwd.keys() =~= ks);
            assert forall|k: Seq<char>| k != ks[i as int] implies #[trigger] self.authority(k) == old(self).authority(k) by {
                lemma_place(ks, k);
            }
            lemma_place_is(ks, ks[i as int], i as int);
            assert(ks.contains(ks[i as int]));
        }
    }

    /// Notes use of an administration path: its authority slides and no longer
    /// waits to be consumed. A temporary grant does neither.
    pub fn note_admin_use(&mut self, create_path: &str, now: u64)
        requires
            old(self).wf(),
        ensures
            final(self).wf(),
            notes_use(*old(self), *final(self), create_path@, now),
    {
        let path = match self.by_create_path.get(&create_path.to_owned()) {
            Some(path) => path.clone(),
            None => {
                return ;
            },
        };
        match self.frwd.find(&path) {
            Some(i) => {
                proof {
                    lemma_place(self.frwd.keys(), path@);
                }
                if self.frwd.entries[i].1.destinations.is_some() {
                    return ;
                }
                self.slide(i, now);
            },
            None => {},
        }
        let ghost mid = *self;
        let _ = self.pending.remove(&path);
        proof {
            assert forall|k: Seq<char>| #[trigger] self.pending.has(k) == (k != path@ && old(self).pending.has(k)) by {
                if k != path@ {
                    assert(self.pending.lookup(k) == mid.pending.lookup(k));
                } else {
                    assert(self.pending.lookup(k) is None);
                }
            }
            assert forall|k: Seq<char>| #[trigger] self.authority(k) == mid.authority(k) by {}
        }
    }

    /// The hop key of a live authority. This is asked before a cell is
    /// authenticated and changes no lifetime.
    pub fn lookup_frwd(&self, frwd_path: &str, now: u64) -> (r: Option<[u8; 32]>)
        ensures
            r == self.hop_key_at(frwd_path@, now),
    {
        match self.frwd.get(&frwd_path.to_owned()) {
            Some(entry) => {
                if entry.is_expired(now) {
                    None
                } else {
                    Some(entry.hop_key)
                }
            },
            None => None,
        }
    }

    pub open spec fn hop_key_at(self, path: Seq<char>, now: u64) -> Option<[u8; 32]> {
        match self.authority(path) {
            Some(a) => if expired(a, now) {
                None
            } else {
                Some(a.hop_key)
            },
            None => None,
        }
    }

    pub open spec fn permits(self, path: Seq<char>, hop_key: [u8; 32], frwd: Frwd, now: u64) -> bool {
        match self.authority(path) {
            Some(a) => covers(a, hop_key, frwd, now),
            None => false,
        }
    }

    /// Whether an authenticated order is covered by the authority at a path.
    pub fn permits_frwd(&self, path: &str, hop_key: &[u8; 32], frwd: &Frwd, now: u64) -> (r: bool)
        ensures
            r == self.permits(path@, *hop_key, *frwd, now),
    {
        match self.frwd.get(&path.to_owned()) {
            Some(entry) => entry.does_cover(hop_key, frwd, now),
            None => false,
        }
    }

    /// The same rule for an order of the second protocol generation.
    pub fn permits_gc2_frwd(&self, path: &str, key: &[u8; 32], target: &RelayTarget, push: Option<ForwardedPush>, now: u64) -> (r: bool)
        ensures
            r == self.permits(path@, *key, (Frwd { target: *target, relay_push: push }), now),
    {
        self.permits_frwd(path, key, &Frwd { target: *target, relay_push: push }, now)
    }

    /// Grants forwarding to fixed queues for a fixed time.
    pub fn register_temporary(
        &mut self,
        create_path: String,
        frwd_path: String,
        hop_key: [u8; 32],
        expires_at: u64,
        destinations: Vec<AliasContact>,
    )
        requires
            old(self).wf(),
        ensures
            final(self).wf(),
            final(self).transit_ready == old(self).transit_ready,
            final(self).admitted == old(self).admitted,
            final(self).pending == old(self).pending,
            final(self).authority(frwd_path@) == Some(
                AuthorityView {
                    hop_key,
                    expires_at: Some(expires_at),
                    create_paths: seq![create_path@],
                    destinations: Some(destinations@),
                },
            ),
            forall|k: Seq<char>| k != frwd_path@ ==> #[trigger] final(self).authority(k) == old(self).authority(k),
            forall|k: Seq<char>|
                #[trigger] final(self).refreshed_by(k) == (if k == create_path@ {
                    Some(frwd_path@)
                } else {
                    old(self).refreshed_by(k)
                }),
    {
        let mut create_paths: Vec<String> = Vec::new();
        create_paths.push(create_path.clone());
        let entry = FrwdAuthority { hop_key, expires_at: Some(expires_at), create_paths, destinations: Some(destinations) };
        assert(entry@.create_paths =~= seq![create_path@]);
        let ghost path = frwd_path@;
        let ghost admin = create_path@;
        let _ = self.by_create_path.insert(create_path, frwd_path.clone());
        let _ = self.frwd.insert(frwd_path, entry);
        proof {
            assert forall|k: Seq<char>| k != path implies #[trigger] self.authority(k) == old(self).authority(k) by {
                assert(self.frwd.lookup(k) == old(self).frwd.lookup(k));
            }
            assert forall|k: Seq<char>|
                #[trigger] self.refreshed_by(k) == (if k == admin {
                    Some(path)
                } else {
                    old(self).refreshed_by(k)
                }) by {
                if k != admin {
                    assert(self.by_create_path.lookup(k) == old(self).by_create_path.lookup(k));
                }
            }
        }
    }

    /// Extends a lifetime after authenticated work has entered its lane. The
    /// expected key keeps a stale lookup from touching a replacement at the path.
    pub fn note_frwd_admitted(&mut self, frwd_path: &str, expected_hop_key: &[u8; 32], now: u64) -> (r: bool)
        requires
            old(self).wf(),
        ensures
            final(self).wf(),
            final(self).same_beside_frwd(*old(self)),
            r == (old(self).hop_key_at(frwd_path@, now) == Some(*expected_hop_key)),
            !r ==> *final(self) == *old(self),
            r ==> final(self).authority(frwd_path@) == Some(slid(old(self).authority(frwd_path@)->0, now)),
            forall|k: Seq<char>| k != frwd_path@ ==> #[trigger] final(self).authority(k) == old(self).authority(k),
    {
        match self.frwd.find(&frwd_path.to_owned()) {
            Some(i) => {
                proof {
                    lemma_place(self.frwd.keys(), frwd_path@);
                }
                if !same_id(&self.frwd.entries[i].1.hop_key, expected_hop_key) || self.frwd.entries[i].1.is_expired(now) {
                    return false;
                }
                self.slide(i, now);
                true
            },
            None => false,
        }
    }
}

/// The paths that a sweep takes away among the first `n` entries: each expired
/// forwarding path, then its administration paths.
pub open spec fn swept(s: Seq<(String, FrwdAuthority)>, n: nat, now: u64) -> Seq<Seq<char>>
    decreases n,
{
    if n == 0 {
        Seq::empty()
    } else {
        let front = swept(s, (n - 1) as nat, now);
        let (path, a) = s[n - 1];
        if expired(a@, now) {
            front.push(path@) + a@.create_paths
        } else {
            front
        }
    }
}

/// The entries that a sweep keeps among the first `n`.
pub open spec fn kept(s: Seq<(String, FrwdAuthority)>, n: nat, now: u64) -> Seq<(String, FrwdAuthority)>
    decreases n,
{
    if n == 0 {
        Seq::empty()
    } else {
        let front = kept(s, (n - 1) as nat, now);
        if expired(s[n - 1].1@, now) {
            front
        } else {
            front.push(s[n - 1])
        }
    }
}

proof fn lemma_kept(s: Seq<(String, FrwdAuthority)>, n: nat, now: u64)
    requires
        n <= s.len(),
        distinct(crate::table::keys_of(s)),
    ensures
        forall|j: int| 0 <= j < kept(s, n, now).len() ==> exists|i: int| 0 <= i < n && #[trigger] s[i] == #[trigger] kept(s, n, now)[j],
        forall|i: int| 0 <= i < n && !expired((#[trigger] s[i]).1@, now) ==> kept(s, n, now).contains(s[i]),
        forall|j: int| 0 <= j < kept(s, n, now).len() ==> !expired((#[trigger] kept(s, n, now)[j]).1@, now),
        distinct(crate::table::keys_of(kept(s, n, now))),
    decreases n,
{
    if n > 0 {
        lemma_kept(s, (n - 1) as nat, now);
        let front = kept(s, (n - 1) as nat, now);
        let all = kept(s, n, now);
        let ks = crate::table::keys_of(s);
        assert forall|i: int| 0 <= i < n && !expired((#[trigger] s[i]).1@, now) implies all.contains(s[i]) by {
            if i < n - 1 {
                let j = front.index_of(s[i]);
                assert(all[j] == s[i]);
            } else {
                assert(all[all.len() - 1] == s[i]);
            }
        }
        assert forall|j: int| 0 <= j < all.len() implies exists|i: int| 0 <= i < n && #[trigger] s[i] == #[trigger] all[j] by {
            if j < front.len() {
                assert(all[j] == front[j]);
            } else {
                assert(all[j] == s[n - 1]);
            }
        }
        let aks = crate::table::keys_of(all);
        assert forall|x: int, y: int| 0 <= x < y < aks.len() implies aks[x] != aks[y] by {
            let fks = crate::table::keys_of(front);
            if y < front.len() {
                assert(fks[x] == aks[x] && fks[y] == aks[y]);
            } else {
                let i = choose|i: int| 0 <= i < n - 1 && #[trigger] s[i] == front[x];
                assert(ks[i] == aks[x]);
                assert(ks[n - 1] == aks[y]);
            }
        }
    }
}

impl ProvisionAuthorities {
    /// Takes away every expired authority with its administration paths, and
    /// names the paths that are gone.
    pub fn sweep(&mut self, now: u64) -> (r: Vec<String>)
        requires
            old(self).wf(),
        ensures
            final(self).wf(),
            final(self).transit_ready == old(self).transit_ready,
            final(self).admitted == old(self).admitted,
            views(r@) == swept(old(self).frwd.entries@, old(self).frwd.entries@.len(), now),
            forall|k: Seq<char>|
                #[trigger] final(self).authority(k) == (match old(self).authority(k) {
                    Some(a) => if expired(a, now) {
                        None
                    } else {
                        Some(a)
                    },
                    None => None,
                }),
            forall|k: Seq<char>|
                #[trigger] final(self).refreshed_by(k) == (match old(self).refreshed_by(k) {
                    Some(path) => if final(self).frwd.has(path) {
                        Some(path)
                    } else {
                        None
                    },
                    None => None,
                }),
            forall|k: Seq<char>|
                #[trigger] final(self).pending.has(k) == (old(self).pending.has(k) && !(old(self).authority(k) matches Some(a)
                    && expired(a, now))),
    {
        let removed = self.sweep_frwd(now);
        let ghost mid = *self;
        self.sweep_create_paths();
        assert forall|k: Seq<char>| #[trigger] self.authority(k) == mid.authority(k) by {}
        assert forall|k: Seq<char>| #[trigger] mid.refreshed_by(k) == old(self).refreshed_by(k) by {}
        removed
    }

    fn sweep_frwd(&mut self, now: u64) -> (r: Vec<String>)
        requires
            old(self).wf(),
        ensures
            final(self).wf(),
            final(self).transit_ready == old(self).transit_ready,
            final(self).admitted == old(self).admitted,
            final(self).by_create_path == old(self).by_create_path,
            views(r@) == swept(old(self).frwd.entries@, old(self).frwd.entries@.len(), now),
            forall|k: Seq<char>|
                #[trigger] final(self).authority(k) == (match old(self).authority(k) {
                    Some(a) => if expired(a, now) {
                        None
                    } else {
                        Some(a)
                    },
                    None => None,
                }),
            forall|k: Seq<char>|
                #[trigger] final(self).pending.has(k) == (old(self).pending.has(k) && !(old(self).authority(k) matches Some(a)
                    && expired(a, now))),
    {
        let ghost all = self.frwd.entries@;
        let ghost ks = self.frwd.keys();
        let mut removed: Vec<String> = Vec::new();
        let mut entries: Vec<(String, FrwdAuthority)> = Vec::new();
        let n: usize = self.frwd.entries.len();
        let mut i: usize = 0;
        assert(views(removed@) =~= swept(all, 0, now));
        while i < n
            invariant
                i <= n,
                n == all.len(),
                ks == crate::table::keys_of(all),
                distinct(ks),
                self.frwd.entries@ == all.skip(i as int),
                self.pending.wf(),
                self.transit_ready == old(self).transit_ready,
                self.admitted == old(self).admitted,
                self.by_create_path == old(self).by_create_path,
                views(removed@) == swept(all, i as nat, now),
                entries@ == kept(all, i as nat, now),
                forall|k: Seq<char>|
                    #[trigger] self.pending.has(k) == (old(self).pending.has(k) && !(exists|j: int|
                        0 <= j < i && ks[j] == k && expired((#[trigger] all[j]).1@, now))),
            decreases n - i,
        {
            let (path, entry) = self.frwd.entries.remove(0);
            assert(self.frwd.entries@ =~= all.skip(i + 1));
            assert((path, entry) == all[i as int]);
            let ghost before = self.pending;
            let ghost mid = removed@;
            if entry.is_expired(now) {
                let _ = self.pending.remove(&path);
                removed.push(path);
                let ghost pushed = removed@;
                assert(views(pushed) =~= views(mid).push(path@));
                let mut j: usize = 0;
                while j < entry.create_paths.len()
                    invariant
                        j <= entry.create_paths.len(),
                        views(removed@) == views(pushed) + views(entry.create_paths@).take(j as int),
                    decreases entry.create_paths.len() - j,
                {
                    let ghost was = removed@;
                    removed.push(entry.create_paths[j].clone());
                    assert(views(removed@) =~= views(was).push(entry.create_paths@[j as int]@));
                    j += 1;
                    assert(views(removed@) =~= views(pushed) + views(entry.create_paths@).take(j as int));
                }
                assert(views(entry.create_paths@).take(j as int) =~= views(entry.create_paths@));
            } else {
                entries.push((path, entry));
            }
            proof {
                assert forall|k: Seq<char>|
                    #[trigger] self.pending.has(k) == (old(self).pending.has(k) && !(exists|j: int|
                        0 <= j < i + 1 && ks[j] == k && expired((#[trigger] all[j]).1@, now))) by {
                    if k != ks[i as int] || !expired(all[i as int].1@, now) {
                        assert(self.pending.has(k) == before.has(k)) by {
                            if expired(all[i as int].1@, now) {
                                assert(self.pending.lookup(k) == before.lookup(k));
                            }
                        }
                        if exists|j: int| 0 <= j < i + 1 && ks[j] == k && expired((#[trigger] all[j]).1@, now) {
                            let j = choose|j: int| 0 <= j < i + 1 && ks[j] == k && expired((#[trigger] all[j]).1@, now);
                            assert(0 <= j < i && ks[j] == k && expired(all[j].1@, now));
                        }
                        if exists|j: int| 0 <= j < i && ks[j] == k && expired((#[trigger] all[j]).1@, now) {
                            let j = choose|j: int| 0 <= j < i && ks[j] == k && expired((#[trigger] all[j]).1@, now);
                            assert(0 <= j < i + 1 && ks[j] == k && expired(all[j].1@, now));
                        }
                    } else {
                        assert(self.pending.lookup(k) is None);
                        assert(0 <= i < i + 1 && ks[i as int] == k && expired(all[i as int].1@, now));
                    }
                }
            }
            i += 1;
        }
        self.frwd.entries = entries;
        proof {
            lemma_kept(all, n as nat, now);
            let now_keys = self.frwd.keys();
            assert forall|k: Seq<char>|
                #[trigger] self.authority(k) == (match old(self).authority(k) {
                    Some(a) => if expired(a, now) {
                        None
                    } else {
                        Some(a)
                    },
                    None => None,
                }) by {
                lemma_place(ks, k);
                lemma_place(now_keys, k);
                if now_keys.contains(k) {
                    let j = place(now_keys, k);
                    let i = choose|i: int| 0 <= i < n && #[trigger] all[i] == self.frwd.entries@[j];
                    assert(ks[i] == k);
                    lemma_place_is(ks, k, i);
                    assert(ks.contains(k));
                } else if ks.contains(k) {
                    let i = place(ks, k);
                    if !expired(all[i].1@, now) {
                        let j = self.frwd.entries@.index_of(all[i]);
                        assert(now_keys[j] == k);
                    }
                }
            }
            assert forall|k: Seq<char>|
                #[trigger] self.pending.has(k) == (old(self).pending.has(k) && !(old(self).authority(k) matches Some(a) && expired(
                    a,
                    now,
                ))) by {
                lemma_place(ks, k);
                if exists|j: int| 0 <= j < n && ks[j] == k && expired((#[trigger] all[j]).1@, now) {
                    let j = choose|j: int| 0 <= j < n && ks[j] == k && expired((#[trigger] all[j]).1@, now);
                    lemma_place_is(ks, k, j);
                    assert(ks.contains(k));
                }
                if old(self).authority(k) is Some && expired(old(self).authority(k)->0, now) {
                    let j = place(ks, k);
                    assert(0 <= j < n && ks[j] == k && expired(all[j].1@, now));
                }
            }
        }
        removed
    }

    /// Forgets administration paths whose authority is gone.
    fn sweep_create_paths(&mut self)
        requires
            old(self).wf(),
        ensures
            final(self).wf(),
            final(self).transit_ready == old(self).transit_ready,
            final(self).admitted == old(self).admitted,
            final(self).frwd == old(self).frwd,
            final(self).pending == old(self).pending,
            forall|k: Seq<char>|
                #[trigger] final(self).refreshed_by(k) == (match old(self).refreshed_by(k) {
                    Some(path) => if old(self).frwd.has(path) {
                        Some(path)
                    } else {
                        None
                    },
                    None => None,
                }),
    {
        let ghost all = self.by_create_path.entries@;
        let ghost ks = self.by_create_path.keys();
        let n: usize = self.by_create_path.entries.len();
        let mut out: Table<String, String> = Table::new();
        let mut i: usize = 0;
        while i < n
            invariant
                i <= n,
                n == all.len(),
                ks == crate::table::keys_of(all),
                distinct(ks),
                self.by_create_path.entries@ == all.skip(i as int),
                self.frwd == old(self).frwd,
                self.pending == old(self).pending,
                self.transit_ready == old(self).transit_ready,
                self.admitted == old(self).admitted,
                out.wf(),
                forall|k: Seq<char>|
                    #[trigger] out.lookup(k) == (if ks.take(i as int).contains(k) && self.frwd.has(all[place(ks, k)].1@) {
                        Some(all[place(ks, k)].1)
                    } else {
                        None
                    }),
            decreases n - i,
        {
            let (create_path, path) = self.by_create_path.entries.remove(0);
            assert(self.by_create_path.entries@ =~= all.skip(i + 1));
            assert((create_path, path) == all[i as int]);
            let ghost before = out;
            let ghost key = create_path@;
            proof {
                lemma_place_is(ks, key, i as int);
            }
            if self.frwd.contains_key(&path) {
                let _ = out.insert(create_path, path);
            }
            proof {
                assert forall|k: Seq<char>|
                    #[trigger] out.lookup(k) == (if ks.take(i + 1).contains(k) && self.frwd.has(all[place(ks, k)].1@) {
                        Some(all[place(ks, k)].1)
                    } else {
                        None
                    }) by {
                    lemma_take_push(ks, i as int, k);
                    if k != key {
                        assert(out.lookup(k) == before.lookup(k));
                    } else if ks.take(i as int).contains(k) {
                        let j = ks.take(i as int).index_of(k);
                        assert(ks[j] == ks[i as int]);
                    }
                }
            }
            i += 1;
        }
        self.by_create_path = out;
        proof {
            assert(ks.take(i as int) =~= ks);
            assert forall|k: Seq<char>|
                #[trigger] self.refreshed_by(k) == (match old(self).refreshed_by(k) {
                    Some(path) => if old(self).frwd.has(path) {
                        Some(path)
                    } else {
                        None
                    },
                    None => None,
                }) by {
                assert(self.by_create_path.lookup(k) == (if ks.contains(k) && self.frwd.has(all[place(ks, k)].1@) {
                    Some(all[place(ks, k)].1)
                } else {
                    None
                }));
            }
        }
    }
}

/// A permanent authority is never expired and never changes by use.
pub proof fn permanent_authority_stays(a: AuthorityView, now: u64)
    requires
        a.expires_at is None,
    ensures
        !expired(a, now),
        slid(a, now) == a,
{
}

/// A temporary grant keeps its queues and its end whatever use is made of it.
pub proof fn temporary_authority_never_slides(a: AuthorityView, now: u64)
    requires
        a.destinations is Some,
    ensures
        slid(a, now) == a,
{
}

/// Use never shortens a lifetime, and leaves key, paths and destinations alone.
pub proof fn use_never_shortens(a: AuthorityView, now: u64, at: u64)
    requires
        a.expires_at == Some(at),
    ensures
        slid(a, now).expires_at matches Some(later) && later >= at,
        slid(a, now).hop_key == a.hop_key,
        slid(a, now).create_paths == a.create_paths,
        slid(a, now).destinations == a.destinations,
{
}

/// A sweep changes no answer: from its moment on, every path has the hop key
/// that it would have had without it.
pub proof fn sweep_changes_no_answer(before: ProvisionAuthorities, after: ProvisionAuthorities, now: u64, path: Seq<char>, later: u64)
    requires
        later >= now,
        forall|k: Seq<char>|
            #[trigger] after.authority(k) == (match before.authority(k) {
                Some(a) => if expired(a, now) {
                    None
                } else {
                    Some(a)
                },
                None => None,
            }),
    ensures
        after.hop_key_at(path, later) == before.hop_key_at(path, later),
{
    assert(after.authority(path) is Some || before.authority(path) is None || expired(before.authority(path)->0, now));
}

/// An authority with an end lasts up to it and not at it; one without an end never
/// ends.
pub proof fn an_authority_ends_at_its_end(a: AuthorityView, now: u64)
    ensures
        a.expires_at matches Some(at) ==> (expired(a, now) <==> now >= at),
        a.expires_at is None ==> !expired(a, now),
{
}

/// Use of a sliding authority gives it a day from that moment, or leaves it the
/// longer time that it had; and no more than that.
pub proof fn use_gives_a_day(a: AuthorityView, now: u64, at: u64)
    requires
        a.destinations is None,
        a.expires_at == Some(at),
    ensures
        now <= u64::MAX - 86_400 && at <= now + 86_400 ==> slid(a, now).expires_at == Some((now + 86_400) as u64),
        now <= u64::MAX - 86_400 && at > now + 86_400 ==> slid(a, now).expires_at == Some(at),
        now > u64::MAX - 86_400 ==> slid(a, now).expires_at == Some(u64::MAX),
        !expired(slid(a, now), now) || now == u64::MAX,
{
}

/// The hop key of a path is that of its authority, for as long as that lasts.
pub proof fn a_path_has_its_key_while_it_lasts(s: ProvisionAuthorities, path: Seq<char>, now: u64)
    ensures
        s.frwd.lookup(path) is None ==> s.hop_key_at(path, now) is None,
        s.frwd.lookup(path) matches Some(a) ==> {
            &&& a.expires_at is None ==> s.hop_key_at(path, now) == Some(a.hop_key)
            &&& a.expires_at matches Some(at) ==> s.hop_key_at(path, now) == (if now < at { Some(a.hop_key) } else { None })
        },
{
}

/// An order is permitted exactly where there is a live authority at the path with
/// the key that it was made with; and where that is a temporary grant and the order
/// pushes to a queue, where one of the granted contacts is at that target, for that
/// queue and epoch, and has time left itself.
pub proof fn orders_go_where_they_were_granted(s: ProvisionAuthorities, path: Seq<char>, hop_key: [u8; 32], frwd: Frwd, now: u64)
    ensures
        s.frwd.lookup(path) is None ==> !s.permits(path, hop_key, frwd, now),
        s.frwd.lookup(path) matches Some(a) ==> {
            let live = a.hop_key == hop_key && !(a.expires_at matches Some(at) && at <= now);
            &&& !live ==> !s.permits(path, hop_key, frwd, now)
            &&& live && (a.destinations is None || frwd.relay_push is None) ==> s.permits(path, hop_key, frwd, now)
            &&& live && a.destinations is Some && frwd.relay_push is Some ==> (s.permits(path, hop_key, frwd, now) <==> exists|i: int|
                0 <= i < a.destinations->0@.len() && (#[trigger] a.destinations->0@[i]).target == frwd.target
                    && a.destinations->0@[i].queue_id == frwd.relay_push->0.queue_id && a.destinations->0@[i].epoch
                    == frwd.relay_push->0.epoch && a.destinations->0@[i].expiry > now)
        },
{
    if let Some(a) = s.frwd.lookup(path) {
        if let (Some(d), Some(push)) = (a.destinations, frwd.relay_push) {
            assert(a@.destinations == Some(d@));
        }
    }
}

/// Use of an administration path touches the authority that it administers, no other,
/// and takes that one off the list of those that wait to be consumed. A path that
/// administers nothing, or a temporary grant, changes nothing.
pub proof fn use_touches_one_authority(before: ProvisionAuthorities, after: ProvisionAuthorities, create_path: Seq<char>, now: u64, k: Seq<char>)
    requires
        notes_use(before, after, create_path, now),
    ensures
        before.by_create_path.lookup(create_path) is None ==> after == before,
        before.refreshed_by(create_path) != Some(k) ==> after.authority(k) == before.authority(k) && after.pending.has(k)
            == before.pending.has(k),
        before.refreshed_by(create_path) == Some(k) && (before.authority(k) matches Some(a) && a.destinations is Some) ==> after == before,
        before.refreshed_by(create_path) == Some(k) && !(before.authority(k) matches Some(a) && a.destinations is Some) ==> {
            &&& !after.pending.has(k)
            &&& before.authority(k) is None ==> after.authority(k) is None
            &&& (before.authority(k) matches Some(a) && a.expires_at is None) ==> after.authority(k) == before.authority(k)
            &&& before.authority(k) matches Some(a) ==> (a.expires_at is Some ==> (after.authority(k) matches Some(b) && b.hop_key == a.hop_key
                && b.create_paths == a.create_paths && b.destinations is None && b.expires_at == Some(
                if now > u64::MAX - 86_400 {
                    u64::MAX
                } else if a.expires_at->0 > now + 86_400 {
                    a.expires_at->0
                } else {
                    (now + 86_400) as u64
                },
            )))
        },
        after.by_create_path == before.by_create_path,
        after.admitted == before.admitted,
        after.transit_ready == before.transit_ready,
{
}

proof fn lemma_swept(s: Seq<(String, FrwdAuthority)>, n: nat, now: u64, path: Seq<char>)
    requires
        n <= s.len(),
    ensures
        swept(s, n, now).contains(path) <==> exists|i: int|
            0 <= i < n && (#[trigger] s[i]).1.expires_at is Some && s[i].1.expires_at->0 <= now && (s[i].0@ == path || views(
                s[i].1.create_paths@,
            ).contains(path)),
    decreases n,
{
    if n > 0 {
        let m = (n - 1) as nat;
        lemma_swept(s, m, now, path);
        let front = swept(s, m, now);
        let all = swept(s, n, now);
        let (last, a) = s[m as int];
        if expired(a@, now) {
            let mid = front.push(last@);
            assert(all == mid + a@.create_paths);
            if front.contains(path) {
                assert(all[front.index_of(path)] == path);
            }
            if last@ == path {
                assert(all[front.len() as int] == path);
            }
            if a@.create_paths.contains(path) {
                let j = a@.create_paths.index_of(path);
                assert(all[mid.len() + j] == path);
            }
            if all.contains(path) {
                let j = all.index_of(path);
                if j < front.len() {
                    assert(front[j] == path);
                } else if j == front.len() {
                    assert(last@ == path);
                } else {
                    assert(a@.create_paths[j - mid.len()] == path);
                }
            }
            assert(s[m as int].1.expires_at is Some);
        }
    }
}

/// A sweep names exactly the forwarding paths whose authority has ended and the
/// administration paths of those authorities.
pub proof fn a_sweep_names_what_has_ended(s: Seq<(String, FrwdAuthority)>, now: u64, path: Seq<char>)
    ensures
        swept(s, s.len(), now).contains(path) <==> exists|i: int|
            0 <= i < s.len() && (#[trigger] s[i]).1.expires_at is Some && s[i].1.expires_at->0 <= now && (s[i].0@ == path || views(
                s[i].1.create_paths@,
            ).contains(path)),
{
    lemma_swept(s, s.len(), now, path);
}

} // verus!
