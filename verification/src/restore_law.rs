//! What holds of taking an archive up: which archives are taken, what of them comes
//! back, and what is done for the routes.

use vstd::prelude::*;
use crate::archive::{decoded, magic_version, ArchiveView, Reader};
use crate::archive_check::is_credited;
use crate::archive_frame::{SealedView, SessionView};
use crate::channel_route::{established_secret, retained_secret};
use crate::codec::GrantView;
use crate::error::Error;
use crate::model::{views, zeros, OwnedChannelRouteView};
use crate::node_state::{DirectDelivery, NodeState};
use crate::owner_aliases::{live_error, RecordView};
use crate::restore::{admitted, all_sends, counts, effective_at, grants_of, live_refusal, opened_grant, outgrown, owned, receipts_of, restored_owner, sends, sessions_refusal, start_refusal, tags_of, with_grant, with_grants, Grants, Readings, Sessions, TransmissionView};
use crate::route_work::{join_work, route_work, JoinWork, RoutePlace, RouteWorkView};

verus! {

/// The version of an archive stands in its sixth byte, after five fixed ones: digits
/// for the first nine, letters for those that follow.
pub proof fn versions_stand_in_the_sixth_byte(buf: Seq<u8>)
    ensures
        magic_version(buf) is Some ==> buf.len() >= 6 && buf.take(5) == seq![0x47u8, 0x43u8, 0x4eu8, 0x53u8, 0x54u8],
        buf.len() >= 6 && buf.take(5) == seq![0x47u8, 0x43u8, 0x4eu8, 0x53u8, 0x54u8] ==> {
            &&& 0x31 <= buf[5] <= 0x39 ==> magic_version(buf) == Some((buf[5] - 0x30) as u8)
            &&& 0x41 <= buf[5] <= 0x4c ==> magic_version(buf) == Some((buf[5] - 0x41 + 10) as u8)
            &&& !(0x31 <= buf[5] <= 0x39) && !(0x41 <= buf[5] <= 0x4c) ==> magic_version(buf) is None
        },
{
    if buf.len() >= 6 {
        let t = buf.take(5);
        assert(t[0] == buf[0] && t[1] == buf[1] && t[2] == buf[2] && t[3] == buf[3] && t[4] == buf[4]);
        if magic_version(buf) is Some {
            assert(t =~= seq![0x47u8, 0x43u8, 0x4eu8, 0x53u8, 0x54u8]);
        }
    }
}

/// A running node takes an archive only while its applications have no owner, and only
/// of versions that need no construction; a starting one takes it while they have none,
/// where it is not too long, and where a version of credited sessions is what the node
/// was started for.
pub proof fn archives_are_taken_while_nothing_is_owned(st: NodeState, buf: Seq<u8>)
    ensures
        ({
            let free = !st.application_inbox.machine_owned && st.application_inbox.central_ownership is None
                && !st.application_inbox.local_routing_policy;
            &&& owned(st.application_inbox) <==> !free
            &&& live_refusal(st, buf) is None <==> free && (magic_version(buf) matches Some(version) ==> version < 15)
            &&& !free ==> live_refusal(st, buf) == Some(Error::OwnershipInitialized)
            &&& free && live_refusal(st, buf) is Some ==> live_refusal(st, buf) == Some(Error::ConstructorRequired)
            &&& start_refusal(st, buf) is None <==> {
                &&& buf.len() <= 0x1000_0000
                &&& magic_version(buf) matches Some(version) ==> version < 20 || st.gc2_sessions
                &&& free
            }
            &&& buf.len() > 0x1000_0000 ==> start_refusal(st, buf) == Some(Error::ExportTooLarge)
            &&& start_refusal(st, buf) == Some(Error::CreditSelectionRequired) ==> !st.gc2_sessions && (magic_version(buf) matches Some(version)
                && version >= 20)
            &&& start_refusal(st, buf) == Some(Error::OwnershipInitialized) ==> !free
        }),
{
}

/// An archive is admitted exactly where it is not refused, can be read, and holds no
/// session without credit for a node that was started for credited ones; and it is
/// admitted as what it reads as.
pub proof fn archives_are_admitted_as_they_read(st: NodeState, buf: Seq<u8>, d: Reader)
    ensures
        admitted(st, buf, d) is Ok <==> start_refusal(st, buf) is None && (decoded(buf, d) matches Ok(a) && (st.gc2_sessions ==> forall|i: int|
            0 <= i < a.core.sessions.len() ==> is_credited((#[trigger] a.core.sessions[i]).sealed))),
        admitted(st, buf, d) is Ok ==> admitted(st, buf, d) == decoded(buf, d),
        start_refusal(st, buf) matches Some(e) ==> admitted(st, buf, d) == Err::<ArchiveView, Error>(e),
        start_refusal(st, buf) is None && decoded(buf, d) is Err ==> admitted(st, buf, d) == decoded(buf, d),
        admitted(st, buf, d) is Err && start_refusal(st, buf) is None && decoded(buf, d) is Ok ==> admitted(st, buf, d) == Err::<
            ArchiveView,
            Error,
        >(Error::MigrationRequired),
{
}

proof fn lemma_tags(s: Seq<SessionView>, n: nat, w: Sessions, tag: [u8; 16])
    requires
        n <= s.len(),
    ensures
        tags_of(s, n, w).contains(tag) <==> exists|i: int|
            0 <= i < n && !views(w.lapsed@).contains((#[trigger] s[i]).peer) && (w.opened.lookup(s[i].sealed) matches Some(o) && o.tag == Some(tag)),
    decreases n,
{
    if n > 0 {
        let m = (n - 1) as nat;
        lemma_tags(s, m, w, tag);
        let before = tags_of(s, m, w);
        let now = tags_of(s, n, w);
        if before.contains(tag) {
            assert(now[before.index_of(tag)] == tag);
        }
        if now.len() > before.len() {
            assert(now[before.len() as int] == w.opened.at(s[m as int].sealed).tag->0);
        }
        if now.contains(tag) && now.index_of(tag) < before.len() {
            assert(before[now.index_of(tag)] == tag);
        }
        let last = s[m as int];
        assert(last == s[m as int]);
    }
}

proof fn lemma_sessions_come_back(s: Seq<SessionView>, n: nat, w: Sessions)
    requires
        n <= s.len(),
    ensures
        sessions_refusal(s, n, w) is None <==> {
            &&& forall|i: int| 0 <= i < n && !views(w.lapsed@).contains((#[trigger] s[i]).peer) ==> w.opened.lookup(s[i].sealed) is Some
            &&& forall|i: int, j: int|
                0 <= i < j < n && !views(w.lapsed@).contains((#[trigger] s[i]).peer) && !views(w.lapsed@).contains((#[trigger] s[j]).peer)
                    && w.opened.at(s[i].sealed).tag is Some ==> w.opened.at(s[j].sealed).tag != w.opened.at(s[i].sealed).tag
        },
    decreases n,
{
    if n > 0 {
        let m = (n - 1) as nat;
        lemma_sessions_come_back(s, m, w);
        let last = s[m as int];
        let ours = w.opened.at(last.sealed).tag;
        if ours is Some {
            lemma_tags(s, m, w, ours->0);
        }
        if sessions_refusal(s, n, w) is None {
            assert forall|i: int, j: int|
                0 <= i < j < n && !views(w.lapsed@).contains((#[trigger] s[i]).peer) && !views(w.lapsed@).contains((#[trigger] s[j]).peer)
                    && w.opened.at(s[i].sealed).tag is Some implies w.opened.at(s[j].sealed).tag != w.opened.at(s[i].sealed).tag by {
                if j == m {
                    assert(w.opened.lookup(s[i].sealed) is Some);
                    if ours == w.opened.at(s[i].sealed).tag {
                        assert(tags_of(s, m, w).contains(ours->0));
                    }
                }
            }
        }
    }
}

/// The sessions of an archive come back exactly where the host opened every one that
/// has not lapsed and no two of those have one tag.
pub proof fn sessions_come_back_under_their_own_tags(s: Seq<SessionView>, w: Sessions)
    ensures
        sessions_refusal(s, s.len(), w) is None <==> {
            &&& forall|i: int| 0 <= i < s.len() && !views(w.lapsed@).contains((#[trigger] s[i]).peer) ==> w.opened.lookup(s[i].sealed) is Some
            &&& forall|i: int, j: int|
                0 <= i < j < s.len() && !views(w.lapsed@).contains((#[trigger] s[i]).peer) && !views(w.lapsed@).contains(
                    (#[trigger] s[j]).peer,
                ) && w.opened.at(s[i].sealed).tag is Some ==> w.opened.at(s[j].sealed).tag != w.opened.at(s[i].sealed).tag
        },
{
    lemma_sessions_come_back(s, s.len(), w);
}

/// Receipts that an archive holds are taken as they are. Where it holds none, those
/// that the sessions give anew are taken, as long as every credited session that comes
/// back is still in its first generation and holds nothing volatile.
pub proof fn receipts_are_kept_or_worked_out(receipts: Option<Seq<u8>>, s: Seq<SessionView>, migrated: Seq<u8>, w: Sessions)
    ensures
        receipts matches Some(r) ==> receipts_of(receipts, s, migrated, w) == Ok::<Seq<u8>, Error>(r),
        receipts is None ==> {
            let fresh = forall|i: int|
                0 <= i < s.len() && !views(w.lapsed@).contains((#[trigger] s[i]).peer) && w.opened.at(s[i].sealed).tag is Some ==> w.opened.at(
                    s[i].sealed,
                ).generation == 1 && !w.opened.at(s[i].sealed).volatile;
            receipts_of(receipts, s, migrated, w) == (if fresh {
                Ok::<Seq<u8>, Error>(migrated)
            } else {
                Err::<Seq<u8>, Error>(Error::ReceiptArchiveRequired)
            })
        },
{
    if receipts is None {
        let fresh = forall|i: int|
            0 <= i < s.len() && !views(w.lapsed@).contains((#[trigger] s[i]).peer) && w.opened.at(s[i].sealed).tag is Some ==> w.opened.at(
                s[i].sealed,
            ).generation == 1 && !w.opened.at(s[i].sealed).volatile;
        if fresh {
            assert forall|i: int| 0 <= i < s.len() implies !outgrown(#[trigger] s[i], w) by {
                if !views(w.lapsed@).contains(s[i].peer) && w.opened.at(s[i].sealed).tag is Some {
                    assert(w.opened.at(s[i].sealed).generation == 1);
                }
            }
        } else {
            let i = choose|i: int|
                0 <= i < s.len() && !views(w.lapsed@).contains((#[trigger] s[i]).peer) && w.opened.at(s[i].sealed).tag is Some && !(w.opened.at(
                    s[i].sealed,
                ).generation == 1 && !w.opened.at(s[i].sealed).volatile);
            assert(outgrown(s[i], w));
        }
    }
}

proof fn lemma_grants(s: Seq<SealedView>, n: nat, w: Grants)
    requires
        n <= s.len(),
        grants_of(s, n, w) is Ok,
    ensures
        forall|i: int| 0 <= i < n ==> opened_grant((#[trigger] s[i]).sealed, w) is Ok,
        forall|i: int|
            0 <= i < n && (opened_grant((#[trigger] s[i]).sealed, w)->Ok_0).expires_at > w.now_unix && w.permitted@.contains(
                (opened_grant(s[i].sealed, w)->Ok_0).target,
            ) ==> grants_of(s, n, w)->Ok_0.contains((opened_grant(s[i].sealed, w)->Ok_0)@),
        forall|g: GrantView| #[trigger]
            grants_of(s, n, w)->Ok_0.contains(g) ==> exists|i: int|
                0 <= i < n && opened_grant((#[trigger] s[i]).sealed, w)->Ok_0@ == g && (opened_grant(s[i].sealed, w)->Ok_0).expires_at
                    > w.now_unix && w.permitted@.contains((opened_grant(s[i].sealed, w)->Ok_0).target),
    decreases n,
{
    if n > 0 {
        let m = (n - 1) as nat;
        lemma_grants(s, m, w);
        let before = grants_of(s, m, w)->Ok_0;
        let now = grants_of(s, n, w)->Ok_0;
        let last = opened_grant(s[m as int].sealed, w)->Ok_0;
        assert forall|g: GrantView| before.contains(g) implies now.contains(g) by {
            assert(now[before.index_of(g)] == g);
        }
        if counts(last, w) {
            assert(now[before.len() as int] == last@);
        }
        assert forall|i: int|
            0 <= i < n && (opened_grant((#[trigger] s[i]).sealed, w)->Ok_0).expires_at > w.now_unix && w.permitted@.contains(
                (opened_grant(s[i].sealed, w)->Ok_0).target,
            ) implies now.contains((opened_grant(s[i].sealed, w)->Ok_0)@) by {
            if i < m {
                assert(before.contains((opened_grant(s[i].sealed, w)->Ok_0)@));
            }
        }
        assert forall|g: GrantView| #[trigger] now.contains(g) implies exists|i: int|
            0 <= i < n && opened_grant((#[trigger] s[i]).sealed, w)->Ok_0@ == g && (opened_grant(s[i].sealed, w)->Ok_0).expires_at
                > w.now_unix && w.permitted@.contains((opened_grant(s[i].sealed, w)->Ok_0).target) by {
            let j = now.index_of(g);
            if j < before.len() {
                assert(before[j] == g);
                assert(before.contains(g));
            } else {
                assert(opened_grant(s[m as int].sealed, w)->Ok_0@ == g);
            }
        }
    }
}

/// The grants that come back are exactly those of the archive that have time left and
/// a target that the node may forward to; and every grant of the archive must open.
pub proof fn live_grants_come_back(s: Seq<SealedView>, w: Grants)
    requires
        grants_of(s, s.len(), w) is Ok,
    ensures
        forall|i: int| 0 <= i < s.len() ==> opened_grant((#[trigger] s[i]).sealed, w) is Ok,
        forall|i: int|
            0 <= i < s.len() && (opened_grant((#[trigger] s[i]).sealed, w)->Ok_0).expires_at > w.now_unix && w.permitted@.contains(
                (opened_grant(s[i].sealed, w)->Ok_0).target,
            ) ==> grants_of(s, s.len(), w)->Ok_0.contains((opened_grant(s[i].sealed, w)->Ok_0)@),
        forall|g: GrantView| #[trigger]
            grants_of(s, s.len(), w)->Ok_0.contains(g) ==> exists|i: int|
                0 <= i < s.len() && opened_grant((#[trigger] s[i]).sealed, w)->Ok_0@ == g && (opened_grant(s[i].sealed, w)->Ok_0).expires_at
                    > w.now_unix && w.permitted@.contains((opened_grant(s[i].sealed, w)->Ok_0).target),
{
    lemma_grants(s, s.len(), w);
}

proof fn lemma_place_of_grant(s: Seq<GrantView>, id: [u8; 32])
    ensures
        crate::restore::grant_place(s, id) <= s.len(),
        crate::restore::grant_place(s, id) < s.len() ==> s[crate::restore::grant_place(s, id) as int].target.relay_service_id == id,
        forall|i: int| 0 <= i < crate::restore::grant_place(s, id) ==> (#[trigger] s[i]).target.relay_service_id != id,
    decreases s.len(),
{
    if s.len() > 0 {
        lemma_place_of_grant(s.drop_last(), id);
        let at = crate::restore::grant_place(s.drop_last(), id);
        assert forall|i: int| 0 <= i < crate::restore::grant_place(s, id) implies (#[trigger] s[i]).target.relay_service_id != id by {
            if i < s.len() - 1 {
                assert(s.drop_last()[i] == s[i]);
            }
        }
        if at < s.len() - 1 {
            assert(s.drop_last()[at as int] == s[at as int]);
        }
    }
}

/// A relay has one grant: a new one takes the place of the one it had, and of no other
/// relay's; one of a relay that had none is put at the end.
pub proof fn a_new_grant_takes_the_place_of_the_old(s: Seq<GrantView>, g: GrantView)
    ensures
        (forall|i: int| 0 <= i < s.len() ==> (#[trigger] s[i]).target.relay_service_id != g.target.relay_service_id) ==> with_grant(s, g) == s.push(g),
        (exists|i: int| 0 <= i < s.len() && (#[trigger] s[i]).target.relay_service_id == g.target.relay_service_id) ==> {
            &&& with_grant(s, g).len() == s.len()
            &&& with_grant(s, g).contains(g)
            &&& forall|i: int|
                0 <= i < s.len() && (#[trigger] s[i]).target.relay_service_id != g.target.relay_service_id ==> with_grant(s, g)[i] == s[i]
        },
        with_grants(s, seq![g], 1) == with_grant(s, g),
{
    lemma_place_of_grant(s, g.target.relay_service_id);
    let at = crate::restore::grant_place(s, g.target.relay_service_id);
    if at < s.len() {
        assert(with_grant(s, g)[at as int] == g);
    }
    reveal_with_fuel(with_grants, 2);
}

/// The effective time of the second reading is the later of its wall clock and of the
/// first wall clock with the time that passed between them. It is refused where
/// nothing was captured yet, where the clock is before the capture, and where a
/// reading goes back.
pub proof fn effective_time_goes_on_from_the_first_reading(captured_ms: u64, at: Readings)
    ensures
        effective_at(captured_ms, at) is Ok <==> {
            &&& 0 < captured_ms <= at.wall_ms <= at.next_wall_ms
            &&& at.now.nanos <= at.next_now.nanos
            &&& at.next_now.nanos - at.now.nanos <= (u64::MAX - at.wall_ms) * 1_000_000
        },
        effective_at(captured_ms, at) matches Ok(t) ==> {
            &&& t >= at.next_wall_ms
            &&& (t - at.wall_ms) * 1_000_000 >= at.next_now.nanos - at.now.nanos
            &&& t == at.next_wall_ms || (t - 1 - at.wall_ms) * 1_000_000 < at.next_now.nanos - at.now.nanos
        },
        captured_ms == 0 || at.wall_ms < captured_ms ==> effective_at(captured_ms, at) == Err::<u64, Error>(Error::ClockPrecedesSaved),
{
}

/// The owner's record of an archive is taken up where the archive reads, time has not
/// gone back, and its aliases are live; offline they need not be.
pub proof fn records_are_taken_up_while_live(a: ArchiveView, offline: bool, at: Readings)
    ensures
        a.owner_aliases is None ==> restored_owner(Ok(a), offline, at) == Ok::<Option<RecordView>, Error>(None),
        a.owner_aliases matches Some(record) ==> match effective_at(record.captured_ms, at) {
            Err(e) => restored_owner(Ok(a), offline, at) == Err::<Option<RecordView>, Error>(e),
            Ok(t) => {
                &&& offline || live_error(record, t) is None ==> restored_owner(Ok(a), offline, at) == Ok::<Option<RecordView>, Error>(
                    Some(record),
                )
                &&& !offline && live_error(record, t) is Some ==> restored_owner(Ok(a), offline, at) == Err::<Option<RecordView>, Error>(
                    live_error(record, t)->0,
                )
            },
        },
        forall|e: Error| #[trigger] restored_owner(Err(e), offline, at) == Err::<Option<RecordView>, Error>(e),
{
}

proof fn lemma_sends(s: Seq<DirectDelivery>, n: nat, x: TransmissionView)
    requires
        n <= s.len(),
    ensures
        all_sends(s, n).contains(x) <==> exists|i: int| 0 <= i < n && sends(#[trigger] s[i]).contains(x),
    decreases n,
{
    if n > 0 {
        let m = (n - 1) as nat;
        lemma_sends(s, m, x);
        let before = all_sends(s, m);
        let last = sends(s[m as int]);
        let all = all_sends(s, n);
        if before.contains(x) {
            assert(all[before.index_of(x)] == x);
        }
        if last.contains(x) {
            assert(all[before.len() + last.index_of(x)] == x);
        }
        if all.contains(x) {
            let j = all.index_of(x);
            if j < before.len() {
                assert(before[j] == x);
            } else {
                assert(last[j - before.len()] == x);
            }
        }
    }
}

/// What is sent again after a restart: of every delivery to a peer with a contact, each
/// of its cells, through its relay and to the first contact of the peer.
pub proof fn every_cell_is_sent_again(s: Seq<DirectDelivery>, i: int, k: int)
    requires
        0 <= i < s.len(),
        0 <= k < s[i].cells@.len(),
    ensures
        s[i].peer.aliases@.len() > 0 ==> all_sends(s, s.len()).contains(
            TransmissionView { relay: s[i].relay@, destination: s[i].peer.aliases@[0], cell: s[i].cells@[k]@ },
        ),
        s[i].peer.aliases@.len() == 0 ==> sends(s[i]).len() == 0,
        s[i].peer.aliases@.len() > 0 ==> sends(s[i]).len() == s[i].cells@.len(),
{
    if s[i].peer.aliases@.len() > 0 {
        let x = TransmissionView { relay: s[i].relay@, destination: s[i].peer.aliases@[0], cell: s[i].cells@[k]@ };
        assert(sends(s[i])[k] == x);
        lemma_sends(s, s.len(), x);
    }
}

/// A prepared join is dropped once an alias of its route has run out. Until it is, it
/// is kept where nothing can be asked of a relay, and readmitted where the relay has
/// an alias to do it under.
pub proof fn joins_are_dropped_once_run_out(route: OwnedChannelRouteView, offline: bool, now_unix: u64, authority: bool)
    ensures
        ({
            let over = exists|i: int| 0 <= i < route.aliases.len() && (#[trigger] route.aliases[i]).contact.expiry <= now_unix;
            &&& over ==> join_work(route, offline, now_unix, authority) == Ok::<JoinWork, Error>(JoinWork::Drop)
            &&& !over && offline ==> join_work(route, offline, now_unix, authority) == Ok::<JoinWork, Error>(JoinWork::Keep)
            &&& !over && !offline && authority ==> join_work(route, offline, now_unix, authority) == Ok::<JoinWork, Error>(JoinWork::Readmit)
            &&& !over && !offline && !authority ==> join_work(route, offline, now_unix, authority) == Err::<JoinWork, Error>(
                Error::NoChannelAuthority,
            )
        }),
{
}

/// A retained route stays as it is offline. Else it is replaced under the same secret
/// once it has run out, the route itself becoming the one before, and readmitted until
/// then. A route that was not retained waits for its queues offline, and else is
/// provisioned with the secret that the channel was established with.
pub proof fn routes_keep_their_secret(
    retained: Option<OwnedChannelRouteView>,
    previous: Option<OwnedChannelRouteView>,
    at: RoutePlace,
    offline: bool,
    now_unix: u64,
    authority: bool,
)
    ensures
        retained matches Some(route) ==> {
            let over = exists|i: int| 0 <= i < route.aliases.len() && (#[trigger] route.aliases[i]).contact.expiry <= now_unix;
            let work = route_work(retained, previous, at, offline, now_unix, authority);
            &&& offline ==> work == Ok::<RouteWorkView, Error>(RouteWorkView::Settled { route, previous })
            &&& !offline && over ==> work == Ok::<RouteWorkView, Error>(
                RouteWorkView::Provision { secret: route.direct_secret, previous: Some(route) },
            )
            &&& !offline && !over && authority ==> work == Ok::<RouteWorkView, Error>(RouteWorkView::Readmit { route, previous })
            &&& !offline && !over && !authority ==> work == Err::<RouteWorkView, Error>(Error::NoChannelAuthority)
        },
        retained is None && offline ==> match route_work(retained, previous, at, offline, now_unix, authority) {
            Ok(RouteWorkView::Settled { route, previous: kept }) => {
                &&& kept == previous
                &&& route.aliases.len() == 0
                &&& at.known matches Some(known) ==> route.public == known
                &&& at.known is None ==> route.public.pseudonym == at.role.pseudonym && route.public.direct_public == zeros::<32>()
                &&& retained_secret(at.keys.seed@, at.name@, at.role.pseudonym, match at.known {
                    Some(known) => known.direct_public,
                    None => zeros::<32>(),
                }, *at.codec) == Ok::<[u8; 32], Error>(route.direct_secret)
            },
            Ok(_) => false,
            Err(_) => true,
        },
        retained is None && !offline ==> match established_secret(at.keys.seed@, at.name@, at.owner, *at.role, *at.codec) {
            Some(secret) => route_work(retained, previous, at, offline, now_unix, authority) == Ok::<RouteWorkView, Error>(
                RouteWorkView::Provision { secret, previous },
            ),
            None => route_work(retained, previous, at, offline, now_unix, authority) == Err::<RouteWorkView, Error>(Error::NotListed),
        },
{
}

} // verus!
