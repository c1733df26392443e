//! What the sealed parts of an archive are bound to, and what they may hold.

use vstd::prelude::*;
use vstd::utf8::encode_utf8;
use crate::archive_frame::{CentralOwnership, CentralView, InboxEntryView, InboxFrameView};
use crate::channel_route::{opened_for, sealed_for};
use crate::codec::{Codec, NodeKeys, Protocol};
use crate::error::Error;
use crate::model::views;
use crate::owner_aliases::{GroupView, Role};
use crate::owner_record::{bare, bound_group, bound_record, frames_group, granted, owner_context, owner_plain, GroupFrameView, RecordFrameView};
use crate::record::reads;
use crate::seal::{opened, sha256_digest, ContextView};
use crate::sealed_parts::{central_context, central_of, central_plain, entries_at, entry_error, grant_context, inbox_context, inbox_in_order, inbox_of, machine_context, opened_central, opened_directory, opened_inbox, opened_machine, opened_receipts, opened_tls, receipts_context, routing_view_context, tls_context};

verus! {

/// Whether a context is the node's own under three labels.
pub open spec fn labelled(c: ContextView, identity: Seq<u8>, first: Seq<char>, second: Seq<char>, third: Seq<char>) -> bool {
    &&& c.identity == sha256_digest(identity)
    &&& c.first == encode_utf8(first)
    &&& c.second == encode_utf8(second)
    &&& c.third == encode_utf8(third)
}

/// Each sealed part is bound to the node and to three labels of its own.
pub proof fn parts_are_bound_to_their_labels(identity: Seq<u8>)
    ensures
        labelled(inbox_context(identity), identity, "application-inbox"@, "pending"@, "gc1/application-inbox/v1"@),
        labelled(machine_context(identity), identity, "machine-ownership"@, "scope"@, "gc1/machine-ownership/v1"@),
        labelled(central_context(identity), identity, "central-ownership"@, "partition"@, "gc1/central-ownership/v1"@),
        labelled(tls_context(identity), identity, "relay-tls"@, "identity"@, "gc1/relay-tls/v1"@),
        labelled(routing_view_context(identity), identity, "network"@, "relay-view"@, "gc1/routing/v1"@),
        labelled(receipts_context(identity), identity, "gc2-logical-receipts"@, "scope"@, "gc2/logical-receipts/v1"@),
        labelled(grant_context(identity), identity, "forward-grant"@, "pool"@, "gc1/forward-grant/v1"@),
        labelled(owner_context(identity), identity, "owner-aliases"@, "lifecycle"@, "gc1/owner-aliases/v1"@),
{
}

/// What binds a sealed value is a prefix and then the text of its context; a context
/// without a text binds nothing.
pub proof fn contexts_bind_by_their_text(codec: Codec, context: ContextView)
    ensures
        match codec.contexts.lookup(context) {
            Some(text) => codec.aad(context) == Some(encode_utf8("gc1/forward-grant-aad/v1"@) + text@),
            None => codec.aad(context) is None,
        },
{
}

/// A value opens only where it has a nonce and a tag, and to a message that is as long
/// as what is left; it is sealed with as many bytes more, opens to what was sealed, and
/// is refused where its context is unknown or it is too long.
pub proof fn sealing_adds_a_nonce_and_a_tag(key: Seq<u8>, aad: Seq<u8>, sealed: Seq<u8>, plain: Seq<u8>, r: Result<Vec<u8>, Error>)
    ensures
        opened(key, aad, sealed) matches Ok(message) ==> sealed.len() == message.len() + 12 + 16,
        sealed.len() < 28 ==> opened(key, aad, sealed) == Err::<Seq<u8>, Error>(Error::Malformed),
        opened_for(key, Some(aad), sealed) == opened(key, aad, sealed),
        opened_for(key, None, sealed) == Err::<Seq<u8>, Error>(Error::ContextRefused),
        sealed_for(key, None, plain, r) ==> r == Err::<Vec<u8>, Error>(Error::ContextRefused),
        sealed_for(key, Some(aad), plain, r) && plain.len() <= 0x10_0000_0000 && aad.len() <= 0x10_0000_0000 && plain.len() + 16 <= isize::MAX
            ==> (r matches Ok(s) && opened(key, aad, s@) == Ok::<Seq<u8>, Error>(plain)),
        sealed_for(key, Some(aad), plain, r) && r is Err ==> r == Err::<Vec<u8>, Error>(Error::SealFailed) && (plain.len() > 0x10_0000_0000
            || aad.len() > 0x10_0000_0000 || plain.len() + 16 > isize::MAX),
{
}

/// The inbox opens under the key that wraps messages, all else under the archive's;
/// each for its own context alone, and within its own length.
pub proof fn parts_open_under_their_key(sealed: Seq<u8>, keys: NodeKeys, codec: Codec, p: Protocol)
    ensures
        opened_inbox(sealed, keys, codec, p) is Ok ==> sealed.len() <= 4_194_304 && opened_for(
            keys.wrapping_key@,
            codec.aad(inbox_context(keys.identity_public@)),
            sealed,
        ) is Ok,
        opened_machine(sealed, keys, codec) is Ok ==> sealed.len() <= 128 && opened_for(
            keys.archive_key@,
            codec.aad(machine_context(keys.identity_public@)),
            sealed,
        ) is Ok,
        opened_central(sealed, keys, codec) is Ok ==> sealed.len() <= 2_048 && opened_for(
            keys.archive_key@,
            codec.aad(central_context(keys.identity_public@)),
            sealed,
        ) is Ok,
        opened_tls(sealed, keys, codec) is Ok ==> sealed.len() <= 65_536 && opened_for(
            keys.archive_key@,
            codec.aad(tls_context(keys.identity_public@)),
            sealed,
        ) is Ok,
        opened_directory(sealed, keys, codec) is Ok ==> sealed.len() <= 16_384 && opened_for(
            keys.archive_key@,
            codec.aad(routing_view_context(keys.identity_public@)),
            sealed,
        ) is Ok,
        opened_receipts(sealed, keys, codec, p) is Ok ==> sealed.len() <= p.receipts_max + 28 && opened_for(
            keys.archive_key@,
            codec.aad(receipts_context(keys.identity_public@)),
            sealed,
        ) is Ok,
        owner_plain(sealed, keys, codec) is Ok ==> sealed.len() <= 262_144 + 64 && opened_for(
            keys.archive_key@,
            codec.aad(owner_context(keys.identity_public@)),
            sealed,
        ) == owner_plain(sealed, keys, codec),
{
}

/// What a sealed part holds once it opens: ownership by the machine is one byte, nought
/// or one; the transport identity, the directory and the receipts are as they were
/// sealed, where they are of a known form; and nothing within the length is refused
/// for another reason.
pub proof fn opened_parts_are_what_was_sealed(sealed: Seq<u8>, plain: Seq<u8>, keys: NodeKeys, codec: Codec, p: Protocol)
    ensures
        sealed.len() <= 128 && opened_for(keys.archive_key@, codec.aad(machine_context(keys.identity_public@)), sealed) == Ok::<Seq<u8>, Error>(
            plain,
        ) ==> opened_machine(sealed, keys, codec) == (if plain.len() == 1 && plain[0] == 0 {
            Ok::<bool, Error>(false)
        } else if plain.len() == 1 && plain[0] == 1 {
            Ok::<bool, Error>(true)
        } else {
            Err::<bool, Error>(Error::Malformed)
        }),
        sealed.len() <= 65_536 && opened_for(keys.archive_key@, codec.aad(tls_context(keys.identity_public@)), sealed) == Ok::<Seq<u8>, Error>(
            plain,
        ) ==> opened_tls(sealed, keys, codec) == (if views(codec.tls_identities@).contains(plain) {
            Ok::<Seq<u8>, Error>(plain)
        } else {
            Err::<Seq<u8>, Error>(Error::TlsIdentityRefused)
        }),
        sealed.len() <= 16_384 && opened_for(keys.archive_key@, codec.aad(routing_view_context(keys.identity_public@)), sealed) == Ok::<
            Seq<u8>,
            Error,
        >(plain) ==> opened_directory(sealed, keys, codec) == (if views(codec.directories@).contains(plain) {
            Ok::<Seq<u8>, Error>(plain)
        } else {
            Err::<Seq<u8>, Error>(Error::DirectoryRefused)
        }),
        sealed.len() <= p.receipts_max + 28 && opened_for(keys.archive_key@, codec.aad(receipts_context(keys.identity_public@)), sealed) == Ok::<
            Seq<u8>,
            Error,
        >(plain) ==> opened_receipts(sealed, keys, codec, p) == (if views(codec.receipts@).contains(plain) {
            Ok::<Seq<u8>, Error>(plain)
        } else {
            Err::<Seq<u8>, Error>(Error::ReceiptsRefused)
        }),
{
    if plain.len() == 1 && plain[0] == 0 {
        assert(plain =~= seq![0u8]);
    }
    if plain.len() == 1 && plain[0] == 1 {
        assert(plain =~= seq![1u8]);
    }
}

/// Central ownership is written as a byte of nought where there is none, else as a byte
/// of one and the partition; it reads back only as one of these, with nothing after it,
/// and only where the partition is in order.
pub proof fn central_ownership_is_written_with_a_flag(value: CentralView, plain: Seq<u8>, codec: Codec)
    ensures
        central_plain(None).len() == 1 && central_plain(None)[0] == 0,
        central_plain(Some(value))[0] == 1,
        central_of(plain, codec) == Ok::<Option<CentralView>, Error>(None) <==> plain.len() == 1 && plain[0] == 0,
        central_of(plain, codec) matches Ok(Some(v)) ==> {
            &&& plain.len() > 0 && plain[0] == 1
            &&& reads::<CentralOwnership>(bare(), plain, 1) == Some((v, plain.len() as int))
            &&& codec.partitions_well(v)
        },
        plain.len() > 0 && plain[0] == 1 && codec.partitions_well(value) && reads::<CentralOwnership>(bare(), plain, 1) == Some(
            (value, plain.len() as int),
        ) ==> central_of(plain, codec) == Ok::<Option<CentralView>, Error>(Some(value)),
{
    if plain.len() == 1 && plain[0] == 0 {
        assert(plain =~= seq![0u8]);
    }
}

proof fn lemma_entries(s: Seq<u8>, at: int, n: nat, next: u64, codec: Codec)
    requires
        entries_at(s, at, n, next, codec) is Ok,
    ensures
        ({
            let e = (entries_at(s, at, n, next, codec)->Ok_0).0;
            &&& e.len() == n
            &&& forall|i: int| 0 <= i < n ==> 0 < (#[trigger] e[i]).sequence < next && codec.inbox.lookup(e[i]) == Some(true)
            &&& forall|i: int, j: int| 0 <= i < j < n ==> (#[trigger] e[i]).sequence < (#[trigger] e[j]).sequence
        }),
    decreases n,
{
    if n > 0 {
        lemma_entries(s, at, (n - 1) as nat, next, codec);
    }
}

/// An inbox that reads has a next number within reach, no more messages than it takes,
/// and messages that are taken, with rising numbers below the next.
pub proof fn read_inboxes_are_numbered_upwards(plain: Seq<u8>, codec: Codec, p: Protocol)
    ensures
        inbox_of(plain, codec, p) matches Ok(inbox) ==> {
            &&& 0 < inbox.next_sequence <= 9_007_199_254_740_991
            &&& inbox.entries.len() <= p.application_inbox_limit
            &&& forall|i: int|
                0 <= i < inbox.entries.len() ==> 0 < (#[trigger] inbox.entries[i]).sequence < inbox.next_sequence && codec.inbox.lookup(
                    inbox.entries[i],
                ) == Some(true)
            &&& forall|i: int, j: int|
                0 <= i < j < inbox.entries.len() ==> (#[trigger] inbox.entries[i]).sequence < (#[trigger] inbox.entries[j]).sequence
        },
{
    if inbox_of(plain, codec, p) is Ok {
        let (t, at) = crate::grammar::parse(crate::grammar::Shape::Number(8), plain, 0)->0;
        let next = t->Number_0;
        let (c, start) = crate::grammar::parse(crate::grammar::Shape::Number(4), plain, at)->0;
        lemma_entries(plain, start, c->Number_0, next as u64, codec);
        assert(inbox_of(plain, codec, p)->Ok_0.entries == (entries_at(plain, start, c->Number_0, next as u64, codec)->Ok_0).0);
    }
}

/// An inbox is in order exactly where it could be read so.
pub proof fn inboxes_in_order(inbox: InboxFrameView, codec: Codec, p: Protocol)
    ensures
        inbox_in_order(inbox, codec, p) <==> {
            &&& 0 < inbox.next_sequence <= 9_007_199_254_740_991
            &&& inbox.entries.len() <= p.application_inbox_limit
            &&& forall|i: int|
                0 <= i < inbox.entries.len() ==> 0 < (#[trigger] inbox.entries[i]).sequence < inbox.next_sequence && codec.inbox.lookup(
                    inbox.entries[i],
                ) == Some(true)
            &&& forall|i: int, j: int|
                0 <= i < j < inbox.entries.len() ==> (#[trigger] inbox.entries[i]).sequence < (#[trigger] inbox.entries[j]).sequence
        },
{
    let e = inbox.entries;
    if inbox_in_order(inbox, codec, p) {
        assert forall|i: int| 0 <= i < e.len() implies 0 < (#[trigger] e[i]).sequence < inbox.next_sequence && codec.inbox.lookup(e[i]) == Some(
            true,
        ) by {}
        assert forall|k: int| 0 < k < e.len() implies #[trigger] rises(e, k) by {
            lemma_step(e, k, inbox.next_sequence, codec);
        }
        assert forall|i: int, j: int| 0 <= i < j < e.len() implies (#[trigger] e[i]).sequence < (#[trigger] e[j]).sequence by {
            lemma_rising(e, i, j);
        }
    }
    if (forall|i: int| 0 <= i < e.len() ==> 0 < (#[trigger] e[i]).sequence < inbox.next_sequence && codec.inbox.lookup(e[i]) == Some(true)) && (
    forall|i: int, j: int| 0 <= i < j < e.len() ==> (#[trigger] e[i]).sequence < (#[trigger] e[j]).sequence) {
        assert forall|i: int| 0 <= i < e.len() implies entry_error(
            #[trigger] e[i],
            e.take(i),
            inbox.next_sequence,
            codec,
        ) is None by {
            if i > 0 {
                assert(e.take(i).last() == e[i - 1]);
            }
        }
    }
}

spec fn rises(e: Seq<InboxEntryView>, k: int) -> bool {
    e[k - 1].sequence < e[k].sequence
}

proof fn lemma_step(e: Seq<InboxEntryView>, k: int, next: u64, codec: Codec)
    requires
        0 < k < e.len(),
        entry_error(e[k], e.take(k), next, codec) is None,
    ensures
        rises(e, k),
{
    assert(e.take(k).last() == e[k - 1]);
}

proof fn lemma_rising(e: Seq<InboxEntryView>, i: int, j: int)
    requires
        0 <= i < j < e.len(),
        forall|k: int| 0 < k < e.len() ==> #[trigger] rises(e, k),
    ensures
        e[i].sequence < e[j].sequence,
    decreases j,
{
    assert(rises(e, j));
    if i < j - 1 {
        lemma_rising(e, i, j - 1);
    }
}

/// A group is written with its role by number, its three times, and two private cards
/// of this node: one with its aliases, one with the originals, on the same path and
/// under the same key. It reads back as such and nothing else.
pub proof fn groups_are_written_in_full(f: GroupFrameView, g: GroupView, identity: Seq<u8>, codec: Codec)
    ensures
        frames_group(f, g, identity, codec) ==> {
            &&& f.role == (match g.role {
                Role::Active => 1u8,
                Role::Staged => 2u8,
                Role::Unannounced => 3u8,
                Role::Draining => 4u8,
            })
            &&& f.deadline_ms == g.deadline_ms && f.action_ms == g.action_ms && f.receive_until_ms == g.receive_until_ms
        },
        bound_group(f, identity, codec) == Some(g) ==> {
            &&& f.role == (match g.role {
                Role::Active => 1u8,
                Role::Staged => 2u8,
                Role::Unannounced => 3u8,
                Role::Draining => 4u8,
            })
            &&& g.deadline_ms == f.deadline_ms && g.action_ms == f.action_ms && g.receive_until_ms == f.receive_until_ms
            &&& codec.private_card(f.card) matches Some(card) && card.identity_pk == identity && card.bundle.len() == 0 && card.provisioning
                == Some(g.provision)
            &&& codec.private_card(f.original) matches Some(card) && card.identity_pk == identity && card.bundle.len() == 0 && (
            card.provisioning matches Some(original) && original.aliases == g.origins && original.frwd_path == g.provision.frwd_path
                && original.hop_key == g.provision.hop_key)
        },
        f.role == 0 || f.role > 4 ==> bound_group(f, identity, codec) is None,
{
}

/// A private card grants what it provisions where it is this node's, has no bundle, and
/// publishes the contacts of what it provisions, one for one.
pub proof fn cards_grant_what_they_provision(card: crate::model::NodeInfoView, identity: Seq<u8>)
    ensures
        granted(None, identity) is None,
        granted(Some(card), identity) matches Some(provision) ==> {
            &&& card.provisioning == Some(provision)
            &&& card.identity_pk == identity
            &&& card.bundle.len() == 0
            &&& card.aliases.len() == provision.aliases.len()
            &&& forall|i: int| 0 <= i < provision.aliases.len() ==> (#[trigger] card.aliases[i]) == provision.aliases[i].contact
        },
        card.provisioning matches Some(provision) ==> (card.identity_pk == identity && card.bundle.len() == 0 && card.aliases.len()
            == provision.aliases.len() && (forall|i: int|
            0 <= i < provision.aliases.len() ==> (#[trigger] card.aliases[i]) == provision.aliases[i].contact) ==> granted(Some(card), identity)
            == Some(provision)),
{
    if card.provisioning is Some {
        let provision = card.provisioning->0;
        if card.aliases.len() == provision.aliases.len() && (forall|i: int|
            0 <= i < provision.aliases.len() ==> (#[trigger] card.aliases[i]) == provision.aliases[i].contact) {
            assert(card.aliases =~= crate::owner_record::contact_views(provision.aliases));
        }
    }
}

/// A record stands for its groups, one for one, and for its renewals, each by its
/// queue; it is of the first version, with renewals of one length, none twice.
pub proof fn records_stand_for_their_groups(f: RecordFrameView, identity: Seq<u8>, codec: Codec, p: Protocol)
    ensures
        bound_record(f, identity, codec, p) matches Some(r) ==> {
            &&& f.version == 1
            &&& r.captured_ms == f.captured_ms && r.activated_ms == f.activated_ms
            &&& r.groups.len() == f.groups.len()
            &&& forall|i: int| 0 <= i < f.groups.len() ==> bound_group(#[trigger] f.groups[i], identity, codec) == Some(r.groups[i])
            &&& forall|i: int| 0 <= i < f.renewals.len() ==> (#[trigger] f.renewals[i]).wire.len() == p.lease_renew_len
            &&& forall|i: int|
                0 <= i < f.renewals.len() ==> r.renewals.dom().contains((#[trigger] f.renewals[i]).queue@) && r.renewals[f.renewals[i].queue@]
                    == f.renewals[i].wire
            &&& forall|k: Seq<u8>| #[trigger]
                r.renewals.dom().contains(k) ==> exists|i: int| 0 <= i < f.renewals.len() && (#[trigger] f.renewals[i]).queue@ == k
        },
        f.version != 1 ==> bound_record(f, identity, codec, p) is None,
{
    if bound_record(f, identity, codec, p) is Some {
        let r = bound_record(f, identity, codec, p)->0;
        let keys = crate::owner_record::renewal_keys(f.renewals);
        assert forall|i: int| 0 <= i < f.renewals.len() implies r.renewals.dom().contains((#[trigger] f.renewals[i]).queue@) && r.renewals[f.renewals[i].queue@]
            == f.renewals[i].wire by {
            assert(keys[i] == f.renewals[i].queue@);
            crate::table::lemma_place(keys, keys[i]);
            let q = crate::table::place(keys, keys[i]);
            if q != i {
                assert(keys[q] == keys[i]);
            }
        }
        assert forall|k: Seq<u8>| #[trigger] r.renewals.dom().contains(k) implies exists|i: int|
            0 <= i < f.renewals.len() && (#[trigger] f.renewals[i]).queue@ == k by {
            let i = keys.index_of(k);
            assert(f.renewals[i].queue@ == k);
        }
    }
}

} // verus!
