//! The sealed parts of an archive: the application inbox, ownership, transport
//! identity, routing directory and receipts.

use vstd::prelude::*;
use vstd::utf8::encode_utf8;
use crate::archive_frame::{CentralOwnership, CentralView, InboxEntryFrame, InboxEntryView, InboxFrame, InboxFrameView};
use crate::bytes::{lemma_be_limits, wipe};
use crate::channel_route::{open_for, opened_for, seal_for, sealed_for};
use crate::codec::{Codec, NodeKeys, Protocol};
use crate::error::Error;
use crate::grammar::{parse, render_all, Shape, Tree};
use crate::model::views;
use crate::owner_record::{bare, bare_layout};
use crate::record::{maybe_view, oversize, reads, rendered, take_count, take_frame, take_u64, trees, written_reads_back, Framed, Layout};
use crate::seal::{context_view, zeroize_bytes, ContextView, SessionContext};
use crate::table::among;

verus! {

/// A context of the node's own, by its three labels.
pub open spec fn own_context(identity: Seq<u8>, first: Seq<char>, second: Seq<char>, third: Seq<char>) -> ContextView {
    context_view(identity, encode_utf8(first), encode_utf8(second), encode_utf8(third))
}

fn context_of(keys: &NodeKeys, first: &str, second: &str, third: &str) -> (r: SessionContext)
    ensures
        r@ == own_context(keys.identity_public@, first@, second@, third@),
{
    SessionContext::of_identity(keys.identity_public.as_slice(), first.as_bytes(), second.as_bytes(), third.as_bytes())
}

pub open spec fn inbox_context(identity: Seq<u8>) -> ContextView {
    own_context(identity, "application-inbox"@, "pending"@, "gc1/application-inbox/v1"@)
}

pub open spec fn machine_context(identity: Seq<u8>) -> ContextView {
    own_context(identity, "machine-ownership"@, "scope"@, "gc1/machine-ownership/v1"@)
}

pub open spec fn central_context(identity: Seq<u8>) -> ContextView {
    own_context(identity, "central-ownership"@, "partition"@, "gc1/central-ownership/v1"@)
}

pub open spec fn tls_context(identity: Seq<u8>) -> ContextView {
    own_context(identity, "relay-tls"@, "identity"@, "gc1/relay-tls/v1"@)
}

pub open spec fn routing_view_context(identity: Seq<u8>) -> ContextView {
    own_context(identity, "network"@, "relay-view"@, "gc1/routing/v1"@)
}

pub open spec fn receipts_context(identity: Seq<u8>) -> ContextView {
    own_context(identity, "gc2-logical-receipts"@, "scope"@, "gc2/logical-receipts/v1"@)
}

pub open spec fn grant_context(identity: Seq<u8>) -> ContextView {
    own_context(identity, "forward-grant"@, "pool"@, "gc1/forward-grant/v1"@)
}

pub fn application_inbox_context(keys: &NodeKeys) -> (r: SessionContext)
    ensures
        r@ == inbox_context(keys.identity_public@),
{
    context_of(keys, "application-inbox", "pending", "gc1/application-inbox/v1")
}

pub fn machine_ownership_context(keys: &NodeKeys) -> (r: SessionContext)
    ensures
        r@ == machine_context(keys.identity_public@),
{
    context_of(keys, "machine-ownership", "scope", "gc1/machine-ownership/v1")
}

pub fn central_ownership_context(keys: &NodeKeys) -> (r: SessionContext)
    ensures
        r@ == central_context(keys.identity_public@),
{
    context_of(keys, "central-ownership", "partition", "gc1/central-ownership/v1")
}

pub fn tls_identity_context(keys: &NodeKeys) -> (r: SessionContext)
    ensures
        r@ == tls_context(keys.identity_public@),
{
    context_of(keys, "relay-tls", "identity", "gc1/relay-tls/v1")
}

pub fn routing_context(keys: &NodeKeys) -> (r: SessionContext)
    ensures
        r@ == routing_view_context(keys.identity_public@),
{
    context_of(keys, "network", "relay-view", "gc1/routing/v1")
}

pub fn gc2_receipts_context(keys: &NodeKeys) -> (r: SessionContext)
    ensures
        r@ == receipts_context(keys.identity_public@),
{
    context_of(keys, "gc2-logical-receipts", "scope", "gc2/logical-receipts/v1")
}

pub fn forward_grant_context(keys: &NodeKeys) -> (r: SessionContext)
    ensures
        r@ == grant_context(keys.identity_public@),
{
    context_of(keys, "forward-grant", "pool", "gc1/forward-grant/v1")
}

/// The layout of an inbox that takes so many messages.
pub open spec fn inbox_layout(limit: usize) -> Layout {
    Layout { application_inbox_limit: limit, ..bare() }
}

/// How the sealing of an inbox comes out.
pub open spec fn seals_inbox(inbox: InboxFrameView, keys: NodeKeys, codec: Codec, p: Protocol, r: Result<Vec<u8>, Error>) -> bool {
    let layout = inbox_layout(p.application_inbox_limit);
    match oversize::<InboxFrame>(inbox, layout) {
        Some(e) => r == Err::<Vec<u8>, Error>(e),
        None => sealed_for(
            keys.wrapping_key@,
            codec.aad(inbox_context(keys.identity_public@)),
            rendered::<InboxFrame>(inbox, layout),
            r,
        ),
    }
}

/// Seals the application inbox: its cursor and every message in it.
pub fn seal_application_inbox(inbox: &InboxFrame, keys: &NodeKeys, codec: &Codec, p: &Protocol) -> (r: Result<Vec<u8>, Error>)
    ensures
        seals_inbox(inbox@, *keys, *codec, *p, r),
{
    let layout = Layout { application_inbox_limit: p.application_inbox_limit, ..bare_layout() };
    let mut plain: Vec<u8> = Vec::new();
    match inbox.put_into(&mut plain, layout) {
        Ok(()) => {},
        Err(e) => {
            wipe(&mut plain);
            return Err(e);
        },
    }
    assert(plain@ =~= rendered::<InboxFrame>(inbox@, layout));
    let r = seal_for(&keys.wrapping_key, &application_inbox_context(keys), plain.as_slice(), codec);
    wipe(&mut plain);
    r
}

/// The largest sequence number that a cursor takes.
pub open spec fn max_cursor() -> nat {
    9_007_199_254_740_991
}

pub open spec fn last_sequence(entries: Seq<InboxEntryView>) -> u64 {
    if entries.len() == 0 {
        0
    } else {
        entries.last().sequence
    }
}

/// Why a message cannot follow those before it.
pub open spec fn entry_error(e: InboxEntryView, before: Seq<InboxEntryView>, next: u64, codec: Codec) -> Option<Error> {
    if e.sequence <= last_sequence(before) || e.sequence >= next {
        Some(Error::Malformed)
    } else {
        match codec.inbox.lookup(e) {
            None => Some(Error::InboxRefused),
            Some(taken) => if taken {
                None
            } else {
                Some(Error::Malformed)
            },
        }
    }
}

/// The first `n` messages from a place on.
pub open spec fn entries_at(s: Seq<u8>, at: int, n: nat, next: u64, codec: Codec) -> Result<(Seq<InboxEntryView>, int), Error>
    decreases n,
{
    if n == 0 {
        Ok((Seq::empty(), at))
    } else {
        match entries_at(s, at, (n - 1) as nat, next, codec) {
            Err(e) => Err(e),
            Ok((before, q)) => match reads::<InboxEntryFrame>(bare(), s, q) {
                None => Err(Error::Malformed),
                Some((entry, end)) => match entry_error(entry, before, next, codec) {
                    Some(e) => Err(e),
                    None => Ok((before.push(entry), end)),
                },
            },
        }
    }
}

/// The inbox that plain bytes hold.
pub open spec fn inbox_of(plain: Seq<u8>, codec: Codec, p: Protocol) -> Result<InboxFrameView, Error> {
    match parse(Shape::Number(8), plain, 0) {
        Some((Tree::Number(next), at)) => if next == 0 || next > max_cursor() {
            Err(Error::Malformed)
        } else {
            match parse(Shape::Number(4), plain, at) {
                Some((Tree::Number(count), start)) => if count > p.application_inbox_limit {
                    Err(Error::Malformed)
                } else {
                    match entries_at(plain, start, count, next as u64, codec) {
                        Err(e) => Err(e),
                        Ok((entries, end)) => if end == plain.len() {
                            Ok(InboxFrameView { next_sequence: next as u64, entries })
                        } else {
                            Err(Error::Malformed)
                        },
                    }
                },
                _ => Err(Error::Malformed),
            }
        },
        _ => Err(Error::Malformed),
    }
}

proof fn lemma_entries_stop(s: Seq<u8>, at: int, m: nat, n: nat, next: u64, codec: Codec)
    requires
        m <= n,
        entries_at(s, at, m, next, codec) is Err,
    ensures
        entries_at(s, at, n, next, codec) == entries_at(s, at, m, next, codec),
    decreases n,
{
    if m < n {
        lemma_entries_stop(s, at, m, (n - 1) as nat, next, codec);
    }
}

pub open spec fn same_inbox(r: Result<InboxFrame, Error>, s: Result<InboxFrameView, Error>) -> bool {
    match (r, s) {
        (Ok(x), Ok(y)) => x@ == y,
        (Err(a), Err(b)) => a == b,
        _ => false,
    }
}

fn read_inbox(plain: &[u8], codec: &Codec, p: &Protocol) -> (r: Result<InboxFrame, Error>)
    ensures
        same_inbox(r, inbox_of(plain@, *codec, *p)),
{
    let mut position: usize = 0;
    let next_sequence: u64 = take_u64(plain, &mut position)?;
    if next_sequence == 0 || next_sequence > 9_007_199_254_740_991 {
        return Err(Error::Malformed);
    }
    let count: usize = take_count(plain, &mut position, p.application_inbox_limit)?;
    let ghost start = position as int;
    let mut entries: Vec<InboxEntryFrame> = Vec::new();
    let mut previous: u64 = 0;
    let mut i: usize = 0;
    assert(views(entries@) =~= Seq::<InboxEntryView>::empty());
    while i < count
        invariant
            i <= count,
            previous == last_sequence(views(entries@)),
            entries_at(plain@, start, i as nat, next_sequence, *codec) == Ok::<(Seq<InboxEntryView>, int), Error>(
                (views(entries@), position as int),
            ),
            inbox_of(plain@, *codec, *p) == (match entries_at(plain@, start, count as nat, next_sequence, *codec) {
                Err(e) => Err(e),
                Ok((all, end)) => if end == plain@.len() {
                    Ok(InboxFrameView { next_sequence, entries: all })
                } else {
                    Err(Error::Malformed)
                },
            }),
        decreases count - i,
    {
        let ghost before = views(entries@);
        let entry = match take_frame::<InboxEntryFrame>(plain, &mut position, bare_layout()) {
            Ok(entry) => entry,
            Err(e) => {
                proof {
                    lemma_entries_stop(plain@, start, (i + 1) as nat, count as nat, next_sequence, *codec);
                }
                return Err(e);
            },
        };
        let refusal = if entry.sequence <= previous || entry.sequence >= next_sequence {
            Some(Error::Malformed)
        } else {
            match codec.inbox.get(&entry) {
                None => Some(Error::InboxRefused),
                Some(taken) => if *taken {
                    None
                } else {
                    Some(Error::Malformed)
                },
            }
        };
        match refusal {
            Some(e) => {
                proof {
                    lemma_entries_stop(plain@, start, (i + 1) as nat, count as nat, next_sequence, *codec);
                }
                return Err(e);
            },
            None => {},
        }
        previous = entry.sequence;
        entries.push(entry);
        assert(views(entries@) =~= before.push(entry@));
        i += 1;
    }
    if position != plain.len() {
        return Err(Error::Malformed);
    }
    Ok(InboxFrame { next_sequence, entries })
}

/// The inbox in a sealed value.
pub open spec fn opened_inbox(sealed: Seq<u8>, keys: NodeKeys, codec: Codec, p: Protocol) -> Result<InboxFrameView, Error> {
    if sealed.len() > 0x40_0000 {
        Err(Error::Malformed)
    } else {
        match opened_for(keys.wrapping_key@, codec.aad(inbox_context(keys.identity_public@)), sealed) {
            Err(e) => Err(e),
            Ok(plain) => inbox_of(plain, codec, p),
        }
    }
}

/// Opens a sealed inbox.
pub fn open_application_inbox(sealed: &[u8], keys: &NodeKeys, codec: &Codec, p: &Protocol) -> (r: Result<InboxFrame, Error>)
    ensures
        same_inbox(r, opened_inbox(sealed@, *keys, *codec, *p)),
{
    if sealed.len() > 0x40_0000 {
        return Err(Error::Malformed);
    }
    let mut plain = match open_for(&keys.wrapping_key, &application_inbox_context(keys), sealed, codec) {
        Ok(plain) => plain,
        Err(e) => {
            return Err(e);
        },
    };
    let r = read_inbox(plain.as_slice(), codec, p);
    wipe(&mut plain);
    r
}

/// How the sealing of machine ownership comes out.
pub open spec fn seals_machine(value: bool, keys: NodeKeys, codec: Codec, r: Result<Vec<u8>, Error>) -> bool {
    sealed_for(
        keys.archive_key@,
        codec.aad(machine_context(keys.identity_public@)),
        seq![if value { 1u8 } else { 0u8 }],
        r,
    )
}

pub fn seal_machine_ownership(value: bool, keys: &NodeKeys, codec: &Codec) -> (r: Result<Vec<u8>, Error>)
    ensures
        seals_machine(value, *keys, *codec, r),
{
    let plain: [u8; 1] = [if value { 1u8 } else { 0u8 }];
    assert(plain@ =~= seq![if value { 1u8 } else { 0u8 }]);
    seal_for(&keys.archive_key, &machine_ownership_context(keys), &plain, codec)
}

/// Whether a sealed value says that the machine owns the node.
pub open spec fn opened_machine(sealed: Seq<u8>, keys: NodeKeys, codec: Codec) -> Result<bool, Error> {
    if sealed.len() > 128 {
        Err(Error::Malformed)
    } else {
        match opened_for(keys.archive_key@, codec.aad(machine_context(keys.identity_public@)), sealed) {
            Err(e) => Err(e),
            Ok(plain) => if plain == seq![0u8] {
                Ok(false)
            } else if plain == seq![1u8] {
                Ok(true)
            } else {
                Err(Error::Malformed)
            },
        }
    }
}

pub fn open_machine_ownership(sealed: &[u8], keys: &NodeKeys, codec: &Codec) -> (r: Result<bool, Error>)
    ensures
        r == opened_machine(sealed@, *keys, *codec),
{
    if sealed.len() > 128 {
        return Err(Error::Malformed);
    }
    let mut plain = match open_for(&keys.archive_key, &machine_ownership_context(keys), sealed, codec) {
        Ok(plain) => plain,
        Err(e) => {
            return Err(e);
        },
    };
    let r = if plain.len() == 1 && plain[0] == 0 {
        assert(plain@ =~= seq![0u8]);
        Ok(false)
    } else if plain.len() == 1 && plain[0] == 1 {
        assert(plain@ =~= seq![1u8]);
        Ok(true)
    } else {
        Err(Error::Malformed)
    };
    wipe(&mut plain);
    r
}

/// The plain bytes of central ownership: a flag, then the partition.
pub open spec fn central_plain(value: Option<CentralView>) -> Seq<u8> {
    match value {
        None => seq![0u8],
        Some(v) => seq![1u8] + rendered::<CentralOwnership>(v, bare()),
    }
}

/// How the sealing of central ownership comes out.
pub open spec fn seals_central(value: Option<CentralView>, keys: NodeKeys, codec: Codec, r: Result<Vec<u8>, Error>) -> bool {
    if value is Some && !codec.partitions_well(value->0) {
        r == Err::<Vec<u8>, Error>(Error::OwnershipRefused)
    } else if value is Some && oversize::<CentralOwnership>(value->0, bare()) is Some {
        r == Err::<Vec<u8>, Error>(oversize::<CentralOwnership>(value->0, bare())->0)
    } else {
        sealed_for(keys.archive_key@, codec.aad(central_context(keys.identity_public@)), central_plain(value), r)
    }
}

pub fn seal_central_ownership(value: &Option<CentralOwnership>, keys: &NodeKeys, codec: &Codec) -> (r: Result<Vec<u8>, Error>)
    ensures
        seals_central(maybe_view(*value), *keys, *codec, r),
{
    let mut plain: Vec<u8> = Vec::new();
    match value {
        Some(value) => {
            if !codec.is_partition(value) {
                return Err(Error::OwnershipRefused);
            }
            plain.push(1);
            match value.put_into(&mut plain, bare_layout()) {
                Ok(()) => {},
                Err(e) => {
                    wipe(&mut plain);
                    return Err(e);
                },
            }
            assert(plain@ =~= central_plain(Some(value@)));
        },
        None => {
            plain.push(0);
            assert(plain@ =~= seq![0u8]);
        },
    }
    let r = seal_for(&keys.archive_key, &central_ownership_context(keys), plain.as_slice(), codec);
    wipe(&mut plain);
    r
}

/// The partition that plain bytes hold.
pub open spec fn central_of(plain: Seq<u8>, codec: Codec) -> Result<Option<CentralView>, Error> {
    if plain == seq![0u8] {
        Ok(None)
    } else if plain.len() == 0 || plain[0] != 1 {
        Err(Error::Malformed)
    } else {
        match reads::<CentralOwnership>(bare(), plain, 1) {
            None => Err(Error::Malformed),
            Some((value, end)) => if !codec.partitions_well(value) {
                Err(Error::OwnershipRefused)
            } else if end != plain.len() {
                Err(Error::Malformed)
            } else {
                Ok(Some(value))
            },
        }
    }
}

/// The partition in a sealed value.
pub open spec fn opened_central(sealed: Seq<u8>, keys: NodeKeys, codec: Codec) -> Result<Option<CentralView>, Error> {
    if sealed.len() > 2048 {
        Err(Error::Malformed)
    } else {
        match opened_for(keys.archive_key@, codec.aad(central_context(keys.identity_public@)), sealed) {
            Err(e) => Err(e),
            Ok(plain) => central_of(plain, codec),
        }
    }
}

pub open spec fn same_central(r: Result<Option<CentralOwnership>, Error>, s: Result<Option<CentralView>, Error>) -> bool {
    match (r, s) {
        (Ok(x), Ok(y)) => maybe_view(x) == y,
        (Err(a), Err(b)) => a == b,
        _ => false,
    }
}

fn read_central(plain: &[u8], codec: &Codec) -> (r: Result<Option<CentralOwnership>, Error>)
    ensures
        same_central(r, central_of(plain@, *codec)),
{
    if plain.len() == 1 && plain[0] == 0 {
        assert(plain@ =~= seq![0u8]);
        return Ok(None);
    }
    assert(plain@ != seq![0u8]);
    if plain.len() == 0 || plain[0] != 1 {
        return Err(Error::Malformed);
    }
    let mut position: usize = 1;
    let value = take_frame::<CentralOwnership>(plain, &mut position, bare_layout())?;
    if !codec.is_partition(&value) {
        return Err(Error::OwnershipRefused);
    }
    if position != plain.len() {
        return Err(Error::Malformed);
    }
    Ok(Some(value))
}

pub fn open_central_ownership(sealed: &[u8], keys: &NodeKeys, codec: &Codec) -> (r: Result<Option<CentralOwnership>, Error>)
    ensures
        same_central(r, opened_central(sealed@, *keys, *codec)),
{
    if sealed.len() > 2048 {
        return Err(Error::Malformed);
    }
    let mut plain = match open_for(&keys.archive_key, &central_ownership_context(keys), sealed, codec) {
        Ok(plain) => plain,
        Err(e) => {
            return Err(e);
        },
    };
    let r = read_central(plain.as_slice(), codec);
    wipe(&mut plain);
    r
}

/// Seals the encoding of the node's transport identity.
pub fn seal_tls_identity(identity: &[u8], keys: &NodeKeys, codec: &Codec) -> (r: Result<Vec<u8>, Error>)
    ensures
        sealed_for(keys.archive_key@, codec.aad(tls_context(keys.identity_public@)), identity@, r),
{
    seal_for(&keys.archive_key, &tls_identity_context(keys), identity, codec)
}

pub open spec fn same_bytes_answer(r: Result<Vec<u8>, Error>, s: Result<Seq<u8>, Error>) -> bool {
    match (r, s) {
        (Ok(x), Ok(y)) => x@ == y,
        (Err(a), Err(b)) => a == b,
        _ => false,
    }
}

/// The encoding in a sealed value of bounded length, where it is a listed one.
pub open spec fn opened_listed(
    sealed: Seq<u8>,
    limit: nat,
    key: Seq<u8>,
    aad: Option<Seq<u8>>,
    listed: Seq<Seq<u8>>,
    otherwise: Error,
) -> Result<Seq<u8>, Error> {
    if sealed.len() > limit {
        Err(Error::Malformed)
    } else {
        match opened_for(key, aad, sealed) {
            Err(e) => Err(e),
            Ok(plain) => if listed.contains(plain) {
                Ok(plain)
            } else {
                Err(otherwise)
            },
        }
    }
}

fn open_listed(
    sealed: &[u8],
    limit: usize,
    key: &[u8; 32],
    context: &SessionContext,
    listed: &Vec<Vec<u8>>,
    otherwise: Error,
    codec: &Codec,
) -> (r: Result<Vec<u8>, Error>)
    ensures
        same_bytes_answer(r, opened_listed(sealed@, limit as nat, key@, codec.aad(context@), views(listed@), otherwise)),
{
    if sealed.len() > limit {
        return Err(Error::Malformed);
    }
    let mut plain = match open_for(key, context, sealed, codec) {
        Ok(plain) => plain,
        Err(e) => {
            return Err(e);
        },
    };
    if !among(listed, &plain) {
        zeroize_bytes(&mut plain);
        return Err(otherwise);
    }
    Ok(plain)
}

/// The encoding of the transport identity in a sealed value.
pub open spec fn opened_tls(sealed: Seq<u8>, keys: NodeKeys, codec: Codec) -> Result<Seq<u8>, Error> {
    opened_listed(
        sealed,
        0x1_0000,
        keys.archive_key@,
        codec.aad(tls_context(keys.identity_public@)),
        views(codec.tls_identities@),
        Error::TlsIdentityRefused,
    )
}

pub fn open_tls_identity(sealed: &[u8], keys: &NodeKeys, codec: &Codec) -> (r: Result<Vec<u8>, Error>)
    ensures
        same_bytes_answer(r, opened_tls(sealed@, *keys, *codec)),
{
    open_listed(
        sealed,
        0x1_0000,
        &keys.archive_key,
        &tls_identity_context(keys),
        &codec.tls_identities,
        Error::TlsIdentityRefused,
        codec,
    )
}

/// The encoding of the routing directory in a sealed value.
pub open spec fn opened_directory(sealed: Seq<u8>, keys: NodeKeys, codec: Codec) -> Result<Seq<u8>, Error> {
    opened_listed(
        sealed,
        0x4000,
        keys.archive_key@,
        codec.aad(routing_view_context(keys.identity_public@)),
        views(codec.directories@),
        Error::DirectoryRefused,
    )
}

pub fn open_routing_directory(sealed: &[u8], keys: &NodeKeys, codec: &Codec) -> (r: Result<Vec<u8>, Error>)
    ensures
        same_bytes_answer(r, opened_directory(sealed@, *keys, *codec)),
{
    open_listed(
        sealed,
        0x4000,
        &keys.archive_key,
        &routing_context(keys),
        &codec.directories,
        Error::DirectoryRefused,
        codec,
    )
}

/// The encoding of the receipt ledger in a sealed value.
pub open spec fn opened_receipts(sealed: Seq<u8>, keys: NodeKeys, codec: Codec, p: Protocol) -> Result<Seq<u8>, Error> {
    if sealed.len() > p.receipts_max + 28 {
        Err(Error::Malformed)
    } else {
        opened_listed(
            sealed,
            sealed.len(),
            keys.archive_key@,
            codec.aad(receipts_context(keys.identity_public@)),
            views(codec.receipts@),
            Error::ReceiptsRefused,
        )
    }
}

pub fn open_receipts(sealed: &[u8], keys: &NodeKeys, codec: &Codec, p: &Protocol) -> (r: Result<Vec<u8>, Error>)
    ensures
        same_bytes_answer(r, opened_receipts(sealed@, *keys, *codec, *p)),
{
    if sealed.len() > 28 && sealed.len() - 28 > p.receipts_max {
        return Err(Error::Malformed);
    }
    open_listed(
        sealed,
        sealed.len(),
        &keys.archive_key,
        &gc2_receipts_context(keys),
        &codec.receipts,
        Error::ReceiptsRefused,
        codec,
    )
}

/// Whether an inbox could have been read: its cursor is in range, and each
/// message follows those before it.
pub open spec fn inbox_in_order(inbox: InboxFrameView, codec: Codec, p: Protocol) -> bool {
    &&& 0 < inbox.next_sequence <= max_cursor()
    &&& inbox.entries.len() <= p.application_inbox_limit
    &&& forall|i: int|
        0 <= i < inbox.entries.len() ==> entry_error(#[trigger] inbox.entries[i], inbox.entries.take(i), inbox.next_sequence, codec) is None
}

proof fn lemma_entries_read(s: Seq<u8>, at: int, n: nat, inbox: InboxFrameView, codec: Codec, p: Protocol)
    requires
        inbox_in_order(inbox, codec, p),
        n <= inbox.entries.len(),
        0 <= at,
        ({
            let ts = trees::<InboxEntryFrame>(inbox.entries, bare());
            let f = InboxEntryFrame::shape(bare());
            &&& crate::record::size_error_all(f, ts, ts.len()) is None
            &&& at + render_all(f, ts, ts.len()).len() <= s.len()
            &&& s.subrange(at, at + render_all(f, ts, ts.len()).len()) == render_all(f, ts, ts.len())
        }),
    ensures
        entries_at(s, at, n, inbox.next_sequence, codec) == Ok::<(Seq<InboxEntryView>, int), Error>(
            (
                inbox.entries.take(n as int),
                at + render_all(InboxEntryFrame::shape(bare()), trees::<InboxEntryFrame>(inbox.entries, bare()), n).len(),
            ),
        ),
    decreases n,
{
    let ts = trees::<InboxEntryFrame>(inbox.entries, bare());
    let f = InboxEntryFrame::shape(bare());
    if n == 0 {
        assert(inbox.entries.take(0) =~= Seq::<InboxEntryView>::empty());
    } else {
        let m = (n - 1) as nat;
        lemma_entries_read(s, at, m, inbox, codec, p);
        let e = inbox.entries[m as int];
        assert(ts[m as int] == InboxEntryFrame::tree(e, bare()));
        crate::record::lemma_all_sizes(f, ts, ts.len());
        lemma_prefix(f, ts, n, ts.len());
        let whole = render_all(f, ts, ts.len());
        let before = render_all(f, ts, m);
        let one = rendered::<InboxEntryFrame>(e, bare());
        assert(render_all(f, ts, n) == before + one);
        let q = at + before.len();
        assert(s.subrange(q, q + one.len()) =~= one) by {
            assert forall|i: int| 0 <= i < one.len() implies s.subrange(q, q + one.len())[i] == one[i] by {
                assert(whole[before.len() + i] == (before + one)[before.len() + i]);
                assert(s.subrange(at, at + whole.len())[before.len() + i] == whole[before.len() + i]);
            }
        }
        written_reads_back::<InboxEntryFrame>(e, bare(), s, q);
        assert(inbox.entries.take(m as int) == inbox.entries.take(n - 1));
        assert(inbox.entries.take(m as int).push(e) =~= inbox.entries.take(n as int));
    }
}

/// The bytes of the first items are a prefix of the bytes of more items.
proof fn lemma_prefix(f: Shape, ts: Seq<Tree>, m: nat, n: nat)
    requires
        m <= n,
    ensures
        render_all(f, ts, m).len() <= render_all(f, ts, n).len(),
        forall|i: int| 0 <= i < render_all(f, ts, m).len() ==> #[trigger] render_all(f, ts, n)[i] == render_all(f, ts, m)[i],
    decreases n,
{
    if m < n {
        lemma_prefix(f, ts, m, (n - 1) as nat);
    }
}

/// The inbox that is sealed is the inbox that opens: the same cursor, and the
/// same messages in the same order. What is sealed is not longer than readers take.
pub proof fn sealed_inbox_opens(inbox: InboxFrameView, keys: NodeKeys, codec: Codec, p: Protocol, sealed: Vec<u8>)
    requires
        seals_inbox(inbox, keys, codec, p, Ok(sealed)),
        inbox_in_order(inbox, codec, p),
        sealed@.len() <= 0x40_0000,
    ensures
        opened_inbox(sealed@, keys, codec, p) == Ok::<InboxFrameView, Error>(inbox),
{
    broadcast use {crate::record::render_then, crate::record::size_then};

    let layout = inbox_layout(p.application_inbox_limit);
    let plain = rendered::<InboxFrame>(inbox, layout);
    let n = inbox.entries.len();
    let f = InboxEntryFrame::shape(layout);
    let ts = trees::<InboxEntryFrame>(inbox.entries, layout);
    assert(f == InboxEntryFrame::shape(bare()));
    assert(ts =~= trees::<InboxEntryFrame>(inbox.entries, bare()));
    let body = render_all(f, ts, n);
    let head = crate::bytes::be_bytes(inbox.next_sequence as nat, 8);
    let count = crate::bytes::be_bytes(n, 4);
    lemma_be_limits();
    assert(crate::record::size_error(
        Shape::Many(p.application_inbox_limit as nat, Box::new(f)),
        Tree::Many(ts),
    ) is None);
    assert(plain =~= head + (count + body));
    crate::bytes::lemma_be_bytes(inbox.next_sequence as nat, 8);
    crate::bytes::lemma_be_bytes(n, 4);
    assert(plain.subrange(0, 8) =~= head);
    assert(plain.subrange(8, 12) =~= count);
    assert(plain.subrange(12, 12int + body.len()) =~= body);
    lemma_entries_read(plain, 12, n, inbox, codec, p);
    assert(inbox.entries.take(n as int) =~= inbox.entries);
}

proof fn lemma_entries_as_written(s: Seq<u8>, at: int, n: nat, inbox: InboxFrameView, codec: Codec)
    requires
        n <= inbox.entries.len(),
        0 <= at,
        ({
            let ts = trees::<InboxEntryFrame>(inbox.entries, bare());
            let f = InboxEntryFrame::shape(bare());
            &&& crate::record::size_error_all(f, ts, ts.len()) is None
            &&& at + render_all(f, ts, ts.len()).len() <= s.len()
            &&& s.subrange(at, at + render_all(f, ts, ts.len()).len()) == render_all(f, ts, ts.len())
        }),
        entries_at(s, at, n, inbox.next_sequence, codec) is Ok,
    ensures
        entries_at(s, at, n, inbox.next_sequence, codec) == Ok::<(Seq<InboxEntryView>, int), Error>(
            (
                inbox.entries.take(n as int),
                at + render_all(InboxEntryFrame::shape(bare()), trees::<InboxEntryFrame>(inbox.entries, bare()), n).len(),
            ),
        ),
    decreases n,
{
    let ts = trees::<InboxEntryFrame>(inbox.entries, bare());
    let f = InboxEntryFrame::shape(bare());
    if n == 0 {
        assert(inbox.entries.take(0) =~= Seq::<InboxEntryView>::empty());
    } else {
        let m = (n - 1) as nat;
        lemma_entries_as_written(s, at, m, inbox, codec);
        let e = inbox.entries[m as int];
        assert(ts[m as int] == InboxEntryFrame::tree(e, bare()));
        crate::record::lemma_all_sizes(f, ts, ts.len());
        lemma_prefix(f, ts, n, ts.len());
        let whole = render_all(f, ts, ts.len());
        let before = render_all(f, ts, m);
        let one = rendered::<InboxEntryFrame>(e, bare());
        assert(render_all(f, ts, n) == before + one);
        let q = at + before.len();
        assert(s.subrange(q, q + one.len()) =~= one) by {
            assert forall|i: int| 0 <= i < one.len() implies s.subrange(q, q + one.len())[i] == one[i] by {
                assert(whole[before.len() + i] == (before + one)[before.len() + i]);
                assert(s.subrange(at, at + whole.len())[before.len() + i] == whole[before.len() + i]);
            }
        }
        crate::record::read_as_written::<InboxEntryFrame>(e, bare(), s, q);
        assert(inbox.entries.take(m as int).push(e) =~= inbox.entries.take(n as int));
    }
}

/// An inbox that opens is the inbox that was sealed.
pub proof fn what_opens_was_sealed(inbox: InboxFrameView, keys: NodeKeys, codec: Codec, p: Protocol, sealed: Vec<u8>)
    requires
        seals_inbox(inbox, keys, codec, p, Ok(sealed)),
        opened_inbox(sealed@, keys, codec, p) is Ok,
    ensures
        opened_inbox(sealed@, keys, codec, p) == Ok::<InboxFrameView, Error>(inbox),
{
    broadcast use {crate::record::render_then, crate::record::size_then};

    let layout = inbox_layout(p.application_inbox_limit);
    let plain = rendered::<InboxFrame>(inbox, layout);
    let n = inbox.entries.len();
    let f = InboxEntryFrame::shape(layout);
    let ts = trees::<InboxEntryFrame>(inbox.entries, layout);
    assert(f == InboxEntryFrame::shape(bare()));
    assert(ts =~= trees::<InboxEntryFrame>(inbox.entries, bare()));
    let body = render_all(f, ts, n);
    let head = crate::bytes::be_bytes(inbox.next_sequence as nat, 8);
    let count = crate::bytes::be_bytes(n, 4);
    lemma_be_limits();
    assert(crate::record::size_error(
        Shape::Many(p.application_inbox_limit as nat, Box::new(f)),
        Tree::Many(ts),
    ) is None);
    assert(plain =~= head + (count + body));
    crate::bytes::lemma_be_bytes(inbox.next_sequence as nat, 8);
    crate::bytes::lemma_be_bytes(n, 4);
    assert(plain.subrange(0, 8) =~= head);
    assert(plain.subrange(8, 12) =~= count);
    assert(plain.subrange(12, 12int + body.len()) =~= body);
    lemma_entries_as_written(plain, 12, n, inbox, codec);
    assert(inbox.entries.take(n as int) =~= inbox.entries);
}

/// What is sealed of the machine's ownership is what opens.
pub proof fn sealed_machine_opens(value: bool, keys: NodeKeys, codec: Codec, sealed: Vec<u8>)
    requires
        seals_machine(value, keys, codec, Ok(sealed)),
    ensures
        opened_machine(sealed@, keys, codec) == Ok::<bool, Error>(value),
{
    assert(seq![1u8][0] != seq![0u8][0]);
}

/// What is sealed of the central partition is what opens. What is sealed is not
/// longer than readers take.
pub proof fn sealed_central_opens(value: Option<CentralView>, keys: NodeKeys, codec: Codec, sealed: Vec<u8>)
    requires
        seals_central(value, keys, codec, Ok(sealed)),
        value is Some ==> CentralOwnership::bounded(value->0, bare()),
        sealed@.len() <= 2048,
    ensures
        opened_central(sealed@, keys, codec) == Ok::<Option<CentralView>, Error>(value),
{
    if value is Some {
        let v = value->0;
        let body = rendered::<CentralOwnership>(v, bare());
        let plain = central_plain(value);
        assert(plain[0] == 1u8);
        assert(plain != seq![0u8]) by {
            assert(seq![0u8][0] == 0u8);
        }
        assert(plain.subrange(1, 1int + body.len()) =~= body);
        written_reads_back::<CentralOwnership>(v, bare(), plain, 1);
    }
}

/// A central partition that opens is the one that was sealed.
pub proof fn what_opens_was_owned(value: Option<CentralView>, keys: NodeKeys, codec: Codec, sealed: Vec<u8>)
    requires
        seals_central(value, keys, codec, Ok(sealed)),
        opened_central(sealed@, keys, codec) is Ok,
    ensures
        opened_central(sealed@, keys, codec) == Ok::<Option<CentralView>, Error>(value),
{
    if value is Some {
        let v = value->0;
        let body = rendered::<CentralOwnership>(v, bare());
        let plain = central_plain(value);
        assert(plain[0] == 1u8);
        assert(plain != seq![0u8]) by {
            assert(seq![0u8][0] == 0u8);
        }
        assert(plain.subrange(1, 1int + body.len()) =~= body);
        crate::record::read_as_written::<CentralOwnership>(v, bare(), plain, 1);
    }
}

} // verus!
