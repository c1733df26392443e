//! What a restart keeps.

use vstd::prelude::*;
use crate::archive::{decoded, ArchiveView, Reader};
use crate::archive_frame::{MessageFrame, PendingFrame, PendingView, SealedView};
use crate::archive_item::{all_entries, entries_of, ChannelWriting, Stored, Writing};
use crate::archive_law::{archive_reads_back, readable, reader, restored};
use crate::archive_write::{core_entry, encodes, grants_kept, writing, Writer};
use crate::error::Error;
use crate::model::views;
use crate::node_state::{ChannelMessageOutbox, ChannelState, NodeState, PendingDirect, PreparedChannelJoin};
use crate::record::bytes_view;
use crate::reopen::{reopens, Reopened};
use crate::restore::admitted;
use crate::restore_state::{goes_on, next_of, DirectParts, Host};
use crate::revive::{countable, elapsed_since, left_of, Live, Reviving};
use crate::revive_channel::{holds_all, ids_of, Journals};
use crate::table::Table;

verus! {

/// An item that is kept has its entry.
proof fn lemma_entry_there<W: Copy, S: Stored<W>>(s: Seq<S>, n: nat, w: W, i: int) -> (j: int)
    requires
        0 <= i < n <= s.len(),
        s[i].kept(w),
    ensures
        0 <= j < entries_of(s, n, w).len(),
        entries_of(s, n, w)[j] == s[i].entry(w),
    decreases n,
{
    if i == n - 1 {
        entries_of(s, (n - 1) as nat, w).len() as int
    } else {
        lemma_entry_there(s, (n - 1) as nat, w, i)
    }
}

/// A message that waits for its acknowledgement goes on waiting after a restart,
/// as the same message, unless it is volatile or its time is over.
pub proof fn waiting_messages_survive(
    st: &NodeState,
    w: Writer,
    by: Reviving,
    t: Table<[u8; 16], PendingDirect>,
    i: int,
)
    requires
        0 <= i < st.pending_1to1.entries@.len(),
        st.pending_1to1.entries@[i].kept(writing(st, w)),
        holds_all::<Reviving, PendingFrame>(core_entry(st, w).pending, t, by),
        <PendingFrame as Live<Reviving>>::kept(st.pending_1to1.entries@[i].entry(writing(st, w)), by),
    ensures
        ({
            let (id, before) = st.pending_1to1.entries@[i];
            &&& t.lookup(id@) is Some
            &&& bytes_view(t.lookup(id@)->0.logical_record) == bytes_view(before.logical_record)
            &&& t.lookup(id@)->0.sequence == before.sequence
            &&& t.lookup(id@)->0.application_event == before.application_event
            &&& views(t.lookup(id@)->0.delivery.cells@) == views(before.delivery.cells@)
        }),
{
    let s = st.pending_1to1.entries@;
    let e = writing(st, w);
    let j = lemma_entry_there(s, s.len(), e, i);
    let entries = core_entry(st, w).pending;
    assert(entries[j] == s[i].entry(e));
}

/// From end to end: the archive that a node wrote, reopened by a node with the same
/// codecs, brings back every message that was kept and has time left, as the same
/// message, with all that the node knew of its own standing.
pub proof fn a_restart_goes_on(st: &NodeState, w: Writer, bytes: Vec<u8>, node: NodeState, h: Host, t: Reopened, i: int)
    requires
        encodes(st, w, Ok(bytes)),
        readable(st, w),
        h.keys == w.keys,
        h.codec == w.codec,
        admitted(node, bytes@, Reader { keys: h.keys, codec: h.codec, p: w.p }) == Ok::<ArchiveView, Error>(t.archive@),
        reopens(node, t.archive@, h, w.p, t),
        0 <= i < st.pending_1to1.entries@.len(),
        st.pending_1to1.entries@[i].kept(writing(st, w)),
        ({
            let elapsed_ms = elapsed_since(w.wall_ms, h.wall_ms);
            let by = Reviving { codec: h.codec, relay: &node.owner.client_relay, now: h.now, elapsed_ms, lapsed: &t.parts.lapsed };
            <PendingFrame as Live<Reviving>>::kept(st.pending_1to1.entries@[i].entry(writing(st, w)), by)
        }),
    ensures
        ({
            let (id, before) = st.pending_1to1.entries@[i];
            &&& t.parts.pending.lookup(id@) matches Some(after) && bytes_view(after.logical_record) == bytes_view(
                before.logical_record,
            ) && after.sequence == before.sequence && after.application_event == before.application_event && views(
                after.delivery.cells@,
            ) == views(before.delivery.cells@)
        }),
        t.archive@.core.head.next_direct_sequence == st.next_direct_sequence,
        t.archive@.core.head.local_contact_generation == st.local_contact_generation,
        t.archive@.application_inbox == st.application_inbox.messages@,
        t.archive@.machine_owned == st.application_inbox.machine_owned,
        t.archive@.next_prep_id == st.next_prep_id,
{
    archive_reads_back(st, w, bytes);
    let grants = choose|grants: Seq<SealedView>| #[trigger]
        grants_kept(st.forward_grants@, grants, w) && decoded(bytes@, reader(w)) == Ok::<ArchiveView, Error>(restored(st, grants, w));
    assert(t.archive@ == restored(st, grants, w));
    let elapsed_ms = elapsed_since(w.wall_ms, h.wall_ms);
    let by = Reviving { codec: h.codec, relay: &node.owner.client_relay, now: h.now, elapsed_ms, lapsed: &t.parts.lapsed };
    waiting_messages_survive(st, w, by, t.parts.pending, i);
}

/// Volatile records are never written: whatever an archive keeps of a node's
/// messages, it keeps of none that may only live in memory.
pub proof fn volatile_records_stay_out(st: &NodeState, w: Writer, j: int)
    requires
        0 <= j < core_entry(st, w).pending.len(),
    ensures
        match core_entry(st, w).pending[j].logical {
            Some(record) => !w.codec.is_volatile(record),
            None => true,
        },
{
    let s = st.pending_1to1.entries@;
    lemma_no_volatile(s, s.len(), writing(st, w), j);
}

proof fn lemma_no_volatile(s: Seq<([u8; 16], PendingDirect)>, n: nat, e: Writing, j: int)
    requires
        n <= s.len(),
        0 <= j < entries_of(s, n, e).len(),
    ensures
        match entries_of(s, n, e)[j].logical {
            Some(record) => !e.codec.is_volatile(record),
            None => true,
        },
    decreases n,
{
    if n > 0 {
        let before = entries_of(s, (n - 1) as nat, e);
        if j < before.len() {
            lemma_no_volatile(s, (n - 1) as nat, e, j);
        }
    }
}

/// A message that comes back expires no later than it would have, and is tried no
/// later than it expires.
pub proof fn nothing_outlives_its_time(v: PendingView, by: Reviving, t: PendingDirect)
    requires
        countable(by.now),
        <PendingFrame as Live<Reviving>>::kept(v, by),
        <PendingFrame as Live<Reviving>>::stands_for(v, by, t),
    ensures
        t.expires.nanos - by.now.nanos == (v.expiry_ms - by.elapsed_ms) * 1_000_000,
        by.now.nanos <= t.next_attempt.nanos <= t.expires.nanos,
        by.now.nanos < t.expires.nanos,
{
    let expiry = left_of(v.expiry_ms, by.elapsed_ms);
    let retry = left_of(v.retry_ms, by.elapsed_ms);
    assert(expiry * 1_000_000 <= u64::MAX * 1_000_000) by (nonlinear_arith)
        requires
            expiry <= u64::MAX,
    ;
}

proof fn lemma_next_is_higher(s: Seq<([u8; 16], PendingDirect)>, n: nat, i: int)
    requires
        0 <= i < n <= s.len(),
    ensures
        s[i].1.sequence < next_of(s, n) || next_of(s, n) == u64::MAX,
    decreases n,
{
    if i < n - 1 {
        lemma_next_is_higher(s, (n - 1) as nat, i);
    }
}

/// Numbers are not given twice: after a restart the next number is no lower than
/// the node had, no lower than its archive says, and above that of every message
/// that came back, as long as there are numbers left.
pub proof fn sequences_never_return(
    st: NodeState,
    a: ArchiveView,
    parts: DirectParts,
    joins: Table<u64, PreparedChannelJoin>,
    channels: Table<String, ChannelState>,
    t: NodeState,
)
    requires
        goes_on(st, a, parts, joins, channels, t),
    ensures
        t.next_direct_sequence >= st.next_direct_sequence,
        t.next_direct_sequence >= a.core.head.next_direct_sequence,
        t.local_contact_generation >= st.local_contact_generation,
        t.local_contact_generation >= a.core.head.local_contact_generation,
        forall|i: int|
            0 <= i < parts.pending.entries@.len() ==> (#[trigger] parts.pending.entries@[i]).1.sequence < t.next_direct_sequence
                || t.next_direct_sequence == u64::MAX,
{
    let s = parts.pending.entries@;
    assert forall|i: int| 0 <= i < s.len() implies (#[trigger] s[i]).1.sequence < t.next_direct_sequence || t.next_direct_sequence
        == u64::MAX by {
        lemma_next_is_higher(s, s.len(), i);
    }
}

/// A channel message that waits for its acknowledgements goes on waiting after a
/// restart, with the same text and the same answers.
pub proof fn channel_messages_survive(
    s: Seq<([u8; 16], ChannelMessageOutbox)>,
    w: ChannelWriting,
    by: Journals,
    t: Table<[u8; 16], ChannelMessageOutbox>,
    i: int,
)
    requires
        0 <= i < s.len(),
        holds_all::<Journals, MessageFrame>(all_entries(s, w), t, by),
    ensures
        ({
            let (id, before) = s[i];
            &&& t.lookup(id@) is Some
            &&& t.lookup(id@)->0.wire@ == before.wire@
            &&& t.lookup(id@)->0.acknowledged@ == before.acknowledged@
        }),
{
    let j = lemma_entry_there(s, s.len(), w, i);
    let entry = all_entries(s, w)[j];
    assert(entry == s[i].entry(w));
    assert(ids_of(entry.recipients.acknowledged) =~= s[i].1.acknowledged@);
}

} // verus!
