//! The journals of a channel come back to life.

use vstd::prelude::*;
use crate::archive_check::{body_good, entry_keys, in_order, removal_key, typed_removal_key, ChannelFacts, Checks, Entry};
use crate::archive_frame::{AdmissionFrame, AdmissionView, ArchivedChannel, ArchivedChannelView, ChannelBodyView, CommitAckFrame, CommitAckView, ControlFrame, ControlView, ExpectedView, IdFrame, IdView, InviteFrame, InviteView, MemberFrame, MemberView, MembershipFrame, MembershipView, MessageFrame, MessageView, NameFrame, NameView, RecipientFrame, RecipientView, UnroutedFrame, UnroutedView};
use crate::bytes::copy_bytes;
use crate::codec::Codec;
use crate::model::{views, ChannelRoute, OwnedChannelRoute, OwnedChannelRouteView};
use crate::node_state::{CachedAdmission, ChannelMessageOutbox, ChannelState, ControlWire, InviteRecord, MembershipOutbox, UnroutedAckKey};
use crate::record::{lemma_same_array, maybe_view};
use crate::revive::{all_ready, live_keys, merge, merged, Live};
use crate::table::{distinct, Table};

verus! {

/// What the revival of a channel's journals goes by.
#[derive(Clone, Copy)]
pub struct Journals<'a> {
    pub codec: &'a Codec,
}

/// A table with nothing in it.
pub open spec fn is_empty<K, V>(t: Table<K, V>) -> bool {
    t.entries@.len() == 0
}

/// Whether a table holds what entries come back as, and nothing else.
pub open spec fn holds_all<W: Copy, F: Live<W>>(s: Seq<F::V>, t: Table<F::K, F::T>, w: W) -> bool {
    exists|bare: Table<F::K, F::T>| #[trigger] is_empty(bare) && merged::<W, F>(bare, s, t, w)
}

pub fn revive_table<W: Copy, F: Live<W>>(frames: &Vec<F>, w: W) -> (r: Table<F::K, F::T>)
    requires
        distinct(live_keys::<W, F>(views(frames@))),
        all_ready::<W, F>(views(frames@), w),
    ensures
        r.wf(),
        holds_all::<W, F>(views(frames@), r, w),
{
    let mut table: Table<F::K, F::T> = Table::new();
    let ghost bare = table;
    assert(is_empty(bare));
    merge(&mut table, frames, w);
    table
}

impl<'a> Live<Journals<'a>> for MemberFrame {
    type K = String;

    type T = ChannelRoute;

    open spec fn kept(v: MemberView, w: Journals<'a>) -> bool {
        true
    }

    open spec fn ready(v: MemberView, w: Journals<'a>) -> bool {
        w.codec.route(v.route) is Some
    }

    open spec fn key(v: MemberView) -> Seq<char> {
        v.member
    }

    open spec fn stands_for(v: MemberView, w: Journals<'a>, t: ChannelRoute) -> bool {
        w.codec.route(v.route) == Some(t)
    }

    fn revive(&self, w: Journals<'a>) -> (r: Option<(String, ChannelRoute)>) {
        match w.codec.decode_route(&self.route) {
            Some(route) => Some((self.member.clone(), route)),
            None => None,
        }
    }
}

impl<'a> Live<Journals<'a>> for RecipientFrame {
    type K = [u8; 32];

    type T = ChannelRoute;

    open spec fn kept(v: RecipientView, w: Journals<'a>) -> bool {
        true
    }

    open spec fn ready(v: RecipientView, w: Journals<'a>) -> bool {
        w.codec.route(v.route) is Some
    }

    open spec fn key(v: RecipientView) -> Seq<u8> {
        v.identity@
    }

    open spec fn stands_for(v: RecipientView, w: Journals<'a>, t: ChannelRoute) -> bool {
        w.codec.route(v.route) == Some(t)
    }

    fn revive(&self, w: Journals<'a>) -> (r: Option<([u8; 32], ChannelRoute)>) {
        match w.codec.decode_route(&self.route) {
            Some(route) => Some((self.identity, route)),
            None => None,
        }
    }
}

/// The identifiers in a list.
pub open spec fn ids_of(s: Seq<IdView>) -> Seq<[u8; 32]> {
    Seq::new(s.len(), |i: int| s[i].id)
}

fn revive_ids(ids: &Vec<IdFrame>) -> (r: Vec<[u8; 32]>)
    ensures
        r@ == ids_of(views(ids@)),
{
    let mut out: Vec<[u8; 32]> = Vec::new();
    let mut i: usize = 0;
    while i < ids.len()
        invariant
            i <= ids.len(),
            out@.len() == i,
            forall|j: int| 0 <= j < i ==> out@[j] == ids@[j].id,
        decreases ids.len() - i,
    {
        out.push(ids[i].id);
        i += 1;
    }
    assert(out@ =~= ids_of(views(ids@)));
    out
}

/// Whether recipients can come back.
pub open spec fn recipients_ready(v: ExpectedView, w: Journals) -> bool {
    distinct(live_keys::<Journals, RecipientFrame>(v.expected)) && all_ready::<Journals, RecipientFrame>(v.expected, w)
}

/// Whether those expected and those who answered are the archived ones.
pub open spec fn recipients_are(v: ExpectedView, w: Journals, expected: Table<[u8; 32], ChannelRoute>, acknowledged: Seq<[u8; 32]>) -> bool {
    holds_all::<Journals, RecipientFrame>(v.expected, expected, w) && acknowledged == ids_of(v.acknowledged) && expected.wf()
}

impl<'a> Live<Journals<'a>> for MessageFrame {
    type K = [u8; 16];

    type T = ChannelMessageOutbox;

    open spec fn kept(v: MessageView, w: Journals<'a>) -> bool {
        true
    }

    open spec fn ready(v: MessageView, w: Journals<'a>) -> bool {
        recipients_ready(v.recipients, w)
    }

    open spec fn key(v: MessageView) -> Seq<u8> {
        v.message_id@
    }

    open spec fn stands_for(v: MessageView, w: Journals<'a>, t: ChannelMessageOutbox) -> bool {
        t.wire@ == v.wire && recipients_are(v.recipients, w, t.expected, t.acknowledged@)
    }

    fn revive(&self, w: Journals<'a>) -> (r: Option<([u8; 16], ChannelMessageOutbox)>) {
        let expected = revive_table(&self.recipients.expected, w);
        let acknowledged = revive_ids(&self.recipients.acknowledged);
        Some((self.message_id, ChannelMessageOutbox { wire: copy_bytes(self.wire.as_slice()), expected, acknowledged }))
    }
}

impl<'a> Live<Journals<'a>> for AdmissionFrame {
    type K = [u8; 32];

    type T = CachedAdmission;

    open spec fn kept(v: AdmissionView, w: Journals<'a>) -> bool {
        true
    }

    open spec fn ready(v: AdmissionView, w: Journals<'a>) -> bool {
        true
    }

    open spec fn key(v: AdmissionView) -> Seq<u8> {
        v.request_id@
    }

    open spec fn stands_for(v: AdmissionView, w: Journals<'a>, t: CachedAdmission) -> bool {
        t.name@ == v.name && t.pseudonym == v.pseudonym && t.welcome@ == v.welcome
    }

    fn revive(&self, w: Journals<'a>) -> (r: Option<([u8; 32], CachedAdmission)>) {
        Some(
            (
                self.request_id,
                CachedAdmission {
                    name: self.name.clone(),
                    pseudonym: self.pseudonym,
                    welcome: copy_bytes(self.welcome.as_slice()),
                },
            ),
        )
    }
}

impl<'a> Live<Journals<'a>> for InviteFrame {
    type K = [u8; 16];

    type T = InviteRecord;

    open spec fn kept(v: InviteView, w: Journals<'a>) -> bool {
        true
    }

    open spec fn ready(v: InviteView, w: Journals<'a>) -> bool {
        true
    }

    open spec fn key(v: InviteView) -> Seq<u8> {
        v.invite_id@
    }

    open spec fn stands_for(v: InviteView, w: Journals<'a>, t: InviteRecord) -> bool {
        t.secret == v.secret && t.expiry == v.expiry && t.consumed == v.consumed
    }

    fn revive(&self, w: Journals<'a>) -> (r: Option<([u8; 16], InviteRecord)>) {
        Some((self.invite_id, InviteRecord { secret: self.secret, expiry: self.expiry, consumed: self.consumed }))
    }
}

impl<'a> Live<Journals<'a>> for CommitAckFrame {
    type K = [u8; 16];

    type T = ControlWire;

    open spec fn kept(v: CommitAckView, w: Journals<'a>) -> bool {
        true
    }

    open spec fn ready(v: CommitAckView, w: Journals<'a>) -> bool {
        w.codec.route(v.route) is Some
    }

    open spec fn key(v: CommitAckView) -> Seq<u8> {
        v.message_id@
    }

    open spec fn stands_for(v: CommitAckView, w: Journals<'a>, t: ControlWire) -> bool {
        w.codec.route(v.route) == Some(t.route) && t.wire@ == v.wire
    }

    fn revive(&self, w: Journals<'a>) -> (r: Option<([u8; 16], ControlWire)>) {
        match w.codec.decode_route(&self.route) {
            Some(route) => Some((self.message_id, ControlWire { route, wire: copy_bytes(self.wire.as_slice()) })),
            None => None,
        }
    }
}

impl<'a> Live<Journals<'a>> for UnroutedFrame {
    type K = UnroutedAckKey;

    type T = Vec<u8>;

    open spec fn kept(v: UnroutedView, w: Journals<'a>) -> bool {
        true
    }

    open spec fn ready(v: UnroutedView, w: Journals<'a>) -> bool {
        true
    }

    open spec fn key(v: UnroutedView) -> ([u8; 16], [u8; 32]) {
        (v.original_id, v.sender)
    }

    open spec fn stands_for(v: UnroutedView, w: Journals<'a>, t: Vec<u8>) -> bool {
        t@ == v.wire
    }

    fn revive(&self, w: Journals<'a>) -> (r: Option<(UnroutedAckKey, Vec<u8>)>) {
        Some(
            (
                UnroutedAckKey { original_id: self.original_id, sender_pseudonym: self.sender },
                copy_bytes(self.wire.as_slice()),
            ),
        )
    }
}

/// Whether a membership commit comes back.
pub open spec fn membership_is(o: Option<MembershipView>, w: Journals, t: Option<MembershipOutbox>) -> bool {
    match (o, t) {
        (None, None) => true,
        (Some(v), Some(t)) => {
            &&& t.commit_id == v.commit_id
            &&& t.epoch == v.epoch
            &&& t.commit@ == v.commit
            &&& recipients_are(v.recipients, w, t.expected, t.acknowledged@)
        },
        _ => false,
    }
}

fn revive_membership(o: &Option<MembershipFrame>, w: Journals) -> (r: Option<MembershipOutbox>)
    requires
        maybe_view(*o) is Some ==> recipients_ready(maybe_view(*o)->0.recipients, w),
    ensures
        membership_is(maybe_view(*o), w, r),
{
    match o {
        None => None,
        Some(f) => {
            let expected = revive_table(&f.recipients.expected, w);
            let acknowledged = revive_ids(&f.recipients.acknowledged);
            Some(
                MembershipOutbox {
                    commit_id: f.commit_id,
                    epoch: f.epoch,
                    commit: copy_bytes(f.commit.as_slice()),
                    expected,
                    acknowledged,
                },
            )
        },
    }
}

/// Whether control traffic comes back, in order.
pub open spec fn control_is(s: Seq<ControlView>, w: Journals, t: Seq<ControlWire>) -> bool {
    t.len() == s.len() && forall|i: int|
        0 <= i < s.len() ==> w.codec.route(s[i].route) == Some((#[trigger] t[i]).route) && t[i].wire@ == s[i].wire
}

fn revive_control(s: &Vec<ControlFrame>, w: Journals) -> (r: Vec<ControlWire>)
    requires
        forall|i: int| 0 <= i < s@.len() ==> w.codec.route((#[trigger] views(s@)[i]).route) is Some,
    ensures
        control_is(views(s@), w, r@),
{
    let ghost v = views(s@);
    let mut out: Vec<ControlWire> = Vec::new();
    let mut i: usize = 0;
    while i < s.len()
        invariant
            i <= s.len(),
            v == views(s@),
            forall|i: int| 0 <= i < s@.len() ==> w.codec.route((#[trigger] v[i]).route) is Some,
            out@.len() == i,
            forall|j: int| 0 <= j < i ==> w.codec.route(v[j].route) == Some((#[trigger] out@[j]).route) && out@[j].wire@ == v[j].wire,
        decreases s.len() - i,
    {
        assert(v[i as int] == s@[i as int]@);
        match w.codec.decode_route(&s[i].route) {
            Some(route) => {
                out.push(ControlWire { route, wire: copy_bytes(s[i].wire.as_slice()) });
            },
            None => {},
        }
        i += 1;
    }
    out
}

/// The typed keys of completed removals.
pub open spec fn removals_are(s: Seq<NameView>, c: Checks, t: Seq<String>) -> bool {
    t.len() == s.len() && forall|i: int| 0 <= i < s.len() ==> removal_key(s[i].name, c) == Some((#[trigger] t[i])@)
}

fn revive_removals(s: &Vec<NameFrame>, c: Checks) -> (r: Vec<String>)
    requires
        forall|i: int| 0 <= i < s@.len() ==> removal_key((#[trigger] views(s@)[i]).name, c) is Some,
    ensures
        removals_are(views(s@), c, r@),
{
    let ghost v = views(s@);
    let mut out: Vec<String> = Vec::new();
    let mut i: usize = 0;
    while i < s.len()
        invariant
            i <= s.len(),
            v == views(s@),
            forall|i: int| 0 <= i < s@.len() ==> removal_key((#[trigger] v[i]).name, c) is Some,
            out@.len() == i,
            forall|j: int| 0 <= j < i ==> removal_key(v[j].name, c) == Some((#[trigger] out@[j])@),
        decreases s.len() - i,
    {
        assert(v[i as int] == s@[i as int]@);
        match typed_removal_key(&s[i].name, c) {
            Some(key) => {
                out.push(key);
            },
            None => {},
        }
        i += 1;
    }
    out
}

/// The requests that were answered, in order.
pub open spec fn requests_of(s: Seq<AdmissionView>) -> Seq<[u8; 32]> {
    Seq::new(s.len(), |i: int| s[i].request_id)
}

fn list_requests(s: &Vec<AdmissionFrame>) -> (r: Vec<[u8; 32]>)
    ensures
        r@ == requests_of(views(s@)),
{
    let mut out: Vec<[u8; 32]> = Vec::new();
    let mut i: usize = 0;
    while i < s.len()
        invariant
            i <= s.len(),
            out@.len() == i,
            forall|j: int| 0 <= j < i ==> out@[j] == s@[j].request_id,
        decreases s.len() - i,
    {
        out.push(s[i].request_id);
        i += 1;
    }
    assert(out@ =~= requests_of(views(s@)));
    out
}

/// The invites, in order.
pub open spec fn invitations_of(s: Seq<InviteView>) -> Seq<[u8; 16]> {
    Seq::new(s.len(), |i: int| s[i].invite_id)
}

fn list_invitations(s: &Vec<InviteFrame>) -> (r: Vec<[u8; 16]>)
    ensures
        r@ == invitations_of(views(s@)),
{
    let mut out: Vec<[u8; 16]> = Vec::new();
    let mut i: usize = 0;
    while i < s.len()
        invariant
            i <= s.len(),
            out@.len() == i,
            forall|j: int| 0 <= j < i ==> out@[j] == s@[j].invite_id,
        decreases s.len() - i,
    {
        out.push(s[i].invite_id);
        i += 1;
    }
    assert(out@ =~= invitations_of(views(s@)));
    out
}

/// The acknowledged commits, in order.
pub open spec fn commits_of(s: Seq<CommitAckView>) -> Seq<[u8; 16]> {
    Seq::new(s.len(), |i: int| s[i].message_id)
}

fn list_commits(s: &Vec<CommitAckFrame>) -> (r: Vec<[u8; 16]>)
    ensures
        r@ == commits_of(views(s@)),
{
    let mut out: Vec<[u8; 16]> = Vec::new();
    let mut i: usize = 0;
    while i < s.len()
        invariant
            i <= s.len(),
            out@.len() == i,
            forall|j: int| 0 <= j < i ==> out@[j] == s@[j].message_id,
        decreases s.len() - i,
    {
        out.push(s[i].message_id);
        i += 1;
    }
    assert(out@ =~= commits_of(views(s@)));
    out
}

/// The messages that wait, in order.
pub open spec fn messages_of(s: Seq<MessageView>) -> Seq<[u8; 16]> {
    Seq::new(s.len(), |i: int| s[i].message_id)
}

fn list_messages(s: &Vec<MessageFrame>) -> (r: Vec<[u8; 16]>)
    ensures
        r@ == messages_of(views(s@)),
{
    let mut out: Vec<[u8; 16]> = Vec::new();
    let mut i: usize = 0;
    while i < s.len()
        invariant
            i <= s.len(),
            out@.len() == i,
            forall|j: int| 0 <= j < i ==> out@[j] == s@[j].message_id,
        decreases s.len() - i,
    {
        out.push(s[i].message_id);
        i += 1;
    }
    assert(out@ =~= messages_of(views(s@)));
    out
}

/// The messages whose acknowledgement has no route, in order.
pub open spec fn originals_of(s: Seq<UnroutedView>) -> Seq<[u8; 16]> {
    Seq::new(s.len(), |i: int| s[i].original_id)
}

fn list_originals(s: &Vec<UnroutedFrame>) -> (r: Vec<[u8; 16]>)
    ensures
        r@ == originals_of(views(s@)),
{
    let mut out: Vec<[u8; 16]> = Vec::new();
    let mut i: usize = 0;
    while i < s.len()
        invariant
            i <= s.len(),
            out@.len() == i,
            forall|j: int| 0 <= j < i ==> out@[j] == s@[j].original_id,
        decreases s.len() - i,
    {
        out.push(s[i].original_id);
        i += 1;
    }
    assert(out@ =~= originals_of(views(s@)));
    out
}

/// The acknowledgements without a route, in order.
pub open spec fn unrouted_of(s: Seq<UnroutedView>) -> Seq<([u8; 16], [u8; 32])> {
    Seq::new(s.len(), |i: int| (s[i].original_id, s[i].sender))
}

fn list_unrouted(s: &Vec<UnroutedFrame>) -> (r: Vec<UnroutedAckKey>)
    ensures
        views(r@) == unrouted_of(views(s@)),
{
    let mut out: Vec<UnroutedAckKey> = Vec::new();
    let mut i: usize = 0;
    while i < s.len()
        invariant
            i <= s.len(),
            out@.len() == i,
            forall|j: int| 0 <= j < i ==> (#[trigger] out@[j])@ == (s@[j].original_id, s@[j].sender),
        decreases s.len() - i,
    {
        out.push(UnroutedAckKey { original_id: s[i].original_id, sender_pseudonym: s[i].sender });
        i += 1;
    }
    assert(views(out@) =~= unrouted_of(views(s@)));
    out
}

proof fn lemma_recipient_keys(s: Seq<RecipientView>, c: Checks)
    requires
        in_order::<RecipientFrame>(s, c),
    ensures
        distinct(live_keys::<Journals, RecipientFrame>(s)),
{
    let ks = entry_keys::<RecipientFrame>(s);
    let ls = live_keys::<Journals, RecipientFrame>(s);
    assert forall|i: int, j: int| 0 <= i < j < ls.len() implies ls[i] != ls[j] by {
        assert(ks[i] != ks[j]);
        if ls[i] == ls[j] {
            lemma_same_array(ks[i], ks[j]);
        }
    }
}

proof fn lemma_admission_keys(s: Seq<AdmissionView>, c: Checks)
    requires
        in_order::<AdmissionFrame>(s, c),
    ensures
        distinct(live_keys::<Journals, AdmissionFrame>(s)),
{
    let ks = entry_keys::<AdmissionFrame>(s);
    let ls = live_keys::<Journals, AdmissionFrame>(s);
    assert forall|i: int, j: int| 0 <= i < j < ls.len() implies ls[i] != ls[j] by {
        assert(ks[i] != ks[j]);
        if ls[i] == ls[j] {
            lemma_same_array(ks[i], ks[j]);
        }
    }
}

proof fn lemma_invite_keys(s: Seq<InviteView>, c: Checks)
    requires
        in_order::<InviteFrame>(s, c),
    ensures
        distinct(live_keys::<Journals, InviteFrame>(s)),
{
    let ks = entry_keys::<InviteFrame>(s);
    let ls = live_keys::<Journals, InviteFrame>(s);
    assert forall|i: int, j: int| 0 <= i < j < ls.len() implies ls[i] != ls[j] by {
        assert(ks[i] != ks[j]);
        if ls[i] == ls[j] {
            lemma_same_array(ks[i], ks[j]);
        }
    }
}

proof fn lemma_commit_keys(s: Seq<CommitAckView>, c: Checks)
    requires
        in_order::<CommitAckFrame>(s, c),
    ensures
        distinct(live_keys::<Journals, CommitAckFrame>(s)),
{
    let ks = entry_keys::<CommitAckFrame>(s);
    let ls = live_keys::<Journals, CommitAckFrame>(s);
    assert forall|i: int, j: int| 0 <= i < j < ls.len() implies ls[i] != ls[j] by {
        assert(ks[i] != ks[j]);
        if ls[i] == ls[j] {
            lemma_same_array(ks[i], ks[j]);
        }
    }
}

proof fn lemma_recipients_ready(v: ExpectedView, c: Checks)
    requires
        crate::archive_check::recipients_good(v, c),
    ensures
        recipients_ready(v, Journals { codec: c.codec }),
{
    lemma_recipient_keys(v.expected, c);
    let w = Journals { codec: c.codec };
    assert forall|i: int| 0 <= i < v.expected.len() implies <RecipientFrame as Live<Journals>>::ready(#[trigger] v.expected[i], w) by {
        assert(<RecipientFrame as Entry>::good(v.expected[i], c));
    }
}

/// Whether the journals of a channel can come back.
pub open spec fn body_ready(v: ChannelBodyView, c: Checks) -> bool {
    let w = Journals { codec: c.codec };
    &&& distinct(live_keys::<Journals, MemberFrame>(v.outbox.directory))
    &&& all_ready::<Journals, MemberFrame>(v.outbox.directory, w)
    &&& distinct(live_keys::<Journals, MessageFrame>(v.outbox.messages))
    &&& all_ready::<Journals, MessageFrame>(v.outbox.messages, w)
    &&& v.outbox.membership is Some ==> recipients_ready(v.outbox.membership->0.recipients, w)
    &&& forall|i: int| 0 <= i < v.ledger.control.len() ==> w.codec.route((#[trigger] v.ledger.control[i]).route) is Some
    &&& distinct(live_keys::<Journals, AdmissionFrame>(v.ledger.admissions))
    &&& forall|i: int| 0 <= i < v.ledger.removals.len() ==> removal_key((#[trigger] v.ledger.removals[i]).name, c) is Some
    &&& distinct(live_keys::<Journals, CommitAckFrame>(v.ledger.commit_acks))
    &&& all_ready::<Journals, CommitAckFrame>(v.ledger.commit_acks, w)
    &&& distinct(live_keys::<Journals, UnroutedFrame>(v.ledger.unrouted))
    &&& distinct(live_keys::<Journals, InviteFrame>(v.ledger.invites))
}

/// Journals that are in order can come back.
pub proof fn good_bodies_come_back(v: ChannelBodyView, k: ChannelFacts)
    requires
        body_good(v, k),
    ensures
        body_ready(v, k.c),
{
    reveal(body_good);
    let c = k.c;
    let w = Journals { codec: c.codec };
    let messages = v.outbox.messages;
    let ls = live_keys::<Journals, MessageFrame>(messages);
    assert forall|i: int, j: int| 0 <= i < j < ls.len() implies ls[i] != ls[j] by {
        assert(messages[i].message_id != messages[j].message_id);
        if ls[i] == ls[j] {
            lemma_same_array(messages[i].message_id, messages[j].message_id);
        }
    }
    assert forall|i: int| 0 <= i < messages.len() implies <MessageFrame as Live<Journals>>::ready(#[trigger] messages[i], w) by {
        assert(crate::archive_check::message_good(messages[i], k));
        lemma_recipients_ready(messages[i].recipients, c);
    }
    if v.outbox.membership is Some {
        lemma_recipients_ready(v.outbox.membership->0.recipients, c);
    }
    let members = live_keys::<Journals, MemberFrame>(v.outbox.directory);
    assert forall|i: int, j: int| 0 <= i < j < members.len() implies members[i] != members[j] by {
        assert(v.outbox.directory[i].member != v.outbox.directory[j].member);
    }
    assert forall|i: int| 0 <= i < v.ledger.control.len() implies w.codec.route((#[trigger] v.ledger.control[i]).route) is Some by {
        assert(<ControlFrame as Entry>::good(v.ledger.control[i], c));
    }
    lemma_admission_keys(v.ledger.admissions, c);
    lemma_commit_keys(v.ledger.commit_acks, c);
    assert forall|i: int| 0 <= i < v.ledger.commit_acks.len() implies <CommitAckFrame as Live<Journals>>::ready(
        #[trigger] v.ledger.commit_acks[i],
        w,
    ) by {
        assert(<CommitAckFrame as Entry>::good(v.ledger.commit_acks[i], c));
    }
    let unrouted = live_keys::<Journals, UnroutedFrame>(v.ledger.unrouted);
    assert forall|i: int, j: int| 0 <= i < j < unrouted.len() implies unrouted[i] != unrouted[j] by {
        let a = v.ledger.unrouted[i];
        let b = v.ledger.unrouted[j];
        assert(!(a.original_id == b.original_id && a.sender == b.sender));
    }
    lemma_invite_keys(v.ledger.invites, c);
}

/// Whether a directory is the archived one, with this node's own route in it
/// where the node has a name and the route is valid.
pub open spec fn directory_is(
    s: Seq<MemberView>,
    own_name: Option<Seq<char>>,
    own: ChannelRoute,
    w: Journals,
    t: Table<String, ChannelRoute>,
) -> bool {
    exists|others: Table<String, ChannelRoute>| #[trigger]
        holds_all::<Journals, MemberFrame>(s, others, w) && forall|k: Seq<char>| #[trigger]
            t.lookup(k) == (if own_name == Some(k) && w.codec.validates(own) {
                Some(own)
            } else {
                others.lookup(k)
            })
}

/// Whether a live channel is the archived one, with these routes of its own.
pub open spec fn channel_is(
    a: ArchivedChannelView,
    own: OwnedChannelRouteView,
    previous: Option<OwnedChannelRouteView>,
    c: Checks,
    t: ChannelState,
) -> bool {
    let w = Journals { codec: c.codec };
    let outbox = a.body.outbox;
    let ledger = a.body.ledger;
    &&& t.public == a.head.public
    &&& t.owner == a.head.owner
    &&& t.blob@ == a.head.blob
    &&& t.own_route@ == own
    &&& maybe_view(t.previous_own_route) == previous
    &&& directory_is(outbox.directory, outbox.own_name, own.public, w, t.directory)
    &&& holds_all::<Journals, MessageFrame>(outbox.messages, t.message_outbox, w)
    &&& membership_is(outbox.membership, w, t.membership_outbox)
    &&& control_is(ledger.control, w, t.pending_control@)
    &&& holds_all::<Journals, AdmissionFrame>(ledger.admissions, t.admission_cache, w)
    &&& t.admission_cache_order@ == requests_of(ledger.admissions)
    &&& removals_are(ledger.removals, c, t.completed_removals@)
    &&& holds_all::<Journals, CommitAckFrame>(ledger.commit_acks, t.commit_ack_cache, w)
    &&& t.commit_ack_order@ == commits_of(ledger.commit_acks)
    &&& holds_all::<Journals, UnroutedFrame>(ledger.unrouted, t.unrouted_ack_journal, w)
    &&& views(t.unrouted_ack_order@) == unrouted_of(ledger.unrouted)
    &&& holds_all::<Journals, InviteFrame>(ledger.invites, t.invites, w)
    &&& t.invite_order@ == invitations_of(ledger.invites)
}

fn revive_directory(s: &Vec<MemberFrame>, own_name: &Option<String>, own: &ChannelRoute, w: Journals) -> (r: Table<String, ChannelRoute>)
    requires
        distinct(live_keys::<Journals, MemberFrame>(views(s@))),
        all_ready::<Journals, MemberFrame>(views(s@), w),
    ensures
        r.wf(),
        directory_is(views(s@), maybe_view(*own_name), *own, w, r),
{
    let mut table = revive_table(s, w);
    let ghost others = table;
    assert(holds_all::<Journals, MemberFrame>(views(s@), others, w));
    match own_name {
        Some(name) => {
            if w.codec.is_valid_route(own) {
                table.insert(name.clone(), *own);
            }
        },
        None => {},
    }
    table
}

/// Brings a channel back, with the routes that are now its own.
pub fn restore_channel(a: &ArchivedChannel, own_route: OwnedChannelRoute, previous: Option<OwnedChannelRoute>, c: Checks) -> (r: ChannelState)
    requires
        body_ready(a.body@, c),
    ensures
        channel_is(a@, own_route@, maybe_view(previous), c, r),
        r.directory.wf(),
        r.message_outbox.wf(),
        r.admission_cache.wf(),
        r.commit_ack_cache.wf(),
        r.unrouted_ack_journal.wf(),
        r.invites.wf(),
{
    let w = Journals { codec: c.codec };
    let directory = revive_directory(&a.body.outbox.directory, &a.body.outbox.own_name, &own_route.public, w);
    let message_outbox = revive_table(&a.body.outbox.messages, w);
    let membership_outbox = revive_membership(&a.body.outbox.membership, w);
    let pending_control = revive_control(&a.body.ledger.control, w);
    let admission_cache = revive_table(&a.body.ledger.admissions, w);
    let completed_removals = revive_removals(&a.body.ledger.removals, c);
    let commit_ack_cache = revive_table(&a.body.ledger.commit_acks, w);
    let unrouted_ack_journal = revive_table(&a.body.ledger.unrouted, w);
    let invites = revive_table(&a.body.ledger.invites, w);
    ChannelState {
        public: a.head.public,
        owner: a.head.owner,
        blob: copy_bytes(a.head.blob.as_slice()),
        own_route,
        previous_own_route: previous,
        directory,
        message_outbox,
        membership_outbox,
        pending_control,
        admission_cache,
        admission_cache_order: list_requests(&a.body.ledger.admissions),
        completed_removals,
        commit_ack_cache,
        commit_ack_order: list_commits(&a.body.ledger.commit_acks),
        unrouted_ack_journal,
        unrouted_ack_order: list_unrouted(&a.body.ledger.unrouted),
        invites,
        invite_order: list_invitations(&a.body.ledger.invites),
    }
}

/// The identifiers of what a channel has seen before it was archived: messages
/// that wait, a commit that waits, commits it acknowledged, and messages whose
/// acknowledgement has no route.
pub open spec fn sighted(v: ChannelBodyView) -> Seq<[u8; 16]> {
    messages_of(v.outbox.messages) + (match v.outbox.membership {
        Some(m) => seq![m.commit_id],
        None => Seq::empty(),
    }) + commits_of(v.ledger.commit_acks) + originals_of(v.ledger.unrouted)
}

/// What the overlay of a restored channel must know as seen.
pub fn sightings(a: &ArchivedChannel) -> (r: Vec<[u8; 16]>)
    ensures
        r@ == sighted(a@.body),
{
    let mut out = list_messages(&a.body.outbox.messages);
    match &a.body.outbox.membership {
        Some(m) => {
            out.push(m.commit_id);
        },
        None => {},
    }
    let mut more = list_commits(&a.body.ledger.commit_acks);
    out.append(&mut more);
    let mut more = list_originals(&a.body.ledger.unrouted);
    out.append(&mut more);
    assert(out@ =~= sighted(a@.body));
    out
}

} // verus!
