//! The sealed form of the owner's record.

use vstd::prelude::*;
use vstd::utf8::encode_utf8;
use crate::bytes::{be, be_limit, copy_bytes, id_less, lemma_be, lemma_be_limits, put_bytes, same_bytes, same_id, wipe};
use crate::codec::{Codec, NodeKeys, Protocol};
use crate::error::Error;
use crate::model::{contacts, same_contacts, views, AliasContact, NodeInfo, NodeInfoView, OwnedAliasView, RelayProvision, RelayProvisionView, RelayTarget};
use crate::owner_aliases::{aliases_error, first_active, group_error, groups_error, ids_before, record_error, role_count, spec_active_target, wires, Group, GroupView, Record, RecordView, Role};
use crate::seal::{context_view, open_bytes, opened, seal_bytes, ContextView, SessionContext};
use crate::table::{distinct, lemma_place, lemma_place_is, place, value_views, Table};
use crate::grammar::{both, render, then, Shape, Tree};
use crate::record::{all_bounded, all_plain, conforms_then, lemma_many_fits, lemma_same_array, lemma_same_trees, oversize, parse_then, put32, put_many, put_u64, put_u8, reads, render_then, rendered, size_then, take32, take_array, take_byte, take_frame, take_many, take_u64, trees, written_reads_back, written_as_then, Framed, Layout};

verus! {

/// The layout of records that have only one.
pub open spec fn bare() -> Layout {
    Layout { version: 0, channel_max: 0, channel_ack_limit: 0, forward_grants_max: 0, application_inbox_limit: 0 }
}

pub fn bare_layout() -> (r: Layout)
    ensures
        r == bare(),
{
    Layout { version: 0, channel_max: 0, channel_ack_limit: 0, forward_grants_max: 0, application_inbox_limit: 0 }
}

/// One group as it stands in the sealed record.
#[derive(Debug)]
pub struct GroupFrame {
    pub role: u8,
    pub deadline_ms: u64,
    pub action_ms: u64,
    pub receive_until_ms: u64,
    pub card: Vec<u8>,
    pub original: Vec<u8>,
}

pub struct GroupFrameView {
    pub role: u8,
    pub deadline_ms: u64,
    pub action_ms: u64,
    pub receive_until_ms: u64,
    pub card: Seq<u8>,
    pub original: Seq<u8>,
}

impl View for GroupFrame {
    type V = GroupFrameView;

    open spec fn view(&self) -> GroupFrameView {
        GroupFrameView {
            role: self.role,
            deadline_ms: self.deadline_ms,
            action_ms: self.action_ms,
            receive_until_ms: self.receive_until_ms,
            card: self.card@,
            original: self.original@,
        }
    }
}

impl Framed for GroupFrame {
    open spec fn shape(layout: Layout) -> Shape {
        then(
            Shape::Number(1),
            then(
                Shape::Number(8),
                then(Shape::Number(8), then(Shape::Number(8), then(Shape::Field(4), Shape::Field(4)))),
            ),
        )
    }

    open spec fn tree(v: GroupFrameView, layout: Layout) -> Tree {
        both(
            Tree::Number(v.role as nat),
            both(
                Tree::Number(v.deadline_ms as nat),
                both(
                    Tree::Number(v.action_ms as nat),
                    both(
                        Tree::Number(v.receive_until_ms as nat),
                        both(Tree::Bytes(v.card), Tree::Bytes(v.original)),
                    ),
                ),
            ),
        )
    }

    open spec fn plain(v: GroupFrameView, layout: Layout) -> bool {
        true
    }

    proof fn same_tree(a: GroupFrameView, b: GroupFrameView, layout: Layout) {
        assert(a == b);
    }

    open spec fn bounded(v: GroupFrameView, layout: Layout) -> bool {
        true
    }

    proof fn fits(v: GroupFrameView, layout: Layout) {
        broadcast use {conforms_then, size_then, written_as_then};

        lemma_be_limits();
    }

    fn take_from(buf: &[u8], position: &mut usize, layout: Layout) -> (r: Result<Self, Error>) {
        broadcast use parse_then;

        let role: u8 = take_byte(buf, position)?;
        let deadline_ms: u64 = take_u64(buf, position)?;
        let action_ms: u64 = take_u64(buf, position)?;
        let receive_until_ms: u64 = take_u64(buf, position)?;
        let card = copy_bytes(take32(buf, position)?);
        let original = copy_bytes(take32(buf, position)?);
        Ok(GroupFrame { role, deadline_ms, action_ms, receive_until_ms, card, original })
    }

    fn put_into(&self, out: &mut Vec<u8>, layout: Layout) -> (r: Result<(), Error>) {
        broadcast use {render_then, size_then};

        put_u8(out, self.role);
        put_u64(out, self.deadline_ms);
        put_u64(out, self.action_ms);
        put_u64(out, self.receive_until_ms);
        put32(out, self.card.as_slice())?;
        put32(out, self.original.as_slice())?;
        assert(out@ =~= old(out)@ + render(Self::shape(layout), Self::tree(self@, layout)));
        Ok(())
    }
}

/// One renewal as it stands in the sealed record.
#[derive(Debug)]
pub struct RenewalFrame {
    pub queue: [u8; 32],
    pub wire: Vec<u8>,
}

pub struct RenewalFrameView {
    pub queue: [u8; 32],
    pub wire: Seq<u8>,
}

impl View for RenewalFrame {
    type V = RenewalFrameView;

    open spec fn view(&self) -> RenewalFrameView {
        RenewalFrameView {
            queue: self.queue,
            wire: self.wire@,
        }
    }
}

impl Framed for RenewalFrame {
    open spec fn shape(layout: Layout) -> Shape {
        then(Shape::Fixed(32), Shape::Field(4))
    }

    open spec fn tree(v: RenewalFrameView, layout: Layout) -> Tree {
        both(Tree::Bytes(v.queue@), Tree::Bytes(v.wire))
    }

    open spec fn plain(v: RenewalFrameView, layout: Layout) -> bool {
        true
    }

    proof fn same_tree(a: RenewalFrameView, b: RenewalFrameView, layout: Layout) {
        lemma_same_array::<32>(a.queue, b.queue);
        assert(a == b);
    }

    open spec fn bounded(v: RenewalFrameView, layout: Layout) -> bool {
        true
    }

    proof fn fits(v: RenewalFrameView, layout: Layout) {
        broadcast use {conforms_then, size_then, written_as_then};

    }

    fn take_from(buf: &[u8], position: &mut usize, layout: Layout) -> (r: Result<Self, Error>) {
        broadcast use parse_then;

        let queue = take_array::<32>(buf, position)?;
        let wire = copy_bytes(take32(buf, position)?);
        Ok(RenewalFrame { queue, wire })
    }

    fn put_into(&self, out: &mut Vec<u8>, layout: Layout) -> (r: Result<(), Error>) {
        broadcast use {render_then, size_then};

        put_bytes(out, &self.queue);
        put32(out, self.wire.as_slice())?;
        assert(out@ =~= old(out)@ + render(Self::shape(layout), Self::tree(self@, layout)));
        Ok(())
    }
}

/// The record before it is sealed.
#[derive(Debug)]
pub struct RecordFrame {
    pub version: u8,
    pub captured_ms: u64,
    pub activated_ms: u64,
    pub groups: Vec<GroupFrame>,
    pub renewals: Vec<RenewalFrame>,
}

pub struct RecordFrameView {
    pub version: u8,
    pub captured_ms: u64,
    pub activated_ms: u64,
    pub groups: Seq<GroupFrameView>,
    pub renewals: Seq<RenewalFrameView>,
}

impl View for RecordFrame {
    type V = RecordFrameView;

    open spec fn view(&self) -> RecordFrameView {
        RecordFrameView {
            version: self.version,
            captured_ms: self.captured_ms,
            activated_ms: self.activated_ms,
            groups: views(self.groups@),
            renewals: views(self.renewals@),
        }
    }
}

impl Framed for RecordFrame {
    open spec fn shape(layout: Layout) -> Shape {
        then(
            Shape::Number(1),
            then(
                Shape::Number(8),
                then(
                    Shape::Number(8),
                    then(
                        Shape::Many(16, Box::new(GroupFrame::shape(layout))),
                        Shape::Many(32, Box::new(RenewalFrame::shape(layout))),
                    ),
                ),
            ),
        )
    }

    open spec fn tree(v: RecordFrameView, layout: Layout) -> Tree {
        both(
            Tree::Number(v.version as nat),
            both(
                Tree::Number(v.captured_ms as nat),
                both(
                    Tree::Number(v.activated_ms as nat),
                    both(
                        Tree::Many(trees::<GroupFrame>(v.groups, layout)),
                        Tree::Many(trees::<RenewalFrame>(v.renewals, layout)),
                    ),
                ),
            ),
        )
    }

    open spec fn plain(v: RecordFrameView, layout: Layout) -> bool {
        &&& all_plain::<GroupFrame>(v.groups, layout)
        &&& all_plain::<RenewalFrame>(v.renewals, layout)
    }

    proof fn same_tree(a: RecordFrameView, b: RecordFrameView, layout: Layout) {
        lemma_same_trees::<GroupFrame>(a.groups, b.groups, layout);
        lemma_same_trees::<RenewalFrame>(a.renewals, b.renewals, layout);
        assert(a == b);
    }

    open spec fn bounded(v: RecordFrameView, layout: Layout) -> bool {
        &&& all_bounded::<GroupFrame>(v.groups, 16 as nat, layout)
        &&& all_bounded::<RenewalFrame>(v.renewals, 32 as nat, layout)
    }

    proof fn fits(v: RecordFrameView, layout: Layout) {
        broadcast use {conforms_then, size_then, written_as_then};

        lemma_be_limits();
        lemma_many_fits::<GroupFrame>(v.groups, 16 as nat, layout);
        lemma_many_fits::<RenewalFrame>(v.renewals, 32 as nat, layout);
    }

    fn take_from(buf: &[u8], position: &mut usize, layout: Layout) -> (r: Result<Self, Error>) {
        broadcast use parse_then;

        let version: u8 = take_byte(buf, position)?;
        let captured_ms: u64 = take_u64(buf, position)?;
        let activated_ms: u64 = take_u64(buf, position)?;
        let groups = take_many::<GroupFrame>(buf, position, 16, layout)?;
        let renewals = take_many::<RenewalFrame>(buf, position, 32, layout)?;
        Ok(RecordFrame { version, captured_ms, activated_ms, groups, renewals })
    }

    fn put_into(&self, out: &mut Vec<u8>, layout: Layout) -> (r: Result<(), Error>) {
        broadcast use {render_then, size_then};

        put_u8(out, self.version);
        put_u64(out, self.captured_ms);
        put_u64(out, self.activated_ms);
        put_many(&self.groups, out, Ghost(16 as nat), layout)?;
        put_many(&self.renewals, out, Ghost(32 as nat), layout)?;
        assert(out@ =~= old(out)@ + render(Self::shape(layout), Self::tree(self@, layout)));
        Ok(())
    }
}

pub open spec fn role_code(role: Role) -> u8 {
    match role {
        Role::Active => 1,
        Role::Staged => 2,
        Role::Unannounced => 3,
        Role::Draining => 4,
    }
}

pub open spec fn spec_role_of(code: u8) -> Option<Role> {
    if code == 1 {
        Some(Role::Active)
    } else if code == 2 {
        Some(Role::Staged)
    } else if code == 3 {
        Some(Role::Unannounced)
    } else if code == 4 {
        Some(Role::Draining)
    } else {
        None
    }
}

fn code_of(role: Role) -> (r: u8)
    ensures
        r == role_code(role),
{
    match role {
        Role::Active => 1,
        Role::Staged => 2,
        Role::Unannounced => 3,
        Role::Draining => 4,
    }
}

fn role_of(code: u8) -> (r: Option<Role>)
    ensures
        r == spec_role_of(code),
{
    match code {
        1 => Some(Role::Active),
        2 => Some(Role::Staged),
        3 => Some(Role::Unannounced),
        4 => Some(Role::Draining),
        _ => None,
    }
}

pub open spec fn contact_views(aliases: Seq<OwnedAliasView>) -> Seq<AliasContact> {
    Seq::new(aliases.len(), |i: int| aliases[i].contact)
}

/// The card that carries a group's current aliases.
pub open spec fn group_card(g: GroupView, identity: Seq<u8>) -> NodeInfoView {
    NodeInfoView {
        identity_pk: identity,
        bundle: Seq::empty(),
        aliases: contact_views(g.provision.aliases),
        provisioning: Some(g.provision),
    }
}

pub open spec fn original_provision(g: GroupView) -> RelayProvisionView {
    RelayProvisionView {
        aliases: g.origins,
        frwd_path: g.provision.frwd_path,
        hop_key: g.provision.hop_key,
    }
}

/// The card that carries a group's original operations.
pub open spec fn original_card(g: GroupView, identity: Seq<u8>) -> NodeInfoView {
    NodeInfoView {
        identity_pk: identity,
        bundle: Seq::empty(),
        aliases: contact_views(g.origins),
        provisioning: Some(original_provision(g)),
    }
}

/// Why a group has no frame.
pub open spec fn group_frame_error(g: GroupView, identity: Seq<u8>, codec: Codec) -> Option<Error> {
    match codec.private_encoding(group_card(g, identity)) {
        None => Some(Error::InvalidPrivateCard),
        Some(card) => if card.len() >= be_limit(4) {
            Some(Error::FieldTooLarge)
        } else {
            match codec.private_encoding(original_card(g, identity)) {
                None => Some(Error::InvalidOriginalCard),
                Some(card) => if card.len() >= be_limit(4) {
                    Some(Error::FieldTooLarge)
                } else {
                    None
                },
            }
        },
    }
}

/// Why the first of the first `n` groups without a frame has none.
pub open spec fn frames_error(groups: Seq<GroupView>, n: nat, identity: Seq<u8>, codec: Codec) -> Option<Error>
    decreases n,
{
    if n == 0 {
        None
    } else {
        match frames_error(groups, (n - 1) as nat, identity, codec) {
            Some(e) => Some(e),
            None => group_frame_error(groups[n - 1], identity, codec),
        }
    }
}

/// Whether a frame is that of a group.
pub open spec fn frames_group(f: GroupFrameView, g: GroupView, identity: Seq<u8>, codec: Codec) -> bool {
    &&& f.role == role_code(g.role)
    &&& f.deadline_ms == g.deadline_ms
    &&& f.action_ms == g.action_ms
    &&& f.receive_until_ms == g.receive_until_ms
    &&& codec.private_encoding(group_card(g, identity)) == Some(f.card)
    &&& codec.private_encoding(original_card(g, identity)) == Some(f.original)
}

/// Whether frames list the renewals of a map, each once, in ascending order of
/// queue identifier.
pub open spec fn lists_renewals(s: Seq<RenewalFrameView>, m: Map<Seq<u8>, Seq<u8>>) -> bool {
    &&& forall|i: int, j: int| 0 <= i < j < s.len() ==> be((#[trigger] s[i]).queue@) < be((#[trigger] s[j]).queue@)
    &&& forall|i: int| 0 <= i < s.len() ==> m.dom().contains((#[trigger] s[i]).queue@) && m[s[i].queue@] == s[i].wire
    &&& forall|k: Seq<u8>| #[trigger] m.dom().contains(k) ==> exists|i: int| 0 <= i < s.len() && (#[trigger] s[i]).queue@ == k
}

/// Whether a frame is that of a record.
pub open spec fn frames_record(f: RecordFrameView, r: RecordView, identity: Seq<u8>, codec: Codec) -> bool {
    &&& f.version == 1
    &&& f.captured_ms == r.captured_ms
    &&& f.activated_ms == r.activated_ms
    &&& f.groups.len() == r.groups.len()
    &&& forall|i: int| 0 <= i < r.groups.len() ==> frames_group(#[trigger] f.groups[i], r.groups[i], identity, codec)
    &&& lists_renewals(f.renewals, r.renewals)
}

pub open spec fn owner_context(identity: Seq<u8>) -> ContextView {
    context_view(identity, encode_utf8("owner-aliases"@), encode_utf8("lifecycle"@), encode_utf8("gc1/owner-aliases/v1"@))
}

pub fn owner_aliases_context(keys: &NodeKeys) -> (r: SessionContext)
    ensures
        r@ == owner_context(keys.identity_public@),
{
    SessionContext::of_identity(
        keys.identity_public.as_slice(),
        "owner-aliases".as_bytes(),
        "lifecycle".as_bytes(),
        "gc1/owner-aliases/v1".as_bytes(),
    )
}

pub open spec fn max_record_bytes() -> nat {
    0x4_0000
}

/// How the sealing of a frame comes out.
pub open spec fn sealed_frame(f: RecordFrameView, keys: NodeKeys, codec: Codec, r: Result<Vec<u8>, Error>) -> bool {
    let plain = rendered::<RecordFrame>(f, bare());
    match oversize::<RecordFrame>(f, bare()) {
        Some(e) => r == Err::<Vec<u8>, Error>(e),
        None => if plain.len() > max_record_bytes() {
            r == Err::<Vec<u8>, Error>(Error::RecordTooLarge)
        } else {
            match codec.aad(owner_context(keys.identity_public@)) {
                None => r == Err::<Vec<u8>, Error>(Error::ContextRefused),
                Some(aad) => if aad.len() > crate::seal::gcm_max() {
                    r == Err::<Vec<u8>, Error>(Error::SealFailed)
                } else {
                    r matches Ok(sealed) && sealed@.len() == plain.len() + 28 && opened(
                        keys.archive_key@,
                        aad,
                        sealed@,
                    ) == Ok::<Seq<u8>, Error>(plain)
                },
            }
        },
    }
}

fn frame_group(g: &Group, keys: &NodeKeys, codec: &Codec) -> (r: Result<GroupFrame, Error>)
    ensures
        match r {
            Ok(f) => group_frame_error(g@, keys.identity_public@, *codec) is None && frames_group(f@, g@, keys.identity_public@, *codec),
            Err(e) => group_frame_error(g@, keys.identity_public@, *codec) == Some(e),
        },
{
    proof {
        lemma_be_limits();
    }
    let current = NodeInfo {
        identity_pk: copy_bytes(keys.identity_public.as_slice()),
        bundle: Vec::new(),
        aliases: contacts(&g.provision.aliases),
        provisioning: Some(g.provision.clone()),
    };
    assert(current@.aliases =~= contact_views(g@.provision.aliases));
    assert(current@.bundle =~= Seq::empty());
    assert(current@ == group_card(g@, keys.identity_public@));
    let card = match codec.encode_private(&current) {
        Some(card) => card,
        None => {
            return Err(Error::InvalidPrivateCard);
        },
    };
    if card.len() as u64 >= 0x1_0000_0000 {
        return Err(Error::FieldTooLarge);
    }
    let first = NodeInfo {
        identity_pk: copy_bytes(keys.identity_public.as_slice()),
        bundle: Vec::new(),
        aliases: contacts(&g.origins),
        provisioning: Some(
            RelayProvision {
                aliases: crate::model::copy_aliases(&g.origins),
                frwd_path: g.provision.frwd_path.clone(),
                hop_key: g.provision.hop_key,
            },
        ),
    };
    assert(first@.aliases =~= contact_views(g@.origins));
    assert(first@.bundle =~= Seq::empty());
    assert(first@ == original_card(g@, keys.identity_public@));
    let original = match codec.encode_private(&first) {
        Some(card) => card,
        None => {
            return Err(Error::InvalidOriginalCard);
        },
    };
    if original.len() as u64 >= 0x1_0000_0000 {
        return Err(Error::FieldTooLarge);
    }
    Ok(
        GroupFrame {
            role: code_of(g.role),
            deadline_ms: g.deadline_ms,
            action_ms: g.action_ms,
            receive_until_ms: g.receive_until_ms,
            card,
            original,
        },
    )
}

proof fn lemma_frames_error_stays(groups: Seq<GroupView>, m: nat, n: nat, identity: Seq<u8>, codec: Codec)
    requires
        m <= n,
        frames_error(groups, m, identity, codec) is Some,
    ensures
        frames_error(groups, n, identity, codec) == frames_error(groups, m, identity, codec),
    decreases n,
{
    if m < n {
        lemma_frames_error_stays(groups, m, (n - 1) as nat, identity, codec);
    }
}

fn frame_groups(record: &Record, keys: &NodeKeys, codec: &Codec) -> (r: Result<Vec<GroupFrame>, Error>)
    ensures
        match r {
            Ok(f) => frames_error(record@.groups, record@.groups.len(), keys.identity_public@, *codec) is None && f@.len()
                == record@.groups.len() && forall|i: int|
                0 <= i < f@.len() ==> frames_group((#[trigger] f@[i])@, record@.groups[i], keys.identity_public@, *codec),
            Err(e) => frames_error(record@.groups, record@.groups.len(), keys.identity_public@, *codec) == Some(e),
        },
{
    let ghost gs = record@.groups;
    let mut out: Vec<GroupFrame> = Vec::new();
    let mut i: usize = 0;
    while i < record.groups.len()
        invariant
            i <= record.groups.len(),
            gs == record@.groups,
            out@.len() == i,
            frames_error(gs, i as nat, keys.identity_public@, *codec) is None,
            forall|j: int| 0 <= j < i ==> frames_group((#[trigger] out@[j])@, gs[j], keys.identity_public@, *codec),
        decreases record.groups.len() - i,
    {
        assert(gs[i as int] == record.groups@[i as int]@);
        match frame_group(&record.groups[i], keys, codec) {
            Ok(f) => {
                out.push(f);
            },
            Err(e) => {
                proof {
                    assert(frames_error(gs, (i + 1) as nat, keys.identity_public@, *codec) == Some(e));
                    lemma_frames_error_stays(gs, (i + 1) as nat, gs.len(), keys.identity_public@, *codec);
                }
                return Err(e);
            },
        }
        i += 1;
    }
    Ok(out)
}

/// Puts a renewal of a new queue in its place.
fn insert_renewal(out: &mut Vec<RenewalFrame>, frame: RenewalFrame, Ghost(m): Ghost<Map<Seq<u8>, Seq<u8>>>)
    requires
        lists_renewals(views(old(out)@), m),
        !m.dom().contains(frame.queue@),
    ensures
        lists_renewals(views(final(out)@), m.insert(frame.queue@, frame.wire@)),
{
    let ghost before = views(out@);
    let ghost after = m.insert(frame.queue@, frame.wire@);
    let mut at: usize = 0;
    while at < out.len() && id_less(&out[at].queue, &frame.queue)
        invariant
            at <= out.len(),
            views(out@) == before,
            forall|a: int| 0 <= a < at ==> be((#[trigger] before[a]).queue@) < be(frame.queue@),
        decreases out.len() - at,
    {
        at += 1;
    }
    proof {
        if at < before.len() {
            if be(before[at as int].queue@) == be(frame.queue@) {
                lemma_be(before[at as int].queue@);
                lemma_be(frame.queue@);
                assert(m.dom().contains(before[at as int].queue@));
            }
            assert forall|a: int| at <= a < before.len() implies be(frame.queue@) < be((#[trigger] before[a]).queue@) by {
                if at < a {
                    assert(be(before[at as int].queue@) < be(before[a].queue@));
                }
            }
        }
    }
    out.insert(at, frame);
    proof {
        let now = views(out@);
        assert(now =~= before.insert(at as int, frame@));
        assert forall|a: int, b: int| 0 <= a < b < now.len() implies be((#[trigger] now[a]).queue@) < be((#[trigger] now[b]).queue@) by {
            let x = if a < at { a } else { a - 1 };
            let y = if b < at { b } else { b - 1 };
            if a == at {
                assert(now[b] == before[y]);
            } else if b == at {
                assert(now[a] == before[x]);
            } else {
                assert(now[a] == before[x] && now[b] == before[y]);
            }
        }
        assert forall|a: int| 0 <= a < now.len() implies after.dom().contains((#[trigger] now[a]).queue@) && after[now[a].queue@]
            == now[a].wire by {
            if a != at {
                let x = if a < at { a } else { a - 1 };
                assert(now[a] == before[x]);
                assert(m.dom().contains(before[x].queue@));
            }
        }
        assert forall|k: Seq<u8>| #[trigger] after.dom().contains(k) implies exists|a: int|
            0 <= a < now.len() && (#[trigger] now[a]).queue@ == k by {
            if k == frame.queue@ {
                assert(now[at as int].queue@ == k);
            } else {
                assert(m.dom().contains(k));
                let x = choose|x: int| 0 <= x < before.len() && (#[trigger] before[x]).queue@ == k;
                let a = if x < at { x } else { x + 1 };
                assert(now[a] == before[x]);
            }
        }
    }
}

/// The first `n` entries of a table as a map.
spec fn first_wires(s: Seq<([u8; 32], Vec<u8>)>, n: nat) -> Map<Seq<u8>, Seq<u8>>
    decreases n,
{
    if n == 0 {
        Map::empty()
    } else {
        first_wires(s, (n - 1) as nat).insert(s[n - 1].0@, s[n - 1].1@)
    }
}

proof fn lemma_first_wires(t: Table<[u8; 32], Vec<u8>>, n: nat)
    requires
        t.wf(),
        n <= t.entries@.len(),
    ensures
        forall|k: Seq<u8>| #[trigger] first_wires(t.entries@, n).dom().contains(k) <==> t.keys().take(n as int).contains(k),
        forall|j: int| 0 <= j < n ==> first_wires(t.entries@, n)[#[trigger] t.keys()[j]] == t.entries@[j].1@,
    decreases n,
{
    let ks = t.keys();
    if n > 0 {
        lemma_first_wires(t, (n - 1) as nat);
        let m = first_wires(t.entries@, (n - 1) as nat);
        assert forall|k: Seq<u8>| #[trigger] first_wires(t.entries@, n).dom().contains(k) <==> ks.take(n as int).contains(k) by {
            if ks.take(n - 1).contains(k) {
                let j = ks.take(n - 1).index_of(k);
                assert(ks.take(n as int)[j] == k);
            }
            if ks.take(n as int).contains(k) && k != ks[n - 1] {
                let j = ks.take(n as int).index_of(k);
                assert(ks.take(n - 1)[j] == k);
            }
            assert(ks.take(n as int)[n - 1] == ks[n - 1]);
        }
        assert forall|j: int| 0 <= j < n implies first_wires(t.entries@, n)[#[trigger] ks[j]] == t.entries@[j].1@ by {
            if j < n - 1 {
                assert(ks[j] != ks[n - 1]);
                assert(m[ks[j]] == t.entries@[j].1@);
            }
        }
    }
}

/// The renewals of a table in ascending order of queue identifier.
fn frame_renewals(t: &Table<[u8; 32], Vec<u8>>) -> (r: Vec<RenewalFrame>)
    requires
        t.wf(),
    ensures
        lists_renewals(views(r@), wires(*t)),
{
    let mut out: Vec<RenewalFrame> = Vec::new();
    let mut i: usize = 0;
    while i < t.entries.len()
        invariant
            i <= t.entries.len(),
            t.wf(),
            lists_renewals(views(out@), first_wires(t.entries@, i as nat)),
        decreases t.entries.len() - i,
    {
        let frame = RenewalFrame { queue: t.entries[i].0, wire: copy_bytes(t.entries[i].1.as_slice()) };
        proof {
            lemma_first_wires(*t, i as nat);
            let ks = t.keys();
            if ks.take(i as int).contains(frame.queue@) {
                let j = ks.take(i as int).index_of(frame.queue@);
                assert(ks[j] == ks[i as int]);
            }
        }
        insert_renewal(&mut out, frame, Ghost(first_wires(t.entries@, i as nat)));
        i += 1;
    }
    proof {
        lemma_first_wires(*t, i as nat);
        let ks = t.keys();
        assert(ks.take(i as int) =~= ks);
        let m = first_wires(t.entries@, i as nat);
        assert forall|k: Seq<u8>| #[trigger] wires(*t).dom().contains(k) implies m[k] == wires(*t)[k] by {
            lemma_place(ks, k);
            assert(m[ks[place(ks, k)]] == t.entries@[place(ks, k)].1@);
        }
        assert(m =~= wires(*t));
    }
    out
}

/// How the sealing of a record comes out.
pub open spec fn seals_record(
    record: RecordView,
    target: RelayTarget,
    keys: NodeKeys,
    codec: Codec,
    p: Protocol,
    r: Result<Vec<u8>, Error>,
) -> bool {
    match record_error(record, target, codec, p) {
        Some(e) => r == Err::<Vec<u8>, Error>(e),
        None => match frames_error(record.groups, record.groups.len(), keys.identity_public@, codec) {
            Some(e) => r == Err::<Vec<u8>, Error>(e),
            None => exists|f: RecordFrameView|
                frames_record(f, record, keys.identity_public@, codec) && #[trigger] sealed_frame(f, keys, codec, r),
        },
    }
}

/// The record that sealed bytes hold.
#[verifier::opaque]
pub open spec fn opened_record(bytes: Seq<u8>, keys: NodeKeys, codec: Codec, p: Protocol) -> Result<RecordView, Error> {
    match owner_plain(bytes, keys, codec) {
        Err(e) => Err(e),
        Ok(plain) => read_plain(plain, keys, codec, p),
    }
}

/// Seals a record that is in order for its target.
pub fn seal(record: &Record, target: &RelayTarget, keys: &NodeKeys, codec: &Codec, p: &Protocol) -> (r: Result<Vec<u8>, Error>)
    requires
        record.wf(),
    ensures
        seals_record(record@, *target, *keys, *codec, *p, r),
{
    match record.validate(target, codec, p) {
        Ok(()) => {},
        Err(e) => {
            return Err(e);
        },
    }
    let groups = match frame_groups(record, keys, codec) {
        Ok(groups) => groups,
        Err(e) => {
            return Err(e);
        },
    };
    let frame = RecordFrame {
        version: 1,
        captured_ms: record.captured_ms,
        activated_ms: record.activated_ms,
        groups,
        renewals: frame_renewals(&record.renewals),
    };
    assert(frames_record(frame@, record@, keys.identity_public@, *codec));
    let mut plain: Vec<u8> = Vec::new();
    let ghost whole = rendered::<RecordFrame>(frame@, bare());
    match frame.put_into(&mut plain, bare_layout()) {
        Ok(()) => {},
        Err(e) => {
            wipe(&mut plain);
            let r: Result<Vec<u8>, Error> = Err(e);
            assert(sealed_frame(frame@, *keys, *codec, r));
            return r;
        },
    }
    assert(plain@ =~= whole);
    if plain.len() > 0x4_0000 {
        wipe(&mut plain);
        let r: Result<Vec<u8>, Error> = Err(Error::RecordTooLarge);
        assert(sealed_frame(frame@, *keys, *codec, r));
        return r;
    }
    let r = match codec.context_aad(&owner_aliases_context(keys)) {
        Ok(aad) => seal_bytes(&keys.archive_key, aad.as_slice(), plain.as_slice()),
        Err(e) => Err(e),
    };
    wipe(&mut plain);
    assert(sealed_frame(frame@, *keys, *codec, r));
    r
}

/// What a private card grants, where it is this node's and says nothing else.
pub open spec fn granted(card: Option<NodeInfoView>, identity: Seq<u8>) -> Option<RelayProvisionView> {
    match card {
        Some(info) => match info.provisioning {
            Some(provision) => if info.identity_pk == identity && info.bundle.len() == 0 && info.aliases == contact_views(
                provision.aliases,
            ) {
                Some(provision)
            } else {
                None
            },
            None => None,
        },
        None => None,
    }
}

/// The group that a frame stands for.
pub open spec fn bound_group(f: GroupFrameView, identity: Seq<u8>, codec: Codec) -> Option<GroupView> {
    match (
        spec_role_of(f.role),
        granted(codec.private_card(f.card), identity),
        granted(codec.private_card(f.original), identity),
    ) {
        (Some(role), Some(provision), Some(original)) => if original.frwd_path == provision.frwd_path && original.hop_key
            == provision.hop_key {
            Some(
                GroupView {
                    role,
                    provision,
                    origins: original.aliases,
                    deadline_ms: f.deadline_ms,
                    action_ms: f.action_ms,
                    receive_until_ms: f.receive_until_ms,
                },
            )
        } else {
            None
        },
        _ => None,
    }
}

pub open spec fn renewal_keys(s: Seq<RenewalFrameView>) -> Seq<Seq<u8>> {
    Seq::new(s.len(), |i: int| s[i].queue@)
}

pub open spec fn renewal_map(s: Seq<RenewalFrameView>) -> Map<Seq<u8>, Seq<u8>> {
    Map::new(|k: Seq<u8>| renewal_keys(s).contains(k), |k: Seq<u8>| s[place(renewal_keys(s), k)].wire)
}

/// The record that a frame stands for.
pub open spec fn bound_record(f: RecordFrameView, identity: Seq<u8>, codec: Codec, p: Protocol) -> Option<RecordView> {
    if f.version == 1 && (forall|i: int|
        0 <= i < f.groups.len() ==> bound_group(#[trigger] f.groups[i], identity, codec) is Some) && (forall|i: int|
        0 <= i < f.renewals.len() ==> (#[trigger] f.renewals[i]).wire.len() == p.lease_renew_len) && distinct(
        renewal_keys(f.renewals),
    ) {
        Some(
            RecordView {
                captured_ms: f.captured_ms,
                activated_ms: f.activated_ms,
                groups: Seq::new(f.groups.len(), |i: int| bound_group(f.groups[i], identity, codec)->0),
                renewals: renewal_map(f.renewals),
            },
        )
    } else {
        None
    }
}

/// What comes of a frame: its record, once that is in order for its own target.
pub open spec fn unbound(f: RecordFrameView, identity: Seq<u8>, codec: Codec, p: Protocol) -> Result<RecordView, Error> {
    match bound_record(f, identity, codec, p) {
        None => Err(Error::Malformed),
        Some(r) => match spec_active_target(r.groups, r.groups.len()) {
            None => Err(Error::MissingActiveAliases),
            Some(target) => match record_error(r, target, codec, p) {
                Some(e) => Err(e),
                None => Ok(r),
            },
        },
    }
}

pub open spec fn same_answer(r: Result<Record, Error>, s: Result<RecordView, Error>) -> bool {
    match (r, s) {
        (Ok(x), Ok(y)) => x@ == y && x.wf(),
        (Err(a), Err(b)) => a == b,
        _ => false,
    }
}

/// What is in a sealed record, before it is read.
pub open spec fn owner_plain(bytes: Seq<u8>, keys: NodeKeys, codec: Codec) -> Result<Seq<u8>, Error> {
    if bytes.len() > max_record_bytes() + 64 {
        Err(Error::RecordTooLarge)
    } else {
        match codec.aad(owner_context(keys.identity_public@)) {
            None => Err(Error::ContextRefused),
            Some(aad) => opened(keys.archive_key@, aad, bytes),
        }
    }
}

/// What comes of the plain bytes of a record.
pub open spec fn read_plain(plain: Seq<u8>, keys: NodeKeys, codec: Codec, p: Protocol) -> Result<RecordView, Error> {
    match reads::<RecordFrame>(bare(), plain, 0) {
        Some((f, q)) if q == plain.len() => unbound(f, keys.identity_public@, codec, p),
        _ => Err(Error::Malformed),
    }
}

fn take_grant(card: Option<NodeInfo>, identity: &[u8]) -> (r: Option<RelayProvision>)
    ensures
        match r {
            Some(p) => granted(match card {
                Some(c) => Some(c@),
                None => None,
            }, identity@) == Some(p@),
            None => granted(match card {
                Some(c) => Some(c@),
                None => None,
            }, identity@) is None,
        },
{
    let info = match card {
        Some(info) => info,
        None => {
            return None;
        },
    };
    let NodeInfo { identity_pk, bundle, aliases, provisioning } = info;
    let provision = match provisioning {
        Some(provision) => provision,
        None => {
            return None;
        },
    };
    let named = contacts(&provision.aliases);
    assert(named@ =~= contact_views(provision@.aliases));
    if same_bytes(identity_pk.as_slice(), identity) && bundle.len() == 0 && same_contacts(&aliases, &named) {
        Some(provision)
    } else {
        None
    }
}

fn bind_group(f: &GroupFrame, keys: &NodeKeys, codec: &Codec) -> (r: Option<Group>)
    ensures
        match r {
            Some(g) => bound_group(f@, keys.identity_public@, *codec) == Some(g@),
            None => bound_group(f@, keys.identity_public@, *codec) is None,
        },
{
    let role = match role_of(f.role) {
        Some(role) => role,
        None => {
            return None;
        },
    };
    let provision = match take_grant(codec.decode_private(&f.card), keys.identity_public.as_slice()) {
        Some(provision) => provision,
        None => {
            return None;
        },
    };
    let original = match take_grant(codec.decode_private(&f.original), keys.identity_public.as_slice()) {
        Some(provision) => provision,
        None => {
            return None;
        },
    };
    if original.frwd_path != provision.frwd_path || !same_id(&original.hop_key, &provision.hop_key) {
        return None;
    }
    Some(
        Group {
            role,
            provision,
            origins: original.aliases,
            deadline_ms: f.deadline_ms,
            action_ms: f.action_ms,
            receive_until_ms: f.receive_until_ms,
        },
    )
}

fn bind_groups(f: &RecordFrame, keys: &NodeKeys, codec: &Codec) -> (r: Option<Vec<Group>>)
    ensures
        match r {
            Some(gs) => gs@.len() == f.groups@.len() && forall|i: int|
                0 <= i < gs@.len() ==> bound_group((#[trigger] f.groups@[i])@, keys.identity_public@, *codec) == Some(gs@[i]@),
            None => exists|i: int|
                0 <= i < f.groups@.len() && bound_group((#[trigger] f.groups@[i])@, keys.identity_public@, *codec) is None,
        },
{
    let mut out: Vec<Group> = Vec::new();
    let mut i: usize = 0;
    while i < f.groups.len()
        invariant
            i <= f.groups.len(),
            out@.len() == i,
            forall|j: int|
                0 <= j < i ==> bound_group((#[trigger] f.groups@[j])@, keys.identity_public@, *codec) == Some(out@[j]@),
        decreases f.groups.len() - i,
    {
        match bind_group(&f.groups[i], keys, codec) {
            Some(g) => {
                out.push(g);
            },
            None => {
                assert(bound_group(f.groups@[i as int]@, keys.identity_public@, *codec) is None);
                return None;
            },
        }
        i += 1;
    }
    Some(out)
}

fn bind_renewals(s: &Vec<RenewalFrame>, length: usize) -> (r: Option<Table<[u8; 32], Vec<u8>>>)
    ensures
        match r {
            Some(t) => distinct(renewal_keys(views(s@))) && (forall|i: int|
                0 <= i < s@.len() ==> (#[trigger] s@[i]).wire@.len() == length) && t.wf() && wires(t) == renewal_map(views(s@)),
            None => !distinct(renewal_keys(views(s@))) || exists|i: int| 0 <= i < s@.len() && (#[trigger] s@[i]).wire@.len() != length,
        },
{
    let ghost ks = renewal_keys(views(s@));
    let mut t: Table<[u8; 32], Vec<u8>> = Table::new();
    let mut i: usize = 0;
    while i < s.len()
        invariant
            i <= s.len(),
            ks == renewal_keys(views(s@)),
            t.wf(),
            t.keys() == ks.take(i as int),
            t.entries@.len() == i,
            forall|j: int| 0 <= j < i ==> (#[trigger] s@[j]).wire@.len() == length && t.entries@[j].1@ == s@[j].wire@,
        decreases s.len() - i,
    {
        if s[i].wire.len() != length {
            return None;
        }
        if t.contains_key(&s[i].queue) {
            proof {
                let j = t.keys().index_of(s@[i as int].queue@);
                assert(ks[j] == ks[i as int]);
            }
            return None;
        }
        let ghost before = t.entries@;
        let _ = t.insert(s[i].queue, copy_bytes(s[i].wire.as_slice()));
        assert(t.keys() =~= ks.take(i + 1));
        i += 1;
    }
    proof {
        assert(ks.take(i as int) =~= ks);
        let m = wires(t);
        assert forall|k: Seq<u8>| #[trigger] m.dom().contains(k) implies m[k] == renewal_map(views(s@))[k] by {
            lemma_place(ks, k);
            assert(views(s@)[place(ks, k)].wire == s@[place(ks, k)].wire@);
            assert(s@[place(ks, k)].wire@ == t.entries@[place(ks, k)].1@);
        }
        assert(m =~= renewal_map(views(s@)));
    }
    Some(t)
}

/// The record of a frame, in order for its own target.
fn bind_record(f: RecordFrame, keys: &NodeKeys, codec: &Codec, p: &Protocol) -> (r: Result<Record, Error>)
    ensures
        same_answer(r, unbound(f@, keys.identity_public@, *codec, *p)),
{
    let ghost v0 = f@;
    if f.version != 1 {
        return Err(Error::Malformed);
    }
    let ghost frames_given = f.groups@;
    let ghost renewals_given = f.renewals@;
    let groups = match bind_groups(&f, keys, codec) {
        Some(groups) => groups,
        None => {
            proof {
                let i = choose|i: int| 0 <= i < f.groups@.len() && bound_group((#[trigger] f.groups@[i])@, keys.identity_public@, *codec) is None;
                assert(v0.groups[i] == f.groups@[i]@);
            }
            return Err(Error::Malformed);
        },
    };
    let renewals = match bind_renewals(&f.renewals, p.lease_renew_len) {
        Some(renewals) => renewals,
        None => {
            proof {
                if distinct(renewal_keys(v0.renewals)) {
                    let i = choose|i: int| 0 <= i < f.renewals@.len() && (#[trigger] f.renewals@[i]).wire@.len() != p.lease_renew_len;
                    assert(v0.renewals[i] == f.renewals@[i]@);
                }
            }
            return Err(Error::Malformed);
        },
    };
    let ghost groups_bound = groups@;
    let record = Record { captured_ms: f.captured_ms, activated_ms: f.activated_ms, groups, renewals };
    proof {
        assert forall|i: int| 0 <= i < v0.groups.len() implies bound_group(#[trigger] v0.groups[i], keys.identity_public@, *codec) == Some(
            groups_bound[i]@,
        ) by {
            assert(v0.groups[i] == frames_given[i]@);
        }
        assert forall|i: int| 0 <= i < v0.renewals.len() implies (#[trigger] v0.renewals[i]).wire.len() == p.lease_renew_len by {
            assert(v0.renewals[i] == renewals_given[i]@);
        }
        let v = bound_record(v0, keys.identity_public@, *codec, *p)->0;
        assert(record@.groups =~= v.groups);
        assert(record@ == v);
    }
    let target = match record.active_target() {
        Ok(target) => target,
        Err(e) => {
            return Err(e);
        },
    };
    match record.validate(&target, codec, p) {
        Ok(()) => Ok(record),
        Err(e) => Err(e),
    }
}

/// Reads a record from its plain bytes.
fn read_record(plain: &[u8], keys: &NodeKeys, codec: &Codec, p: &Protocol) -> (r: Result<Record, Error>)
    ensures
        same_answer(r, read_plain(plain@, *keys, *codec, *p)),
{
    let mut position: usize = 0;
    let frame = match take_frame::<RecordFrame>(plain, &mut position, bare_layout()) {
        Ok(frame) => frame,
        Err(e) => {
            return Err(e);
        },
    };
    if position != plain.len() {
        return Err(Error::Malformed);
    }
    bind_record(frame, keys, codec, p)
}

/// Opens a sealed record and holds it to the target that it names itself.
pub fn open_unbound(bytes: &[u8], keys: &NodeKeys, codec: &Codec, p: &Protocol) -> (r: Result<Record, Error>)
    ensures
        same_answer(r, opened_record(bytes@, *keys, *codec, *p)),
{
    proof {
        reveal(opened_record);
    }
    if bytes.len() > 0x4_0000 + 64 {
        return Err(Error::RecordTooLarge);
    }
    let aad = match codec.context_aad(&owner_aliases_context(keys)) {
        Ok(aad) => aad,
        Err(e) => {
            return Err(e);
        },
    };
    let mut plain = match open_bytes(&keys.archive_key, aad.as_slice(), bytes) {
        Ok(plain) => plain,
        Err(e) => {
            return Err(e);
        },
    };
    let r = read_record(plain.as_slice(), keys, codec, p);
    wipe(&mut plain);
    r
}

#[verifier::rlimit(50)]
proof fn lemma_groups_in_order(r: RecordView, n: nat, target: RelayTarget, codec: Codec, p: Protocol)
    requires
        groups_error(r, n, target, codec, p) is None,
    ensures
        forall|i: int|
            0 <= i < n ==> group_error(#[trigger] r.groups[i], r.renewals, target, ids_before(r.groups, i as nat), codec, p) is None,
        ids_before(r.groups, n).len() <= 2 * n,
    decreases n,
{
    if n > 0 {
        lemma_groups_in_order(r, (n - 1) as nat, target, codec, p);
    }
}

proof fn lemma_aliases_in_order(
    g: GroupView,
    n: nat,
    renewals: Map<Seq<u8>, Seq<u8>>,
    target: RelayTarget,
    before: Seq<[u8; 32]>,
    codec: Codec,
    p: Protocol,
)
    requires
        aliases_error(g, n, renewals, target, before, codec, p) is None,
    ensures
        forall|i: int| 0 <= i < n ==> aliases_error(g, (i + 1) as nat, renewals, target, before, codec, p) is None && (
        g.role is Active ==> (#[trigger] g.provision.aliases[i]).contact.target == target),
    decreases n,
{
    if n > 0 {
        lemma_aliases_in_order(g, (n - 1) as nat, renewals, target, before, codec, p);
    }
}

proof fn lemma_some_active(groups: Seq<GroupView>, n: nat)
    requires
        n <= groups.len(),
        role_count(groups, Role::Active, n) > 0,
    ensures
        0 <= first_active(groups, n) < n,
        groups[first_active(groups, n)].role is Active,
    decreases n,
{
    lemma_first_active_range(groups, n);
    if groups[n - 1].role !is Active {
        lemma_some_active(groups, (n - 1) as nat);
    } else {
        lemma_first_active_range(groups, (n - 1) as nat);
    }
}

proof fn lemma_first_active_range(groups: Seq<GroupView>, n: nat)
    ensures
        0 <= first_active(groups, n) <= n,
        first_active(groups, n) < n ==> groups[first_active(groups, n)].role is Active,
    decreases n,
{
    if n > 0 {
        lemma_first_active_range(groups, (n - 1) as nat);
    }
}

/// A record that is in order for a target has its active aliases there.
pub proof fn active_aliases_are_at_the_target(r: RecordView, target: RelayTarget, codec: Codec, p: Protocol)
    requires
        record_error(r, target, codec, p) is None,
    ensures
        spec_active_target(r.groups, r.groups.len()) == Some(target),
{
    let n = r.groups.len();
    lemma_groups_in_order(r, n, target, codec, p);
    lemma_some_active(r.groups, n);
    let i = first_active(r.groups, n);
    let g = r.groups[i];
    assert(group_error(g, r.renewals, target, ids_before(r.groups, i as nat), codec, p) is None);
    lemma_aliases_in_order(g, g.provision.aliases.len(), r.renewals, target, ids_before(r.groups, i as nat), codec, p);
    assert(g.provision.aliases[0].contact.target == target);
}

/// An encoding decodes to what it encodes.
proof fn lemma_private_codec(codec: Codec, card: NodeInfoView)
    requires
        codec.private_cards.wf(),
        codec.private_encoding(card) is Some,
    ensures
        codec.private_card(codec.private_encoding(card)->0) == Some(card),
{
    let s = codec.private_cards.entries@;
    let vs = value_views(s);
    lemma_place(vs, card);
    let i = place(vs, card);
    let ks = codec.private_cards.keys();
    assert(ks[i] == s[i].0@);
    lemma_place_is(ks, ks[i], i);
    assert(ks.contains(ks[i]));
}

proof fn lemma_renewals_listed(s: Seq<RenewalFrameView>, m: Map<Seq<u8>, Seq<u8>>)
    requires
        lists_renewals(s, m),
    ensures
        distinct(renewal_keys(s)),
        renewal_map(s) == m,
{
    let ks = renewal_keys(s);
    assert forall|i: int, j: int| 0 <= i < j < ks.len() implies ks[i] != ks[j] by {
        assert(be(s[i].queue@) < be(s[j].queue@));
    }
    assert forall|k: Seq<u8>| m.dom().contains(k) == #[trigger] ks.contains(k) by {
        if m.dom().contains(k) {
            let i = choose|i: int| 0 <= i < s.len() && (#[trigger] s[i]).queue@ == k;
            assert(ks[i] == k);
        }
        if ks.contains(k) {
            let i = ks.index_of(k);
            assert(s[i].queue@ == k);
        }
    }
    assert forall|k: Seq<u8>| #[trigger] renewal_map(s).dom().contains(k) implies renewal_map(s)[k] == m[k] by {
        lemma_place(ks, k);
        assert(m.dom().contains(s[place(ks, k)].queue@));
    }
    assert(renewal_map(s) =~= m);
}

/// The renewals of a record in order are no more than its queues.
proof fn lemma_renewals_fit(r: RecordView, s: Seq<RenewalFrameView>, target: RelayTarget, codec: Codec, p: Protocol)
    requires
        lists_renewals(s, r.renewals),
        record_error(r, target, codec, p) is None,
    ensures
        s.len() <= 32,
{
    let n = r.groups.len();
    lemma_groups_in_order(r, n, target, codec, p);
    lemma_renewals_listed(s, r.renewals);
    let ks = renewal_keys(s);
    let ids = views(ids_before(r.groups, n));
    assert forall|k: Seq<u8>| ks.to_set().contains(k) implies ids.to_set().contains(k) by {
        let i = ks.index_of(k);
        assert(r.renewals.dom().contains(s[i].queue@));
    }
    assert(ks.no_duplicates()) by {
        assert forall|i: int, j: int| 0 <= i < ks.len() && 0 <= j < ks.len() && i != j implies ks[i] != ks[j] by {
            if i < j {
                assert(ks[i] != ks[j]);
            } else {
                assert(ks[j] != ks[i]);
            }
        }
    }
    ks.unique_seq_to_set();
    ids.lemma_cardinality_of_set();
    vstd::set_lib::lemma_len_subset(ks.to_set(), ids.to_set());
}

proof fn lemma_bound_again(f: RecordFrameView, r: RecordView, target: RelayTarget, keys: NodeKeys, codec: Codec, p: Protocol)
    requires
        frames_record(f, r, keys.identity_public@, codec),
        record_error(r, target, codec, p) is None,
        codec.private_cards.wf(),
        forall|k: Seq<u8>| #[trigger] r.renewals.dom().contains(k) ==> r.renewals[k].len() == p.lease_renew_len,
    ensures
        unbound(f, keys.identity_public@, codec, p) == Ok::<RecordView, Error>(r),
{
    let id = keys.identity_public@;
    assert forall|i: int| 0 <= i < r.groups.len() implies bound_group(#[trigger] f.groups[i], id, codec) == Some(r.groups[i]) by {
        assert(frames_group(f.groups[i], r.groups[i], id, codec));
        lemma_private_codec(codec, group_card(r.groups[i], id));
        lemma_private_codec(codec, original_card(r.groups[i], id));
    }
    lemma_renewals_listed(f.renewals, r.renewals);
    assert forall|i: int| 0 <= i < f.renewals.len() implies (#[trigger] f.renewals[i]).wire.len() == p.lease_renew_len by {
        assert(r.renewals.dom().contains(f.renewals[i].queue@));
    }
    let v = bound_record(f, id, codec, p)->0;
    assert(v.groups =~= r.groups);
    active_aliases_are_at_the_target(r, target, codec, p);
}

/// What was sealed comes back: the plain bytes of a record that was in order
/// read as that record, with all its groups, roles, times and private material.
/// The host's private cards are encodings of one card each, and renewals have
/// the length that the protocol gives them.
pub proof fn sealed_record_reads_back(f: RecordFrameView, r: RecordView, target: RelayTarget, keys: NodeKeys, codec: Codec, p: Protocol)
    requires
        frames_record(f, r, keys.identity_public@, codec),
        record_error(r, target, codec, p) is None,
        oversize::<RecordFrame>(f, bare()) is None,
        codec.private_cards.wf(),
        forall|k: Seq<u8>| #[trigger] r.renewals.dom().contains(k) ==> r.renewals[k].len() == p.lease_renew_len,
    ensures
        read_plain(rendered::<RecordFrame>(f, bare()), keys, codec, p) == Ok::<RecordView, Error>(r),
{
    let plain = rendered::<RecordFrame>(f, bare());
    lemma_renewals_fit(r, f.renewals, target, codec, p);
    assert(plain.subrange(0, plain.len() as int) =~= plain);
    written_reads_back::<RecordFrame>(f, bare(), plain, 0);
    lemma_bound_again(f, r, target, keys, codec, p);
}

/// Opening undoes sealing: whatever was sealed of a record opens as that record.
/// The host's private cards are encodings of one card each, and renewals have
/// the length that the protocol gives them.
pub proof fn opening_undoes_sealing(record: RecordView, target: RelayTarget, keys: NodeKeys, codec: Codec, p: Protocol, sealed: Vec<u8>)
    requires
        seals_record(record, target, keys, codec, p, Ok(sealed)),
        codec.private_cards.wf(),
        forall|k: Seq<u8>| #[trigger] record.renewals.dom().contains(k) ==> record.renewals[k].len() == p.lease_renew_len,
    ensures
        opened_record(sealed@, keys, codec, p) == Ok::<RecordView, Error>(record),
        sealed@.len() >= 28,
{
    reveal(opened_record);
    let s: Result<Vec<u8>, Error> = Ok(sealed);
    let f = choose|f: RecordFrameView|
        frames_record(f, record, keys.identity_public@, codec) && #[trigger] sealed_frame(f, keys, codec, s);
    sealed_record_reads_back(f, record, target, keys, codec, p);
    let plain = rendered::<RecordFrame>(f, bare());
    assert(owner_plain(sealed@, keys, codec) == Ok::<Seq<u8>, Error>(plain));
}

} // verus!
