//! What a host has to look at before an archive of the first version can be read.

use vstd::prelude::*;
use crate::archive::{count_at, magic_version, version_of};
use crate::archive_frame::{ChannelHead, MemberFrame, MemberView, SessionFrame};
use crate::archive_strings::{adds, end_of, ended};
use crate::bytes::copy_bytes;
use crate::codec::{Codec, Protocol, RoleFacts, RoleKey};
use crate::error::Error;
use crate::legacy::{all_decode, directory_of, first_layout, layout_one, legacies_at, legacy_at, legacy_decoded, member_route, reads_list, take_list, LegacyReader};
use crate::model::views;
use crate::record::{reads, take_count, take_frame};
use crate::strings::{all_strings, lemma_list, list_all, list_one, none, one, ArchiveString, StringView};
use crate::strings_law::{agree, group_agree, lemma_each};

verus! {

/// What the first `n` members of a channel hold: a route, or the card that stands in
/// for one.
pub open spec fn member_strings(vs: Seq<MemberView>, n: nat) -> Seq<StringView>
    decreases n,
{
    if n == 0 {
        none()
    } else {
        member_strings(vs, (n - 1) as nat) + (one(StringView::Route(vs[n - 1].route)) + one(StringView::Card(vs[n - 1].route)))
    }
}

fn list_members(items: &Vec<MemberFrame>, out: &mut Vec<ArchiveString>)
    ensures
        views(final(out)@) == views(old(out)@) + member_strings(views(items@), items@.len()),
{
    let ghost v = views(items@);
    let ghost start = views(out@);
    let mut i: usize = 0;
    proof {
        lemma_list(start, none(), none());
    }
    while i < items.len()
        invariant
            i <= items.len(),
            v == views(items@),
            views(out@) == start + member_strings(v, i as nat),
        decreases items.len() - i,
    {
        let ghost before = member_strings(v, i as nat);
        list_one(ArchiveString::Route(copy_bytes(items[i].route.as_slice())), out);
        list_one(ArchiveString::Card(copy_bytes(items[i].route.as_slice())), out);
        proof {
            assert(v[i as int] == items@[i as int]@);
            let (a, b) = (one(StringView::Route(v[i as int].route)), one(StringView::Card(v[i as int].route)));
            lemma_list(start + before, a, b);
            lemma_list(start, before, a + b);
        }
        i += 1;
    }
}

/// What a channel holds.
#[verifier::opaque]
pub open spec fn channel_strings(buf: Seq<u8>, at: int) -> Option<(Seq<StringView>, int)> {
    match reads::<ChannelHead>(first_layout(), buf, at) {
        None => None,
        Some((head, q)) => match reads_list::<MemberFrame>(first_layout(), 1024, buf, q) {
            None => None,
            Some((members, end)) => ended(
                one(StringView::Role((head.owner, head.name, head.blob))) + member_strings(members, members.len()),
                end,
            ),
        },
    }
}

fn list_channel(buf: &[u8], position: &mut usize, out: &mut Vec<ArchiveString>) -> (r: Result<(), Error>)
    ensures
        adds(r, views(old(out)@), views(final(out)@), *final(position) as int, channel_strings(buf@, *old(position) as int)),
{
    proof {
        reveal(channel_strings);
    }
    let ghost start = views(out@);
    let head = match take_frame::<ChannelHead>(buf, position, layout_one()) {
        Ok(head) => head,
        Err(e) => {
            return Err(e);
        },
    };
    let members = match take_list::<MemberFrame>(buf, position, 1024, layout_one()) {
        Ok(members) => members,
        Err(e) => {
            return Err(e);
        },
    };
    proof {
        lemma_list(
            start,
            one(StringView::Role((head.owner, head.name@, head.blob@))),
            member_strings(views(members@), members@.len()),
        );
    }
    let ChannelHead { name, public: _, owner, blob } = head;
    list_one(ArchiveString::Role(RoleKey { owner, name, blob }), out);
    list_members(&members, out);
    Ok(())
}

/// What the first `n` channels from a place on hold.
pub open spec fn channels_strings(buf: Seq<u8>, at: int, n: nat) -> Option<(Seq<StringView>, int)>
    decreases n,
{
    if n == 0 {
        ended(none(), at)
    } else {
        match channels_strings(buf, at, (n - 1) as nat) {
            None => None,
            Some((before, q)) => match channel_strings(buf, q) {
                None => None,
                Some((list, end)) => ended(before + list, end),
            },
        }
    }
}

proof fn lemma_channels_none(buf: Seq<u8>, at: int, m: nat, n: nat)
    requires
        m <= n,
        channels_strings(buf, at, m) is None,
    ensures
        channels_strings(buf, at, n) is None,
    decreases n,
{
    if m < n {
        lemma_channels_none(buf, at, m, (n - 1) as nat);
    }
}

/// What an archive of the first version holds that has to be looked at, in the order
/// in which it is read.
pub open spec fn legacy_strings_in(buf: Seq<u8>, p: Protocol) -> Option<Seq<StringView>> {
    if buf.len() < 14 || magic_version(buf) != Some(1u8) {
        None
    } else {
        match reads_list::<SessionFrame>(first_layout(), 8192, buf, 6) {
            None => None,
            Some((sessions, q)) => match count_at(buf, q, p.channel_max as nat) {
                None => None,
                Some((n, q)) => match channels_strings(buf, q, n) {
                    None => None,
                    Some((list, _)) => Some(all_strings::<SessionFrame>(sessions, 1) + list),
                },
            },
        }
    }
}

/// Lists what has to be looked at before an archive of the first version can be read.
/// An archive that gives no list is refused whatever its byte strings mean.
pub fn legacy_strings(buf: &[u8], p: &Protocol) -> (r: Result<Vec<ArchiveString>, Error>)
    ensures
        match legacy_strings_in(buf@, *p) {
            Some(list) => r matches Ok(out) && views(out@) == list,
            None => r matches Err(e) && e == Error::Malformed,
        },
{
    let first = match version_of(buf) {
        Some(version) => version == 1,
        None => false,
    };
    if buf.len() < 14 || !first {
        return Err(Error::Malformed);
    }
    let mut at: usize = 6;
    let sessions = match take_list::<SessionFrame>(buf, &mut at, 8192, layout_one()) {
        Ok(sessions) => sessions,
        Err(e) => {
            return Err(e);
        },
    };
    let count: usize = match take_count(buf, &mut at, p.channel_max) {
        Ok(count) => count,
        Err(e) => {
            return Err(e);
        },
    };
    let mut out: Vec<ArchiveString> = Vec::new();
    assert(views(out@) =~= none());
    list_all(&sessions, 1, &mut out);
    let ghost start = all_strings::<SessionFrame>(views(sessions@), 1);
    let ghost begin = at as int;
    proof {
        lemma_list(start, none(), none());
    }
    let mut i: usize = 0;
    while i < count
        invariant
            i <= count,
            adds(Ok(()), start, views(out@), at as int, channels_strings(buf@, begin, i as nat)),
            legacy_strings_in(buf@, *p) == (match channels_strings(buf@, begin, count as nat) {
                None => None,
                Some((list, _)) => Some(start + list),
            }),
        decreases count - i,
    {
        let ghost q = at as int;
        let ghost before = (channels_strings(buf@, begin, i as nat)->0).0;
        match list_channel(buf, &mut at, &mut out) {
            Ok(()) => {
                proof {
                    lemma_list(start, before, (channel_strings(buf@, q)->0).0);
                }
            },
            Err(e) => {
                proof {
                    lemma_channels_none(buf@, begin, (i + 1) as nat, count as nat);
                }
                return Err(e);
            },
        }
        i += 1;
    }
    Ok(out)
}

/// The directory of a channel is the same to both.
proof fn lemma_directory(s: Seq<MemberView>, n: nat, role: RoleFacts, a: Codec, b: Codec)
    requires
        a.valid_routes == b.valid_routes,
        agree(a, b, member_strings(s, n)),
    ensures
        directory_of(s, n, role, a) == directory_of(s, n, role, b),
    decreases n,
{
    broadcast use group_agree;

    if n > 0 {
        lemma_directory(s, (n - 1) as nat, role, a, b);
        assert(member_route(s[n - 1], role, a) == member_route(s[n - 1], role, b));
    }
}

proof fn lemma_channels<'a>(buf: Seq<u8>, at: int, n: nat, p: &'a Protocol, a: &'a Codec, b: &'a Codec)
    requires
        a.valid_routes == b.valid_routes,
        match channels_strings(buf, at, n) {
            Some((list, _)) => agree(*a, *b, list),
            None => a == b,
        },
    ensures
        ({
            let ra = legacies_at(buf, at, n, LegacyReader { codec: a, p });
            let list = channels_strings(buf, at, n);
            &&& ra == legacies_at(buf, at, n, LegacyReader { codec: b, p })
            &&& ra matches Ok((_, end)) ==> list is Some && end_of(list) == end
        }),
    decreases n,
{
    broadcast use group_agree;

    if n > 0 {
        let m = (n - 1) as nat;
        lemma_channels(buf, at, m, p, a, b);
        match legacies_at(buf, at, m, LegacyReader { codec: a, p }) {
            Ok((_, q)) => {
                reveal(legacy_at);
                reveal(channel_strings);
                match reads::<ChannelHead>(first_layout(), buf, q) {
                    Some((head, q)) => match (
                        a.role(head.owner, head.name, head.blob),
                        reads_list::<MemberFrame>(first_layout(), 1024, buf, q),
                    ) {
                        (Some(role), Some((members, _))) => {
                            lemma_directory(members, members.len(), role, *a, *b);
                        },
                        _ => {},
                    },
                    None => {},
                }
            },
            Err(_) => {},
        }
    }
}

proof fn lemma_legacy<'a>(buf: Seq<u8>, p: &'a Protocol, a: &'a Codec, b: &'a Codec)
    requires
        a.valid_routes == b.valid_routes,
        match legacy_strings_in(buf, *p) {
            Some(list) => agree(*a, *b, list),
            None => a == b,
        },
    ensures
        legacy_decoded(buf, LegacyReader { codec: a, p }) == legacy_decoded(buf, LegacyReader { codec: b, p }),
        legacy_decoded(buf, LegacyReader { codec: a, p }) is Ok ==> legacy_strings_in(buf, *p) is Some,
{
    broadcast use group_agree;

    match reads_list::<SessionFrame>(first_layout(), 8192, buf, 6) {
        Some((sessions, q)) => match count_at(buf, q, p.channel_max as nat) {
            Some((n, q)) => {
                lemma_channels(buf, q, n, p, a, b);
                if legacy_strings_in(buf, *p) is Some {
                    assert forall|i: int| 0 <= i < sessions.len() implies views(a.plain_sessions@).contains(
                        (#[trigger] sessions[i]).sealed,
                    ) == views(b.plain_sessions@).contains(sessions[i].sealed) by {
                        lemma_each::<SessionFrame>(*a, *b, sessions, sessions.len(), 1, i);
                    }
                    assert(all_decode(sessions, *a) == all_decode(sessions, *b));
                }
            },
            None => {},
        },
        None => {},
    }
}

/// What an archive of the first version is read as depends on the meaning of what is
/// listed of it, and on which routes are valid. One of which nothing is listed is
/// refused by every codec.
pub proof fn only_listed_legacy_strings_matter<'a>(buf: Seq<u8>, p: &'a Protocol, a: &'a Codec, b: &'a Codec)
    requires
        a.valid_routes == b.valid_routes,
    ensures
        match legacy_strings_in(buf, *p) {
            Some(list) => agree(*a, *b, list) ==> legacy_decoded(buf, LegacyReader { codec: a, p }) == legacy_decoded(
                buf,
                LegacyReader { codec: b, p },
            ),
            None => legacy_decoded(buf, LegacyReader { codec: a, p }) is Err && legacy_decoded(buf, LegacyReader { codec: b, p }) is Err,
        },
{
    match legacy_strings_in(buf, *p) {
        Some(list) => {
            if agree(*a, *b, list) {
                lemma_legacy(buf, p, a, b);
            }
        },
        None => {
            lemma_legacy(buf, p, a, a);
            lemma_legacy(buf, p, b, b);
        },
    }
}

} // verus!
