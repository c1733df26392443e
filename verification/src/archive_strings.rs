//! What a host has to look at before an archive can be read.
//!
//! The grammar of an archive, and what its sealed parts hold, do not depend on what
//! the byte strings in it mean. So they can be listed first.

use vstd::prelude::*;
use crate::archive::{count_at, field_at, layout_for, layout_of, magic_version, max_archive, number_at, option_at, version_of};
use crate::archive_check::{number_core, numbered};
use crate::archive_frame::{CentralOwnership, ChannelBody, ChannelHead, CoreFrame, InboxEntryFrame, NameFrame, OwnedRouteFrame, PolicyFrame, PreparedFrame, SealedFrame, SealedView};
use crate::bytes::{copy_bytes, wipe};
use crate::channel_route::{open_under, opened_for, prepared_context, prepared_route_context, route_context, unified_context};
use crate::codec::{aad_in, aad_of, text_aad, NodeKeys, Protocol, RoleFacts, RoleKey};
use crate::error::Error;
use crate::model::{views, Cell};
use crate::owner_record::{bare, bare_layout, owner_aliases_context, owner_context, GroupFrame, RecordFrame};
use crate::record::{bytes_view, reads, take32, take_count, take_frame, take_opt32, take_u64};
use crate::seal::{open_bytes, opened, ContextView, SessionContext};
use crate::sealed_parts::{application_inbox_context, central_context, central_ownership_context, forward_grant_context, gc2_receipts_context, grant_context, inbox_context, machine_context, machine_ownership_context, receipts_context, routing_context, routing_view_context, tls_context, tls_identity_context};
use crate::strings::{all_strings, body_strings, core_strings, lemma_list, list_all, list_body, list_core, list_one, none, one, ArchiveString, StringView, Stringed};
use crate::table::Table;

verus! {

/// What the listing is done with.
#[derive(Clone, Copy)]
pub struct Source<'a> {
    pub keys: &'a NodeKeys,
    pub contexts: &'a Table<SessionContext, Vec<u8>>,
    pub p: &'a Protocol,
}

/// A list and where the part that it is of ends.
pub open spec fn ended(list: Seq<StringView>, end: int) -> Option<(Seq<StringView>, int)> {
    Some((list, end))
}

/// Whether a list was added to another, or the part could not be read.
pub open spec fn adds(r: Result<(), Error>, before: Seq<StringView>, after: Seq<StringView>, position: int, s: Option<(Seq<StringView>, int)>) -> bool {
    match s {
        Some((list, end)) => r is Ok && after == before + list && position == end,
        None => r == Err::<(), Error>(Error::Malformed),
    }
}

/// Whether a list was added to another, or a sealed value could not be read.
pub open spec fn gives(r: Result<(), Error>, before: Seq<StringView>, after: Seq<StringView>, s: Option<Seq<StringView>>) -> bool {
    match s {
        Some(list) => r is Ok && after == before + list,
        None => r == Err::<(), Error>(Error::Malformed),
    }
}

/// What a sealed value of a context holds.
pub open spec fn unsealed(key: Seq<u8>, context: ContextView, sealed: Seq<u8>, x: Source) -> Option<Seq<u8>> {
    match opened_for(key, aad_in(*x.contexts, context), sealed) {
        Ok(plain) => Some(plain),
        Err(_) => None,
    }
}

fn unseal(key: &[u8; 32], context: &SessionContext, sealed: &[u8], x: Source) -> (r: Option<Vec<u8>>)
    ensures
        bytes_view(r) == unsealed(key@, context@, sealed@, x),
{
    match open_under(key, context, sealed, x.contexts) {
        Ok(plain) => Some(plain),
        Err(_) => None,
    }
}

/// What the plain bytes of a channel's own route hold.
pub open spec fn route_strings(plain: Seq<u8>) -> Seq<StringView> {
    match reads::<OwnedRouteFrame>(bare(), plain, 0) {
        Some((f, q)) if q == plain.len() => one(StringView::Route(f.public)) + (one(StringView::Cell(f.data.lease_create)) + one(
            StringView::Cell(f.control.lease_create),
        )),
        _ => none(),
    }
}

fn list_route(plain: &[u8], out: &mut Vec<ArchiveString>)
    ensures
        views(final(out)@) == views(old(out)@) + route_strings(plain@),
{
    let ghost start = views(out@);
    proof {
        lemma_list(start, none(), none());
    }
    let mut position: usize = 0;
    match take_frame::<OwnedRouteFrame>(plain, &mut position, bare_layout()) {
        Ok(frame) => {
            if position == plain.len() {
                let ghost f = frame@;
                let OwnedRouteFrame { public, data, control } = frame;
                list_one(ArchiveString::Route(public), out);
                list_one(ArchiveString::Cell(data.lease_create), out);
                list_one(ArchiveString::Cell(control.lease_create), out);
                proof {
                    let (a, b, c) = (
                        one(StringView::Route(f.public)),
                        one(StringView::Cell(f.data.lease_create)),
                        one(StringView::Cell(f.control.lease_create)),
                    );
                    lemma_list(start + a, b, c);
                    lemma_list(start, a, b + c);
                }
            }
        },
        Err(_) => {},
    }
}

/// What a sealed route holds under one text of a context.
pub open spec fn route_under(sealed: Seq<u8>, text: Seq<u8>, x: Source) -> Seq<StringView> {
    match opened(x.keys.archive_key@, aad_of(text), sealed) {
        Ok(plain) => route_strings(plain),
        Err(_) => none(),
    }
}

/// What a sealed route holds under the first `n` contexts. Which context a route is
/// sealed to depends on a role or a join, so each is tried.
pub open spec fn routes_under(sealed: Seq<u8>, n: nat, x: Source) -> Seq<StringView>
    decreases n,
{
    if n == 0 {
        none()
    } else {
        routes_under(sealed, (n - 1) as nat, x) + route_under(sealed, x.contexts.entries@[n - 1].1@, x)
    }
}

pub open spec fn sealed_route_strings(sealed: Seq<u8>, x: Source) -> Seq<StringView> {
    routes_under(sealed, x.contexts.entries@.len(), x)
}

fn list_sealed_route(sealed: &[u8], x: Source, out: &mut Vec<ArchiveString>)
    ensures
        views(final(out)@) == views(old(out)@) + sealed_route_strings(sealed@, x),
{
    let ghost start = views(out@);
    let mut i: usize = 0;
    proof {
        lemma_list(start, none(), none());
    }
    while i < x.contexts.entries.len()
        invariant
            i <= x.contexts.entries.len(),
            views(out@) == start + routes_under(sealed@, i as nat, x),
        decreases x.contexts.entries.len() - i,
    {
        let ghost before = routes_under(sealed@, i as nat, x);
        proof {
            lemma_list(start + before, none(), none());
        }
        match open_bytes(&x.keys.archive_key, text_aad(&x.contexts.entries[i].1).as_slice(), sealed) {
            Ok(plain) => {
                let mut plain = plain;
                list_route(plain.as_slice(), out);
                wipe(&mut plain);
            },
            Err(_) => {},
        }
        proof {
            lemma_list(start, before, route_under(sealed@, x.contexts.entries@[i as int].1@, x));
        }
        i += 1;
    }
}

/// What the optional sealed route at a place holds.
pub open spec fn option_strings(buf: Seq<u8>, at: int, x: Source) -> Option<(Seq<StringView>, int)> {
    match option_at(buf, at) {
        None => None,
        Some((None, q)) => ended(none(), q),
        Some((Some(sealed), q)) => ended(sealed_route_strings(sealed, x), q),
    }
}

fn list_option(buf: &[u8], position: &mut usize, x: Source, out: &mut Vec<ArchiveString>) -> (r: Result<(), Error>)
    ensures
        adds(r, views(old(out)@), views(final(out)@), *final(position) as int, option_strings(buf@, *old(position) as int, x)),
{
    proof {
        lemma_list(views(out@), none(), none());
    }
    match take_opt32(buf, position) {
        Ok(Some(sealed)) => {
            list_sealed_route(sealed.as_slice(), x, out);
            Ok(())
        },
        Ok(None) => Ok(()),
        Err(e) => Err(e),
    }
}

/// What the routes beside a channel's role hold, in the version that keeps them there.
pub open spec fn inline_strings(buf: Seq<u8>, at: int, version: u8, x: Source) -> Option<(Seq<StringView>, int)> {
    if version != 17 {
        ended(none(), at)
    } else {
        match field_at(buf, at) {
            None => None,
            Some((sealed, q)) => match option_strings(buf, q, x) {
                None => None,
                Some((list, end)) => ended(sealed_route_strings(sealed, x) + list, end),
            },
        }
    }
}

fn list_inline(buf: &[u8], position: &mut usize, version: u8, x: Source, out: &mut Vec<ArchiveString>) -> (r: Result<(), Error>)
    ensures
        adds(r, views(old(out)@), views(final(out)@), *final(position) as int, inline_strings(buf@, *old(position) as int, version, x)),
{
    let ghost start = views(out@);
    proof {
        lemma_list(start, none(), none());
    }
    if version != 17 {
        return Ok(());
    }
    let sealed = match take32(buf, position) {
        Ok(sealed) => sealed,
        Err(e) => {
            return Err(e);
        },
    };
    list_sealed_route(sealed, x, out);
    let ghost at = *position as int;
    let r = list_option(buf, position, x, out);
    proof {
        if r is Ok {
            lemma_list(start, sealed_route_strings(sealed@, x), (option_strings(buf@, at, x)->0).0);
        }
    }
    r
}

/// What a channel holds.
#[verifier::opaque]
pub open spec fn channel_strings(buf: Seq<u8>, at: int, version: u8, x: Source) -> Option<(Seq<StringView>, int)> {
    let layout = layout_of(version, *x.p);
    match reads::<ChannelHead>(layout, buf, at) {
        None => None,
        Some((head, q)) => match inline_strings(buf, q, version, x) {
            None => None,
            Some((inline, q)) => match reads::<ChannelBody>(layout, buf, q) {
                None => None,
                Some((body, end)) => ended(
                    one(StringView::Role((head.owner, head.name, head.blob))) + (inline + body_strings(body, head.name, version)),
                    end,
                ),
            },
        },
    }
}

fn list_channel(buf: &[u8], position: &mut usize, version: u8, x: Source, out: &mut Vec<ArchiveString>) -> (r: Result<(), Error>)
    ensures
        adds(r, views(old(out)@), views(final(out)@), *final(position) as int, channel_strings(buf@, *old(position) as int, version, x)),
{
    proof {
        reveal(channel_strings);
    }
    let ghost start = views(out@);
    let head = match take_frame::<ChannelHead>(buf, position, layout_for(version, x.p)) {
        Ok(head) => head,
        Err(e) => {
            return Err(e);
        },
    };
    list_one(
        ArchiveString::Role(RoleKey { owner: head.owner, name: head.name.clone(), blob: copy_bytes(head.blob.as_slice()) }),
        out,
    );
    let ghost at = *position as int;
    match list_inline(buf, position, version, x, out) {
        Ok(()) => {},
        Err(e) => {
            return Err(e);
        },
    }
    let body = match take_frame::<ChannelBody>(buf, position, layout_for(version, x.p)) {
        Ok(body) => body,
        Err(e) => {
            return Err(e);
        },
    };
    list_body(&body, &head.name, version, out);
    proof {
        let (a, b, c) = (
            one(StringView::Role((head.owner, head.name@, head.blob@))),
            (inline_strings(buf@, at, version, x)->0).0,
            body_strings(body@, head.name@, version),
        );
        lemma_list(start + a, b, c);
        lemma_list(start, a, b + c);
    }
    Ok(())
}

/// What the first `n` channels from a place on hold.
pub open spec fn channels_strings(buf: Seq<u8>, at: int, n: nat, version: u8, x: Source) -> Option<(Seq<StringView>, int)>
    decreases n,
{
    if n == 0 {
        ended(none(), at)
    } else {
        match channels_strings(buf, at, (n - 1) as nat, version, x) {
            None => None,
            Some((before, q)) => match channel_strings(buf, q, version, x) {
                None => None,
                Some((list, end)) => ended(before + list, end),
            },
        }
    }
}

proof fn lemma_channels_none(buf: Seq<u8>, at: int, m: nat, n: nat, version: u8, x: Source)
    requires
        m <= n,
        channels_strings(buf, at, m, version, x) is None,
    ensures
        channels_strings(buf, at, n, version, x) is None,
    decreases n,
{
    if m < n {
        lemma_channels_none(buf, at, m, (n - 1) as nat, version, x);
    }
}

fn list_channels(buf: &[u8], position: &mut usize, count: usize, version: u8, x: Source, out: &mut Vec<ArchiveString>) -> (r: Result<
    (),
    Error,
>)
    ensures
        adds(
            r,
            views(old(out)@),
            views(final(out)@),
            *final(position) as int,
            channels_strings(buf@, *old(position) as int, count as nat, version, x),
        ),
{
    let ghost start = views(out@);
    let ghost at = *position as int;
    let mut i: usize = 0;
    proof {
        lemma_list(start, none(), none());
    }
    while i < count
        invariant
            i <= count,
            at == *old(position) as int,
            start == views(old(out)@),
            adds(Ok(()), start, views(out@), *position as int, channels_strings(buf@, at, i as nat, version, x)),
        decreases count - i,
    {
        let ghost q = *position as int;
        let ghost before = (channels_strings(buf@, at, i as nat, version, x)->0).0;
        match list_channel(buf, position, version, x, out) {
            Ok(()) => {
                proof {
                    lemma_list(start, before, (channel_strings(buf@, q, version, x)->0).0);
                }
            },
            Err(e) => {
                proof {
                    lemma_channels_none(buf@, at, (i + 1) as nat, count as nat, version, x);
                }
                return Err(e);
            },
        }
        i += 1;
    }
    Ok(())
}

/// What the first `n` messages of the inbox from a place on are.
pub open spec fn entries_strings(s: Seq<u8>, at: int, n: nat) -> Option<(Seq<StringView>, int)>
    decreases n,
{
    if n == 0 {
        ended(none(), at)
    } else {
        match entries_strings(s, at, (n - 1) as nat) {
            None => None,
            Some((before, q)) => match reads::<InboxEntryFrame>(bare(), s, q) {
                None => None,
                Some((entry, end)) => ended(before + one(StringView::Inbox(entry)), end),
            },
        }
    }
}

proof fn lemma_entries_none(s: Seq<u8>, at: int, m: nat, n: nat)
    requires
        m <= n,
        entries_strings(s, at, m) is None,
    ensures
        entries_strings(s, at, n) is None,
    decreases n,
{
    if m < n {
        lemma_entries_none(s, at, m, (n - 1) as nat);
    }
}

/// What the plain bytes of an inbox hold.
pub open spec fn inbox_strings(plain: Seq<u8>, p: Protocol) -> Option<Seq<StringView>> {
    match number_at(plain, 0) {
        None => None,
        Some((_, q)) => match count_at(plain, q, p.application_inbox_limit as nat) {
            None => None,
            Some((n, q)) => match entries_strings(plain, q, n) {
                None => None,
                Some((list, _)) => Some(list),
            },
        },
    }
}

fn list_inbox(plain: &[u8], p: &Protocol, out: &mut Vec<ArchiveString>) -> (r: Result<(), Error>)
    ensures
        gives(r, views(old(out)@), views(final(out)@), inbox_strings(plain@, *p)),
{
    let ghost start = views(out@);
    let mut position: usize = 0;
    let _next: u64 = take_u64(plain, &mut position)?;
    let count: usize = take_count(plain, &mut position, p.application_inbox_limit)?;
    let ghost at = position as int;
    let mut i: usize = 0;
    proof {
        lemma_list(start, none(), none());
    }
    while i < count
        invariant
            i <= count,
            start == views(old(out)@),
            adds(Ok(()), start, views(out@), position as int, entries_strings(plain@, at, i as nat)),
            inbox_strings(plain@, *p) == (match entries_strings(plain@, at, count as nat) {
                None => None,
                Some((list, _)) => Some(list),
            }),
        decreases count - i,
    {
        let ghost before = (entries_strings(plain@, at, i as nat)->0).0;
        match take_frame::<InboxEntryFrame>(plain, &mut position, bare_layout()) {
            Ok(entry) => {
                proof {
                    lemma_list(start, before, one(StringView::Inbox(entry@)));
                }
                list_one(ArchiveString::Inbox(entry), out);
            },
            Err(e) => {
                proof {
                    lemma_entries_none(plain@, at, (i + 1) as nat, count as nat);
                }
                return Err(e);
            },
        }
        i += 1;
    }
    Ok(())
}

/// What a sealed inbox holds.
pub open spec fn sealed_inbox_strings(sealed: Seq<u8>, x: Source) -> Option<Seq<StringView>> {
    match unsealed(x.keys.wrapping_key@, inbox_context(x.keys.identity_public@), sealed, x) {
        None => None,
        Some(plain) => inbox_strings(plain, *x.p),
    }
}

fn list_sealed_inbox(sealed: &[u8], x: Source, out: &mut Vec<ArchiveString>) -> (r: Result<(), Error>)
    ensures
        gives(r, views(old(out)@), views(final(out)@), sealed_inbox_strings(sealed@, x)),
{
    match unseal(&x.keys.wrapping_key, &application_inbox_context(x.keys), sealed, x) {
        None => Err(Error::Malformed),
        Some(plain) => {
            let mut plain = plain;
            let r = list_inbox(plain.as_slice(), x.p, out);
            wipe(&mut plain);
            r
        },
    }
}

/// What the first `n` prepared joins from a place on hold.
pub open spec fn joins_strings(buf: Seq<u8>, at: int, n: nat, version: u8, x: Source) -> Option<(Seq<StringView>, int)>
    decreases n,
{
    if n == 0 {
        ended(none(), at)
    } else {
        match joins_strings(buf, at, (n - 1) as nat, version, x) {
            None => None,
            Some((before, q)) => match reads::<PreparedFrame>(layout_of(version, *x.p), buf, q) {
                None => None,
                Some((f, end)) => ended(before + (one(StringView::Join(f.mls)) + sealed_route_strings(f.route, x)), end),
            },
        }
    }
}

proof fn lemma_joins_none(buf: Seq<u8>, at: int, m: nat, n: nat, version: u8, x: Source)
    requires
        m <= n,
        joins_strings(buf, at, m, version, x) is None,
    ensures
        joins_strings(buf, at, n, version, x) is None,
    decreases n,
{
    if m < n {
        lemma_joins_none(buf, at, m, (n - 1) as nat, version, x);
    }
}

fn list_joins(buf: &[u8], position: &mut usize, count: usize, version: u8, x: Source, out: &mut Vec<ArchiveString>) -> (r: Result<(), Error>)
    ensures
        adds(
            r,
            views(old(out)@),
            views(final(out)@),
            *final(position) as int,
            joins_strings(buf@, *old(position) as int, count as nat, version, x),
        ),
{
    let ghost start = views(out@);
    let ghost at = *position as int;
    let mut i: usize = 0;
    proof {
        lemma_list(start, none(), none());
    }
    while i < count
        invariant
            i <= count,
            at == *old(position) as int,
            start == views(old(out)@),
            adds(Ok(()), start, views(out@), *position as int, joins_strings(buf@, at, i as nat, version, x)),
        decreases count - i,
    {
        let ghost before = (joins_strings(buf@, at, i as nat, version, x)->0).0;
        match take_frame::<PreparedFrame>(buf, position, layout_for(version, x.p)) {
            Ok(frame) => {
                let ghost f = frame@;
                let PreparedFrame { id: _, display: _, mls, route } = frame;
                list_one(ArchiveString::Join(mls), out);
                list_sealed_route(route.as_slice(), x, out);
                proof {
                    let (a, b) = (one(StringView::Join(f.mls)), sealed_route_strings(f.route, x));
                    lemma_list(start + before, a, b);
                    lemma_list(start, before, a + b);
                }
            },
            Err(e) => {
                proof {
                    lemma_joins_none(buf@, at, (i + 1) as nat, count as nat, version, x);
                }
                return Err(e);
            },
        }
        i += 1;
    }
    Ok(())
}

/// What a sealed transport identity holds, where it is there.
pub open spec fn tls_strings(sealed: Seq<u8>, x: Source) -> Option<Seq<StringView>> {
    if sealed.len() == 0 {
        Some(none())
    } else {
        match unsealed(x.keys.archive_key@, tls_context(x.keys.identity_public@), sealed, x) {
            None => None,
            Some(plain) => Some(one(StringView::TlsIdentity(plain))),
        }
    }
}

fn list_tls(sealed: &[u8], x: Source, out: &mut Vec<ArchiveString>) -> (r: Result<(), Error>)
    ensures
        gives(r, views(old(out)@), views(final(out)@), tls_strings(sealed@, x)),
{
    proof {
        lemma_list(views(out@), none(), none());
    }
    if sealed.len() == 0 {
        return Ok(());
    }
    match unseal(&x.keys.archive_key, &tls_identity_context(x.keys), sealed, x) {
        None => Err(Error::Malformed),
        Some(plain) => {
            list_one(ArchiveString::TlsIdentity(plain), out);
            Ok(())
        },
    }
}

/// What a sealed partition of ownership holds.
pub open spec fn central_strings(sealed: Seq<u8>, x: Source) -> Option<Seq<StringView>> {
    match unsealed(x.keys.archive_key@, central_context(x.keys.identity_public@), sealed, x) {
        None => None,
        Some(plain) => if plain == seq![0u8] {
            Some(none())
        } else {
            match reads::<CentralOwnership>(bare(), plain, 1) {
                None => None,
                Some((value, _)) => Some(one(StringView::Partition(value))),
            }
        },
    }
}

fn list_central(sealed: &[u8], x: Source, out: &mut Vec<ArchiveString>) -> (r: Result<(), Error>)
    ensures
        gives(r, views(old(out)@), views(final(out)@), central_strings(sealed@, x)),
{
    proof {
        lemma_list(views(out@), none(), none());
    }
    let mut plain = match unseal(&x.keys.archive_key, &central_ownership_context(x.keys), sealed, x) {
        None => {
            return Err(Error::Malformed);
        },
        Some(plain) => plain,
    };
    let ghost whole = plain@;
    if plain.len() == 1 && plain[0] == 0 {
        assert(plain@ =~= seq![0u8]);
        return Ok(());
    }
    assert(plain@ != seq![0u8]);
    let mut position: usize = 1;
    let value = take_frame::<CentralOwnership>(plain.as_slice(), &mut position, bare_layout());
    wipe(&mut plain);
    match value {
        Ok(value) => {
            list_one(ArchiveString::Partition(value), out);
            Ok(())
        },
        Err(e) => Err(e),
    }
}

/// What a sealed owner's record holds.
pub open spec fn owner_strings(sealed: Seq<u8>, x: Source) -> Option<Seq<StringView>> {
    match unsealed(x.keys.archive_key@, owner_context(x.keys.identity_public@), sealed, x) {
        None => None,
        Some(plain) => match reads::<RecordFrame>(bare(), plain, 0) {
            None => None,
            Some((f, _)) => Some(all_strings::<GroupFrame>(f.groups, 0)),
        },
    }
}

fn list_owner(sealed: &[u8], x: Source, out: &mut Vec<ArchiveString>) -> (r: Result<(), Error>)
    ensures
        gives(r, views(old(out)@), views(final(out)@), owner_strings(sealed@, x)),
{
    let mut plain = match unseal(&x.keys.archive_key, &owner_aliases_context(x.keys), sealed, x) {
        None => {
            return Err(Error::Malformed);
        },
        Some(plain) => plain,
    };
    let mut position: usize = 0;
    let frame = take_frame::<RecordFrame>(plain.as_slice(), &mut position, bare_layout());
    wipe(&mut plain);
    match frame {
        Ok(frame) => {
            list_all(&frame.groups, 0, out);
            Ok(())
        },
        Err(e) => Err(e),
    }
}

/// What an owner's record holds in a field that may be empty.
pub open spec fn owner_in_strings(sealed: Seq<u8>, x: Source) -> Option<Seq<StringView>> {
    if sealed.len() == 0 {
        Some(none())
    } else {
        owner_strings(sealed, x)
    }
}

fn list_owner_in(sealed: &[u8], x: Source, out: &mut Vec<ArchiveString>) -> (r: Result<(), Error>)
    ensures
        gives(r, views(old(out)@), views(final(out)@), owner_in_strings(sealed@, x)),
{
    proof {
        lemma_list(views(out@), none(), none());
    }
    if sealed.len() == 0 {
        Ok(())
    } else {
        list_owner(sealed, x, out)
    }
}

/// What a sealed routing directory holds.
pub open spec fn directory_strings(sealed: Seq<u8>, x: Source) -> Option<Seq<StringView>> {
    match unsealed(x.keys.archive_key@, routing_view_context(x.keys.identity_public@), sealed, x) {
        None => None,
        Some(plain) => Some(one(StringView::Directory(plain))),
    }
}

fn list_directory(sealed: &[u8], x: Source, out: &mut Vec<ArchiveString>) -> (r: Result<(), Error>)
    ensures
        gives(r, views(old(out)@), views(final(out)@), directory_strings(sealed@, x)),
{
    match unseal(&x.keys.archive_key, &routing_context(x.keys), sealed, x) {
        None => Err(Error::Malformed),
        Some(plain) => {
            list_one(ArchiveString::Directory(plain), out);
            Ok(())
        },
    }
}

/// What a routing directory holds in a field that may be empty.
pub open spec fn directory_in_strings(sealed: Seq<u8>, x: Source) -> Option<Seq<StringView>> {
    if sealed.len() == 0 {
        Some(none())
    } else {
        directory_strings(sealed, x)
    }
}

fn list_directory_in(sealed: &[u8], x: Source, out: &mut Vec<ArchiveString>) -> (r: Result<(), Error>)
    ensures
        gives(r, views(old(out)@), views(final(out)@), directory_in_strings(sealed@, x)),
{
    proof {
        lemma_list(views(out@), none(), none());
    }
    if sealed.len() == 0 {
        Ok(())
    } else {
        list_directory(sealed, x, out)
    }
}

/// What the routes of one channel hold, in the grammar of recovery or the later one.
#[verifier::opaque]
pub open spec fn one_strings(buf: Seq<u8>, at: int, recovered: bool, version: u8, x: Source) -> Option<(Seq<StringView>, int)> {
    match reads::<NameFrame>(layout_of(version, *x.p), buf, at) {
        None => None,
        Some((_, q)) => if recovered {
            match field_at(buf, q) {
                None => None,
                Some((sealed, end)) => ended(sealed_route_strings(sealed, x), end),
            }
        } else {
            match option_strings(buf, q, x) {
                None => None,
                Some((current, q)) => match option_strings(buf, q, x) {
                    None => None,
                    Some((previous, end)) => ended(current + previous, end),
                },
            }
        },
    }
}

fn list_one_channel(buf: &[u8], position: &mut usize, recovered: bool, version: u8, x: Source, out: &mut Vec<ArchiveString>) -> (r: Result<
    (),
    Error,
>)
    ensures
        adds(r, views(old(out)@), views(final(out)@), *final(position) as int, one_strings(buf@, *old(position) as int, recovered, version, x)),
{
    proof {
        reveal(one_strings);
    }
    let ghost start = views(out@);
    match take_frame::<NameFrame>(buf, position, layout_for(version, x.p)) {
        Ok(_) => {},
        Err(e) => {
            return Err(e);
        },
    }
    let ghost q = *position as int;
    if recovered {
        match take32(buf, position) {
            Ok(sealed) => {
                list_sealed_route(sealed, x, out);
                Ok(())
            },
            Err(e) => Err(e),
        }
    } else {
        match list_option(buf, position, x, out) {
            Ok(()) => {},
            Err(e) => {
                return Err(e);
            },
        }
        let ghost q2 = *position as int;
        let r = list_option(buf, position, x, out);
        proof {
            if r is Ok {
                lemma_list(start, (option_strings(buf@, q, x)->0).0, (option_strings(buf@, q2, x)->0).0);
            }
        }
        r
    }
}

/// What the routes of the first `n` channels from a place on hold.
pub open spec fn routes_strings(buf: Seq<u8>, at: int, n: nat, recovered: bool, version: u8, x: Source) -> Option<(Seq<StringView>, int)>
    decreases n,
{
    if n == 0 {
        ended(none(), at)
    } else {
        match routes_strings(buf, at, (n - 1) as nat, recovered, version, x) {
            None => None,
            Some((before, q)) => match one_strings(buf, q, recovered, version, x) {
                None => None,
                Some((list, end)) => ended(before + list, end),
            },
        }
    }
}

proof fn lemma_routes_none(buf: Seq<u8>, at: int, m: nat, n: nat, recovered: bool, version: u8, x: Source)
    requires
        m <= n,
        routes_strings(buf, at, m, recovered, version, x) is None,
    ensures
        routes_strings(buf, at, n, recovered, version, x) is None,
    decreases n,
{
    if m < n {
        lemma_routes_none(buf, at, m, (n - 1) as nat, recovered, version, x);
    }
}

/// What the counted routes at a place hold.
pub open spec fn counted_strings(buf: Seq<u8>, at: int, recovered: bool, version: u8, x: Source) -> Option<(Seq<StringView>, int)> {
    match count_at(buf, at, 1024) {
        None => None,
        Some((n, q)) => routes_strings(buf, q, n, recovered, version, x),
    }
}

fn list_routes(buf: &[u8], position: &mut usize, recovered: bool, version: u8, x: Source, out: &mut Vec<ArchiveString>) -> (r: Result<
    (),
    Error,
>)
    ensures
        adds(
            r,
            views(old(out)@),
            views(final(out)@),
            *final(position) as int,
            counted_strings(buf@, *old(position) as int, recovered, version, x),
        ),
{
    let ghost start = views(out@);
    let count: usize = match take_count(buf, position, 1024) {
        Ok(count) => count,
        Err(e) => {
            return Err(e);
        },
    };
    let ghost at = *position as int;
    let mut i: usize = 0;
    proof {
        lemma_list(start, none(), none());
    }
    while i < count
        invariant
            i <= count,
            start == views(old(out)@),
            counted_strings(buf@, *old(position) as int, recovered, version, x) == routes_strings(buf@, at, count as nat, recovered, version, x),
            adds(Ok(()), start, views(out@), *position as int, routes_strings(buf@, at, i as nat, recovered, version, x)),
        decreases count - i,
    {
        let ghost q = *position as int;
        let ghost before = (routes_strings(buf@, at, i as nat, recovered, version, x)->0).0;
        match list_one_channel(buf, position, recovered, version, x, out) {
            Ok(()) => {
                proof {
                    lemma_list(start, before, (one_strings(buf@, q, recovered, version, x)->0).0);
                }
            },
            Err(e) => {
                proof {
                    lemma_routes_none(buf@, at, (i + 1) as nat, count as nat, recovered, version, x);
                }
                return Err(e);
            },
        }
        i += 1;
    }
    Ok(())
}

/// What the machine-scope grammar of version sixteen holds.
pub open spec fn retained_strings(buf: Seq<u8>, at: int, x: Source) -> Option<Seq<StringView>> {
    match field_at(buf, at) {
        None => None,
        Some((_, q)) => match field_at(buf, q) {
            None => None,
            Some((sealed, _)) => owner_strings(sealed, x),
        },
    }
}

fn list_retained(buf: &[u8], position: usize, x: Source, out: &mut Vec<ArchiveString>) -> (r: Result<(), Error>)
    ensures
        gives(r, views(old(out)@), views(final(out)@), retained_strings(buf@, position as int, x)),
{
    let mut at: usize = position;
    match take32(buf, &mut at) {
        Ok(_) => {},
        Err(e) => {
            return Err(e);
        },
    }
    match take32(buf, &mut at) {
        Ok(sealed) => list_owner(sealed, x, out),
        Err(e) => Err(e),
    }
}

/// What the routing-recovery grammar of version sixteen holds.
pub open spec fn routed_strings(buf: Seq<u8>, at: int, version: u8, x: Source) -> Option<Seq<StringView>> {
    match field_at(buf, at) {
        None => None,
        Some((sealed, q)) => match owner_in_strings(sealed, x) {
            None => None,
            Some(owner) => match field_at(buf, q) {
                None => None,
                Some((sealed, q)) => match directory_strings(sealed, x) {
                    None => None,
                    Some(directory) => match counted_strings(buf, q, true, version, x) {
                        None => None,
                        Some((routes, _)) => Some(owner + (directory + routes)),
                    },
                },
            },
        },
    }
}

fn list_routed(buf: &[u8], position: usize, version: u8, x: Source, out: &mut Vec<ArchiveString>) -> (r: Result<(), Error>)
    ensures
        gives(r, views(old(out)@), views(final(out)@), routed_strings(buf@, position as int, version, x)),
{
    let ghost start = views(out@);
    let mut at: usize = position;
    let owner = match take32(buf, &mut at) {
        Ok(sealed) => sealed,
        Err(e) => {
            return Err(e);
        },
    };
    match list_owner_in(owner, x, out) {
        Ok(()) => {},
        Err(e) => {
            return Err(e);
        },
    }
    let directory = match take32(buf, &mut at) {
        Ok(sealed) => sealed,
        Err(e) => {
            return Err(e);
        },
    };
    match list_directory(directory, x, out) {
        Ok(()) => {},
        Err(e) => {
            return Err(e);
        },
    }
    let ghost q = at as int;
    match list_routes(buf, &mut at, true, version, x, out) {
        Ok(()) => {},
        Err(e) => {
            return Err(e);
        },
    }
    proof {
        let (a, b, c) = (
            owner_in_strings(owner@, x)->0,
            directory_strings(directory@, x)->0,
            (counted_strings(buf@, q, true, version, x)->0).0,
        );
        lemma_list(start + a, b, c);
        lemma_list(start, a, b + c);
    }
    Ok(())
}

/// What the trailer of version sixteen holds, in whichever grammars it reads.
pub open spec fn either_strings(buf: Seq<u8>, at: int, version: u8, x: Source) -> Option<Seq<StringView>> {
    match (retained_strings(buf, at, x), routed_strings(buf, at, version, x)) {
        (None, None) => None,
        (Some(a), None) => Some(a),
        (None, Some(b)) => Some(b),
        (Some(a), Some(b)) => Some(a + b),
    }
}

fn list_either(buf: &[u8], position: usize, version: u8, x: Source, out: &mut Vec<ArchiveString>) -> (r: Result<(), Error>)
    ensures
        gives(r, views(old(out)@), views(final(out)@), either_strings(buf@, position as int, version, x)),
{
    let ghost start = views(out@);
    let ghost at = position as int;
    let mut first: Vec<ArchiveString> = Vec::new();
    let mut second: Vec<ArchiveString> = Vec::new();
    assert(views(first@) =~= none());
    assert(views(second@) =~= none());
    let a = list_retained(buf, position, x, &mut first);
    let b = list_routed(buf, position, version, x, &mut second);
    proof {
        if a is Ok {
            lemma_list(retained_strings(buf@, at, x)->0, none(), none());
        }
        if b is Ok {
            lemma_list(routed_strings(buf@, at, version, x)->0, none(), none());
        }
        if a is Ok && b is Ok {
            lemma_list(start, retained_strings(buf@, at, x)->0, routed_strings(buf@, at, version, x)->0);
        }
    }
    if a.is_err() && b.is_err() {
        return Err(Error::Malformed);
    }
    let ghost one_list = views(first@);
    let ghost other_list = views(second@);
    if a.is_ok() {
        out.append(&mut first);
        assert(views(out@) =~= start + one_list);
    }
    let ghost middle = views(out@);
    if b.is_ok() {
        out.append(&mut second);
        assert(views(out@) =~= middle + other_list);
    }
    Ok(())
}

/// What the trailer of the versions after sixteen holds, and where it ends.
pub open spec fn unified_strings(buf: Seq<u8>, at: int, version: u8, x: Source) -> Option<(Seq<StringView>, int)> {
    match field_at(buf, at) {
        None => None,
        Some((_, q)) => match field_at(buf, q) {
            None => None,
            Some((sealed, q)) => if version == 17 {
                match owner_strings(sealed, x) {
                    None => None,
                    Some(list) => ended(list, q),
                }
            } else {
                match owner_in_strings(sealed, x) {
                    None => None,
                    Some(owner) => match field_at(buf, q) {
                        None => None,
                        Some((sealed, q)) => match directory_in_strings(sealed, x) {
                            None => None,
                            Some(directory) => match counted_strings(buf, q, false, version, x) {
                                None => None,
                                Some((routes, end)) => ended(owner + (directory + routes), end),
                            },
                        },
                    },
                }
            },
        },
    }
}

fn list_unified(buf: &[u8], position: &mut usize, version: u8, x: Source, out: &mut Vec<ArchiveString>) -> (r: Result<(), Error>)
    ensures
        adds(r, views(old(out)@), views(final(out)@), *final(position) as int, unified_strings(buf@, *old(position) as int, version, x)),
{
    let ghost start = views(out@);
    match take32(buf, position) {
        Ok(_) => {},
        Err(e) => {
            return Err(e);
        },
    }
    let owner = match take32(buf, position) {
        Ok(sealed) => sealed,
        Err(e) => {
            return Err(e);
        },
    };
    if version == 17 {
        return list_owner(owner, x, out);
    }
    match list_owner_in(owner, x, out) {
        Ok(()) => {},
        Err(e) => {
            return Err(e);
        },
    }
    let directory = match take32(buf, position) {
        Ok(sealed) => sealed,
        Err(e) => {
            return Err(e);
        },
    };
    match list_directory_in(directory, x, out) {
        Ok(()) => {},
        Err(e) => {
            return Err(e);
        },
    }
    let ghost q = *position as int;
    let r = list_routes(buf, position, false, version, x, out);
    proof {
        if r is Ok {
            let (a, b, c) = (
                owner_in_strings(owner@, x)->0,
                directory_in_strings(directory@, x)->0,
                (counted_strings(buf@, q, false, version, x)->0).0,
            );
            lemma_list(start + a, b, c);
            lemma_list(start, a, b + c);
        }
    }
    r
}

/// What the trailer of an archive holds, and where it ends.
pub open spec fn trailer_strings(buf: Seq<u8>, at: int, version: u8, x: Source) -> Option<(Seq<StringView>, int)> {
    if version == 16 {
        match either_strings(buf, at, version, x) {
            None => None,
            Some(list) => ended(list, buf.len() as int),
        }
    } else if version >= 17 {
        unified_strings(buf, at, version, x)
    } else if version == 15 {
        match field_at(buf, at) {
            None => None,
            Some((sealed, q)) => match owner_strings(sealed, x) {
                None => None,
                Some(list) => ended(list, q),
            },
        }
    } else {
        ended(none(), at)
    }
}

fn list_trailer(buf: &[u8], position: &mut usize, version: u8, x: Source, out: &mut Vec<ArchiveString>) -> (r: Result<(), Error>)
    ensures
        adds(r, views(old(out)@), views(final(out)@), *final(position) as int, trailer_strings(buf@, *old(position) as int, version, x)),
{
    proof {
        lemma_list(views(out@), none(), none());
    }
    if version == 16 {
        let r = list_either(buf, *position, version, x, out);
        *position = buf.len();
        r
    } else if version >= 17 {
        list_unified(buf, position, version, x, out)
    } else if version == 15 {
        match take32(buf, position) {
            Ok(sealed) => list_owner(sealed, x, out),
            Err(e) => Err(e),
        }
    } else {
        Ok(())
    }
}

/// What a sealed ledger of receipts holds.
pub open spec fn ledger_strings(sealed: Seq<u8>, x: Source) -> Option<Seq<StringView>> {
    match unsealed(x.keys.archive_key@, receipts_context(x.keys.identity_public@), sealed, x) {
        None => None,
        Some(plain) => Some(one(StringView::Receipts(plain))),
    }
}

fn list_ledger(sealed: &[u8], x: Source, out: &mut Vec<ArchiveString>) -> (r: Result<(), Error>)
    ensures
        gives(r, views(old(out)@), views(final(out)@), ledger_strings(sealed@, x)),
{
    match unseal(&x.keys.archive_key, &gc2_receipts_context(x.keys), sealed, x) {
        None => Err(Error::Malformed),
        Some(plain) => {
            list_one(ArchiveString::Receipts(plain), out);
            Ok(())
        },
    }
}

/// What the part with the receipts holds, and where it ends.
pub open spec fn ledger_part(buf: Seq<u8>, at: int, version: u8, x: Source) -> Option<(Seq<StringView>, int)> {
    if version < 21 {
        ended(none(), at)
    } else {
        match field_at(buf, at) {
            None => None,
            Some((sealed, q)) => match ledger_strings(sealed, x) {
                None => None,
                Some(list) => ended(list, q),
            },
        }
    }
}

fn list_ledger_part(buf: &[u8], position: &mut usize, version: u8, x: Source, out: &mut Vec<ArchiveString>) -> (r: Result<(), Error>)
    ensures
        adds(r, views(old(out)@), views(final(out)@), *final(position) as int, ledger_part(buf@, *old(position) as int, version, x)),
{
    proof {
        lemma_list(views(out@), none(), none());
    }
    if version < 21 {
        return Ok(());
    }
    match take32(buf, position) {
        Ok(sealed) => list_ledger(sealed, x, out),
        Err(e) => Err(e),
    }
}

/// What the part with the partition holds, and where it ends.
pub open spec fn central_part(buf: Seq<u8>, at: int, version: u8, x: Source) -> Option<(Seq<StringView>, int)> {
    if version < 14 {
        ended(none(), at)
    } else {
        match field_at(buf, at) {
            None => None,
            Some((sealed, q)) => match central_strings(sealed, x) {
                None => None,
                Some(list) => ended(list, q),
            },
        }
    }
}

fn list_central_part(buf: &[u8], position: &mut usize, version: u8, x: Source, out: &mut Vec<ArchiveString>) -> (r: Result<(), Error>)
    ensures
        adds(r, views(old(out)@), views(final(out)@), *final(position) as int, central_part(buf@, *old(position) as int, version, x)),
{
    proof {
        lemma_list(views(out@), none(), none());
    }
    if version < 14 {
        return Ok(());
    }
    match take32(buf, position) {
        Ok(sealed) => list_central(sealed, x, out),
        Err(e) => Err(e),
    }
}

/// What the part with the transport identity holds, and where it ends.
pub open spec fn tls_part(buf: Seq<u8>, at: int, version: u8, x: Source) -> Option<(Seq<StringView>, int)> {
    if version < 13 {
        ended(none(), at)
    } else {
        match field_at(buf, at) {
            None => None,
            Some((sealed, q)) => match tls_strings(sealed, x) {
                None => None,
                Some(list) => ended(list, q),
            },
        }
    }
}

fn list_tls_part(buf: &[u8], position: &mut usize, version: u8, x: Source, out: &mut Vec<ArchiveString>) -> (r: Result<(), Error>)
    ensures
        adds(r, views(old(out)@), views(final(out)@), *final(position) as int, tls_part(buf@, *old(position) as int, version, x)),
{
    proof {
        lemma_list(views(out@), none(), none());
    }
    if version < 13 {
        return Ok(());
    }
    match take32(buf, position) {
        Ok(sealed) => list_tls(sealed, x, out),
        Err(e) => Err(e),
    }
}

/// What the part with the inbox holds, and where it ends.
pub open spec fn inbox_part(buf: Seq<u8>, at: int, version: u8, x: Source) -> Option<(Seq<StringView>, int)> {
    if version < 11 {
        ended(none(), at)
    } else {
        match field_at(buf, at) {
            None => None,
            Some((sealed, q)) => match sealed_inbox_strings(sealed, x) {
                None => None,
                Some(list) => ended(list, q),
            },
        }
    }
}

fn list_inbox_part(buf: &[u8], position: &mut usize, version: u8, x: Source, out: &mut Vec<ArchiveString>) -> (r: Result<(), Error>)
    ensures
        adds(r, views(old(out)@), views(final(out)@), *final(position) as int, inbox_part(buf@, *old(position) as int, version, x)),
{
    proof {
        lemma_list(views(out@), none(), none());
    }
    if version < 11 {
        return Ok(());
    }
    match take32(buf, position) {
        Ok(sealed) => list_sealed_inbox(sealed, x, out),
        Err(e) => Err(e),
    }
}

/// What the part with the prepared joins holds, and where it ends.
pub open spec fn joins_part(buf: Seq<u8>, at: int, version: u8, x: Source) -> Option<(Seq<StringView>, int)> {
    if version < 12 {
        ended(none(), at)
    } else {
        match number_at(buf, at) {
            None => None,
            Some((_, q)) => match count_at(buf, q, 64) {
                None => None,
                Some((n, q)) => joins_strings(buf, q, n, version, x),
            },
        }
    }
}

fn list_joins_part(buf: &[u8], position: &mut usize, version: u8, x: Source, out: &mut Vec<ArchiveString>) -> (r: Result<(), Error>)
    ensures
        adds(r, views(old(out)@), views(final(out)@), *final(position) as int, joins_part(buf@, *old(position) as int, version, x)),
{
    proof {
        lemma_list(views(out@), none(), none());
    }
    if version < 12 {
        return Ok(());
    }
    match take_u64(buf, position) {
        Ok(_) => {},
        Err(e) => {
            return Err(e);
        },
    }
    match take_count(buf, position, 64) {
        Ok(count) => list_joins(buf, position, count, version, x, out),
        Err(e) => Err(e),
    }
}

/// What the part with the channels holds, and where it ends.
pub open spec fn channels_part(buf: Seq<u8>, at: int, version: u8, x: Source) -> Option<(Seq<StringView>, int)> {
    match count_at(buf, at, x.p.channel_max as nat) {
        None => None,
        Some((n, q)) => channels_strings(buf, q, n, version, x),
    }
}

fn list_channels_part(buf: &[u8], position: &mut usize, version: u8, x: Source, out: &mut Vec<ArchiveString>) -> (r: Result<(), Error>)
    ensures
        adds(r, views(old(out)@), views(final(out)@), *final(position) as int, channels_part(buf@, *old(position) as int, version, x)),
{
    match take_count(buf, position, x.p.channel_max) {
        Ok(count) => list_channels(buf, position, count, version, x, out),
        Err(e) => Err(e),
    }
}

/// What a sealed grant holds. One that does not open is passed over: it is restoring
/// that refuses it.
pub open spec fn grant_strings(sealed: Seq<u8>, x: Source) -> Seq<StringView> {
    match unsealed(x.keys.wrapping_key@, grant_context(x.keys.identity_public@), sealed, x) {
        Some(plain) => one(StringView::Grant(plain)),
        None => none(),
    }
}

/// What the first `n` sealed grants hold.
pub open spec fn grants_strings(vs: Seq<SealedView>, n: nat, x: Source) -> Seq<StringView>
    decreases n,
{
    if n == 0 {
        none()
    } else {
        grants_strings(vs, (n - 1) as nat, x) + grant_strings(vs[n - 1].sealed, x)
    }
}

fn list_grants(items: &Vec<SealedFrame>, x: Source, out: &mut Vec<ArchiveString>)
    ensures
        views(final(out)@) == views(old(out)@) + grants_strings(views(items@), items@.len(), x),
{
    let ghost v = views(items@);
    let ghost start = views(out@);
    let context = forward_grant_context(x.keys);
    let mut i: usize = 0;
    proof {
        lemma_list(start, none(), none());
    }
    while i < items.len()
        invariant
            i <= items.len(),
            v == views(items@),
            context@ == grant_context(x.keys.identity_public@),
            views(out@) == start + grants_strings(v, i as nat, x),
        decreases items.len() - i,
    {
        proof {
            assert(v[i as int] == items@[i as int]@);
            lemma_list(views(out@), none(), none());
            lemma_list(start, grants_strings(v, i as nat, x), grant_strings(v[i as int].sealed, x));
        }
        match unseal(&x.keys.wrapping_key, &context, items[i].sealed.as_slice(), x) {
            Some(plain) => {
                list_one(ArchiveString::Grant(plain), out);
            },
            None => {},
        }
        i += 1;
    }
}

/// What the part with the policy holds, and where it ends.
pub open spec fn policy_part(buf: Seq<u8>, at: int, version: u8, x: Source) -> Option<(Seq<StringView>, int)> {
    match reads::<PolicyFrame>(layout_of(version, *x.p), buf, at) {
        None => None,
        Some((v, q)) => ended(grants_strings(v.grants, v.grants.len(), x), q),
    }
}

fn list_policy_part(buf: &[u8], position: &mut usize, version: u8, x: Source, out: &mut Vec<ArchiveString>) -> (r: Result<(), Error>)
    ensures
        adds(r, views(old(out)@), views(final(out)@), *final(position) as int, policy_part(buf@, *old(position) as int, version, x)),
{
    match take_frame::<PolicyFrame>(buf, position, layout_for(version, x.p)) {
        Ok(policy) => {
            list_grants(&policy.grants, x, out);
            Ok(())
        },
        Err(e) => Err(e),
    }
}

/// One part after what was listed before it.
pub open spec fn followed(first: Option<(Seq<StringView>, int)>, next: Option<(Seq<StringView>, int)>) -> Option<(Seq<StringView>, int)> {
    match (first, next) {
        (Some((a, _)), Some((b, end))) => ended(a + b, end),
        _ => None,
    }
}

/// Where a part ends.
pub open spec fn end_of(part: Option<(Seq<StringView>, int)>) -> int {
    match part {
        Some((_, end)) => end,
        None => 0,
    }
}

pub open spec fn from_trailer(buf: Seq<u8>, at: int, version: u8, x: Source) -> Option<(Seq<StringView>, int)> {
    let first = trailer_strings(buf, at, version, x);
    followed(first, ledger_part(buf, end_of(first), version, x))
}

pub open spec fn from_central(buf: Seq<u8>, at: int, version: u8, x: Source) -> Option<(Seq<StringView>, int)> {
    let first = central_part(buf, at, version, x);
    followed(first, from_trailer(buf, end_of(first), version, x))
}

pub open spec fn from_tls(buf: Seq<u8>, at: int, version: u8, x: Source) -> Option<(Seq<StringView>, int)> {
    let first = tls_part(buf, at, version, x);
    followed(first, from_central(buf, end_of(first), version, x))
}

pub open spec fn from_joins(buf: Seq<u8>, at: int, version: u8, x: Source) -> Option<(Seq<StringView>, int)> {
    let first = joins_part(buf, at, version, x);
    followed(first, from_tls(buf, end_of(first), version, x))
}

pub open spec fn from_inbox(buf: Seq<u8>, at: int, version: u8, x: Source) -> Option<(Seq<StringView>, int)> {
    let first = inbox_part(buf, at, version, x);
    followed(first, from_joins(buf, end_of(first), version, x))
}

pub open spec fn from_policy(buf: Seq<u8>, at: int, version: u8, x: Source) -> Option<(Seq<StringView>, int)> {
    let first = policy_part(buf, at, version, x);
    followed(first, from_inbox(buf, end_of(first), version, x))
}

pub open spec fn from_channels(buf: Seq<u8>, at: int, version: u8, x: Source) -> Option<(Seq<StringView>, int)> {
    let first = channels_part(buf, at, version, x);
    followed(first, from_policy(buf, end_of(first), version, x))
}

/// What an archive holds that has to be looked at, in the order in which it is read.
pub open spec fn strings_in(buf: Seq<u8>, x: Source) -> Option<Seq<StringView>> {
    match magic_version(buf) {
        Some(version) if version >= 2 && buf.len() <= max_archive() => match reads::<CoreFrame>(layout_of(version, *x.p), buf, 6) {
            None => None,
            Some((core, q)) => match from_channels(buf, q, version, x) {
                None => None,
                Some((list, _)) => Some(core_strings(numbered(core, version), version) + list),
            },
        },
        _ => None,
    }
}

fn list_end(buf: &[u8], position: &mut usize, version: u8, x: Source, out: &mut Vec<ArchiveString>) -> (r: Result<(), Error>)
    ensures
        adds(r, views(old(out)@), views(final(out)@), *final(position) as int, from_tls(buf@, *old(position) as int, version, x)),
{
    let ghost start = views(out@);
    let ghost q0 = *position as int;
    list_tls_part(buf, position, version, x, out)?;
    let ghost q1 = *position as int;
    list_central_part(buf, position, version, x, out)?;
    let ghost q2 = *position as int;
    list_trailer(buf, position, version, x, out)?;
    let ghost q3 = *position as int;
    list_ledger_part(buf, position, version, x, out)?;
    proof {
        let (a, b, c, d) = (
            (tls_part(buf@, q0, version, x)->0).0,
            (central_part(buf@, q1, version, x)->0).0,
            (trailer_strings(buf@, q2, version, x)->0).0,
            (ledger_part(buf@, q3, version, x)->0).0,
        );
        lemma_list(start + a + b, c, d);
        lemma_list(start + a, b, c + d);
        lemma_list(start, a, b + (c + d));
    }
    Ok(())
}

fn list_rest(buf: &[u8], position: &mut usize, version: u8, x: Source, out: &mut Vec<ArchiveString>) -> (r: Result<(), Error>)
    ensures
        adds(r, views(old(out)@), views(final(out)@), *final(position) as int, from_channels(buf@, *old(position) as int, version, x)),
{
    let ghost start = views(out@);
    let ghost q0 = *position as int;
    list_channels_part(buf, position, version, x, out)?;
    let ghost q1 = *position as int;
    list_policy_part(buf, position, version, x, out)?;
    let ghost q2 = *position as int;
    list_inbox_part(buf, position, version, x, out)?;
    let ghost q3 = *position as int;
    list_joins_part(buf, position, version, x, out)?;
    let ghost q4 = *position as int;
    list_end(buf, position, version, x, out)?;
    proof {
        let (a, b, c, d, e) = (
            (channels_part(buf@, q0, version, x)->0).0,
            (policy_part(buf@, q1, version, x)->0).0,
            (inbox_part(buf@, q2, version, x)->0).0,
            (joins_part(buf@, q3, version, x)->0).0,
            (from_tls(buf@, q4, version, x)->0).0,
        );
        lemma_list(start + a + b + c, d, e);
        lemma_list(start + a + b, c, d + e);
        lemma_list(start + a, b, c + (d + e));
        lemma_list(start, a, b + (c + (d + e)));
    }
    Ok(())
}

/// Lists what has to be looked at before an archive can be read, with the contexts
/// that are known. An archive that gives no list is refused whatever its byte strings
/// mean. The contexts of `role_contexts` and `prepared_route_context` can be worked out
/// once a role or a join has been looked at; with them the list also has what is sealed
/// to them.
pub fn archive_strings(buf: &[u8], keys: &NodeKeys, contexts: &Table<SessionContext, Vec<u8>>, p: &Protocol) -> (r: Result<
    Vec<ArchiveString>,
    Error,
>)
    ensures
        match strings_in(buf@, Source { keys, contexts, p }) {
            Some(list) => r matches Ok(out) && views(out@) == list,
            None => r matches Err(e) && e == Error::Malformed,
        },
{
    let x = Source { keys, contexts, p };
    let version: u8 = match version_of(buf) {
        Some(version) => version,
        None => {
            return Err(Error::Malformed);
        },
    };
    if version < 2 || buf.len() > 0x1000_0000 {
        return Err(Error::Malformed);
    }
    let mut at: usize = 6;
    let core = match take_frame::<CoreFrame>(buf, &mut at, layout_for(version, p)) {
        Ok(core) => number_core(core, version),
        Err(e) => {
            return Err(e);
        },
    };
    let mut out: Vec<ArchiveString> = Vec::new();
    assert(views(out@) =~= none());
    list_core(&core, version, &mut out);
    proof {
        lemma_list(core_strings(core@, version), none(), none());
    }
    match list_rest(buf, &mut at, version, x, &mut out) {
        Ok(()) => Ok(out),
        Err(e) => Err(e),
    }
}

/// The contexts that the sealed parts of a node's own archives have, whatever they
/// hold.
pub fn own_contexts(keys: &NodeKeys) -> (r: Vec<SessionContext>)
    ensures
        views(r@) == own_context_views(keys.identity_public@),
{
    let mut out: Vec<SessionContext> = Vec::new();
    out.push(application_inbox_context(keys));
    out.push(tls_identity_context(keys));
    out.push(central_ownership_context(keys));
    out.push(machine_ownership_context(keys));
    out.push(owner_aliases_context(keys));
    out.push(routing_context(keys));
    out.push(gc2_receipts_context(keys));
    out.push(forward_grant_context(keys));
    assert(views(out@) =~= own_context_views(keys.identity_public@));
    out
}

pub open spec fn own_context_views(identity: Seq<u8>) -> Seq<ContextView> {
    seq![
        inbox_context(identity),
        tls_context(identity),
        central_context(identity),
        machine_context(identity),
        owner_context(identity),
        routing_view_context(identity),
        receipts_context(identity),
        grant_context(identity),
    ]
}

/// The contexts that the routes of a channel have, once its role is known: the route
/// in force, the one before it, and the one in the recovery grammar.
pub fn role_contexts(keys: &NodeKeys, role: &RoleFacts) -> (r: Vec<SessionContext>)
    ensures
        views(r@) == seq![
            route_context(keys.identity_public@, *role, false),
            route_context(keys.identity_public@, *role, true),
            prepared_context(keys.identity_public@, role.pseudonym),
        ],
{
    let mut out: Vec<SessionContext> = Vec::new();
    out.push(unified_context(keys, role, false));
    out.push(unified_context(keys, role, true));
    out.push(prepared_route_context(keys, &role.pseudonym));
    assert(views(out@) =~= seq![
        route_context(keys.identity_public@, *role, false),
        route_context(keys.identity_public@, *role, true),
        prepared_context(keys.identity_public@, role.pseudonym),
    ]);
    out
}

} // verus!
