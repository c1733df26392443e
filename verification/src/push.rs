//! Push notifications: which inboxes are bound to a gateway, and which tickets a
//! node takes from a relay.

use vstd::prelude::*;
use vstd::string::StrSliceExecFns;
use vstd::utf8::encode_utf8;
use crate::bytes::{same_id, text_len};
use crate::error::Error;
use crate::model::{copy_aliases, views, OwnedAlias, OwnedAliasView};
use crate::node_state::{ChannelState, NodeState};

verus! {

/// What the `url` crate parses a text to: scheme, host, user name and password.
pub uninterp spec fn parsed_url(text: Seq<char>) -> Option<(Seq<char>, Option<Seq<char>>, Seq<char>, Option<Seq<char>>)>;

/// The origin, as the `url` crate writes it, of a text that it parses.
pub uninterp spec fn written_origin(text: Seq<char>) -> Seq<char>;

/// The parts of a parsed address. The origin is that of a secure one only.
#[derive(Debug)]
pub struct UrlParts {
    pub scheme: String,
    pub host: Option<String>,
    pub username: String,
    pub password: Option<String>,
    pub origin: Option<String>,
}

/// The same as plain text.
pub struct UrlView {
    pub scheme: Seq<char>,
    pub host: Option<Seq<char>>,
    pub username: Seq<char>,
    pub password: Option<Seq<char>>,
    pub origin: Option<Seq<char>>,
}

pub open spec fn text_view(o: Option<String>) -> Option<Seq<char>> {
    match o {
        Some(s) => Some(s@),
        None => None,
    }
}

impl View for UrlParts {
    type V = UrlView;

    open spec fn view(&self) -> UrlView {
        UrlView {
            scheme: self.scheme@,
            host: text_view(self.host),
            username: self.username@,
            password: text_view(self.password),
            origin: text_view(self.origin),
        }
    }
}

/// `Url::parse` of the `url` crate, with what `scheme`, `host_str`, `username` and
/// `password` say of the result.
#[verifier::external_body]
fn parse_url(text: &str) -> (r: Option<(String, Option<String>, String, Option<String>)>)
    ensures
        match r {
            Some((scheme, host, username, password)) => parsed_url(text@) == Some(
                (scheme@, text_view(host), username@, text_view(password)),
            ),
            None => parsed_url(text@) is None,
        },
{
    url::Url::parse(text).ok().map(|u| {
        let host = u.host_str().map(str::to_string);
        (u.scheme().to_string(), host, u.username().to_string(), u.password().map(str::to_string))
    })
}

/// `Url::origin` of the `url` crate in its ASCII form, of an address whose scheme
/// is `https`: such an origin is made of the address itself, without going into
/// what its path may hold.
#[verifier::external_body]
fn https_origin(text: &str) -> (r: Option<String>)
    requires
        match parsed_url(text@) {
            Some((scheme, host, username, password)) => scheme == "https"@,
            None => false,
        },
    ensures
        text_view(r) == Some(written_origin(text@)),
{
    url::Url::parse(text).ok().map(|u| u.origin().ascii_serialization())
}

/// The parts of an address, where it is one.
pub open spec fn gateway_parts(text: Seq<char>) -> Option<UrlView> {
    match parsed_url(text) {
        None => None,
        Some((scheme, host, username, password)) => Some(
            UrlView {
                scheme,
                host,
                username,
                password,
                origin: if scheme == "https"@ {
                    Some(written_origin(text))
                } else {
                    None
                },
            },
        ),
    }
}

fn parse_gateway(text: &str) -> (r: Option<UrlParts>)
    ensures
        match r {
            Some(u) => gateway_parts(text@) == Some(u@),
            None => gateway_parts(text@) is None,
        },
{
    match parse_url(text) {
        None => None,
        Some((scheme, host, username, password)) => {
            let https = "https".to_string();
            let origin = if scheme == https {
                https_origin(text)
            } else {
                None
            };
            Some(UrlParts { scheme, host, username, password, origin })
        },
    }
}

/// Whether a gateway is named by an origin alone, and a secure one.
pub open spec fn plain_origin(u: UrlView, text: Seq<char>) -> bool {
    u.scheme == "https"@ && u.host is Some && u.username.len() == 0 && u.password is None && u.origin == Some(text)
}

/// Whether parsed parts are those of a secure origin that is written as `text`.
pub fn is_plain_origin(u: &UrlParts, text: &str) -> (r: bool)
    ensures
        r == plain_origin(u@, text@),
{
    let https = "https".to_string();
    match &u.origin {
        Some(origin) => u.scheme == https && u.host.is_some() && u.username.as_str().unicode_len() == 0 && u.password.is_none()
            && *origin == text.to_string(),
        None => false,
    }
}

/// A registration ticket that a relay gave.
#[derive(Debug)]
pub struct Ticket {
    pub gateway_origin: String,
    pub expires: u64,
    pub installation: String,
    pub ticket: String,
}

/// What the ticket was asked for with.
#[derive(Clone, Copy)]
pub struct TicketScope<'a> {
    pub now: u64,
    pub expires: u64,
    pub installation: &'a String,
}

/// Whether a ticket is within what was asked for.
pub open spec fn in_scope(t: Ticket, scope: TicketScope) -> bool {
    scope.now < t.expires <= scope.expires && t.installation@ == scope.installation@ && encode_utf8(t.ticket@).len() <= 2048
}

/// Why a ticket is refused, given what its gateway parses to.
pub open spec fn ticket_refusal(
    t: Ticket,
    u: Option<UrlView>,
    scope: TicketScope,
) -> Option<Error> {
    match u {
        None => Some(Error::InvalidPushOrigin),
        Some(u) => if plain_origin(u, t.gateway_origin@) && in_scope(t, scope) {
            None
        } else {
            Some(Error::InvalidPushReply)
        },
    }
}

/// Judges a ticket by what its gateway parses to.
pub fn judge_ticket(t: &Ticket, u: &Option<UrlParts>, scope: TicketScope) -> (r: Result<(), Error>)
    ensures
        r == crate::owner_aliases::outcome(
            ticket_refusal(*t, match *u {
                Some(u) => Some(u@),
                None => None,
            }, scope),
        ),
{
    match u {
        None => Err(Error::InvalidPushOrigin),
        Some(u) => {
            if !is_plain_origin(u, t.gateway_origin.as_str()) || t.expires <= scope.now || t.expires > scope.expires || t.installation
                != *scope.installation || text_len(t.ticket.as_str()) > 2048 {
                return Err(Error::InvalidPushReply);
            }
            Ok(())
        },
    }
}

/// Takes a ticket, where its gateway is a secure origin and it is within what was
/// asked for.
pub fn accept_ticket(t: &Ticket, scope: TicketScope) -> (r: Result<(), Error>)
    ensures
        r == crate::owner_aliases::outcome(ticket_refusal(*t, gateway_parts(t.gateway_origin@), scope)),
{
    let u = parse_gateway(t.gateway_origin.as_str());
    judge_ticket(t, &u, scope)
}

/// Those of the first `n` aliases that have time left, and at most four.
pub open spec fn ticket_aliases(s: Seq<OwnedAliasView>, n: nat, now: u64) -> Seq<OwnedAliasView>
    decreases n,
{
    if n == 0 {
        Seq::empty()
    } else {
        let before = ticket_aliases(s, (n - 1) as nat, now);
        if before.len() < 4 && s[n - 1].contact.expiry > now {
            before.push(s[n - 1])
        } else {
            before
        }
    }
}

/// The aliases through which a ticket is asked for, one after the other.
pub fn select_ticket_aliases(st: &NodeState, now: u64) -> (r: Result<Vec<OwnedAlias>, Error>)
    ensures
        ({
            let s = views(st.owner.client_relay.aliases@);
            let chosen = ticket_aliases(s, s.len(), now);
            if chosen.len() == 0 {
                r == Err::<Vec<OwnedAlias>, Error>(Error::InboxNotReady)
            } else {
                r matches Ok(out) && views(out@) == chosen
            }
        }),
{
    let ghost s = views(st.owner.client_relay.aliases@);
    let mut out: Vec<OwnedAlias> = Vec::new();
    let mut i: usize = 0;
    assert(views(out@) =~= Seq::<OwnedAliasView>::empty());
    while i < st.owner.client_relay.aliases.len()
        invariant
            i <= st.owner.client_relay.aliases.len(),
            s == views(st.owner.client_relay.aliases@),
            views(out@) == ticket_aliases(s, i as nat, now),
        decreases st.owner.client_relay.aliases.len() - i,
    {
        assert(s[i as int] == st.owner.client_relay.aliases@[i as int]@);
        assert(views(out@).len() == out@.len());
        if out.len() < 4 && st.owner.client_relay.aliases[i].contact.expiry > now {
            let ghost before = views(out@);
            let alias = st.owner.client_relay.aliases[i].clone();
            out.push(alias);
            assert(views(out@) =~= before.push(s[i as int]));
        }
        i += 1;
    }
    assert(views(out@).len() == out@.len());
    if out.len() == 0 {
        return Err(Error::InboxNotReady);
    }
    Ok(out)
}

/// Until when a ticket is asked for.
pub open spec fn asked_until(now: u64, lease_expiry: u64) -> int {
    if now + 300 < lease_expiry {
        now + 300
    } else {
        lease_expiry as int
    }
}

/// Until when a ticket is asked for: five minutes, within the alias's lease.
pub fn ticket_expiry(now: u64, lease_expiry: u64) -> (r: u64)
    ensures
        r == asked_until(now, lease_expiry),
{
    let expires: u64 = now.saturating_add(300);
    if expires < lease_expiry {
        expires
    } else {
        lease_expiry
    }
}

/// The aliases of the first `n` channels, in order.
pub open spec fn channel_aliases(s: Seq<(String, ChannelState)>, n: nat) -> Seq<OwnedAliasView>
    decreases n,
{
    if n == 0 {
        Seq::empty()
    } else {
        channel_aliases(s, (n - 1) as nat) + views(s[n - 1].1.own_route.aliases@)
    }
}

/// Every alias of a node: those of its inbox, then those of its channels.
pub open spec fn all_aliases(st: NodeState) -> Seq<OwnedAliasView> {
    views(st.owner.client_relay.aliases@) + channel_aliases(st.channels.entries@, st.channels.entries@.len())
}

/// Whether two aliases are of the same queue.
pub open spec fn same_queue(a: OwnedAliasView, b: OwnedAliasView) -> bool {
    a.contact.target.relay_service_id == b.contact.target.relay_service_id && a.contact.queue_id == b.contact.queue_id
}

pub open spec fn has_queue(s: Seq<OwnedAliasView>, a: OwnedAliasView) -> bool {
    exists|i: int| 0 <= i < s.len() && same_queue(#[trigger] s[i], a)
}

/// The first `n` aliases without those whose queue came before.
pub open spec fn each_once(s: Seq<OwnedAliasView>, n: nat) -> Seq<OwnedAliasView>
    decreases n,
{
    if n == 0 {
        Seq::empty()
    } else {
        let before = each_once(s, (n - 1) as nat);
        if has_queue(before, s[n - 1]) {
            before
        } else {
            before.push(s[n - 1])
        }
    }
}

fn knows_queue(s: &Vec<OwnedAlias>, a: &OwnedAlias) -> (r: bool)
    ensures
        r == has_queue(views(s@), a@),
{
    let ghost v = views(s@);
    let mut i: usize = 0;
    while i < s.len()
        invariant
            i <= s.len(),
            v == views(s@),
            forall|j: int| 0 <= j < i ==> !same_queue(#[trigger] v[j], a@),
        decreases s.len() - i,
    {
        assert(v[i as int] == s@[i as int]@);
        if same_id(&s[i].contact.target.relay_service_id, &a.contact.target.relay_service_id) && same_id(
            &s[i].contact.queue_id,
            &a.contact.queue_id,
        ) {
            return true;
        }
        i += 1;
    }
    false
}

fn gather_aliases(st: &NodeState) -> (r: Vec<OwnedAlias>)
    ensures
        views(r@) == all_aliases(*st),
{
    let mut out = copy_aliases(&st.owner.client_relay.aliases);
    let ghost first = views(out@);
    let ghost s = st.channels.entries@;
    let mut i: usize = 0;
    assert(views(out@) =~= first + channel_aliases(s, 0));
    while i < st.channels.entries.len()
        invariant
            i <= st.channels.entries.len(),
            s == st.channels.entries@,
            views(out@) == first + channel_aliases(s, i as nat),
        decreases st.channels.entries.len() - i,
    {
        let ghost before = out@;
        let mut more = copy_aliases(&st.channels.entries[i].1.own_route.aliases);
        let ghost added = more@;
        out.append(&mut more);
        assert(out@ =~= before + added);
        assert(views(out@) =~= views(before) + views(added));
        assert(views(out@) =~= first + channel_aliases(s, (i + 1) as nat));
        i += 1;
    }
    out
}

fn drop_repeats(s: &Vec<OwnedAlias>) -> (r: Vec<OwnedAlias>)
    ensures
        views(r@) == each_once(views(s@), s@.len()),
{
    let ghost v = views(s@);
    let mut out: Vec<OwnedAlias> = Vec::new();
    let mut i: usize = 0;
    assert(views(out@) =~= Seq::<OwnedAliasView>::empty());
    while i < s.len()
        invariant
            i <= s.len(),
            v == views(s@),
            views(out@) == each_once(v, i as nat),
        decreases s.len() - i,
    {
        assert(v[i as int] == s@[i as int]@);
        if !knows_queue(&out, &s[i]) {
            let ghost before = views(out@);
            let alias = s[i].clone();
            out.push(alias);
            assert(views(out@) =~= before.push(v[i as int]));
        }
        i += 1;
    }
    out
}

/// Whether a lease is over.
pub open spec fn some_over(s: Seq<OwnedAliasView>, now: u64) -> bool {
    exists|i: int| 0 <= i < s.len() && (#[trigger] s[i]).contact.expiry <= now
}

fn is_some_over(s: &Vec<OwnedAlias>, now: u64) -> (r: bool)
    ensures
        r == some_over(views(s@), now),
{
    let ghost v = views(s@);
    let mut i: usize = 0;
    while i < s.len()
        invariant
            i <= s.len(),
            v == views(s@),
            forall|j: int| 0 <= j < i ==> (#[trigger] v[j]).contact.expiry > now,
        decreases s.len() - i,
    {
        assert(v[i as int] == s@[i as int]@);
        if s[i].contact.expiry <= now {
            return true;
        }
        i += 1;
    }
    false
}

/// The aliases that a gateway is bound to, or why none is: a binding has a
/// revision and lasts a day at most, and goes to every queue of the node or to
/// none.
pub open spec fn binding(st: NodeState, revision: u64, expires: u64, now: u64) -> Result<Seq<OwnedAliasView>, Error> {
    let all = all_aliases(st);
    let once = each_once(all, all.len());
    if revision == 0 || expires <= now || expires > now + 86400 {
        Err(Error::InvalidPushBinding)
    } else if once.len() > 256 {
        Err(Error::TooManyPushAliases)
    } else if once.len() == 0 {
        Err(Error::InboxNotReady)
    } else if some_over(once, now) {
        Err(Error::InboxLeaseExpired)
    } else {
        Ok(once)
    }
}

pub fn plan_binding(st: &NodeState, revision: u64, expires: u64, now: u64) -> (r: Result<Vec<OwnedAlias>, Error>)
    ensures
        match r {
            Ok(aliases) => binding(*st, revision, expires, now) == Ok::<Seq<OwnedAliasView>, Error>(views(aliases@)),
            Err(e) => binding(*st, revision, expires, now) == Err::<Seq<OwnedAliasView>, Error>(e),
        },
{
    if revision == 0 || expires <= now || expires > now.saturating_add(86400) {
        return Err(Error::InvalidPushBinding);
    }
    let all = gather_aliases(st);
    let once = drop_repeats(&all);
    assert(views(once@).len() == once@.len());
    if once.len() > 256 {
        return Err(Error::TooManyPushAliases);
    }
    if once.len() == 0 {
        return Err(Error::InboxNotReady);
    }
    if is_some_over(&once, now) {
        return Err(Error::InboxLeaseExpired);
    }
    Ok(once)
}

/// Until when a queue is bound.
pub open spec fn bound_until(expires: u64, lease_expiry: u64) -> u64 {
    if expires < lease_expiry {
        expires
    } else {
        lease_expiry
    }
}

/// Until when a queue is bound: no longer than it is leased.
pub fn binding_expiry(expires: u64, lease_expiry: u64) -> (r: u64)
    ensures
        r == bound_until(expires, lease_expiry),
{
    if expires < lease_expiry {
        expires
    } else {
        lease_expiry
    }
}

/// No queue is bound twice, and none of the node's queues is left out.
pub proof fn every_queue_once(s: Seq<OwnedAliasView>, n: nat)
    requires
        n <= s.len(),
    ensures
        forall|i: int, j: int|
            0 <= i < j < each_once(s, n).len() ==> !same_queue(#[trigger] each_once(s, n)[i], #[trigger] each_once(s, n)[j]),
        forall|i: int| 0 <= i < n ==> has_queue(each_once(s, n), #[trigger] s[i]),
    decreases n,
{
    if n > 0 {
        let m = (n - 1) as nat;
        every_queue_once(s, m);
        let before = each_once(s, m);
        let now = each_once(s, n);
        assert forall|i: int| 0 <= i < n implies has_queue(now, #[trigger] s[i]) by {
            if i < m {
                let k = choose|k: int| 0 <= k < before.len() && same_queue(#[trigger] before[k], s[i]);
                assert(same_queue(now[k], s[i]));
            } else if !has_queue(before, s[i]) {
                assert(same_queue(now[before.len() as int], s[i]));
            }
        }
        assert forall|i: int, j: int| 0 <= i < j < now.len() implies !same_queue(#[trigger] now[i], #[trigger] now[j]) by {
            if j < before.len() {
                assert(!same_queue(before[i], before[j]));
            } else {
                assert(now[j] == s[m as int]);
                assert(before[i] == now[i]);
                if same_queue(now[i], now[j]) {
                    assert(has_queue(before, s[m as int]));
                }
            }
        }
    }
}

/// A ticket is taken exactly where its gateway is written as a secure origin and
/// nothing else, it ends after now and no later than was asked for, it is for the
/// installation that asked, and it is not too long.
pub proof fn tickets_are_taken_within_what_was_asked(t: Ticket, u: Option<UrlView>, scope: TicketScope)
    ensures
        u is None ==> ticket_refusal(t, u, scope) == Some(Error::InvalidPushOrigin),
        u matches Some(parts) ==> (ticket_refusal(t, u, scope) is None <==> {
            &&& parts.scheme == "https"@
            &&& parts.host is Some
            &&& parts.username.len() == 0
            &&& parts.password is None
            &&& parts.origin == Some(t.gateway_origin@)
            &&& t.expires > scope.now
            &&& t.expires <= scope.expires
            &&& t.installation@ == scope.installation@
            &&& encode_utf8(t.ticket@).len() <= 2048
        }),
        u is Some && ticket_refusal(t, u, scope) is Some ==> ticket_refusal(t, u, scope) == Some(Error::InvalidPushReply),
{
}

/// The parts of an address are those that it parses to, and only a secure address has
/// an origin to be written as.
pub proof fn only_secure_addresses_have_an_origin(text: Seq<char>)
    ensures
        gateway_parts(text) is Some <==> parsed_url(text) is Some,
        gateway_parts(text) matches Some(u) ==> {
            &&& parsed_url(text) == Some((u.scheme, u.host, u.username, u.password))
            &&& u.scheme == "https"@ ==> u.origin == Some(written_origin(text))
            &&& u.scheme != "https"@ ==> u.origin is None
        },
{
}

proof fn lemma_ticket_aliases(s: Seq<OwnedAliasView>, n: nat, now: u64)
    requires
        n <= s.len(),
    ensures
        ({
            let live = s.take(n as int).filter(|a: OwnedAliasView| a.contact.expiry > now);
            &&& ticket_aliases(s, n, now).len() == (if live.len() < 4 { live.len() } else { 4 })
            &&& forall|i: int| 0 <= i < ticket_aliases(s, n, now).len() ==> #[trigger] ticket_aliases(s, n, now)[i] == live[i]
        }),
    decreases n,
{
    reveal(Seq::filter);
    if n > 0 {
        lemma_ticket_aliases(s, (n - 1) as nat, now);
        assert(s.take(n as int).drop_last() =~= s.take(n - 1));
        assert(s.take(n as int).last() == s[n - 1]);
    }
}

/// A ticket is asked for through the first four aliases that have time left, in order,
/// or through all of them where there are fewer.
pub proof fn tickets_go_through_the_first_four(s: Seq<OwnedAliasView>, now: u64)
    ensures
        ({
            let live = s.filter(|a: OwnedAliasView| a.contact.expiry > now);
            let chosen = ticket_aliases(s, s.len(), now);
            &&& chosen.len() == (if live.len() < 4 { live.len() } else { 4 })
            &&& forall|i: int| 0 <= i < chosen.len() ==> #[trigger] chosen[i] == live[i]
        }),
{
    lemma_ticket_aliases(s, s.len(), now);
    assert(s.take(s.len() as int) =~= s);
}

proof fn lemma_channel_aliases(s: Seq<(String, ChannelState)>, n: nat, a: OwnedAliasView)
    requires
        n <= s.len(),
    ensures
        channel_aliases(s, n).contains(a) <==> exists|i: int| 0 <= i < n && views((#[trigger] s[i]).1.own_route.aliases@).contains(a),
    decreases n,
{
    if n > 0 {
        let m = (n - 1) as nat;
        lemma_channel_aliases(s, m, a);
        let before = channel_aliases(s, m);
        let last = views(s[m as int].1.own_route.aliases@);
        let all = channel_aliases(s, n);
        assert(all == before + last);
        if before.contains(a) {
            assert(all[before.index_of(a)] == a);
        }
        if last.contains(a) {
            assert(all[before.len() + last.index_of(a)] == a);
        }
        if all.contains(a) {
            let j = all.index_of(a);
            if j < before.len() {
                assert(before[j] == a);
            } else {
                assert(last[j - before.len()] == a);
            }
        }
    }
}

/// The aliases of a node are those of its inbox and those of its channels' routes, all
/// of them and no others.
pub proof fn inbox_and_channels_are_all_aliases(st: NodeState, a: OwnedAliasView)
    ensures
        all_aliases(st).contains(a) <==> views(st.owner.client_relay.aliases@).contains(a) || exists|i: int|
            0 <= i < st.channels.entries@.len() && views((#[trigger] st.channels.entries@[i]).1.own_route.aliases@).contains(a),
{
    let s = st.channels.entries@;
    lemma_channel_aliases(s, s.len(), a);
    let own = views(st.owner.client_relay.aliases@);
    let rest = channel_aliases(s, s.len());
    let all = all_aliases(st);
    if own.contains(a) {
        assert(all[own.index_of(a)] == a);
    }
    if rest.contains(a) {
        assert(all[own.len() + rest.index_of(a)] == a);
    }
    if all.contains(a) {
        let j = all.index_of(a);
        if j < own.len() {
            assert(own[j] == a);
        } else {
            assert(rest[j - own.len()] == a);
        }
    }
}

proof fn lemma_once_from(s: Seq<OwnedAliasView>, n: nat)
    requires
        n <= s.len(),
    ensures
        forall|i: int| 0 <= i < each_once(s, n).len() ==> exists|j: int| 0 <= j < n && #[trigger] s[j] == #[trigger] each_once(s, n)[i],
    decreases n,
{
    if n > 0 {
        let m = (n - 1) as nat;
        lemma_once_from(s, m);
        let before = each_once(s, m);
        let now = each_once(s, n);
        assert forall|i: int| 0 <= i < now.len() implies exists|j: int| 0 <= j < n && #[trigger] s[j] == #[trigger] now[i] by {
            if i < before.len() {
                let j = choose|j: int| 0 <= j < m && #[trigger] s[j] == before[i];
                assert(s[j] == now[i]);
            } else {
                assert(s[m as int] == now[i]);
            }
        }
    }
}

/// A gateway is bound exactly where the binding has a revision, ends after now and
/// within a day, and the node has queues, not too many, none of whose leases is over.
/// It is then bound to every queue of the node, each once and by an alias of the
/// node's own.
#[verifier::rlimit(60)]
#[verifier::spinoff_prover]
pub proof fn bindings_are_for_every_queue(st: NodeState, revision: u64, expires: u64, now: u64)
    ensures
        binding(st, revision, expires, now) matches Ok(bound) ==> {
            &&& revision != 0
            &&& now < expires <= now + 86400
            &&& 0 < bound.len() <= 256
            &&& forall|i: int| 0 <= i < bound.len() ==> (#[trigger] bound[i]).contact.expiry > now
            &&& forall|i: int| 0 <= i < bound.len() ==> exists|j: int| 0 <= j < all_aliases(st).len() && #[trigger] all_aliases(st)[j] == #[trigger] bound[i]
            &&& forall|j: int|
                0 <= j < all_aliases(st).len() ==> exists|i: int|
                    0 <= i < bound.len() && (#[trigger] bound[i]).contact.queue_id == (#[trigger] all_aliases(st)[j]).contact.queue_id
                        && bound[i].contact.target.relay_service_id == all_aliases(st)[j].contact.target.relay_service_id
            &&& forall|i: int, j: int|
                0 <= i < j < bound.len() ==> !((#[trigger] bound[i]).contact.queue_id == (#[trigger] bound[j]).contact.queue_id
                    && bound[i].contact.target.relay_service_id == bound[j].contact.target.relay_service_id)
        },
        binding(st, revision, expires, now) matches Err(e) ==> match e {
            Error::InvalidPushBinding => revision == 0 || expires <= now || expires > now + 86400,
            Error::InboxNotReady => all_aliases(st).len() == 0,
            Error::InboxLeaseExpired => exists|j: int| 0 <= j < all_aliases(st).len() && (#[trigger] all_aliases(st)[j]).contact.expiry <= now,
            Error::TooManyPushAliases => all_aliases(st).len() > 256,
            _ => false,
        },
{
    let all = all_aliases(st);
    let once = each_once(all, all.len());
    every_queue_once(all, all.len());
    lemma_once_from(all, all.len());
    lemma_once_len(all, all.len());
    if binding(st, revision, expires, now) is Ok {
        let bound = binding(st, revision, expires, now)->Ok_0;
        assert forall|j: int| 0 <= j < all.len() implies exists|i: int|
            0 <= i < bound.len() && (#[trigger] bound[i]).contact.queue_id == (#[trigger] all[j]).contact.queue_id
                && bound[i].contact.target.relay_service_id == all[j].contact.target.relay_service_id by {
            assert(has_queue(once, all[j]));
            let k = choose|k: int| 0 <= k < once.len() && same_queue(#[trigger] once[k], all[j]);
            assert(bound[k].contact.queue_id == all[j].contact.queue_id);
        }
        assert forall|i: int, j: int| 0 <= i < j < bound.len() implies !((#[trigger] bound[i]).contact.queue_id == (
        #[trigger] bound[j]).contact.queue_id && bound[i].contact.target.relay_service_id == bound[j].contact.target.relay_service_id) by {
            assert(!same_queue(once[i], once[j]));
        }
    }
    if once.len() == 0 && all.len() > 0 {
        assert(has_queue(once, all[0]));
    }
    if some_over(once, now) {
        let i = choose|i: int| 0 <= i < once.len() && (#[trigger] once[i]).contact.expiry <= now;
        let j = choose|j: int| 0 <= j < all.len() && #[trigger] all[j] == once[i];
        assert(all[j].contact.expiry <= now);
    }
}

proof fn lemma_once_len(s: Seq<OwnedAliasView>, n: nat)
    ensures
        each_once(s, n).len() <= n,
    decreases n,
{
    if n > 0 {
        lemma_once_len(s, (n - 1) as nat);
    }
}

/// A ticket is asked for five minutes, or for what the lease has left where that is
/// less; a queue is bound as long as asked, or as it is leased where that is less.
/// Neither outlasts the lease, and each is one of its two bounds.
pub proof fn nothing_outlasts_its_lease(now: u64, expires: u64, lease_expiry: u64)
    ensures
        asked_until(now, lease_expiry) <= lease_expiry,
        asked_until(now, lease_expiry) <= now + 300,
        asked_until(now, lease_expiry) == now + 300 || asked_until(now, lease_expiry) == lease_expiry,
        bound_until(expires, lease_expiry) <= lease_expiry,
        bound_until(expires, lease_expiry) <= expires,
        bound_until(expires, lease_expiry) == expires || bound_until(expires, lease_expiry) == lease_expiry,
{
}

} // verus!
