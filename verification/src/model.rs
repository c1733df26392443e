//! The plain values that the node's rules work on.

use vstd::prelude::*;
use crate::bytes::{all_zero, copy_bytes, same_bytes, same_id};

verus! {

/// The views of the items of a sequence.
pub open spec fn views<T: View>(s: Seq<T>) -> Seq<T::V> {
    Seq::new(s.len(), |i: int| s[i]@)
}

/// So many zero bytes.
pub open spec fn zeros<const N: usize>() -> [u8; N] {
    vstd::array::spec_array_fill_for_copy_type::<u8, N>(0u8)
}

/// The identifier of nothing: thirty-two zero bytes.
pub open spec fn is_zero(id: [u8; 32]) -> bool {
    forall|i: int| 0 <= i < 32 ==> id[i] == 0
}

pub fn zero_id(id: &[u8; 32]) -> (r: bool)
    ensures
        r == is_zero(*id),
{
    all_zero(id)
}

#[derive(Clone, Copy, Debug, PartialEq, Eq)]
pub enum IpAddr {
    V4([u8; 4]),
    V6([u8; 16]),
}

impl IpAddr {
    pub open spec fn spec_unspecified(self) -> bool {
        match self {
            IpAddr::V4(a) => forall|i: int| 0 <= i < 4 ==> a[i] == 0,
            IpAddr::V6(a) => forall|i: int| 0 <= i < 16 ==> a[i] == 0,
        }
    }

    /// `0.0.0.0` or `::`.
    pub fn is_unspecified(&self) -> (r: bool)
        ensures
            r == self.spec_unspecified(),
    {
        match self {
            IpAddr::V4(a) => all_zero(a),
            IpAddr::V6(a) => all_zero(a),
        }
    }

    pub open spec fn spec_loopback(self) -> bool {
        match self {
            IpAddr::V4(a) => a[0] == 127,
            IpAddr::V6(a) => a[15] == 1 && forall|i: int| 0 <= i < 15 ==> a[i] == 0,
        }
    }

    /// `127.0.0.0/8` or `::1`.
    pub fn is_loopback(&self) -> (r: bool)
        ensures
            r == self.spec_loopback(),
    {
        match self {
            IpAddr::V4(a) => a[0] == 127,
            IpAddr::V6(a) => {
                let mut i: usize = 0;
                while i < 15
                    invariant
                        i <= 15,
                        *self == IpAddr::V6(*a),
                        forall|j: int| 0 <= j < i ==> a[j] == 0,
                    decreases 15 - i,
                {
                    if a[i] != 0 {
                        return false;
                    }
                    i += 1;
                }
                a[15] == 1
            },
        }
    }

    pub fn same(&self, other: &IpAddr) -> (r: bool)
        ensures
            r == (*self == *other),
    {
        match (self, other) {
            (IpAddr::V4(a), IpAddr::V4(b)) => {
                let r = same_bytes(a, b);
                proof {
                    if a@ == b@ {
                        assert forall|i: int| 0 <= i < 4 implies a[i] == b[i] by {
                            assert(a@[i] == b@[i]);
                        }
                        assert(*a =~= *b);
                    }
                }
                r
            },
            (IpAddr::V6(a), IpAddr::V6(b)) => {
                let r = same_bytes(a, b);
                proof {
                    if a@ == b@ {
                        assert forall|i: int| 0 <= i < 16 implies a[i] == b[i] by {
                            assert(a@[i] == b@[i]);
                        }
                        assert(*a =~= *b);
                    }
                }
                r
            },
            _ => false,
        }
    }
}

/// An address and port. The last two parts are those of an IPv6 socket and
/// zero otherwise.
#[derive(Clone, Copy, Debug, PartialEq, Eq)]
pub struct SocketAddr {
    pub ip: IpAddr,
    pub port: u16,
    pub flow_info: u32,
    pub scope_id: u32,
}

impl SocketAddr {
    pub fn v4(octets: [u8; 4], port: u16) -> (r: Self)
        ensures
            r == (SocketAddr { ip: IpAddr::V4(octets), port, flow_info: 0, scope_id: 0 }),
    {
        SocketAddr { ip: IpAddr::V4(octets), port, flow_info: 0, scope_id: 0 }
    }

    pub fn same(&self, other: &SocketAddr) -> (r: bool)
        ensures
            r == (*self == *other),
    {
        self.ip.same(&other.ip) && self.port == other.port && self.flow_info == other.flow_info && self.scope_id
            == other.scope_id
    }
}

/// A relay service and where it listens.
#[derive(Clone, Copy, Debug, PartialEq, Eq)]
pub struct RelayTarget {
    pub address: SocketAddr,
    pub relay_service_id: [u8; 32],
}

impl RelayTarget {
    pub fn same(&self, other: &RelayTarget) -> (r: bool)
        ensures
            r == (*self == *other),
    {
        self.address.same(&other.address) && same_id(&self.relay_service_id, &other.relay_service_id)
    }
}

/// The public part of a leased queue.
#[derive(Clone, Copy, Debug, PartialEq, Eq)]
pub struct AliasContact {
    pub target: RelayTarget,
    pub queue_id: [u8; 32],
    pub epoch: u64,
    pub push_cap: [u8; 32],
    pub expiry: u64,
}

impl AliasContact {
    pub fn same(&self, other: &AliasContact) -> (r: bool)
        ensures
            r == (*self == *other),
    {
        self.target.same(&other.target) && same_id(&self.queue_id, &other.queue_id) && self.epoch == other.epoch
            && same_id(&self.push_cap, &other.push_cap) && self.expiry == other.expiry
    }
}

#[derive(Clone, Copy, Debug, PartialEq, Eq)]
pub struct Capabilities {
    pub push: [u8; 32],
    pub sub: [u8; 32],
    pub admin: [u8; 32],
}

impl Capabilities {
    pub fn same(&self, other: &Capabilities) -> (r: bool)
        ensures
            r == (*self == *other),
    {
        same_id(&self.push, &other.push) && same_id(&self.sub, &other.sub) && same_id(&self.admin, &other.admin)
    }
}

#[derive(Clone, Copy, Debug, PartialEq, Eq, Structural)]
pub struct LeaseLimits {
    pub max_queue_cells: u16,
    pub max_queue_bytes: u64,
}

/// A transport cell.
#[derive(Debug, PartialEq, Eq)]
pub struct Cell {
    pub version: u8,
    pub raw_type: u8,
    pub flags: u8,
    pub round_ctr: u16,
    pub payload: Vec<u8>,
}

pub struct CellView {
    pub version: u8,
    pub raw_type: u8,
    pub flags: u8,
    pub round_ctr: u16,
    pub payload: Seq<u8>,
}

impl View for Cell {
    type V = CellView;

    open spec fn view(&self) -> CellView {
        CellView {
            version: self.version,
            raw_type: self.raw_type,
            flags: self.flags,
            round_ctr: self.round_ctr,
            payload: self.payload@,
        }
    }
}

impl Clone for Cell {
    fn clone(&self) -> (r: Self)
        ensures
            r@ == self@,
    {
        Cell {
            version: self.version,
            raw_type: self.raw_type,
            flags: self.flags,
            round_ctr: self.round_ctr,
            payload: copy_bytes(self.payload.as_slice()),
        }
    }
}

impl Cell {
    pub fn same(&self, other: &Cell) -> (r: bool)
        ensures
            r == (self@ == other@),
    {
        self.version == other.version && self.raw_type == other.raw_type && self.flags == other.flags && self.round_ctr
            == other.round_ctr && same_bytes(self.payload.as_slice(), other.payload.as_slice())
    }
}

/// A leased queue with the private material of its owner.
#[derive(Debug, PartialEq, Eq)]
pub struct OwnedAlias {
    pub contact: AliasContact,
    pub capabilities: Capabilities,
    pub limits: LeaseLimits,
    pub create_path: String,
    pub lease_create: Cell,
}

pub struct OwnedAliasView {
    pub contact: AliasContact,
    pub capabilities: Capabilities,
    pub limits: LeaseLimits,
    pub create_path: Seq<char>,
    pub lease_create: CellView,
}

impl View for OwnedAlias {
    type V = OwnedAliasView;

    open spec fn view(&self) -> OwnedAliasView {
        OwnedAliasView {
            contact: self.contact,
            capabilities: self.capabilities,
            limits: self.limits,
            create_path: self.create_path@,
            lease_create: self.lease_create@,
        }
    }
}

impl Clone for OwnedAlias {
    fn clone(&self) -> (r: Self)
        ensures
            r@ == self@,
    {
        OwnedAlias {
            contact: self.contact,
            capabilities: self.capabilities,
            limits: self.limits,
            create_path: self.create_path.clone(),
            lease_create: self.lease_create.clone(),
        }
    }
}

impl OwnedAlias {
    pub fn same(&self, other: &OwnedAlias) -> (r: bool)
        ensures
            r == (self@ == other@),
    {
        self.contact.same(&other.contact) && self.capabilities.same(&other.capabilities) && self.limits == other.limits
            && self.create_path == other.create_path && self.lease_create.same(&other.lease_create)
    }

    /// Whether another operation speaks for the same queue with the same authority.
    pub open spec fn spec_same_authority(self, other: OwnedAlias) -> bool {
        self.contact == other.contact && self.capabilities == other.capabilities && self.limits == other.limits
    }

    pub fn same_authority(&self, other: &OwnedAlias) -> (r: bool)
        ensures
            r == self.spec_same_authority(*other),
    {
        self.contact.same(&other.contact) && self.capabilities.same(&other.capabilities) && self.limits == other.limits
    }
}

pub fn copy_cells(cells: &Vec<Cell>) -> (r: Vec<Cell>)
    ensures
        views(r@) == views(cells@),
{
    let mut out: Vec<Cell> = Vec::new();
    let mut i: usize = 0;
    while i < cells.len()
        invariant
            i <= cells.len(),
            out@.len() == i,
            forall|j: int| 0 <= j < i ==> (#[trigger] out@[j])@ == cells@[j]@,
        decreases cells.len() - i,
    {
        out.push(cells[i].clone());
        i += 1;
    }
    assert(views(out@) =~= views(cells@));
    out
}

pub fn copy_aliases(v: &Vec<OwnedAlias>) -> (r: Vec<OwnedAlias>)
    ensures
        views(r@) == views(v@),
{
    let r = v.clone();
    assert(views(r@) =~= views(v@));
    r
}

pub fn same_aliases(a: &Vec<OwnedAlias>, b: &Vec<OwnedAlias>) -> (r: bool)
    ensures
        r == (views(a@) == views(b@)),
{
    if a.len() != b.len() {
        assert(views(a@).len() != views(b@).len());
        return false;
    }
    let mut i: usize = 0;
    while i < a.len()
        invariant
            i <= a.len(),
            a.len() == b.len(),
            forall|j: int| 0 <= j < i ==> a@[j]@ == b@[j]@,
        decreases a.len() - i,
    {
        if !a[i].same(&b[i]) {
            assert(views(a@)[i as int] != views(b@)[i as int]);
            return false;
        }
        i += 1;
    }
    assert(views(a@) =~= views(b@));
    true
}

/// The public contacts of owned aliases, in their order.
pub open spec fn contacts_of(aliases: Seq<OwnedAlias>) -> Seq<AliasContact> {
    Seq::new(aliases.len(), |i: int| aliases[i].contact)
}

pub fn contacts(aliases: &Vec<OwnedAlias>) -> (r: Vec<AliasContact>)
    ensures
        r@ == contacts_of(aliases@),
{
    let mut r: Vec<AliasContact> = Vec::new();
    let mut i: usize = 0;
    while i < aliases.len()
        invariant
            i <= aliases.len(),
            r@ == contacts_of(aliases@.take(i as int)),
        decreases aliases.len() - i,
    {
        r.push(aliases[i].contact);
        i += 1;
        assert(r@ =~= contacts_of(aliases@.take(i as int)));
    }
    assert(aliases@.take(i as int) =~= aliases@);
    r
}

/// A relay's grant: owned aliases and the forwarding authority.
#[derive(Debug, PartialEq, Eq)]
pub struct RelayProvision {
    pub aliases: Vec<OwnedAlias>,
    pub frwd_path: String,
    pub hop_key: [u8; 32],
}

pub struct RelayProvisionView {
    pub aliases: Seq<OwnedAliasView>,
    pub frwd_path: Seq<char>,
    pub hop_key: [u8; 32],
}

impl View for RelayProvision {
    type V = RelayProvisionView;

    open spec fn view(&self) -> RelayProvisionView {
        RelayProvisionView {
            aliases: views(self.aliases@),
            frwd_path: self.frwd_path@,
            hop_key: self.hop_key,
        }
    }
}

impl Clone for RelayProvision {
    fn clone(&self) -> (r: Self)
        ensures
            r@ == self@,
    {
        RelayProvision {
            aliases: copy_aliases(&self.aliases),
            frwd_path: self.frwd_path.clone(),
            hop_key: self.hop_key,
        }
    }
}

impl RelayProvision {
    pub fn same(&self, other: &RelayProvision) -> (r: bool)
        ensures
            r == (self@ == other@),
    {
        same_aliases(&self.aliases, &other.aliases) && self.frwd_path == other.frwd_path && same_id(
            &self.hop_key,
            &other.hop_key,
        )
    }
}

/// A contact card.
#[derive(Debug, PartialEq, Eq)]
pub struct NodeInfo {
    pub identity_pk: Vec<u8>,
    pub bundle: Vec<u8>,
    pub aliases: Vec<AliasContact>,
    pub provisioning: Option<RelayProvision>,
}

pub struct NodeInfoView {
    pub identity_pk: Seq<u8>,
    pub bundle: Seq<u8>,
    pub aliases: Seq<AliasContact>,
    pub provisioning: Option<RelayProvisionView>,
}

impl View for NodeInfo {
    type V = NodeInfoView;

    open spec fn view(&self) -> NodeInfoView {
        NodeInfoView {
            identity_pk: self.identity_pk@,
            bundle: self.bundle@,
            aliases: self.aliases@,
            provisioning: match self.provisioning {
                Some(p) => Some(p@),
                None => None,
            },
        }
    }
}

impl Clone for NodeInfo {
    fn clone(&self) -> (r: Self)
        ensures
            r@ == self@,
    {
        let aliases = self.aliases.clone();
        assert(aliases@ =~= self.aliases@);
        NodeInfo {
            identity_pk: copy_bytes(self.identity_pk.as_slice()),
            bundle: copy_bytes(self.bundle.as_slice()),
            aliases,
            provisioning: match &self.provisioning {
                Some(p) => Some(p.clone()),
                None => None,
            },
        }
    }
}

pub fn same_contacts(a: &Vec<AliasContact>, b: &Vec<AliasContact>) -> (r: bool)
    ensures
        r == (a@ == b@),
{
    if a.len() != b.len() {
        return false;
    }
    let mut i: usize = 0;
    while i < a.len()
        invariant
            i <= a.len(),
            a.len() == b.len(),
            forall|j: int| 0 <= j < i ==> a@[j] == b@[j],
        decreases a.len() - i,
    {
        if !a[i].same(&b[i]) {
            return false;
        }
        i += 1;
    }
    assert(a@ =~= b@);
    true
}

impl NodeInfo {
    pub fn same(&self, other: &NodeInfo) -> (r: bool)
        ensures
            r == (self@ == other@),
    {
        let same_provisioning = match (&self.provisioning, &other.provisioning) {
            (Some(a), Some(b)) => a.same(b),
            (None, None) => true,
            _ => false,
        };
        same_provisioning && same_bytes(self.identity_pk.as_slice(), other.identity_pk.as_slice()) && same_bytes(
            self.bundle.as_slice(),
            other.bundle.as_slice(),
        ) && same_contacts(&self.aliases, &other.aliases)
    }

    /// The contact for normal traffic: the first alias.
    pub open spec fn spec_primary(self) -> Option<AliasContact> {
        if self.aliases@.len() > 0 {
            Some(self.aliases@[0])
        } else {
            None
        }
    }

    pub fn primary(&self) -> (r: Option<AliasContact>)
        ensures
            r == self.spec_primary(),
    {
        if self.aliases.len() > 0 {
            Some(self.aliases[0])
        } else {
            None
        }
    }

    /// The contact for control traffic: the second alias.
    pub open spec fn spec_control(self) -> Option<AliasContact> {
        if self.aliases@.len() > 1 {
            Some(self.aliases@[1])
        } else {
            None
        }
    }

    pub fn control(&self) -> (r: Option<AliasContact>)
        ensures
            r == self.spec_control(),
    {
        if self.aliases.len() > 1 {
            Some(self.aliases[1])
        } else {
            None
        }
    }
}

/// A channel member's public route.
#[derive(Clone, Copy, Debug, PartialEq, Eq)]
pub struct ChannelRoute {
    pub pseudonym: [u8; 32],
    pub direct_public: [u8; 32],
    pub data: AliasContact,
    pub control: AliasContact,
}

impl ChannelRoute {
    pub fn same(&self, other: &ChannelRoute) -> (r: bool)
        ensures
            r == (*self == *other),
    {
        same_id(&self.pseudonym, &other.pseudonym) && same_id(&self.direct_public, &other.direct_public)
            && self.data.same(&other.data) && self.control.same(&other.control)
    }
}

/// A channel route with its owner's private material.
#[derive(Debug, PartialEq, Eq)]
pub struct OwnedChannelRoute {
    pub public: ChannelRoute,
    pub direct_secret: [u8; 32],
    pub aliases: Vec<OwnedAlias>,
}

pub struct OwnedChannelRouteView {
    pub public: ChannelRoute,
    pub direct_secret: [u8; 32],
    pub aliases: Seq<OwnedAliasView>,
}

impl View for OwnedChannelRoute {
    type V = OwnedChannelRouteView;

    open spec fn view(&self) -> OwnedChannelRouteView {
        OwnedChannelRouteView {
            public: self.public,
            direct_secret: self.direct_secret,
            aliases: views(self.aliases@),
        }
    }
}

impl Clone for OwnedChannelRoute {
    fn clone(&self) -> (r: Self)
        ensures
            r@ == self@,
    {
        OwnedChannelRoute {
            public: self.public,
            direct_secret: self.direct_secret,
            aliases: copy_aliases(&self.aliases),
        }
    }
}

} // verus!
