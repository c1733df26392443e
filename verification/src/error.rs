//! Refusals of the node's rules.

use vstd::prelude::*;

verus! {

/// Why an operation was refused. `message` gives the text shown to a caller.
#[derive(Clone, Copy, Debug, PartialEq, Eq, Structural)]
pub enum Error {
    Malformed,
    NotAnExport,
    ExportTooLarge,
    FieldTooLarge,
    AuthenticationFailed,
    SealFailed,
    ContextRefused,
    ClockPrecedesSaved,
    ClockRegressed,
    ElapsedOverflow,
    LeaseRefused,
    InvalidTimeOrGroupCount,
    InvalidLifecycleGroup,
    InvalidAliasCount,
    CapabilitiesOverlap,
    MissingOriginalOperation,
    OriginalAuthorityMismatch,
    ExpiryOverflow,
    OriginalExpiryOverflow,
    InvalidBinding,
    OrphanRenewal,
    InvalidRoleMultiplicity,
    ActivationInFuture,
    ActiveAliasExpired,
    MissingActiveAliases,
    ClockPrecedesCaptured,
    InvalidPrivateCard,
    InvalidOriginalCard,
    RecordTooLarge,
    ProvisioningCapacity,
    NoAdmissionRoute,
    ExpiredDuringRestoration,
    RestoreChangedAuthority,
    ZeroLifecycleDuration,
    AliasSetEmpty,
    DeadlineOverflow,
    AgeOverflow,
    AgeUnrelated,
    RotationOverflow,
    MissingAnnouncementDeadlines,
    OrphanAnnouncementDeadlines,
    ActiveAgeUnrepresentable,
    DeadlineUnrepresentable,
    ActiveAliasExpiredBeforePublication,
    EffectiveClockRegressed,
    RetainedSecretMismatch,
    InvalidRetainedSecret,
    InvalidEstablishedRoute,
    InvalidEstablishedAlias,
    CellRefused,
    InboxRefused,
    OwnershipRefused,
    TlsIdentityRefused,
    DirectoryRefused,
    ReceiptsRefused,
    AmbiguousTrailer,
    OwnerTransitionUnconfirmed,
    InvalidPeerRoute,
    InvalidProcessedOrder,
    InvalidAcknowledgedRecipient,
    InvalidExpectedRecipient,
    InvalidMessageJournal,
    InvalidMembershipJournal,
    InvalidAdmissionOrder,
    InvalidRemovalKey,
    InvalidAckOrder,
    InvalidUnroutedOrder,
    InvalidUnroutedJournal,
    InvalidInviteOrder,
    InvalidDirectPresence,
    InvalidChannelPresence,
    CreditSelectionRequired,
    OwnershipInitialized,
    ConstructorRequired,
    MigrationRequired,
    NoChannelAuthority,
    LiveInbox,
    SessionRefused,
    DuplicateSessionTag,
    ReceiptArchiveRequired,
    LiveDirectState,
    UnauthenticatedSession,
    RoleRefused,
    VolatileRecord,
    StaleTransaction,
    NotCredited,
    InvalidPeerBundle,
    StalePeerBundle,
    FixtureExposed,
    ManagedBootstrap,
    SavedListenerMismatch,
    RelayWithoutContact,
    ControlWithoutListener,
    ControlAliasMissing,
    MissingRestoredAliases,
    InvalidCatalogOrigins,
    RoutingStateOwned,
    NonpublicRelay,
    ListenerNotAttached,
    RoutingAttached,
    MissingRetainedAliases,
    RetainedRouteExpired,
    RecoveryChangedAuthority,
    ExpiredDuringRecovery,
    InboxUnavailable,
    RecoveryPending,
    NoRetainedInbox,
    NoFreshIntroduction,
    OwnerRouteChanged,
    InvalidPushOrigin,
    InvalidPushReply,
    InboxNotReady,
    InboxLeaseExpired,
    InvalidPushBinding,
    TooManyPushAliases,
    ChannelPresenceNotOptedIn,
    DirectPresenceNotOptedIn,
    PresenceSequenceExhausted,
    InvalidChannelPresenceLease,
    NoChannel,
    MembershipConverging,
    /// The host lists nothing for a value that it must know.
    NotListed,
}

impl Error {
    pub open spec fn text(self) -> Seq<char> {
        match self {
            Error::Malformed => "malformed node state export"@,
            Error::NotAnExport => "not a gc node state export"@,
            Error::ExportTooLarge => "node state export too large"@,
            Error::FieldTooLarge => "node state field too large"@,
            Error::AuthenticationFailed => "forward grant archive authentication failed"@,
            Error::SealFailed => "seal failed"@,
            Error::ContextRefused => "session context refused"@,
            Error::ClockPrecedesSaved => "owner alias clock precedes saved observation"@,
            Error::ClockRegressed => "owner alias clock regressed"@,
            Error::ElapsedOverflow => "owner alias elapsed time overflow"@,
            Error::LeaseRefused => "relay lease refused"@,
            Error::InvalidTimeOrGroupCount => "invalid owner alias time or group count"@,
            Error::InvalidLifecycleGroup => "invalid owner alias lifecycle group"@,
            Error::InvalidAliasCount => "invalid owner active or staged alias count"@,
            Error::CapabilitiesOverlap => "owner alias public capabilities overlap"@,
            Error::MissingOriginalOperation => "missing original owner alias operation"@,
            Error::OriginalAuthorityMismatch => "original owner alias authority mismatch"@,
            Error::ExpiryOverflow => "owner alias expiry overflow"@,
            Error::OriginalExpiryOverflow => "original owner alias expiry overflow"@,
            Error::InvalidBinding => "invalid owner alias binding or duplicate queue"@,
            Error::OrphanRenewal => "orphan owner renewal operation"@,
            Error::InvalidRoleMultiplicity => "invalid owner alias role multiplicity"@,
            Error::ActivationInFuture => "owner alias activation is in the future"@,
            Error::ActiveAliasExpired => "active owner alias expired"@,
            Error::MissingActiveAliases => "missing active owner aliases"@,
            Error::ClockPrecedesCaptured => "owner clock precedes captured state"@,
            Error::InvalidPrivateCard => "invalid private owner alias record"@,
            Error::InvalidOriginalCard => "invalid original owner operation"@,
            Error::RecordTooLarge => "owner alias record too large"@,
            Error::ProvisioningCapacity => "relay provisioning capacity reached"@,
            Error::NoAdmissionRoute => "no current owner admission route"@,
            Error::ExpiredDuringRestoration => "owner alias expired during restoration"@,
            Error::RestoreChangedAuthority => "owner alias restore changed retained authority"@,
            Error::ZeroLifecycleDuration => "alias lifecycle durations must be nonzero"@,
            Error::AliasSetEmpty => "owner alias set is empty"@,
            Error::DeadlineOverflow => "owner alias deadline overflow"@,
            Error::AgeOverflow => "owner alias age overflow"@,
            Error::AgeUnrelated => "owner alias age cannot be related to wall time"@,
            Error::RotationOverflow => "owner rotation overflow"@,
            Error::MissingAnnouncementDeadlines => "missing original announcement deadlines"@,
            Error::OrphanAnnouncementDeadlines => "orphan announcement deadlines"@,
            Error::ActiveAgeUnrepresentable => "owner alias active age is unrepresentable"@,
            Error::DeadlineUnrepresentable => "owner alias deadline is unrepresentable"@,
            Error::ActiveAliasExpiredBeforePublication => "active owner alias expired before publication"@,
            Error::EffectiveClockRegressed => "owner alias effective clock regressed"@,
            Error::RetainedSecretMismatch => "retained channel-direct capability does not match its identity"@,
            Error::InvalidRetainedSecret => "invalid retained channel direct secret"@,
            Error::InvalidEstablishedRoute => "invalid established channel route"@,
            Error::InvalidEstablishedAlias => "invalid established channel alias"@,
            Error::CellRefused => "cell refused"@,
            Error::InboxRefused => "application inbox refused"@,
            Error::OwnershipRefused => "application ownership refused"@,
            Error::TlsIdentityRefused => "transport identity refused"@,
            Error::DirectoryRefused => "routing directory refused"@,
            Error::ReceiptsRefused => "receipt ledger refused"@,
            Error::AmbiguousTrailer => "invalid or ambiguous v16 archive trailer"@,
            Error::OwnerTransitionUnconfirmed => "owner lifecycle persistence outcome is unconfirmed"@,
            Error::InvalidPeerRoute => "invalid peer route in node state"@,
            Error::InvalidProcessedOrder => "invalid processed direct order"@,
            Error::InvalidAcknowledgedRecipient => "invalid acknowledged recipient in node state"@,
            Error::InvalidExpectedRecipient => "invalid expected recipient in node state"@,
            Error::InvalidMessageJournal => "invalid channel message journal"@,
            Error::InvalidMembershipJournal => "invalid membership journal"@,
            Error::InvalidAdmissionOrder => "invalid admission cache order"@,
            Error::InvalidRemovalKey => "invalid completed removal key"@,
            Error::InvalidAckOrder => "invalid control ACK cache order"@,
            Error::InvalidUnroutedOrder => "invalid unrouted ACK journal order"@,
            Error::InvalidUnroutedJournal => "invalid unrouted ACK journal"@,
            Error::InvalidInviteOrder => "invalid invite order"@,
            Error::InvalidDirectPresence => "invalid direct presence policy"@,
            Error::InvalidChannelPresence => "invalid channel presence policy"@,
            Error::CreditSelectionRequired => "GC/2 archive requires explicit GC/2 session selection"@,
            Error::OwnershipInitialized => "cannot replace initialized central ownership"@,
            Error::ConstructorRequired => "owner alias archives require constructor restoration"@,
            Error::MigrationRequired => "GC/1 sessions require explicit authenticated migration before GC/2 selection"@,
            Error::NoChannelAuthority => "relay has no channel authority"@,
            Error::LiveInbox => "cannot replace a live durable application inbox"@,
            Error::SessionRefused => "sealed session refused"@,
            Error::DuplicateSessionTag => "duplicate archived GC/2 session tag"@,
            Error::ReceiptArchiveRequired => "recovered or volatile GC/2 sessions require a v21 receipt archive"@,
            Error::LiveDirectState => "cannot replace live GC/2 direct state"@,
            Error::UnauthenticatedSession => "parsed session must be authenticated before accounting"@,
            Error::RoleRefused => "channel role refused"@,
            Error::VolatileRecord => "volatile record on a durable session"@,
            Error::StaleTransaction => "stale session transaction"@,
            Error::NotCredited => "session has no credit"@,
            Error::InvalidPeerBundle => "invalid peer bundle"@,
            Error::StalePeerBundle => "peer bundle is outside its rotation window"@,
            Error::FixtureExposed => "a fixture NodeProfile can only listen on loopback; use NodeProfile::Production to expose a node"@,
            Error::ManagedBootstrap => "managed installer bootstrap is provided by the host integration"@,
            Error::SavedListenerMismatch => "saved owner listener does not match configured identity/address"@,
            Error::RelayWithoutContact => "configured relay has no contact"@,
            Error::ControlWithoutListener => "remote control TLS configured without a control listener"@,
            Error::ControlAliasMissing => "relay provisioning requires normal and control aliases"@,
            Error::MissingRestoredAliases => "missing restored active owner aliases"@,
            Error::InvalidCatalogOrigins => "invalid catalog origin allowlist"@,
            Error::RoutingStateOwned => "routing state must have one persistence owner"@,
            Error::NonpublicRelay => "retained routing material contains a nonpublic relay"@,
            Error::ListenerNotAttached => "relay listener not attached"@,
            Error::RoutingAttached => "routing profile is already attached"@,
            Error::MissingRetainedAliases => "missing retained aliases"@,
            Error::RetainedRouteExpired => "retained route expired"@,
            Error::RecoveryChangedAuthority => "route recovery changed retained authority"@,
            Error::ExpiredDuringRecovery => "retained route expired during recovery"@,
            Error::InboxUnavailable => "inbox is unavailable"@,
            Error::RecoveryPending => "retained inbox recovery is still pending"@,
            Error::NoRetainedInbox => "no retained inbox"@,
            Error::NoFreshIntroduction => "retained service has no fresh introduction"@,
            Error::OwnerRouteChanged => "owner route changed during restoration"@,
            Error::InvalidPushOrigin => "invalid push gateway origin"@,
            Error::InvalidPushReply => "invalid push registration reply scope"@,
            Error::InboxNotReady => "inbox relay is not ready"@,
            Error::InboxLeaseExpired => "inbox relay lease has expired"@,
            Error::InvalidPushBinding => "binding requires a nonzero revision and a lifetime of at most one day"@,
            Error::TooManyPushAliases => "too many inbox aliases for one notification binding"@,
            Error::ChannelPresenceNotOptedIn => "channel presence is not opted in for this channel"@,
            Error::DirectPresenceNotOptedIn => "direct presence is not opted in for this peer"@,
            Error::PresenceSequenceExhausted => "presence sequence exhausted"@,
            Error::InvalidChannelPresenceLease => "invalid channel presence lease"@,
            Error::NoChannel => "no channel"@,
            Error::MembershipConverging => "channel membership is still converging"@,
            Error::NotListed => "value without an encoding"@,
        }
    }

    /// The text shown to a caller.
    pub fn message(&self) -> (r: &'static str)
        ensures
            r@ == self.text(),
    {
        match self {
            Error::Malformed => "malformed node state export",
            Error::NotAnExport => "not a gc node state export",
            Error::ExportTooLarge => "node state export too large",
            Error::FieldTooLarge => "node state field too large",
            Error::AuthenticationFailed => "forward grant archive authentication failed",
            Error::SealFailed => "seal failed",
            Error::ContextRefused => "session context refused",
            Error::ClockPrecedesSaved => "owner alias clock precedes saved observation",
            Error::ClockRegressed => "owner alias clock regressed",
            Error::ElapsedOverflow => "owner alias elapsed time overflow",
            Error::LeaseRefused => "relay lease refused",
            Error::InvalidTimeOrGroupCount => "invalid owner alias time or group count",
            Error::InvalidLifecycleGroup => "invalid owner alias lifecycle group",
            Error::InvalidAliasCount => "invalid owner active or staged alias count",
            Error::CapabilitiesOverlap => "owner alias public capabilities overlap",
            Error::MissingOriginalOperation => "missing original owner alias operation",
            Error::OriginalAuthorityMismatch => "original owner alias authority mismatch",
            Error::ExpiryOverflow => "owner alias expiry overflow",
            Error::OriginalExpiryOverflow => "original owner alias expiry overflow",
            Error::InvalidBinding => "invalid owner alias binding or duplicate queue",
            Error::OrphanRenewal => "orphan owner renewal operation",
            Error::InvalidRoleMultiplicity => "invalid owner alias role multiplicity",
            Error::ActivationInFuture => "owner alias activation is in the future",
            Error::ActiveAliasExpired => "active owner alias expired",
            Error::MissingActiveAliases => "missing active owner aliases",
            Error::ClockPrecedesCaptured => "owner clock precedes captured state",
            Error::InvalidPrivateCard => "invalid private owner alias record",
            Error::InvalidOriginalCard => "invalid original owner operation",
            Error::RecordTooLarge => "owner alias record too large",
            Error::ProvisioningCapacity => "relay provisioning capacity reached",
            Error::NoAdmissionRoute => "no current owner admission route",
            Error::ExpiredDuringRestoration => "owner alias expired during restoration",
            Error::RestoreChangedAuthority => "owner alias restore changed retained authority",
            Error::ZeroLifecycleDuration => "alias lifecycle durations must be nonzero",
            Error::AliasSetEmpty => "owner alias set is empty",
            Error::DeadlineOverflow => "owner alias deadline overflow",
            Error::AgeOverflow => "owner alias age overflow",
            Error::AgeUnrelated => "owner alias age cannot be related to wall time",
            Error::RotationOverflow => "owner rotation overflow",
            Error::MissingAnnouncementDeadlines => "missing original announcement deadlines",
            Error::OrphanAnnouncementDeadlines => "orphan announcement deadlines",
            Error::ActiveAgeUnrepresentable => "owner alias active age is unrepresentable",
            Error::DeadlineUnrepresentable => "owner alias deadline is unrepresentable",
            Error::ActiveAliasExpiredBeforePublication => "active owner alias expired before publication",
            Error::EffectiveClockRegressed => "owner alias effective clock regressed",
            Error::RetainedSecretMismatch => "retained channel-direct capability does not match its identity",
            Error::InvalidRetainedSecret => "invalid retained channel direct secret",
            Error::InvalidEstablishedRoute => "invalid established channel route",
            Error::InvalidEstablishedAlias => "invalid established channel alias",
            Error::CellRefused => "cell refused",
            Error::InboxRefused => "application inbox refused",
            Error::OwnershipRefused => "application ownership refused",
            Error::TlsIdentityRefused => "transport identity refused",
            Error::DirectoryRefused => "routing directory refused",
            Error::ReceiptsRefused => "receipt ledger refused",
            Error::AmbiguousTrailer => "invalid or ambiguous v16 archive trailer",
            Error::OwnerTransitionUnconfirmed => "owner lifecycle persistence outcome is unconfirmed",
            Error::InvalidPeerRoute => "invalid peer route in node state",
            Error::InvalidProcessedOrder => "invalid processed direct order",
            Error::InvalidAcknowledgedRecipient => "invalid acknowledged recipient in node state",
            Error::InvalidExpectedRecipient => "invalid expected recipient in node state",
            Error::InvalidMessageJournal => "invalid channel message journal",
            Error::InvalidMembershipJournal => "invalid membership journal",
            Error::InvalidAdmissionOrder => "invalid admission cache order",
            Error::InvalidRemovalKey => "invalid completed removal key",
            Error::InvalidAckOrder => "invalid control ACK cache order",
            Error::InvalidUnroutedOrder => "invalid unrouted ACK journal order",
            Error::InvalidUnroutedJournal => "invalid unrouted ACK journal",
            Error::InvalidInviteOrder => "invalid invite order",
            Error::InvalidDirectPresence => "invalid direct presence policy",
            Error::InvalidChannelPresence => "invalid channel presence policy",
            Error::CreditSelectionRequired => "GC/2 archive requires explicit GC/2 session selection",
            Error::OwnershipInitialized => "cannot replace initialized central ownership",
            Error::ConstructorRequired => "owner alias archives require constructor restoration",
            Error::MigrationRequired => "GC/1 sessions require explicit authenticated migration before GC/2 selection",
            Error::NoChannelAuthority => "relay has no channel authority",
            Error::LiveInbox => "cannot replace a live durable application inbox",
            Error::SessionRefused => "sealed session refused",
            Error::DuplicateSessionTag => "duplicate archived GC/2 session tag",
            Error::ReceiptArchiveRequired => "recovered or volatile GC/2 sessions require a v21 receipt archive",
            Error::LiveDirectState => "cannot replace live GC/2 direct state",
            Error::UnauthenticatedSession => "parsed session must be authenticated before accounting",
            Error::RoleRefused => "channel role refused",
            Error::VolatileRecord => "volatile record on a durable session",
            Error::StaleTransaction => "stale session transaction",
            Error::NotCredited => "session has no credit",
            Error::InvalidPeerBundle => "invalid peer bundle",
            Error::StalePeerBundle => "peer bundle is outside its rotation window",
            Error::FixtureExposed => "a fixture NodeProfile can only listen on loopback; use NodeProfile::Production to expose a node",
            Error::ManagedBootstrap => "managed installer bootstrap is provided by the host integration",
            Error::SavedListenerMismatch => "saved owner listener does not match configured identity/address",
            Error::RelayWithoutContact => "configured relay has no contact",
            Error::ControlWithoutListener => "remote control TLS configured without a control listener",
            Error::ControlAliasMissing => "relay provisioning requires normal and control aliases",
            Error::MissingRestoredAliases => "missing restored active owner aliases",
            Error::InvalidCatalogOrigins => "invalid catalog origin allowlist",
            Error::RoutingStateOwned => "routing state must have one persistence owner",
            Error::NonpublicRelay => "retained routing material contains a nonpublic relay",
            Error::ListenerNotAttached => "relay listener not attached",
            Error::RoutingAttached => "routing profile is already attached",
            Error::MissingRetainedAliases => "missing retained aliases",
            Error::RetainedRouteExpired => "retained route expired",
            Error::RecoveryChangedAuthority => "route recovery changed retained authority",
            Error::ExpiredDuringRecovery => "retained route expired during recovery",
            Error::InboxUnavailable => "inbox is unavailable",
            Error::RecoveryPending => "retained inbox recovery is still pending",
            Error::NoRetainedInbox => "no retained inbox",
            Error::NoFreshIntroduction => "retained service has no fresh introduction",
            Error::OwnerRouteChanged => "owner route changed during restoration",
            Error::InvalidPushOrigin => "invalid push gateway origin",
            Error::InvalidPushReply => "invalid push registration reply scope",
            Error::InboxNotReady => "inbox relay is not ready",
            Error::InboxLeaseExpired => "inbox relay lease has expired",
            Error::InvalidPushBinding => "binding requires a nonzero revision and a lifetime of at most one day",
            Error::TooManyPushAliases => "too many inbox aliases for one notification binding",
            Error::ChannelPresenceNotOptedIn => "channel presence is not opted in for this channel",
            Error::DirectPresenceNotOptedIn => "direct presence is not opted in for this peer",
            Error::PresenceSequenceExhausted => "presence sequence exhausted",
            Error::InvalidChannelPresenceLease => "invalid channel presence lease",
            Error::NoChannel => "no channel",
            Error::MembershipConverging => "channel membership is still converging",
            Error::NotListed => "value without an encoding",
        }
    }
}

} // verus!
