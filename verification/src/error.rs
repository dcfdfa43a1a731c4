//! Everything that can go wrong, as one flat enumeration.

use vstd::prelude::*;

verus! {

/// What the backing tables refuse.
#[derive(Debug, Clone, Copy, PartialEq, Eq, Structural)]
pub enum StoreError {
    /// A row that has to exist does not.
    NoRows,
    /// A row refers to one that does not exist, or is referred to itself.
    ForeignKey,
    /// A credential share would have no end.
    CredentialShareEnd,
    /// A file share would have no end.
    FileShareEnd,
    /// Another credential share has the digest.
    CredentialShareToken,
    /// Another file share has the digest.
    FileShareToken,
    /// Another hardware key has the fingerprint.
    HardwareKeyFingerprint,
    /// Another bearer has the digest.
    ApiKeyHash,
    /// Another file that a quorum opens stands at the path.
    QuorumFilePath,
    /// Another file that a password opens stands at the path.
    LockedFilePath,
    /// A node names the peer already.
    NodePeer,
}

impl StoreError {
    pub open spec fn text(self) -> Seq<char> {
        match self {
            StoreError::NoRows => "database error: Query returned no rows"@,
            StoreError::ForeignKey => "database error: FOREIGN KEY constraint failed"@,
            StoreError::CredentialShareEnd => {
                "database error: NOT NULL constraint failed: credential_shares.expires_at"@
            },
            StoreError::FileShareEnd => {
                "database error: NOT NULL constraint failed: file_shares.expires_at"@
            },
            StoreError::CredentialShareToken => {
                "database error: UNIQUE constraint failed: credential_shares.token_hash"@
            },
            StoreError::FileShareToken => {
                "database error: UNIQUE constraint failed: file_shares.token_hash"@
            },
            StoreError::HardwareKeyFingerprint => {
                "database error: UNIQUE constraint failed: hardware_keys.fingerprint"@
            },
            StoreError::ApiKeyHash => {
                "database error: UNIQUE constraint failed: api_keys.key_hash"@
            },
            StoreError::QuorumFilePath => {
                "database error: UNIQUE constraint failed: files.encrypted_path"@
            },
            StoreError::LockedFilePath => {
                "database error: UNIQUE constraint failed: password_locked_files.encrypted_path"@
            },
            StoreError::NodePeer => {
                "database error: UNIQUE constraint failed: key_node_bridges.node_id, key_node_bridges.peer_label"@
            },
        }
    }

    /// The message shown to a user: it names what was not met.
    pub fn message(&self) -> (r: &'static str)
        ensures
            r@ == self.text(),
    {
        match self {
            StoreError::NoRows => "database error: Query returned no rows",
            StoreError::ForeignKey => "database error: FOREIGN KEY constraint failed",
            StoreError::CredentialShareEnd => {
                "database error: NOT NULL constraint failed: credential_shares.expires_at"
            },
            StoreError::FileShareEnd => {
                "database error: NOT NULL constraint failed: file_shares.expires_at"
            },
            StoreError::CredentialShareToken => {
                "database error: UNIQUE constraint failed: credential_shares.token_hash"
            },
            StoreError::FileShareToken => {
                "database error: UNIQUE constraint failed: file_shares.token_hash"
            },
            StoreError::HardwareKeyFingerprint => {
                "database error: UNIQUE constraint failed: hardware_keys.fingerprint"
            },
            StoreError::ApiKeyHash => {
                "database error: UNIQUE constraint failed: api_keys.key_hash"
            },
            StoreError::QuorumFilePath => {
                "database error: UNIQUE constraint failed: files.encrypted_path"
            },
            StoreError::LockedFilePath => {
                "database error: UNIQUE constraint failed: password_locked_files.encrypted_path"
            },
            StoreError::NodePeer => {
                "database error: UNIQUE constraint failed: key_node_bridges.node_id, key_node_bridges.peer_label"
            },
        }
    }
}

#[derive(Debug, Clone, Copy, PartialEq, Eq, Structural)]
pub enum Error {
    Db(StoreError),
    InvalidPath,
    KeyDerivationFailed,
    InvalidPassword,
    InvalidShareToken,
    ShareExpired,
    ShareRevoked,
    ShareExhausted,
    IntegrityCheckFailed,
    QuorumNotMet,
    InvalidQuorumThreshold,
    InvalidTreeSpec,
    KeyRevoked,
    WrongKeyType,
    InvalidPublicKey,
    SignatureVerificationFailed,
    PinMismatch,
    PinLocked,
    PinNotSet,
    InvalidPin,
    BundleFieldTooLarge,
    NodeNotFound,
    DuplicateNodeLabel,
    InvalidBridge,
    BridgeNotWhitelisted,
    BridgeNotFound,
    CannotEvict,
    CannotAddLeaf,
    ShareShapeMismatch,
    InvalidBridgePackage,
    NotBridgeMember,
    TooFewBridgeMembers,
    BridgeDestroyed,
    BridgeGenerationMismatch,
    SealedKeyNotHeld,
    TreeNotFound,
    UnknownProvider,
    InvalidApiKey,
    ApiKeyExpired,
    ApiKeyRevoked,
    ApiKeyScopeDenied,
    ApiKeyNotFound,
    InvalidApiKeyRequest,
    InvalidLicenseeKey,
    InvalidInboxPage,
    InvalidProviderPolicy,
    InvalidRootNetwork,
    RootNetworkRequired,
    CallerNetworkNotAuthoritative,
    ProviderNetworkModeUnsupported,
}

/// The error that a result holds, if it does.
pub open spec fn fault_of<T>(r: Result<T, Error>) -> Option<Error> {
    match r {
        Ok(_) => None,
        Err(e) => Some(e),
    }
}

impl Error {
    pub open spec fn text(self) -> Seq<char> {
        match self {
            Error::Db(e) => e.text(),
            Error::InvalidPath => "path is not valid UTF-8"@,
            Error::KeyDerivationFailed => "key derivation failed"@,
            Error::InvalidPassword => "incorrect password"@,
            Error::InvalidShareToken => "invalid share token"@,
            Error::ShareExpired => "share link has expired"@,
            Error::ShareRevoked => "share link has been revoked"@,
            Error::ShareExhausted => "share link has reached its use limit"@,
            Error::IntegrityCheckFailed => "decrypted content failed integrity check"@,
            Error::QuorumNotMet => "not enough valid shares to reconstruct this key"@,
            Error::InvalidQuorumThreshold => {
                "threshold must be between 1 and the number of children"@
            },
            Error::InvalidTreeSpec => "tree snapshot is malformed"@,
            Error::KeyRevoked => "hardware key has been revoked"@,
            Error::WrongKeyType => "hardware key is not the required type"@,
            Error::InvalidPublicKey => "public key is malformed"@,
            Error::SignatureVerificationFailed => "signature does not match"@,
            Error::PinMismatch => "incorrect PIN"@,
            Error::PinLocked => "PIN is locked after too many incorrect attempts"@,
            Error::PinNotSet => "no PIN is set for this resource"@,
            Error::InvalidPin => "PIN must be exactly 4 digits"@,
            Error::BundleFieldTooLarge => "export bundle field exceeds its encodable length"@,
            Error::NodeNotFound => "no node with that label or id exists in this key"@,
            Error::DuplicateNodeLabel => "each node label in a key tree must be unique"@,
            Error::InvalidBridge => {
                "bridge peer is missing, refers to this node, or is not in this key"@
            },
            Error::BridgeNotWhitelisted => "cross-branch link is not whitelisted by either node"@,
            Error::BridgeNotFound => "no established cross-branch link between those nodes"@,
            Error::CannotEvict => {
                "this leaf cannot be evicted (not an active leaf, parent threshold is 1, remaining siblings cannot meet the threshold, or a sibling is not a leaf)"@
            },
            Error::CannotAddLeaf => {
                "cannot add a leaf here (parent is not a split of active leaves, or adding would exceed 255 children)"@
            },
            Error::ShareShapeMismatch => "shares must share an x-coordinate and y-length"@,
            Error::InvalidBridgePackage => {
                "private-bridge package is malformed or not for this key"@
            },
            Error::NotBridgeMember => "that node is not a member of this private bridge"@,
            Error::TooFewBridgeMembers => {
                "a private sign bridge needs at least two distinct members"@
            },
            Error::BridgeDestroyed => "this private bridge has been destroyed"@,
            Error::BridgeGenerationMismatch => {
                "private-bridge package generation does not match local state"@
            },
            Error::SealedKeyNotHeld => {
                "this store does not hold a sealed bridge secret for that member"@
            },
            Error::TreeNotFound => "no published tree has that label"@,
            Error::UnknownProvider => "unknown provider"@,
            Error::InvalidApiKey => "API key is not valid"@,
            Error::ApiKeyExpired => "API key has expired"@,
            Error::ApiKeyRevoked => "API key has been revoked"@,
            Error::ApiKeyScopeDenied => "API key does not have the required scope"@,
            Error::ApiKeyNotFound => "no API key with that id exists"@,
            Error::InvalidApiKeyRequest => "API key request is malformed"@,
            Error::InvalidLicenseeKey => "licensee key is not known"@,
            Error::InvalidInboxPage => "inbox page size is out of range"@,
            Error::InvalidProviderPolicy => "provider policy is malformed"@,
            Error::InvalidRootNetwork => "network is not a valid CIDR"@,
            Error::RootNetworkRequired => "an authorized network is required"@,
            Error::CallerNetworkNotAuthoritative => {
                "a network named by the caller carries no authority"@
            },
            Error::ProviderNetworkModeUnsupported => "network mode is not supported"@,
        }
    }

    /// The message shown to a user.
    pub fn message(&self) -> (r: &'static str)
        ensures
            r@ == self.text(),
    {
        match self {
            Error::Db(e) => e.message(),
            Error::InvalidPath => "path is not valid UTF-8",
            Error::KeyDerivationFailed => "key derivation failed",
            Error::InvalidPassword => "incorrect password",
            Error::InvalidShareToken => "invalid share token",
            Error::ShareExpired => "share link has expired",
            Error::ShareRevoked => "share link has been revoked",
            Error::ShareExhausted => "share link has reached its use limit",
            Error::IntegrityCheckFailed => "decrypted content failed integrity check",
            Error::QuorumNotMet => "not enough valid shares to reconstruct this key",
            Error::InvalidQuorumThreshold => {
                "threshold must be between 1 and the number of children"
            },
            Error::InvalidTreeSpec => "tree snapshot is malformed",
            Error::KeyRevoked => "hardware key has been revoked",
            Error::WrongKeyType => "hardware key is not the required type",
            Error::InvalidPublicKey => "public key is malformed",
            Error::SignatureVerificationFailed => "signature does not match",
            Error::PinMismatch => "incorrect PIN",
            Error::PinLocked => "PIN is locked after too many incorrect attempts",
            Error::PinNotSet => "no PIN is set for this resource",
            Error::InvalidPin => "PIN must be exactly 4 digits",
            Error::BundleFieldTooLarge => "export bundle field exceeds its encodable length",
            Error::NodeNotFound => "no node with that label or id exists in this key",
            Error::DuplicateNodeLabel => "each node label in a key tree must be unique",
            Error::InvalidBridge => {
                "bridge peer is missing, refers to this node, or is not in this key"
            },
            Error::BridgeNotWhitelisted => "cross-branch link is not whitelisted by either node",
            Error::BridgeNotFound => "no established cross-branch link between those nodes",
            Error::CannotEvict => {
                "this leaf cannot be evicted (not an active leaf, parent threshold is 1, remaining siblings cannot meet the threshold, or a sibling is not a leaf)"
            },
            Error::CannotAddLeaf => {
                "cannot add a leaf here (parent is not a split of active leaves, or adding would exceed 255 children)"
            },
            Error::ShareShapeMismatch => "shares must share an x-coordinate and y-length",
            Error::InvalidBridgePackage => {
                "private-bridge package is malformed or not for this key"
            },
            Error::NotBridgeMember => "that node is not a member of this private bridge",
            Error::TooFewBridgeMembers => {
                "a private sign bridge needs at least two distinct members"
            },
            Error::BridgeDestroyed => "this private bridge has been destroyed",
            Error::BridgeGenerationMismatch => {
                "private-bridge package generation does not match local state"
            },
            Error::SealedKeyNotHeld => {
                "this store does not hold a sealed bridge secret for that member"
            },
            Error::TreeNotFound => "no published tree has that label",
            Error::UnknownProvider => "unknown provider",
            Error::InvalidApiKey => "API key is not valid",
            Error::ApiKeyExpired => "API key has expired",
            Error::ApiKeyRevoked => "API key has been revoked",
            Error::ApiKeyScopeDenied => "API key does not have the required scope",
            Error::ApiKeyNotFound => "no API key with that id exists",
            Error::InvalidApiKeyRequest => "API key request is malformed",
            Error::InvalidLicenseeKey => "licensee key is not known",
            Error::InvalidInboxPage => "inbox page size is out of range",
            Error::InvalidProviderPolicy => "provider policy is malformed",
            Error::InvalidRootNetwork => "network is not a valid CIDR",
            Error::RootNetworkRequired => "an authorized network is required",
            Error::CallerNetworkNotAuthoritative => {
                "a network named by the caller carries no authority"
            },
            Error::ProviderNetworkModeUnsupported => "network mode is not supported",
        }
    }
}

} // verus!
