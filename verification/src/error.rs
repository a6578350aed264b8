//! Error types of the library.
use vstd::prelude::*;

verus! {

/// `std::io::Error`, carried through as it is.
#[verifier::external_type_specification]
#[verifier::external_body]
pub struct ExIoError(std::io::Error);

/// Errors of the peer transports.
#[derive(Debug)]
pub enum PeerError {
    Io(std::io::Error),
    TransportClosed,
    ConnectionClosed,
    PayloadTooLarge { size: usize, max: usize },
    ChannelClosed,
    Endpoint(String),
    BlobStore(String),
    TransportMismatch(String),
    Custom(String),
}

/// Errors of the chunk store and the chunk index.
#[derive(Debug)]
pub enum StoreError {
    Io(std::io::Error),
    Peer(PeerError),
    /// A failure of the tree database, with its message.
    Db(String),
    HashMismatch { expected: String, actual: String },
    ReadOnlyStore,
    BlobStore(String),
    Custom(String),
}

/// Errors of operation synchronisation.
#[derive(Debug)]
pub enum SyncError {
    Io(std::io::Error),
    Peer(PeerError),
    Store(StoreError),
    Serialization(String),
    Channel(String),
    Custom(String),
}

/// Errors of the command line front end.
#[derive(Debug)]
pub enum CliError {
    Io(std::io::Error),
    Peer(PeerError),
    Store(StoreError),
    InvalidPeerId(String),
}

} // verus!
