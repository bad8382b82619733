use vstd::prelude::*;

use crate::bencode::BencodeError;

verus! {

/// What went wrong, by kind.
#[derive(Debug, Clone, Copy, PartialEq, Eq, Structural)]
pub enum Error {
    /// The bytes are not a canonical bencoding.
    BencodeParse(BencodeError),
    /// A metainfo field is missing or malformed, or the piece hashes do not
    /// cover the file.
    UnsupportedTorrent,
    /// The tracker could not be reached or its URL is not usable.
    TrackerTransport,
    /// The tracker's answer is not a usable response.
    TrackerDecode,
    /// No peer could be reached.
    PeerConnect,
    /// The remote handshake names another protocol or another torrent.
    HandshakeMismatch,
    /// A message arrived that the protocol does not allow at this point.
    ProtocolViolation,
    /// The peer does not offer the metadata extension.
    ExtensionUnsupported,
    /// The metadata received does not hash to the expected info-hash.
    MetadataHashMismatch,
    /// A piece does not hash to its published digest.
    PieceHashMismatch,
    /// Reading or writing failed.
    Io,
    /// An argument or a magnet link is not valid.
    ConfigInvalid,
}

} // verus!
