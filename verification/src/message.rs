//! The messages that peers exchange, and the frames that carry them: a message
//! is serialized, compressed with gzip, and sent when the frame is small enough.
use crate::clock::Clock;
use crate::groceries::Groceries;
use crate::op::GroceryOp;
use std::io::Read;
use vstd::prelude::*;

verus! {

/// The largest frame, in bytes, that is sent as a gossip message; a larger one
/// travels as a blob.
pub const MAX_MESSAGE_SIZE: usize = 200;

/// A message between peers.
pub enum CoreMessage {
    /// One operation.
    Op(GroceryOp),
    /// The clocks of the sender, sent at intervals.
    Heartbeat { add_clock: Clock, rm_clock: Clock },
    /// The operations that the receiver of a heartbeat lacks.
    AntiEntropyResponse { ops: Vec<GroceryOp> },
    /// The whole map and removal clock of the sender.
    SnapshotResponse { state: Groceries, rm_clock: Clock },
    /// A ticket to a blob that holds a frame too large to be sent.
    Blob { ticket: String },
}

/// A message as it is framed: the body and a random nonce.
pub struct NetMessage {
    pub body: CoreMessage,
    pub nonce: [u8; 16],
}

/// `rand::random`: sixteen random bytes. Nothing is stated of them.
#[verifier::external_body]
fn random_nonce() -> [u8; 16] {
    rand::random()
}

impl NetMessage {
    /// Frames a message with a fresh random nonce.
    pub fn new(body: CoreMessage) -> (m: NetMessage)
        ensures
            m.body == body,
    {
        NetMessage { body, nonce: random_nonce() }
    }
}

/// The gzip stream that `flate2`'s encoder gives for `data` at the default
/// level, or nothing where the encoder fails. The stream's header holds no time
/// and no system, so the same data always give the same stream.
pub uninterp spec fn gzip_encode(data: Seq<u8>) -> Option<Seq<u8>>;

/// What `flate2` reads out of the gzip stream `data`, or nothing where `data` is
/// not a gzip stream.
pub uninterp spec fn gzip_decode(data: Seq<u8>) -> Option<Seq<u8>>;

/// `flate2::read::GzEncoder` over the bytes `data` at the default level, read
/// to the end (`Read::read_to_end`): the gzip stream of `data`, from which the
/// decoder reads `data` back; nothing where the encoder fails.
#[verifier::external_body]
fn gzip_encode_all(data: &[u8]) -> (z: Option<Vec<u8>>)
    ensures
        z is Some <==> gzip_encode(data@) is Some,
        z matches Some(f) ==> gzip_encode(data@) == Some(f@) && gzip_decode(f@) == Some(data@),
{
    let mut buf: Vec<u8> = Vec::new();
    match flate2::read::GzEncoder::new(data, flate2::Compression::default()).read_to_end(&mut buf) {
        Ok(_) => Some(buf),
        Err(_) => None,
    }
}

/// `flate2::read::GzDecoder` over the bytes `data`, read to the end
/// (`Read::read_to_end`): what the gzip stream `data` holds, or nothing where
/// `data` is not a gzip stream.
#[verifier::external_body]
fn gzip_decode_all(data: &[u8]) -> (x: Option<Vec<u8>>)
    ensures
        x is Some <==> gzip_decode(data@) is Some,
        x matches Some(v) ==> gzip_decode(data@) == Some(v@),
{
    let mut buf: Vec<u8> = Vec::new();
    match flate2::read::GzDecoder::new(data).read_to_end(&mut buf) {
        Ok(_) => Some(buf),
        Err(_) => None,
    }
}

/// The frame of a serialized message: its gzip stream, from which
/// `decompress_frame` gives the message back. Nothing comes back exactly where
/// the encoder fails.
pub fn compress_frame(serialized: &[u8]) -> (frame: Option<Vec<u8>>)
    ensures
        frame is Some <==> gzip_encode(serialized@) is Some,
        frame matches Some(f) ==> gzip_encode(serialized@) == Some(f@) && gzip_decode(f@) == Some(serialized@),
{
    gzip_encode_all(serialized)
}

/// The serialized message that a frame carries, where the frame is a gzip
/// stream.
pub fn decompress_frame(frame: &[u8]) -> (serialized: Option<Vec<u8>>)
    ensures
        serialized is Some <==> gzip_decode(frame@) is Some,
        serialized matches Some(x) ==> gzip_decode(frame@) == Some(x@),
{
    gzip_decode_all(frame)
}

/// A frame is sent as a gossip message when it holds at most
/// `MAX_MESSAGE_SIZE` bytes (`Ok`); otherwise it is handed back (`Err`).
pub fn check_frame(frame: Vec<u8>) -> (r: Result<Vec<u8>, Vec<u8>>)
    ensures
        r is Ok <==> frame@.len() <= MAX_MESSAGE_SIZE,
        r matches Ok(f) ==> f@ == frame@,
        r matches Err(f) ==> f@ == frame@,
{
    if frame.len() > MAX_MESSAGE_SIZE {
        Err(frame)
    } else {
        Ok(frame)
    }
}


/// Whether a message read out of a blob is one that a blob may hold: blobs
/// only ever carry snapshots.
pub fn blob_holds_snapshot(msg: &CoreMessage) -> (r: bool)
    ensures
        r == (msg is SnapshotResponse),
{
    match msg {
        CoreMessage::SnapshotResponse { .. } => true,
        _ => false,
    }
}

} // verus!
