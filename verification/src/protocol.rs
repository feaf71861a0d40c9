//! Framing of profiler frames streamed to a viewer over TCP: every message starts
//! with the protocol version, two bytes in little-endian order, and a client
//! refuses a server that speaks another version.
use vstd::prelude::*;

verus! {

/// Bumped on protocol breakage.
pub const PROTOCOL_VERSION: u16 = 2;

/// The default TCP port used.
pub const DEFAULT_PORT: u16 = 8585;

/// Why a client refuses what a server sends.
#[derive(Clone, Copy, Debug, PartialEq, Eq, Structural)]
pub enum ProtocolError {
    /// The server uses an older protocol version than the client.
    OlderServer { server: u16, client: u16 },
    /// The server uses a newer protocol version than the client.
    NewerServer { server: u16, client: u16 },
}

/// The two bytes of `v`, least significant first.
pub open spec fn u16_le_bytes(v: u16) -> Seq<u8> {
    seq![(v % 256) as u8, (v / 256) as u8]
}

/// The number whose little-endian bytes are `b0`, `b1`.
pub open spec fn u16_from_le(b0: u8, b1: u8) -> u16 {
    (b0 as int + 256 * b1 as int) as u16
}

/// The number whose little-endian bytes are `b`.
pub open spec fn u32_from_le4(b: Seq<u8>) -> u32 {
    (b[0] as int + 256 * b[1] as int + 65536 * b[2] as int + 16777216 * b[3] as int) as u32
}

/// What a client makes of a server with protocol version `server`.
pub open spec fn version_verdict(server: u16) -> Result<(), ProtocolError> {
    if server < PROTOCOL_VERSION {
        Err(ProtocolError::OlderServer { server, client: PROTOCOL_VERSION })
    } else if server > PROTOCOL_VERSION {
        Err(ProtocolError::NewerServer { server, client: PROTOCOL_VERSION })
    } else {
        Ok(())
    }
}

/// The little-endian bytes of `v` (`u16::to_le_bytes`).
pub fn u16_to_le_bytes(v: u16) -> (r: [u8; 2])
    ensures
        r@ == u16_le_bytes(v),
{
    let lo = (v % 256) as u8;
    let hi = (v / 256) as u8;
    let r = [lo, hi];
    proof {
        assert(r@ =~= u16_le_bytes(v));
    }
    r
}

/// The number whose little-endian bytes are `bytes` (`u16::from_le_bytes`).
pub fn u16_from_le_bytes(bytes: [u8; 2]) -> (r: u16)
    ensures
        r == u16_from_le(bytes@[0], bytes@[1]),
{
    let lo = bytes[0] as u16;
    let hi = bytes[1] as u16;
    lo + 256 * hi
}

/// The number whose little-endian bytes are `bytes` (`u32::from_le_bytes`).
pub fn u32_from_le_bytes(bytes: [u8; 4]) -> (r: u32)
    ensures
        r == u32_from_le4(bytes@),
{
    let b0 = bytes[0] as u32;
    let b1 = bytes[1] as u32;
    let b2 = bytes[2] as u32;
    let b3 = bytes[3] as u32;
    b0 + 256 * b1 + 65536 * b2 + 16777216 * b3
}

/// Decoding the two bytes of a version gives the version back.
pub proof fn law_version_reads_back(v: u16)
    ensures
        u16_from_le(u16_le_bytes(v)[0], u16_le_bytes(v)[1]) == v,
{
}

/// The start of every message a server sends: its protocol version.
pub fn packet_header() -> (r: Vec<u8>)
    ensures
        r@ == u16_le_bytes(PROTOCOL_VERSION),
{
    let b = u16_to_le_bytes(PROTOCOL_VERSION);
    let mut r: Vec<u8> = Vec::new();
    r.push(b[0]);
    r.push(b[1]);
    proof {
        assert(r@ =~= b@);
    }
    r
}

/// Accepts a server that speaks this client's protocol version, and refuses an
/// older or a newer one, naming both versions.
pub fn check_server_version(server_version: u16) -> (r: Result<(), ProtocolError>)
    ensures
        r == version_verdict(server_version),
{
    if server_version < PROTOCOL_VERSION {
        Err(ProtocolError::OlderServer { server: server_version, client: PROTOCOL_VERSION })
    } else if server_version > PROTOCOL_VERSION {
        Err(ProtocolError::NewerServer { server: server_version, client: PROTOCOL_VERSION })
    } else {
        Ok(())
    }
}

/// A server that writes its header is accepted by a client of the same version.
pub proof fn law_own_header_accepted()
    ensures
        version_verdict(u16_from_le(u16_le_bytes(PROTOCOL_VERSION)[0], u16_le_bytes(PROTOCOL_VERSION)[1]))
            is Ok,
{
}

} // verus!
