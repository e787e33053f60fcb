use vstd::prelude::*;
use crate::net::bytes::{
    read_exact, read_u16_be, read_u64_be, write_u16_be, write_u16_le, write_u64_be, u16_be_bytes, u16_from_be,
    u16_le_bytes, u64_be_bytes, u64_from_be, lemma_u16_be_roundtrip, lemma_u64_be_roundtrip,
};
use crate::net::frame::UserId;
use crate::net::result::Error;
use vstd::slice::slice_subrange;

verus! {

/// Size of the write buffer of a channel.
pub const WRITE_BUF_SIZE: usize = 524288;

/// Size of the read buffer of a channel.
pub const READ_BUF_SIZE: usize = 65536;

/// Size of a frame header: category (1 byte), sequence (8 bytes), payload size (2 bytes).
pub const HEADER_SIZE: usize = 11;

/// Size of the message authentication code that seals every payload.
pub const MAC_SIZE: usize = 16;

/// Bytes that every frame spends on its header and authentication code.
pub const OVERHEAD_SIZE: usize = 27;

/// The largest plain payload that fits in `capacity` bytes along with the frame overhead.
pub fn max_plain_payload_size(capacity: usize) -> (size: usize)
    requires
        capacity >= OVERHEAD_SIZE,
    ensures
        size == capacity - OVERHEAD_SIZE,
{
    capacity - OVERHEAD_SIZE
}

/// A parsed frame header.
#[derive(Debug, PartialEq, Eq, Structural)]
pub struct FrameHeader {
    pub category: u8,
    pub sequence: u64,
    pub payload_size: usize,
}

/// What the start of the read buffer holds.
#[derive(Debug, PartialEq, Eq, Structural)]
pub enum HeaderOutcome {
    /// A frame without payload, of the given category. It carries no sequence number check.
    Empty(u8),
    /// A sealed frame whose payload (of `payload_size` bytes) follows the header in full.
    Sealed(FrameHeader),
}

/// The header fields that `stream` starts with.
pub open spec fn spec_header(stream: Seq<u8>) -> FrameHeader {
    FrameHeader {
        category: stream[0],
        sequence: u64_from_be(stream.subrange(1, 9)),
        payload_size: u16_from_be(stream.subrange(9, 11)) as usize,
    }
}

/// The bytes of a frame header.
pub open spec fn header_bytes(category: u8, sequence: u64, size: u16) -> Seq<u8> {
    seq![category] + u64_be_bytes(sequence) + u16_be_bytes(size)
}

/// Reads the header at the start of the read buffer and decides what to do with the frame:
/// wait for more data, reject it, or go on with its payload. Checks happen in this order: a
/// full header is there, an empty payload ends the frame, the payload fits the read buffer,
/// the sequence number is the expected one, the full payload is there, and the payload is long
/// enough to hold its authentication code (a shorter one cannot be unsealed).
pub fn read_header(stream: &[u8], client_sequence: u64) -> (r: Result<HeaderOutcome, Error>)
    ensures
        stream@.len() < HEADER_SIZE ==> r == Err::<HeaderOutcome, Error>(Error::Wait),
        stream@.len() >= HEADER_SIZE ==> {
            let h = spec_header(stream@);
            if h.payload_size == 0 {
                r == Ok::<HeaderOutcome, Error>(HeaderOutcome::Empty(h.category))
            } else if h.payload_size > READ_BUF_SIZE - HEADER_SIZE {
                r == Err::<HeaderOutcome, Error>(Error::PayloadTooLarge)
            } else if h.sequence != client_sequence {
                r == Err::<HeaderOutcome, Error>(Error::SequenceMismatch)
            } else if stream@.len() - HEADER_SIZE < h.payload_size {
                r == Err::<HeaderOutcome, Error>(Error::Wait)
            } else if h.payload_size < MAC_SIZE {
                r == Err::<HeaderOutcome, Error>(Error::Crypto)
            } else {
                r == Ok::<HeaderOutcome, Error>(HeaderOutcome::Sealed(h))
            }
        },
{
    if stream.len() < HEADER_SIZE {
        return Err(Error::Wait);
    }
    let category = stream[0];
    let sequence = match read_u64_be(slice_subrange(stream, 1, 9)) {
        Ok(v) => v,
        Err(e) => {
            return Err(Error::from_io(e));
        },
    };
    let payload_size = match read_u16_be(slice_subrange(stream, 9, 11)) {
        Ok(v) => v as usize,
        Err(e) => {
            return Err(Error::from_io(e));
        },
    };
    if payload_size == 0 {
        return Ok(HeaderOutcome::Empty(category));
    }
    if payload_size > READ_BUF_SIZE - HEADER_SIZE {
        return Err(Error::PayloadTooLarge);
    }
    if sequence != client_sequence {
        return Err(Error::SequenceMismatch);
    }
    if stream.len() - HEADER_SIZE < payload_size {
        return Err(Error::Wait);
    }
    if payload_size < MAC_SIZE {
        return Err(Error::Crypto);
    }
    Ok(HeaderOutcome::Sealed(FrameHeader { category, sequence, payload_size }))
}

/// Appends the header of a frame to `out`.
pub fn write_header(out: &mut Vec<u8>, category: u8, sequence: u64, size: u16)
    ensures
        final(out)@ == old(out)@ + header_bytes(category, sequence, size),
{
    out.push(category);
    write_u64_be(out, sequence);
    write_u16_be(out, size);
    proof {
        assert(final(out)@ =~= old(out)@ + header_bytes(category, sequence, size));
    }
}

/// A written header reads back as the same header.
pub proof fn law_header_roundtrip(category: u8, sequence: u64, size: u16, rest: Seq<u8>)
    ensures
        spec_header(header_bytes(category, sequence, size) + rest) == (FrameHeader {
            category,
            sequence,
            payload_size: size as usize,
        }),
{
    let s = header_bytes(category, sequence, size) + rest;
    assert(s.subrange(1, 9) =~= u64_be_bytes(sequence));
    assert(s.subrange(9, 11) =~= u16_be_bytes(size));
    lemma_u64_be_roundtrip(sequence);
    lemma_u16_be_roundtrip(size);
}

/// The additional authenticated data of a frame: the version, the protocol (little-endian)
/// and the category.
pub open spec fn spec_additional_data(version: Seq<u8>, protocol: u16, category: u8) -> Seq<u8> {
    version + u16_le_bytes(protocol) + seq![category]
}

/// Constructs the additional data bound to a frame when it is sealed.
pub fn additional_data(version: &[u8; 16], protocol: u16, category: u8) -> (ad: Vec<u8>)
    ensures
        ad@ == spec_additional_data(version@, protocol, category),
        ad@.len() == 19,
{
    let mut out: Vec<u8> = Vec::new();
    let mut i: usize = 0;
    while i < 16
        invariant
            i <= 16,
            out@ == version@.take(i as int),
        decreases 16 - i,
    {
        out.push(version[i]);
        i = i + 1;
        proof {
            assert(out@ =~= version@.take(i as int));
        }
    }
    proof {
        assert(version@.take(16) =~= version@);
    }
    write_u16_le(&mut out, protocol);
    out.push(category);
    proof {
        assert(out@ =~= spec_additional_data(version@, protocol, category));
    }
    out
}

/// Private data part (visible only to the server) of the connection token.
pub struct PrivateData {
    pub user_id: u64,
    pub server_key: [u8; 32],
    pub client_key: [u8; 32],
}

/// Size in bytes of the private data.
pub const PRIVATE_DATA_SIZE: usize = 72;

/// Size in bytes of a connection token: the plain part, the sealed private data and its code.
pub const CONNECTION_TOKEN_SIZE: usize = 131;

impl PrivateData {
    /// Parse decrypted private data: the user id (big-endian), then the server key and the
    /// client key.
    pub fn read(plain: &[u8]) -> (r: Result<PrivateData, Error>)
        ensures
            r is Ok <==> plain@.len() >= PRIVATE_DATA_SIZE,
            r matches Ok(d) ==> {
                &&& d.user_id == u64_from_be(plain@)
                &&& d.server_key@ == plain@.subrange(8, 40)
                &&& d.client_key@ == plain@.subrange(40, 72)
            },
    {
        let user_id = match read_u64_be(plain) {
            Ok(v) => v,
            Err(e) => {
                return Err(Error::from_io(e));
            },
        };
        let server_bytes = match read_exact(slice_subrange(plain, 8, plain.len()), 32) {
            Ok(v) => v,
            Err(e) => {
                return Err(Error::from_io(e));
            },
        };
        let client_bytes = match read_exact(slice_subrange(plain, 40, plain.len()), 32) {
            Ok(v) => v,
            Err(e) => {
                return Err(Error::from_io(e));
            },
        };
        assert(plain@.len() >= PRIVATE_DATA_SIZE);
        assert(server_bytes@ =~= plain@.subrange(8, 40));
        assert(client_bytes@ =~= plain@.subrange(40, 72));
        let mut server_key = [0u8; 32];
        let mut client_key = [0u8; 32];
        let mut i: usize = 0;
        while i < 32
            invariant
                i <= 32,
                plain@.len() >= PRIVATE_DATA_SIZE,
                server_bytes@ == plain@.subrange(8, 40),
                client_bytes@ == plain@.subrange(40, 72),
                forall|k: int| 0 <= k < i ==> server_key@[k] == plain@[8 + k],
                forall|k: int| 0 <= k < i ==> client_key@[k] == plain@[40 + k],
                server_key@.len() == 32,
                client_key@.len() == 32,
            decreases 32 - i,
        {
            server_key[i] = server_bytes[i];
            client_key[i] = client_bytes[i];
            i = i + 1;
        }
        proof {
            assert(server_key@ =~= plain@.subrange(8, 40));
            assert(client_key@ =~= plain@.subrange(40, 72));
        }
        Ok(PrivateData { user_id, server_key, client_key })
    }
}

/// Connection token sent by the client as part of the handshake process.
pub struct ConnectionToken {
    pub version: [u8; 16],
    pub protocol: u16,
    pub expires: u64,
    pub sequence: u64,
    pub data: PrivateData,
}

impl ConnectionToken {
    /// Decide whether the token admits the client, given the current time and the channel's
    /// protocol and version: an expired token is refused first, then one of another protocol,
    /// then one of another version. An admitted client is identified by the token's user id.
    pub fn validate(&self, now: u64, protocol: u16, version: &[u8; 16]) -> (r: Result<UserId, Error>)
        ensures
            self.expires < now ==> r == Err::<UserId, Error>(Error::Expired),
            self.expires >= now && self.protocol != protocol ==> r == Err::<UserId, Error>(
                Error::ProtocolMismatch,
            ),
            self.expires >= now && self.protocol == protocol && self.version@ != version@ ==> r
                == Err::<UserId, Error>(Error::VersionMismatch),
            self.expires >= now && self.protocol == protocol && self.version@ == version@ ==> r
                == Ok::<UserId, Error>(self.data.user_id),
    {
        if self.expires < now {
            return Err(Error::Expired);
        }
        if self.protocol != protocol {
            return Err(Error::ProtocolMismatch);
        }
        let mut i: usize = 0;
        while i < 16
            invariant
                i <= 16,
                self.expires >= now,
                self.protocol == protocol,
                forall|k: int| 0 <= k < i ==> self.version@[k] == version@[k],
            decreases 16 - i,
        {
            if self.version[i] != version[i] {
                return Err(Error::VersionMismatch);
            }
            i = i + 1;
        }
        proof {
            assert(self.version@ =~= version@);
        }
        Ok(self.data.user_id)
    }

    /// The additional data bound to the sealed private data: the version, then the protocol and
    /// the expiry time, both little-endian.
    pub fn additional_data(&self) -> (ad: Vec<u8>)
        ensures
            ad@ == spec_token_additional_data(self.version@, self.protocol, self.expires),
    {
        token_additional_data(&self.version, self.protocol, self.expires)
    }

    /// Reads the plain part of a connection token off the start of `stream`. Nothing is read
    /// until a whole token is there: until then the answer is to wait.
    pub fn read_header(stream: &[u8]) -> (r: Result<TokenHeader, Error>)
        ensures
            stream@.len() < CONNECTION_TOKEN_SIZE ==> r == Err::<TokenHeader, Error>(Error::Wait),
            stream@.len() >= CONNECTION_TOKEN_SIZE ==> (r matches Ok(h) && {
                &&& h.version@ == stream@.subrange(0, 16)
                &&& h.protocol == u16_from_be(stream@.subrange(16, 18))
                &&& h.expires == u64_from_be(stream@.subrange(18, 26))
                &&& h.sequence == u64_from_be(stream@.subrange(26, 34))
            }),
    {
        if stream.len() < CONNECTION_TOKEN_SIZE {
            return Err(Error::Wait);
        }
        let mut version = [0u8; 16];
        let mut i: usize = 0;
        while i < 16
            invariant
                i <= 16,
                stream@.len() >= CONNECTION_TOKEN_SIZE,
                version@.len() == 16,
                forall|k: int| 0 <= k < i ==> version@[k] == stream@[k],
            decreases 16 - i,
        {
            version[i] = stream[i];
            i = i + 1;
        }
        proof {
            assert(version@ =~= stream@.subrange(0, 16));
        }
        let protocol = match read_u16_be(slice_subrange(stream, 16, 18)) {
            Ok(v) => v,
            Err(e) => {
                return Err(Error::from_io(e));
            },
        };
        let expires = match read_u64_be(slice_subrange(stream, 18, 26)) {
            Ok(v) => v,
            Err(e) => {
                return Err(Error::from_io(e));
            },
        };
        let sequence = match read_u64_be(slice_subrange(stream, 26, 34)) {
            Ok(v) => v,
            Err(e) => {
                return Err(Error::from_io(e));
            },
        };
        Ok(TokenHeader { version, protocol, expires, sequence })
    }

    /// The sealed private data of the token at the start of `stream`: the bytes after the
    /// plain part, the encrypted data followed by its authentication code.
    pub fn sealed_part(stream: &[u8]) -> (sealed: &[u8])
        requires
            stream@.len() >= CONNECTION_TOKEN_SIZE,
        ensures
            sealed@ == stream@.subrange(TOKEN_PLAIN_SIZE as int, (TOKEN_PLAIN_SIZE + TOKEN_SEALED_SIZE) as int),
    {
        slice_subrange(stream, TOKEN_PLAIN_SIZE, TOKEN_PLAIN_SIZE + TOKEN_SEALED_SIZE)
    }

    /// Assembles a token from its plain part and its decrypted private data.
    pub fn from_parts(header: TokenHeader, plain: &[u8]) -> (r: Result<ConnectionToken, Error>)
        ensures
            r is Ok <==> plain@.len() >= PRIVATE_DATA_SIZE,
            r matches Ok(t) ==> {
                &&& t.version == header.version
                &&& t.protocol == header.protocol
                &&& t.expires == header.expires
                &&& t.sequence == header.sequence
                &&& t.data.user_id == u64_from_be(plain@)
                &&& t.data.server_key@ == plain@.subrange(8, 40)
                &&& t.data.client_key@ == plain@.subrange(40, 72)
            },
    {
        match PrivateData::read(plain) {
            Ok(data) => Ok(ConnectionToken {
                version: header.version,
                protocol: header.protocol,
                expires: header.expires,
                sequence: header.sequence,
                data,
            }),
            Err(e) => Err(e),
        }
    }
}

/// Size of the plain part of a connection token: version, protocol, expiry time and sequence.
pub const TOKEN_PLAIN_SIZE: usize = 34;

/// Size of the sealed private data of a connection token: the encrypted data and its code.
pub const TOKEN_SEALED_SIZE: usize = 88;

/// The plain part of a connection token, read before its private data is unsealed.
pub struct TokenHeader {
    pub version: [u8; 16],
    pub protocol: u16,
    pub expires: u64,
    pub sequence: u64,
}

impl TokenHeader {
    /// The additional data bound to the sealed private data of the token.
    pub fn additional_data(&self) -> (ad: Vec<u8>)
        ensures
            ad@ == spec_token_additional_data(self.version@, self.protocol, self.expires),
    {
        token_additional_data(&self.version, self.protocol, self.expires)
    }
}

/// The additional data of a connection token: the version, then the protocol and the expiry
/// time, both little-endian.
pub open spec fn spec_token_additional_data(version: Seq<u8>, protocol: u16, expires: u64) -> Seq<u8> {
    version + u16_le_bytes(protocol) + crate::net::bytes::u64_le_bytes(expires)
}

fn token_additional_data(version: &[u8; 16], protocol: u16, expires: u64) -> (ad: Vec<u8>)
    ensures
        ad@ == spec_token_additional_data(version@, protocol, expires),
{
    let mut out: Vec<u8> = Vec::new();
    let mut i: usize = 0;
    while i < 16
        invariant
            i <= 16,
            out@ == version@.take(i as int),
        decreases 16 - i,
    {
        out.push(version[i]);
        i = i + 1;
        proof {
            assert(out@ =~= version@.take(i as int));
        }
    }
    proof {
        assert(version@.take(16) =~= version@);
    }
    write_u16_le(&mut out, protocol);
    crate::net::bytes::write_u64_le(&mut out, expires);
    out
}

/// The protocol state of a channel: the version and protocol it speaks, whether it is open, and
/// the sequence numbers of the frames read from the client and written to it. The stream, the
/// keys and the buffers are held beside it; this state decides what the channel does with them.
pub struct ChannelState {
    version: [u8; 16],
    protocol: u16,
    open: bool,
    client_sequence: u64,
    server_sequence: u64,
}

impl ChannelState {
    /// The version the channel speaks.
    pub closed spec fn spec_version(&self) -> [u8; 16] {
        self.version
    }

    /// The protocol the channel speaks.
    pub closed spec fn spec_protocol(&self) -> u16 {
        self.protocol
    }

    /// Whether the channel is open.
    pub closed spec fn is_open(&self) -> bool {
        self.open
    }

    /// The sequence number expected of the next frame read.
    pub closed spec fn client_seq(&self) -> u64 {
        self.client_sequence
    }

    /// The sequence number of the next frame written.
    pub closed spec fn server_seq(&self) -> u64 {
        self.server_sequence
    }

    /// The state of a freshly opened channel: no frame read or written yet.
    pub fn new(version: [u8; 16], protocol: u16) -> (state: ChannelState)
        ensures
            state.spec_version() == version,
            state.spec_protocol() == protocol,
            state.is_open(),
            state.client_seq() == 0,
            state.server_seq() == 0,
    {
        ChannelState { version, protocol, open: true, client_sequence: 0, server_sequence: 0 }
    }

    /// The version the channel speaks.
    pub fn version(&self) -> (v: [u8; 16])
        ensures
            v == self.spec_version(),
    {
        self.version
    }

    /// The protocol the channel speaks.
    pub fn protocol(&self) -> (p: u16)
        ensures
            p == self.spec_protocol(),
    {
        self.protocol
    }

    /// The sequence number expected of the next frame read.
    pub fn client_sequence(&self) -> (n: u64)
        ensures
            n == self.client_seq(),
    {
        self.client_sequence
    }

    /// The sequence number of the next frame written.
    pub fn server_sequence(&self) -> (n: u64)
        ensures
            n == self.server_seq(),
    {
        self.server_sequence
    }

    /// Whether the channel is open.
    pub fn open_now(&self) -> (b: bool)
        ensures
            b == self.is_open(),
    {
        self.open
    }

    /// Closes the channel and starts both sequences over.
    pub fn close(&mut self)
        ensures
            !final(self).is_open(),
            final(self).client_seq() == 0,
            final(self).server_seq() == 0,
            final(self).spec_version() == old(self).spec_version(),
            final(self).spec_protocol() == old(self).spec_protocol(),
    {
        self.open = false;
        self.client_sequence = 0;
        self.server_sequence = 0;
    }

    /// The answer of closing a channel, from how shutting down its stream went (`None` when it
    /// went through, or the kind of the error): a stream that was not connected any more counts
    /// as shut down; any other error is reported.
    pub fn shutdown_outcome(failure: Option<std::io::ErrorKind>) -> (r: Result<(), Error>)
        ensures
            failure is None ==> r == Ok::<(), Error>(()),
            failure matches Some(kind) ==> r == (if kind == std::io::ErrorKind::NotConnected {
                Ok::<(), Error>(())
            } else {
                Err::<(), Error>(Error::Io(kind))
            }),
    {
        match failure {
            None => Ok(()),
            Some(std::io::ErrorKind::NotConnected) => Ok(()),
            Some(kind) => Err(Error::Io(kind)),
        }
    }

    /// Opens the channel again; an open channel refuses.
    pub fn reopen(&mut self) -> (r: Result<(), Error>)
        ensures
            old(self).is_open() ==> r == Err::<(), Error>(Error::AlreadyConnected) && *final(self) == *old(self),
            !old(self).is_open() ==> r is Ok && final(self).is_open(),
            final(self).client_seq() == old(self).client_seq(),
            final(self).server_seq() == old(self).server_seq(),
            final(self).spec_version() == old(self).spec_version(),
            final(self).spec_protocol() == old(self).spec_protocol(),
    {
        if self.open {
            return Err(Error::AlreadyConnected);
        }
        self.open = true;
        Ok(())
    }

    /// The additional data bound to a frame of `category` on this channel.
    pub fn additional_data(&self, category: u8) -> (ad: Vec<u8>)
        ensures
            ad@ == spec_additional_data(self.spec_version()@, self.spec_protocol(), category),
    {
        additional_data(&self.version, self.protocol, category)
    }

    /// The header of the next frame written, for a plain payload of `payload_size` bytes: the
    /// category, the write sequence and the sealed size (the payload and its code, on two
    /// bytes). When the header, the payload and its code do not fit the `free_capacity` of the
    /// write buffer, the answer is to wait.
    pub fn seal_header(&self, payload_size: usize, free_capacity: usize, category: u8) -> (r: Result<Vec<u8>, Error>)
        requires
            payload_size + OVERHEAD_SIZE <= usize::MAX,
        ensures
            payload_size + OVERHEAD_SIZE > free_capacity ==> r == Err::<Vec<u8>, Error>(Error::Wait),
            payload_size + OVERHEAD_SIZE <= free_capacity ==> (r matches Ok(h)
                && h@ == header_bytes(category, self.server_seq(), (payload_size + MAC_SIZE) as u16)),
    {
        let sealed_size = payload_size + MAC_SIZE;
        let total_size = sealed_size + HEADER_SIZE;
        if total_size > free_capacity {
            return Err(Error::Wait);
        }
        let mut header: Vec<u8> = Vec::new();
        write_header(&mut header, category, self.server_sequence, sealed_size as u16);
        proof {
            assert(header@ =~= header_bytes(category, self.server_seq(), (payload_size + MAC_SIZE) as u16));
        }
        Ok(header)
    }

    /// A frame was written: the write sequence moves on.
    pub fn frame_written(&mut self)
        requires
            old(self).server_seq() < u64::MAX,
        ensures
            final(self).server_seq() == old(self).server_seq() + 1,
            final(self).client_seq() == old(self).client_seq(),
            final(self).is_open() == old(self).is_open(),
            final(self).spec_version() == old(self).spec_version(),
            final(self).spec_protocol() == old(self).spec_protocol(),
    {
        self.server_sequence = self.server_sequence + 1;
    }

    /// What the start of the read buffer holds, checked against the expected read sequence.
    pub fn open_frame(&self, stream: &[u8]) -> (r: Result<HeaderOutcome, Error>)
        ensures
            r == spec_read_outcome(stream@, self.client_seq()),
    {
        read_header(stream, self.client_sequence)
    }

    /// A sealed frame was read and unsealed: the read sequence moves on.
    pub fn frame_read(&mut self)
        requires
            old(self).client_seq() < u64::MAX,
        ensures
            final(self).client_seq() == old(self).client_seq() + 1,
            final(self).server_seq() == old(self).server_seq(),
            final(self).is_open() == old(self).is_open(),
            final(self).spec_version() == old(self).spec_version(),
            final(self).spec_protocol() == old(self).spec_protocol(),
    {
        self.client_sequence = self.client_sequence + 1;
    }

    /// Whether a connection token admits its client on this channel, at time `now`.
    pub fn accept_token(&self, token: &ConnectionToken, now: u64) -> (r: Result<UserId, Error>)
        ensures
            r == spec_token_answer(token, now, self.spec_protocol(), self.spec_version()@),
    {
        token.validate(now, self.protocol, &self.version)
    }
}

/// The answer of `read_header` for `stream` at read sequence `client_sequence`.
pub open spec fn spec_read_outcome(stream: Seq<u8>, client_sequence: u64) -> Result<HeaderOutcome, Error> {
    if stream.len() < HEADER_SIZE {
        Err(Error::Wait)
    } else {
        let h = spec_header(stream);
        if h.payload_size == 0 {
            Ok(HeaderOutcome::Empty(h.category))
        } else if h.payload_size > READ_BUF_SIZE - HEADER_SIZE {
            Err(Error::PayloadTooLarge)
        } else if h.sequence != client_sequence {
            Err(Error::SequenceMismatch)
        } else if stream.len() - HEADER_SIZE < h.payload_size {
            Err(Error::Wait)
        } else if h.payload_size < MAC_SIZE {
            Err(Error::Crypto)
        } else {
            Ok(HeaderOutcome::Sealed(h))
        }
    }
}

/// The answer of token validation: expiry first, then protocol, then version.
pub open spec fn spec_token_answer(token: &ConnectionToken, now: u64, protocol: u16, version: Seq<u8>) -> Result<UserId, Error> {
    if token.expires < now {
        Err(Error::Expired)
    } else if token.protocol != protocol {
        Err(Error::ProtocolMismatch)
    } else if token.version@ != version {
        Err(Error::VersionMismatch)
    } else {
        Ok(token.data.user_id)
    }
}

/// A frame sealed at write sequence `sequence` opens, on a reader that expects that sequence,
/// as the same category, sequence and sealed size, once the whole sealed payload has arrived.
pub proof fn law_sealed_frame_opens(category: u8, sequence: u64, payload_size: nat, body: Seq<u8>)
    requires
        payload_size + MAC_SIZE <= READ_BUF_SIZE - HEADER_SIZE,
        body.len() >= payload_size + MAC_SIZE,
    ensures
        spec_read_outcome(header_bytes(category, sequence, (payload_size + MAC_SIZE) as u16) + body, sequence)
            == Ok::<HeaderOutcome, Error>(HeaderOutcome::Sealed(FrameHeader {
                category,
                sequence,
                payload_size: (payload_size + MAC_SIZE) as usize,
            })),
{
    let size = (payload_size + MAC_SIZE) as u16;
    law_header_roundtrip(category, sequence, size, body);
    assert((header_bytes(category, sequence, size) + body).len() == HEADER_SIZE + body.len());
}

} // verus!
