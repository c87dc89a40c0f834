//! The SMB2 packet header and the way it crosses TCP: a four-byte length a
//! direct-TCP session prefixes each message with, then the sixty-four-byte
//! synchronous header — the `\xFESMB` signature, the command, the message id,
//! the tree and session ids, and the status a response carries. Signing is not
//! done here: with the signature field left zero a server that does not require
//! signing takes the message. Nothing here knows a command's body.

use vstd::prelude::*;
use vstd::slice::slice_to_vec;

use crate::error::{agrees, permanent_fault, protocol_error, Fault, TransportError};
use crate::text::{decimal, join, to_decimal};

verus! {

/// The four bytes that open every SMB2 message.
pub const SIGNATURE: [u8; 4] = [0xFE, 0x53, 0x4D, 0x42];

/// The fixed size of the synchronous header.
pub const HEADER: usize = 64;

/// `SMB2_FLAGS_SERVER_TO_REDIR`: this message is a response.
pub const FLAGS_RESPONSE: u32 = 0x0000_0001;

/// The largest message either side reads.
pub const MAX_MESSAGE: usize = 16 * 1024 * 1024;

/// `SMB2 NEGOTIATE`.
pub const NEGOTIATE: u16 = 0x0000;

/// `SMB2 SESSION_SETUP`.
pub const SESSION_SETUP: u16 = 0x0001;

/// `SMB2 LOGOFF`.
pub const LOGOFF: u16 = 0x0002;

/// `SMB2 TREE_CONNECT`.
pub const TREE_CONNECT: u16 = 0x0003;

/// `SMB2 TREE_DISCONNECT`.
pub const TREE_DISCONNECT: u16 = 0x0004;

/// `SMB2 CREATE`.
pub const CREATE: u16 = 0x0005;

/// `SMB2 CLOSE`.
pub const CLOSE: u16 = 0x0006;

/// `SMB2 READ`.
pub const READ: u16 = 0x0008;

/// `SMB2 WRITE`.
pub const WRITE: u16 = 0x0009;

/// `SMB2 QUERY_DIRECTORY`.
pub const QUERY_DIRECTORY: u16 = 0x000E;

/// `STATUS_SUCCESS`.
pub const STATUS_SUCCESS: u32 = 0x0000_0000;

/// `STATUS_MORE_PROCESSING_REQUIRED`, the challenge step of a session setup.
pub const STATUS_MORE_PROCESSING: u32 = 0xC000_0016;

/// `STATUS_NO_MORE_FILES`, the end of a directory listing.
pub const STATUS_NO_MORE_FILES: u32 = 0x8000_0006;

/// `STATUS_LOGON_FAILURE`.
pub const STATUS_LOGON_FAILURE: u32 = 0xC000_006D;

/// `STATUS_OBJECT_NAME_NOT_FOUND`.
pub const STATUS_OBJECT_NAME_NOT_FOUND: u32 = 0xC000_0034;

/// `STATUS_BAD_NETWORK_NAME`, no such share.
pub const STATUS_BAD_NETWORK_NAME: u32 = 0xC000_00CC;

/// `STATUS_END_OF_FILE`.
pub const STATUS_END_OF_FILE: u32 = 0xC000_0011;

/// The bytes of `value`, the lowest first.
pub open spec fn le16(value: u16) -> Seq<u8> {
    seq![(value % 256) as u8, (value / 256) as u8]
}

/// The bytes of `value`, the lowest first.
pub open spec fn le32(value: u32) -> Seq<u8> {
    seq![
        (value % 256) as u8,
        (value / 256 % 256) as u8,
        (value / 0x1_0000 % 256) as u8,
        (value / 0x100_0000) as u8,
    ]
}

/// The bytes of `value`, the lowest first.
pub open spec fn le64(value: u64) -> Seq<u8> {
    le32((value % 0x1_0000_0000) as u32) + le32((value / 0x1_0000_0000) as u32)
}

/// The bytes of `value`, the highest first.
pub open spec fn be32(value: u32) -> Seq<u8> {
    le32(value).reverse()
}

/// `count` zero bytes.
pub open spec fn zeros(count: nat) -> Seq<u8> {
    Seq::new(count, |i: int| 0u8)
}

/// The little-endian number in the two bytes at `at`, zero past the end.
pub open spec fn u16_at(bytes: Seq<u8>, at: int) -> u16 {
    if 0 <= at && at + 2 <= bytes.len() {
        (bytes[at] + 256 * bytes[at + 1]) as u16
    } else {
        0
    }
}

/// The little-endian number in the four bytes at `at`, zero past the end.
pub open spec fn u32_at(bytes: Seq<u8>, at: int) -> u32 {
    if 0 <= at && at + 4 <= bytes.len() {
        (bytes[at] + 256 * bytes[at + 1] + 0x1_0000 * bytes[at + 2] + 0x100_0000 * bytes[at
            + 3]) as u32
    } else {
        0
    }
}

/// The little-endian number in the eight bytes at `at`, zero past the end.
pub open spec fn u64_at(bytes: Seq<u8>, at: int) -> u64 {
    if 0 <= at && at + 8 <= bytes.len() {
        (u32_at(bytes, at) + 0x1_0000_0000 * u32_at(bytes, at + 4)) as u64
    } else {
        0
    }
}

/// `bytes` with `patch` over what stood at `at`.
pub open spec fn patched(bytes: Seq<u8>, at: int, patch: Seq<u8>) -> Seq<u8> {
    bytes.subrange(0, at) + patch + bytes.subrange(at + patch.len(), bytes.len() as int)
}

/// A number read where its bytes stand is the number.
pub proof fn law_u16_reads_back(bytes: Seq<u8>, at: int, value: u16)
    requires
        0 <= at,
        at + 2 <= bytes.len(),
        bytes.subrange(at, at + 2) == le16(value),
    ensures
        u16_at(bytes, at) == value,
{
    let field = bytes.subrange(at, at + 2);
    assert(field[0] == bytes[at] && field[1] == bytes[at + 1]);
}

/// A number read where its bytes stand is the number.
pub proof fn law_u32_reads_back(bytes: Seq<u8>, at: int, value: u32)
    requires
        0 <= at,
        at + 4 <= bytes.len(),
        bytes.subrange(at, at + 4) == le32(value),
    ensures
        u32_at(bytes, at) == value,
{
    let field = bytes.subrange(at, at + 4);
    assert(field[0] == bytes[at] && field[1] == bytes[at + 1]);
    assert(field[2] == bytes[at + 2] && field[3] == bytes[at + 3]);
}

/// A number read where its bytes stand is the number.
pub proof fn law_u64_reads_back(bytes: Seq<u8>, at: int, value: u64)
    requires
        0 <= at,
        at + 8 <= bytes.len(),
        bytes.subrange(at, at + 8) == le64(value),
    ensures
        u64_at(bytes, at) == value,
{
    let low = (value % 0x1_0000_0000) as u32;
    let high = (value / 0x1_0000_0000) as u32;
    let field = bytes.subrange(at, at + 8);
    assert(bytes.subrange(at, at + 4) =~= le32(low)) by {
        assert forall|i: int| 0 <= i < 4 implies bytes[at + i] == le32(low)[i] by {
            assert(field[i] == bytes[at + i]);
        }
    }
    assert(bytes.subrange(at + 4, at + 8) =~= le32(high)) by {
        assert forall|i: int| 0 <= i < 4 implies bytes[at + 4 + i] == le32(high)[i] by {
            assert(field[4 + i] == bytes[at + 4 + i]);
        }
    }
    law_u32_reads_back(bytes, at, low);
    law_u32_reads_back(bytes, at + 4, high);
}

/// Append a little-endian u16.
pub fn push_u16(out: &mut Vec<u8>, value: u16)
    ensures
        final(out)@ == old(out)@ + le16(value),
{
    out.push((value % 256) as u8);
    out.push((value / 256) as u8);
    assert(out@ =~= old(out)@ + le16(value));
}

/// Append a little-endian u32.
pub fn push_u32(out: &mut Vec<u8>, value: u32)
    ensures
        final(out)@ == old(out)@ + le32(value),
{
    out.push((value % 256) as u8);
    out.push((value / 256 % 256) as u8);
    out.push((value / 0x1_0000 % 256) as u8);
    out.push((value / 0x100_0000) as u8);
    assert(out@ =~= old(out)@ + le32(value));
}

/// Append a little-endian u64.
pub fn push_u64(out: &mut Vec<u8>, value: u64)
    ensures
        final(out)@ == old(out)@ + le64(value),
{
    push_u32(out, (value % 0x1_0000_0000) as u32);
    push_u32(out, (value / 0x1_0000_0000) as u32);
    assert(out@ =~= old(out)@ + le64(value));
}

/// Append `bytes`.
pub(crate) fn push_bytes(out: &mut Vec<u8>, bytes: &[u8])
    ensures
        final(out)@ == old(out)@ + bytes@,
{
    out.extend_from_slice(bytes);
    assert(out@ =~= old(out)@ + bytes@);
}

/// Append `count` zero bytes.
pub(crate) fn push_zeros(out: &mut Vec<u8>, count: usize)
    ensures
        final(out)@ == old(out)@ + zeros(count as nat),
{
    let mut done: usize = 0;
    while done < count
        invariant
            done <= count,
            out@ == old(out)@ + zeros(done as nat),
        decreases count - done,
    {
        out.push(0);
        done = done + 1;
        assert(out@ =~= old(out)@ + zeros(done as nat));
    }
    assert(out@ =~= old(out)@ + zeros(count as nat));
}

/// Write a little-endian u16 at `at`.
pub fn put_u16(out: &mut [u8], at: usize, value: u16)
    requires
        at + 2 <= old(out)@.len(),
    ensures
        final(out)@ == patched(old(out)@, at as int, le16(value)),
{
    out[at] = (value % 256) as u8;
    out[at + 1] = (value / 256) as u8;
    assert(out@ =~= patched(old(out)@, at as int, le16(value)));
}

/// Write a little-endian u32 at `at`.
pub fn put_u32(out: &mut [u8], at: usize, value: u32)
    requires
        at + 4 <= old(out)@.len(),
    ensures
        final(out)@ == patched(old(out)@, at as int, le32(value)),
{
    out[at] = (value % 256) as u8;
    out[at + 1] = (value / 256 % 256) as u8;
    out[at + 2] = (value / 0x1_0000 % 256) as u8;
    out[at + 3] = (value / 0x100_0000) as u8;
    assert(out@ =~= patched(old(out)@, at as int, le32(value)));
}

/// Write a little-endian u64 at `at`.
pub fn put_u64(out: &mut [u8], at: usize, value: u64)
    requires
        at + 8 <= old(out)@.len(),
    ensures
        final(out)@ == patched(old(out)@, at as int, le64(value)),
{
    assert(at + 8 <= out.len());
    put_u32(out, at, (value % 0x1_0000_0000) as u32);
    put_u32(out, at + 4, (value / 0x1_0000_0000) as u32);
    assert(out@ =~= patched(old(out)@, at as int, le64(value)));
}

/// A little-endian u16 at `at`, zero past the end.
pub fn get_u16(bytes: &[u8], at: usize) -> (value: u16)
    ensures
        value == u16_at(bytes@, at as int),
{
    if bytes.len() < 2 || at > bytes.len() - 2 {
        return 0;
    }
    bytes[at] as u16 + 256 * bytes[at + 1] as u16
}

/// A little-endian u32 at `at`, zero past the end.
pub fn get_u32(bytes: &[u8], at: usize) -> (value: u32)
    ensures
        value == u32_at(bytes@, at as int),
{
    if bytes.len() < 4 || at > bytes.len() - 4 {
        return 0;
    }
    bytes[at] as u32 + 256 * bytes[at + 1] as u32 + 0x1_0000 * bytes[at + 2] as u32 + 0x100_0000
        * bytes[at + 3] as u32
}

/// A little-endian u64 at `at`, zero past the end.
pub fn get_u64(bytes: &[u8], at: usize) -> (value: u64)
    ensures
        value == u64_at(bytes@, at as int),
{
    if bytes.len() < 8 || at > bytes.len() - 8 {
        return 0;
    }
    get_u32(bytes, at) as u64 + 0x1_0000_0000 * get_u32(bytes, at + 4) as u64
}

/// The bytes that `offset`, counted from the header, and `length` name in
/// `body`: none where either is zero.
pub open spec fn region_of(body: Seq<u8>, offset: u16, length: u32) -> Result<Seq<u8>, Fault> {
    if offset == 0 || length == 0 {
        Ok(Seq::empty())
    } else if offset < HEADER {
        Err(permanent_fault("an offset inside the header"@))
    } else if offset - HEADER + length > body.len() {
        Err(permanent_fault("a region past the end of the message"@))
    } else {
        Ok(body.subrange(offset - HEADER, offset - HEADER + length))
    }
}

/// A security buffer or a name a request carries out of line: the bytes at
/// `offset` from the header for `length`, none where either is zero.
pub fn region(body: &[u8], offset: u16, length: u16) -> (bytes: Result<&[u8], TransportError>)
    ensures
        agrees(bytes, region_of(body@, offset, length as u32)),
{
    wide_region(body, offset, length as u32)
}

/// Like [`region`], but for a length that a `u32` field carries — a read or
/// write buffer larger than sixty-five kibibytes.
pub fn wide_region(body: &[u8], offset: u16, length: u32) -> (bytes: Result<
    &[u8],
    TransportError,
>)
    ensures
        agrees(bytes, region_of(body@, offset, length)),
{
    if offset == 0 || length == 0 {
        assert(body@.subrange(0, 0) =~= Seq::empty());
        return Ok(&body[0..0]);
    }
    let offset = offset as usize;
    let length = length as usize;
    if offset < HEADER {
        return Err(protocol_error("an offset inside the header"));
    }
    let start = offset - HEADER;
    if start > body.len() || length > body.len() - start {
        return Err(protocol_error("a region past the end of the message"));
    }
    Ok(&body[start..start + length])
}

/// One SMB2 message: the header fields a session cares about, and the body
/// past the header.
#[derive(Clone, Debug, PartialEq, Eq)]
pub struct Message {
    pub command: u16,
    pub status: u32,
    pub flags: u32,
    pub message_id: u64,
    pub tree_id: u32,
    pub session_id: u64,
    pub body: Vec<u8>,
}

/// What a [`Message`] says, as a mathematical value.
#[verifier::ext_equal]
pub struct MessageView {
    pub command: u16,
    pub status: u32,
    pub flags: u32,
    pub message_id: u64,
    pub tree_id: u32,
    pub session_id: u64,
    pub body: Seq<u8>,
}

impl View for Message {
    type V = MessageView;

    open spec fn view(&self) -> MessageView {
        MessageView {
            command: self.command,
            status: self.status,
            flags: self.flags,
            message_id: self.message_id,
            tree_id: self.tree_id,
            session_id: self.session_id,
            body: self.body@,
        }
    }
}

/// What was read, as a mathematical value.
pub open spec fn read_view(read: Option<Message>) -> Option<MessageView> {
    match read {
        Some(message) => Some(message@),
        None => None,
    }
}

/// A request of `command`, before a session gives it its ids.
pub open spec fn bare_request(command: u16, message_id: u64, body: Seq<u8>) -> MessageView {
    MessageView {
        command,
        status: STATUS_SUCCESS,
        flags: 0,
        message_id,
        tree_id: 0,
        session_id: 0,
        body,
    }
}

impl MessageView {
    /// The answer to this request: same command and ids, the response flag,
    /// `status`, and `body`.
    pub open spec fn answer(self, status: u32, body: Seq<u8>) -> MessageView {
        MessageView { status, flags: FLAGS_RESPONSE, body, ..self }
    }

    /// The sixty-four bytes of the header.
    pub open spec fn header(self) -> Seq<u8> {
        SIGNATURE@ + le16(64) + zeros(2) + le32(self.status) + le16(self.command) + le16(1) + le32(
            self.flags,
        ) + zeros(4) + le64(self.message_id) + zeros(4) + le32(self.tree_id) + le64(self.session_id)
            + zeros(16)
    }

    /// The direct-TCP length of this message, as far as four bytes carry it.
    pub open spec fn length(self) -> u32 {
        if HEADER + self.body.len() <= u32::MAX {
            (HEADER + self.body.len()) as u32
        } else {
            u32::MAX
        }
    }

    /// The message as it crosses the wire: the four-byte direct-TCP length,
    /// the header, the body.
    pub open spec fn framed(self) -> Seq<u8> {
        be32(self.length()) + self.header() + self.body
    }

    /// The message is small enough for a peer to read it.
    pub open spec fn fits(self) -> bool {
        HEADER + self.body.len() <= MAX_MESSAGE
    }
}

/// The length that four bytes of prefix announce, or why a message of that
/// length is not read.
pub open spec fn announced(prefix: Seq<u8>) -> Result<usize, Fault> {
    let length = 0x100_0000 * prefix[0] + 0x1_0000 * prefix[1] + 256 * prefix[2] + prefix[3];
    if HEADER <= length <= MAX_MESSAGE {
        Ok(length as usize)
    } else {
        Err(permanent_fault("an SMB2 message of "@ + decimal(length as nat) + " bytes"@))
    }
}

/// The message that `raw`, a header and a body, is.
pub open spec fn message_in(raw: Seq<u8>) -> Result<MessageView, Fault> {
    if raw.subrange(0, 4) != SIGNATURE@ {
        Err(permanent_fault("a message without the SMB2 signature"@))
    } else {
        Ok(
            MessageView {
                command: u16_at(raw, 12),
                status: u32_at(raw, 8),
                flags: u32_at(raw, 16),
                message_id: u64_at(raw, 24),
                tree_id: u32_at(raw, 36),
                session_id: u64_at(raw, 40),
                body: raw.skip(HEADER as int),
            },
        )
    }
}

/// The first message in `received`, all that a connection brought before it
/// closed, and the bytes it takes up: `None` where it closed before a message
/// began.
pub open spec fn first_message(received: Seq<u8>) -> Result<Option<(MessageView, int)>, Fault> {
    if received.len() == 0 {
        Ok(None)
    } else if received.len() < 4 {
        Err(permanent_fault("a message length cut short"@))
    } else {
        match announced(received.take(4)) {
            Err(fault) => Err(fault),
            Ok(length) => if received.len() < 4 + length {
                Err(permanent_fault("a message cut short"@))
            } else {
                match message_in(received.subrange(4, 4 + length)) {
                    Err(fault) => Err(fault),
                    Ok(message) => Ok(Some((message, 4 + length))),
                }
            },
        }
    }
}

impl Message {
    /// A request of `command`.
    pub fn request(command: u16, message_id: u64, body: Vec<u8>) -> (message: Self)
        ensures
            message@ == bare_request(command, message_id, body@),
    {
        Message {
            command,
            status: STATUS_SUCCESS,
            flags: 0,
            message_id,
            tree_id: 0,
            session_id: 0,
            body,
        }
    }

    /// The answer to this request: same command and ids, the response flag,
    /// `status`, and `body`.
    pub fn respond(&self, status: u32, body: Vec<u8>) -> (message: Self)
        ensures
            message@ == self@.answer(status, body@),
    {
        Message {
            command: self.command,
            status,
            flags: FLAGS_RESPONSE,
            message_id: self.message_id,
            tree_id: self.tree_id,
            session_id: self.session_id,
            body,
        }
    }

    /// True where this is a response.
    pub fn is_response(&self) -> (response: bool)
        ensures
            response == (self.flags % 2 == 1),
    {
        let flags = self.flags;
        assert(flags & FLAGS_RESPONSE != 0 <==> flags % 2 == 1) by (bit_vector);
        flags & FLAGS_RESPONSE != 0
    }

    fn header_bytes(&self) -> (header: Vec<u8>)
        ensures
            header@ == self@.header(),
    {
        let mut header: Vec<u8> = Vec::new();
        push_bytes(&mut header, &SIGNATURE);
        assert(Seq::<u8>::empty() + SIGNATURE@ =~= SIGNATURE@);
        push_u16(&mut header, HEADER as u16);
        push_zeros(&mut header, 2);
        push_u32(&mut header, self.status);
        push_u16(&mut header, self.command);
        push_u16(&mut header, 1);
        push_u32(&mut header, self.flags);
        push_zeros(&mut header, 4);
        push_u64(&mut header, self.message_id);
        push_zeros(&mut header, 4);
        push_u32(&mut header, self.tree_id);
        push_u64(&mut header, self.session_id);
        push_zeros(&mut header, 16);
        header
    }

    /// The bytes of this message: the four-byte direct-TCP length, the header,
    /// the body.
    pub fn to_bytes(&self) -> (bytes: Vec<u8>)
        ensures
            bytes@ == self@.framed(),
    {
        let length: u32 = if self.body.len() <= 0xFFFF_FFFF - HEADER {
            (HEADER + self.body.len()) as u32
        } else {
            u32::MAX
        };
        let mut out: Vec<u8> = Vec::new();
        out.push((length / 0x100_0000) as u8);
        out.push((length / 0x1_0000 % 256) as u8);
        out.push((length / 256 % 256) as u8);
        out.push((length % 256) as u8);
        assert(out@ =~= be32(length));
        let header = self.header_bytes();
        push_bytes(&mut out, &header);
        push_bytes(&mut out, &self.body);
        out
    }

    /// Append this message to what is to be sent.
    pub fn write(&self, out: &mut Vec<u8>)
        ensures
            final(out)@ == old(out)@ + self@.framed(),
    {
        let bytes = self.to_bytes();
        push_bytes(out, &bytes);
    }

    /// The length of the message that follows `prefix`.
    pub fn announced_length(prefix: [u8; 4]) -> (length: Result<usize, TransportError>)
        ensures
            agrees(length, announced(prefix@)),
    {
        let length: u32 = 0x100_0000 * prefix[0] as u32 + 0x1_0000 * prefix[1] as u32 + 256
            * prefix[2] as u32 + prefix[3] as u32;
        if length < HEADER as u32 || length > MAX_MESSAGE as u32 {
            let size = to_decimal(length as u64);
            let text = join(&join("an SMB2 message of ", &size), " bytes");
            return Err(TransportError::permanent(text));
        }
        Ok(length as usize)
    }

    /// The message that `raw` is: the header and the body, without the length.
    pub fn parse(raw: &[u8]) -> (message: Result<Message, TransportError>)
        requires
            raw@.len() >= HEADER,
        ensures
            agrees(message, message_in(raw@)),
    {
        let signed = raw[0] == SIGNATURE[0] && raw[1] == SIGNATURE[1] && raw[2] == SIGNATURE[2]
            && raw[3] == SIGNATURE[3];
        if !signed {
            return Err(protocol_error("a message without the SMB2 signature"));
        }
        assert(raw@.subrange(0, 4) =~= SIGNATURE@);
        let body = slice_to_vec(&raw[HEADER..raw.len()]);
        assert(body@ =~= raw@.skip(HEADER as int));
        Ok(
            Message {
                command: get_u16(raw, 12),
                status: get_u32(raw, 8),
                flags: get_u32(raw, 16),
                message_id: get_u64(raw, 24),
                tree_id: get_u32(raw, 36),
                session_id: get_u64(raw, 40),
                body,
            },
        )
    }

    /// Read one message off the front of `received`, all that a connection
    /// brought before it closed, with the number of bytes it took; `None` where
    /// it closed before a message began.
    pub fn read(received: &[u8]) -> (message: Result<Option<(Message, usize)>, TransportError>)
        ensures
            match (message, first_message(received@)) {
                (Ok(Some(read)), Ok(Some(model))) => read.0@ == model.0 && read.1 == model.1,
                (Ok(None), Ok(None)) => true,
                (Err(error), Err(fault)) => error@ == fault,
                _ => false,
            },
    {
        if received.len() == 0 {
            return Ok(None);
        }
        if received.len() < 4 {
            return Err(protocol_error("a message length cut short"));
        }
        let prefix = [received[0], received[1], received[2], received[3]];
        assert(prefix@ =~= received@.take(4));
        let length = match Message::announced_length(prefix) {
            Ok(length) => length,
            Err(error) => return Err(error),
        };
        if received.len() - 4 < length {
            return Err(protocol_error("a message cut short"));
        }
        match Message::parse(&received[4..4 + length]) {
            Ok(message) => Ok(Some((message, 4 + length))),
            Err(error) => Err(error),
        }
    }

    /// The message that was read, which must be there.
    pub fn expect(read: Option<Message>) -> (message: Result<Message, TransportError>)
        ensures
            match read {
                Some(expected) => message == Ok::<Message, TransportError>(expected),
                None => message matches Err(error) && error@ == permanent_fault(
                    "the peer closed the connection"@,
                ),
            },
    {
        match read {
            Some(message) => Ok(message),
            None => Err(protocol_error("the peer closed the connection")),
        }
    }
}

/// `header` holds the fields of `message` where they belong.
spec fn is_header_of(header: Seq<u8>, message: MessageView) -> bool {
    &&& header.len() == HEADER
    &&& header.subrange(0, 4) == SIGNATURE@
    &&& header.subrange(8, 12) == le32(message.status)
    &&& header.subrange(12, 14) == le16(message.command)
    &&& header.subrange(16, 20) == le32(message.flags)
    &&& header.subrange(24, 32) == le64(message.message_id)
    &&& header.subrange(36, 40) == le32(message.tree_id)
    &&& header.subrange(40, 48) == le64(message.session_id)
}

/// Thirteen pieces of the header's sizes stand at the header's offsets.
proof fn lemma_header_layout(
    signature: Seq<u8>,
    size: Seq<u8>,
    charge: Seq<u8>,
    status: Seq<u8>,
    command: Seq<u8>,
    credits: Seq<u8>,
    flags: Seq<u8>,
    next: Seq<u8>,
    message_id: Seq<u8>,
    reserved: Seq<u8>,
    tree_id: Seq<u8>,
    session_id: Seq<u8>,
    unsigned: Seq<u8>,
)
    requires
        signature.len() == 4,
        size.len() == 2,
        charge.len() == 2,
        status.len() == 4,
        command.len() == 2,
        credits.len() == 2,
        flags.len() == 4,
        next.len() == 4,
        message_id.len() == 8,
        reserved.len() == 4,
        tree_id.len() == 4,
        session_id.len() == 8,
        unsigned.len() == 16,
    ensures
        ({
            let header = signature + size + charge + status + command + credits + flags + next
                + message_id + reserved + tree_id + session_id + unsigned;
            &&& header.len() == 64
            &&& header.subrange(0, 4) == signature
            &&& header.subrange(8, 12) == status
            &&& header.subrange(12, 14) == command
            &&& header.subrange(16, 20) == flags
            &&& header.subrange(24, 32) == message_id
            &&& header.subrange(36, 40) == tree_id
            &&& header.subrange(40, 48) == session_id
        }),
{
    let header = signature + size + charge + status + command + credits + flags + next + message_id
        + reserved + tree_id + session_id + unsigned;
    assert(header.subrange(0, 4) =~= signature);
    assert(header.subrange(8, 12) =~= status);
    assert(header.subrange(12, 14) =~= command);
    assert(header.subrange(16, 20) =~= flags);
    assert(header.subrange(24, 32) =~= message_id);
    assert(header.subrange(36, 40) =~= tree_id);
    assert(header.subrange(40, 48) =~= session_id);
}

proof fn lemma_header_fields(message: MessageView)
    ensures
        is_header_of(message.header(), message),
{
    lemma_header_layout(
        SIGNATURE@,
        le16(64),
        zeros(2),
        le32(message.status),
        le16(message.command),
        le16(1),
        le32(message.flags),
        zeros(4),
        le64(message.message_id),
        zeros(4),
        le32(message.tree_id),
        le64(message.session_id),
        zeros(16),
    );
}

proof fn lemma_message_in(header: Seq<u8>, message: MessageView)
    requires
        is_header_of(header, message),
    ensures
        message_in(header + message.body) == Ok::<MessageView, Fault>(message),
{
    let raw = header + message.body;
    assert(raw.subrange(0, 4) =~= header.subrange(0, 4));
    assert(raw.subrange(8, 12) =~= header.subrange(8, 12));
    law_u32_reads_back(raw, 8, message.status);
    assert(raw.subrange(12, 14) =~= header.subrange(12, 14));
    law_u16_reads_back(raw, 12, message.command);
    assert(raw.subrange(16, 20) =~= header.subrange(16, 20));
    law_u32_reads_back(raw, 16, message.flags);
    assert(raw.subrange(24, 32) =~= header.subrange(24, 32));
    law_u64_reads_back(raw, 24, message.message_id);
    assert(raw.subrange(36, 40) =~= header.subrange(36, 40));
    law_u32_reads_back(raw, 36, message.tree_id);
    assert(raw.subrange(40, 48) =~= header.subrange(40, 48));
    law_u64_reads_back(raw, 40, message.session_id);
    assert(raw.skip(HEADER as int) =~= message.body);
}

proof fn lemma_announced(length: u32)
    requires
        HEADER <= length <= MAX_MESSAGE,
    ensures
        be32(length).len() == 4,
        announced(be32(length)) == Ok::<usize, Fault>(length as usize),
{
}

proof fn lemma_first_message(
    prefix: Seq<u8>,
    length: usize,
    raw: Seq<u8>,
    message: MessageView,
    rest: Seq<u8>,
)
    requires
        prefix.len() == 4,
        raw.len() == length,
        announced(prefix) == Ok::<usize, Fault>(length),
        message_in(raw) == Ok::<MessageView, Fault>(message),
    ensures
        first_message(prefix + raw + rest) == Ok::<Option<(MessageView, int)>, Fault>(
            Some((message, 4 + length)),
        ),
{
    let wire = prefix + raw + rest;
    assert(wire.take(4) =~= prefix);
    assert(wire.subrange(4, 4 + length) =~= raw);
}

/// A message that fits, framed and read back, is the message, whatever follows
/// it on the wire.
#[verifier::rlimit(50)]
pub proof fn law_message_reads_back(message: MessageView, rest: Seq<u8>)
    requires
        message.fits(),
    ensures
        first_message(message.framed() + rest) == Ok::<Option<(MessageView, int)>, Fault>(
            Some((message, message.framed().len() as int)),
        ),
        message.framed().len() == 4 + HEADER + message.body.len(),
{
    lemma_header_fields(message);
    lemma_message_in(message.header(), message);
    lemma_announced(message.length());
    let prefix = be32(message.length());
    let raw = message.header() + message.body;
    lemma_first_message(prefix, message.length() as usize, raw, message, rest);
    assert(message.framed() + rest =~= prefix + raw + rest);
}

/// A number is laid out low byte first, and the length before a message high
/// byte first: the bytes add up to the number.
pub proof fn law_bytes_add_up(short: u16, word: u32, long: u64)
    ensures
        le16(short).len() == 2,
        short == le16(short)[0] + 0x100 * le16(short)[1],
        le32(word).len() == 4,
        word == le32(word)[0] + 0x100 * le32(word)[1] + 0x1_0000 * le32(word)[2] + 0x100_0000
            * le32(word)[3],
        le64(long).len() == 8,
        long == le64(long)[0] + 0x100 * le64(long)[1] + 0x1_0000 * le64(long)[2] + 0x100_0000
            * le64(long)[3] + 0x1_0000_0000 * le64(long)[4] + 0x100_0000_0000 * le64(long)[5]
            + 0x1_0000_0000_0000 * le64(long)[6] + 0x100_0000_0000_0000 * le64(long)[7],
        be32(word).len() == 4,
        word == be32(word)[3] + 0x100 * be32(word)[2] + 0x1_0000 * be32(word)[1] + 0x100_0000
            * be32(word)[0],
{
    let low = (long % 0x1_0000_0000) as u32;
    let high = (long / 0x1_0000_0000) as u32;
    lemma_word_adds_up(word);
    lemma_word_adds_up(low);
    lemma_word_adds_up(high);
    let bytes = le64(long);
    assert(bytes[0] == le32(low)[0] && bytes[1] == le32(low)[1] && bytes[2] == le32(low)[2]
        && bytes[3] == le32(low)[3]);
    assert(bytes[4] == le32(high)[0] && bytes[5] == le32(high)[1] && bytes[6] == le32(high)[2]
        && bytes[7] == le32(high)[3]);
    let reversed = be32(word);
    assert(reversed[0] == le32(word)[3] && reversed[1] == le32(word)[2] && reversed[2] == le32(
        word,
    )[1] && reversed[3] == le32(word)[0]);
}

proof fn lemma_word_adds_up(word: u32)
    ensures
        word == le32(word)[0] + 0x100 * le32(word)[1] + 0x1_0000 * le32(word)[2] + 0x100_0000
            * le32(word)[3],
{
    assert(word % 256 + 0x100 * (word / 256 % 256) + 0x1_0000 * (word / 0x1_0000 % 256)
        + 0x100_0000 * (word / 0x100_0000) == word) by (nonlinear_arith);
}

/// A number is read where it stands, low byte first: its low byte is the first,
/// and so on. Past the end there is none.
pub proof fn law_a_number_is_read_where_it_stands(bytes: Seq<u8>, at: int)
    requires
        0 <= at,
    ensures
        if at + 2 <= bytes.len() {
            u16_at(bytes, at) == bytes[at] + 0x100 * bytes[at + 1]
        } else {
            u16_at(bytes, at) == 0
        },
        if at + 4 <= bytes.len() {
            u32_at(bytes, at) == bytes[at] + 0x100 * bytes[at + 1] + 0x1_0000 * bytes[at + 2]
                + 0x100_0000 * bytes[at + 3]
        } else {
            u32_at(bytes, at) == 0
        },
        if at + 8 <= bytes.len() {
            u64_at(bytes, at) == bytes[at] + 0x100 * bytes[at + 1] + 0x1_0000 * bytes[at + 2]
                + 0x100_0000 * bytes[at + 3] + 0x1_0000_0000 * bytes[at + 4] + 0x100_0000_0000
                * bytes[at + 5] + 0x1_0000_0000_0000 * bytes[at + 6] + 0x100_0000_0000_0000
                * bytes[at + 7]
        } else {
            u64_at(bytes, at) == 0
        },
{
}

/// What a request carries out of line is found by its offset from the header and
/// its length: exactly the bytes there, none where either is zero. It is refused
/// exactly where it would begin in the header or end past the message.
pub proof fn law_a_region_is_what_stands_there(body: Seq<u8>, offset: u16, length: u32)
    ensures
        match region_of(body, offset, length) {
            Ok(bytes) => if offset == 0 || length == 0 {
                bytes.len() == 0
            } else {
                &&& offset >= 64
                &&& bytes.len() == length
                &&& offset - 64 + length <= body.len()
                &&& forall|i: int| 0 <= i < length ==> #[trigger] bytes[i] == body[offset - 64 + i]
            },
            Err(fault) => {
                &&& !fault.retryable
                &&& offset > 0
                &&& length > 0
                &&& offset < 64 || offset - 64 + length > body.len()
            },
        },
{
}

/// A message on the wire is its length in four bytes, high byte first, the
/// header, and the body as it is; the header holds the signature and every field
/// at its place.
pub proof fn law_a_message_is_laid_out_field_by_field(message: MessageView)
    requires
        message.fits(),
    ensures
        ({
            let wire = message.framed();
            &&& wire.len() == 68 + message.body.len()
            &&& 0x100_0000 * wire[0] + 0x1_0000 * wire[1] + 0x100 * wire[2] + wire[3] == 64
                + message.body.len()
            &&& wire.subrange(4, 8) == seq![0xFEu8, 0x53, 0x4D, 0x42]
            &&& u32_at(wire, 12) == message.status
            &&& u16_at(wire, 16) == message.command
            &&& u32_at(wire, 20) == message.flags
            &&& u64_at(wire, 28) == message.message_id
            &&& u32_at(wire, 40) == message.tree_id
            &&& u64_at(wire, 44) == message.session_id
            &&& wire.skip(68) == message.body
        }),
{
    let wire = message.framed();
    let header = message.header();
    lemma_header_fields(message);
    law_bytes_add_up(0, message.length(), 0);
    assert(SIGNATURE@ =~= seq![0xFEu8, 0x53, 0x4D, 0x42]);
    lemma_within(be32(message.length()), header, message.body);
    assert(wire.skip(68) =~= message.body);
    law_u32_reads_back(wire, 12, message.status);
    law_u16_reads_back(wire, 16, message.command);
    law_u32_reads_back(wire, 20, message.flags);
    law_u64_reads_back(wire, 28, message.message_id);
    law_u32_reads_back(wire, 40, message.tree_id);
    law_u64_reads_back(wire, 44, message.session_id);
}

proof fn lemma_within(prefix: Seq<u8>, header: Seq<u8>, body: Seq<u8>)
    requires
        prefix.len() == 4,
        header.len() == 64,
    ensures
        ({
            let wire = prefix + header + body;
            &&& wire.len() == 68 + body.len()
            &&& wire[0] == prefix[0] && wire[1] == prefix[1] && wire[2] == prefix[2] && wire[3]
                == prefix[3]
            &&& wire.subrange(4, 8) == header.subrange(0, 4)
            &&& wire.subrange(12, 16) == header.subrange(8, 12)
            &&& wire.subrange(16, 18) == header.subrange(12, 14)
            &&& wire.subrange(20, 24) == header.subrange(16, 20)
            &&& wire.subrange(28, 36) == header.subrange(24, 32)
            &&& wire.subrange(40, 44) == header.subrange(36, 40)
            &&& wire.subrange(44, 52) == header.subrange(40, 48)
        }),
{
    let wire = prefix + header + body;
    assert(wire.subrange(4, 8) =~= header.subrange(0, 4));
    assert(wire.subrange(12, 16) =~= header.subrange(8, 12));
    assert(wire.subrange(16, 18) =~= header.subrange(12, 14));
    assert(wire.subrange(20, 24) =~= header.subrange(16, 20));
    assert(wire.subrange(28, 36) =~= header.subrange(24, 32));
    assert(wire.subrange(40, 44) =~= header.subrange(36, 40));
    assert(wire.subrange(44, 52) =~= header.subrange(40, 48));
}

/// A message is read off the wire exactly as long as it announces: its fields are
/// read from their places, its body is all that follows the header up to its
/// end, and nothing behind that is touched. It is refused where it is shorter
/// than a header, longer than the ceiling, cut short or unsigned; there is none
/// only where nothing came.
pub proof fn law_a_message_is_read_as_long_as_it_announces(received: Seq<u8>)
    ensures
        first_message(received) matches Ok(None) <==> received.len() == 0,
        match first_message(received) {
            Ok(Some((message, taken))) => {
                &&& taken == 4 + 0x100_0000 * received[0] + 0x1_0000 * received[1] + 0x100
                    * received[2] + received[3]
                &&& 68 <= taken <= received.len()
                &&& taken <= 4 + 0x100_0000
                &&& received.subrange(4, 8) == seq![0xFEu8, 0x53, 0x4D, 0x42]
                &&& message.status == u32_at(received, 12)
                &&& message.command == u16_at(received, 16)
                &&& message.flags == u32_at(received, 20)
                &&& message.message_id == u64_at(received, 28)
                &&& message.tree_id == u32_at(received, 40)
                &&& message.session_id == u64_at(received, 44)
                &&& message.body == received.subrange(68, taken)
            },
            Ok(None) => true,
            Err(fault) => {
                let length = 0x100_0000 * received[0] + 0x1_0000 * received[1] + 0x100
                    * received[2] + received[3];
                &&& !fault.retryable
                &&& received.len() < 4 || length < 64 || length > 0x100_0000 || received.len() < 4
                    + length || received.subrange(4, 8) != seq![0xFEu8, 0x53, 0x4D, 0x42]
            },
        },
{
    if received.len() >= 4 {
        let prefix = received.take(4);
        assert(prefix[0] == received[0] && prefix[1] == received[1] && prefix[2] == received[2]
            && prefix[3] == received[3]);
        if let Ok(length) = announced(prefix) {
            if 4 + length <= received.len() {
                let raw = received.subrange(4, 4 + length);
                assert(SIGNATURE@ =~= seq![0xFEu8, 0x53, 0x4D, 0x42]);
                assert(raw.subrange(0, 4) =~= received.subrange(4, 8));
                assert(raw.skip(64) =~= received.subrange(68, 4 + length));
                assert(forall|i: int| 0 <= i < length ==> raw[i] == received[4 + i]);
            }
        }
    }
}

/// What is written is read: the bytes of a message that fits, whatever follows
/// them on the wire, are read as that message, and exactly those bytes are taken.
/// The length that stands before it is what its header and its body take up.
pub proof fn law_what_is_written_is_read(
    message: &Message,
    bytes: Vec<u8>,
    received: &[u8],
    read: Result<Option<(Message, usize)>, TransportError>,
    prefix: [u8; 4],
    length: Result<usize, TransportError>,
)
    requires
        message@.fits(),
        call_ensures(Message::to_bytes, (message,), bytes),
        bytes@.is_prefix_of(received@),
        call_ensures(Message::read, (received,), read),
        prefix@ == bytes@.take(4),
        call_ensures(Message::announced_length, (prefix,), length),
    ensures
        bytes@.len() == 68 + message.body@.len(),
        bytes@.skip(68) == message.body@,
        read matches Ok(Some((found, taken))) && found@ == message@ && taken == bytes@.len(),
        length matches Ok(length) && length == 64 + message.body@.len(),
{
    let rest = received@.skip(bytes@.len() as int);
    assert(received@ =~= bytes@ + rest);
    law_message_reads_back(message@, rest);
    law_a_message_is_laid_out_field_by_field(message@);
    let wire = bytes@;
    assert(prefix@[0] == wire[0] && prefix@[1] == wire[1] && prefix@[2] == wire[2] && prefix@[3]
        == wire[3]);
}

} // verus!
