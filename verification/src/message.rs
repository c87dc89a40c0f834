//! The SMB2 command bodies this transport speaks: the request a client sends
//! and the response a server answers, for the commands that carry one file —
//! negotiate, session setup, tree connect, create, write, read and close. The
//! fixed parts and their structure sizes, offsets and dispositions are SMB2's.

use vstd::prelude::*;
use vstd::slice::slice_to_vec;

use crate::error::{agrees, permanent_fault, protocol_error, Fault, TransportError};
use crate::utf16;
use crate::utf16::{from_utf16, law_utf16_reads_back, utf16};
use crate::wire::{
    get_u16, get_u32, get_u64, law_u16_reads_back, law_u32_reads_back, law_u64_reads_back, le16,
    le32, le64, push_bytes, push_u16, push_u32, push_u64, push_zeros, region, region_of, u16_at,
    u32_at, u64_at, wide_region, zeros, HEADER,
};

verus! {

/// `FILE_OPEN`: open an existing file.
pub const FILE_OPEN: u32 = 1;

/// `FILE_OVERWRITE_IF`: create it, or replace it if it is there.
pub const FILE_OVERWRITE_IF: u32 = 5;

/// `FILE_DIRECTORY_FILE`, a create option: open a directory.
pub const FILE_DIRECTORY: u32 = 0x0000_0001;

/// `FILE_DELETE_ON_CLOSE`, a create option: remove the file when it is closed.
pub const FILE_DELETE_ON_CLOSE: u32 = 0x0000_1000;

/// `length` as far as a two-byte field carries it.
pub open spec fn length16(length: nat) -> u16 {
    if length <= 0xFFFF {
        length as u16
    } else {
        0xFFFF
    }
}

/// `length` as far as a four-byte field carries it.
pub open spec fn length32(length: nat) -> u32 {
    if length <= 0xFFFF_FFFF {
        length as u32
    } else {
        0xFFFF_FFFF
    }
}

pub(crate) fn to_length16(length: usize) -> (field: u16)
    ensures
        field == length16(length as nat),
{
    if length <= 0xFFFF {
        length as u16
    } else {
        0xFFFF
    }
}

pub(crate) fn to_length32(length: usize) -> (field: u32)
    ensures
        field == length32(length as nat),
{
    if length <= 0xFFFF_FFFF {
        length as u32
    } else {
        0xFFFF_FFFF
    }
}

/// A sixteen-byte SMB2 file id.
#[derive(Clone, Copy, Debug, PartialEq, Eq)]
pub struct FileId(pub [u8; 16]);

impl View for FileId {
    type V = Seq<u8>;

    open spec fn view(&self) -> Seq<u8> {
        self.0@
    }
}

/// The file id made from `seed`: its persistent and its volatile half.
pub open spec fn file_id(seed: u64) -> Seq<u8> {
    le64(seed) + le64(seed)
}

/// The file id in the sixteen bytes at `at`.
pub open spec fn id_at(bytes: Seq<u8>, at: int) -> Result<Seq<u8>, Fault> {
    if at + 16 <= bytes.len() {
        Ok(bytes.subrange(at, at + 16))
    } else {
        Err(permanent_fault("a file id cut short"@))
    }
}

/// Different seeds make different file ids, so ids handed out from a counter
/// are never shared.
#[verifier::rlimit(50)]
pub proof fn law_file_ids_differ(a: u64, b: u64)
    requires
        file_id(a) == file_id(b),
    ensures
        a == b,
{
    let id = file_id(a);
    assert(file_id(a).subrange(0, 8) =~= le64(a));
    assert(file_id(b).subrange(0, 8) =~= le64(b));
    law_u64_reads_back(id, 0, a);
    law_u64_reads_back(id, 0, b);
}

impl FileId {
    /// The persistent and volatile halves both set to `seed`, so a server
    /// hands out an id no open file shares.
    pub fn of(seed: u64) -> (id: Self)
        ensures
            id@ == file_id(seed),
    {
        let mut bytes: Vec<u8> = Vec::new();
        push_u64(&mut bytes, seed);
        push_u64(&mut bytes, seed);
        FileId::taken(&bytes, 0)
    }

    fn taken(bytes: &[u8], at: usize) -> (id: Self)
        requires
            at + 16 <= bytes@.len(),
        ensures
            id@ == bytes@.subrange(at as int, at + 16),
    {
        let id = FileId(
            [
                bytes[at],
                bytes[at + 1],
                bytes[at + 2],
                bytes[at + 3],
                bytes[at + 4],
                bytes[at + 5],
                bytes[at + 6],
                bytes[at + 7],
                bytes[at + 8],
                bytes[at + 9],
                bytes[at + 10],
                bytes[at + 11],
                bytes[at + 12],
                bytes[at + 13],
                bytes[at + 14],
                bytes[at + 15],
            ],
        );
        assert(id@ =~= bytes@.subrange(at as int, at + 16));
        id
    }

    /// The file id in the sixteen bytes at `at`.
    pub fn read(bytes: &[u8], at: usize) -> (id: Result<Self, TransportError>)
        ensures
            agrees(id, id_at(bytes@, at as int)),
    {
        if bytes.len() < 16 || at > bytes.len() - 16 {
            return Err(protocol_error("a file id cut short"));
        }
        Ok(FileId::taken(bytes, at))
    }

    /// True where both are the same id.
    pub fn same(&self, other: &FileId) -> (same: bool)
        ensures
            same == (self@ == other@),
    {
        let mut at: usize = 0;
        while at < 16
            invariant
                at <= 16,
                forall|i: int| 0 <= i < at ==> self@[i] == other@[i],
            decreases 16 - at,
        {
            if self.0[at] != other.0[at] {
                assert(self@[at as int] != other@[at as int]);
                return false;
            }
            at = at + 1;
        }
        assert(self@ =~= other@);
        true
    }
}

/// A `NEGOTIATE` request offering the 2.0.2 dialect.
pub open spec fn negotiate_request_body() -> Seq<u8> {
    le16(36) + le16(1) + le16(1) + le16(0) + le32(0) + zeros(16) + le64(0) + le16(0x0202)
}

/// A `NEGOTIATE` request offering the 2.0.2 dialect.
pub fn negotiate_request() -> (body: Vec<u8>)
    ensures
        body@ == negotiate_request_body(),
{
    let mut out: Vec<u8> = Vec::new();
    push_u16(&mut out, 36);
    push_u16(&mut out, 1);
    push_u16(&mut out, 1);
    push_u16(&mut out, 0);
    push_u32(&mut out, 0);
    push_zeros(&mut out, 16);
    push_u64(&mut out, 0);
    push_u16(&mut out, 0x0202);
    assert(out@ =~= negotiate_request_body());
    out
}

/// A `NEGOTIATE` response naming the 2.0.2 dialect.
pub open spec fn negotiate_response_body() -> Seq<u8> {
    le16(65) + le16(1) + le16(0x0202) + zeros(58)
}

/// A `NEGOTIATE` response naming the 2.0.2 dialect.
pub fn negotiate_response() -> (body: Vec<u8>)
    ensures
        body@ == negotiate_response_body(),
{
    let mut out: Vec<u8> = Vec::new();
    push_u16(&mut out, 65);
    push_u16(&mut out, 1);
    push_u16(&mut out, 0x0202);
    push_zeros(&mut out, 58);
    assert(out@ =~= negotiate_response_body());
    out
}

/// A `SESSION_SETUP` request or response carrying `token`.
pub open spec fn session_setup_body(is_response: bool, token: Seq<u8>) -> Seq<u8> {
    if is_response {
        le16(9) + le16(0) + le16(72) + le16(length16(token.len())) + token
    } else {
        le16(25) + zeros(2) + le32(0) + le32(0) + le16(88) + le16(length16(token.len())) + le64(0)
            + token
    }
}

/// A `SESSION_SETUP` request or response carrying `token` as its security
/// buffer; the request's fixed part is twenty-four bytes, the response's
/// eight.
pub fn session_setup(is_response: bool, token: &[u8]) -> (body: Vec<u8>)
    ensures
        body@ == session_setup_body(is_response, token@),
{
    let mut out: Vec<u8> = Vec::new();
    if is_response {
        push_u16(&mut out, 9);
        push_u16(&mut out, 0);
        push_u16(&mut out, HEADER as u16 + 8);
        push_u16(&mut out, to_length16(token.len()));
    } else {
        push_u16(&mut out, 25);
        push_zeros(&mut out, 2);
        push_u32(&mut out, 0);
        push_u32(&mut out, 0);
        push_u16(&mut out, HEADER as u16 + 24);
        push_u16(&mut out, to_length16(token.len()));
        push_u64(&mut out, 0);
    }
    push_bytes(&mut out, token);
    assert(out@ =~= session_setup_body(is_response, token@));
    out
}

/// The security buffer a session setup carries.
pub open spec fn token_in(body: Seq<u8>) -> Result<Seq<u8>, Fault> {
    let offset_at: int = if u16_at(body, 0) == 9 {
        4
    } else {
        12
    };
    region_of(body, u16_at(body, offset_at), u16_at(body, offset_at + 2) as u32)
}

/// The security buffer a session setup carries.
pub fn session_token(body: &[u8]) -> (token: Result<&[u8], TransportError>)
    ensures
        agrees(token, token_in(body@)),
{
    let offset_at: usize = if get_u16(body, 0) == 9 {
        4
    } else {
        12
    };
    region(body, get_u16(body, offset_at), get_u16(body, offset_at + 2))
}

/// A `TREE_CONNECT` request for `path`.
pub open spec fn tree_connect_request_body(path: Seq<char>) -> Seq<u8> {
    le16(9) + le16(0) + le16(72) + le16(length16(utf16(path).len())) + utf16(path)
}

/// A `TREE_CONNECT` request for `path` — `\\server\share`.
pub fn tree_connect_request(path: &str) -> (body: Vec<u8>)
    ensures
        body@ == tree_connect_request_body(path@),
{
    let name = utf16::encode(path);
    let mut out: Vec<u8> = Vec::new();
    push_u16(&mut out, 9);
    push_u16(&mut out, 0);
    push_u16(&mut out, HEADER as u16 + 8);
    push_u16(&mut out, to_length16(name.len()));
    push_bytes(&mut out, &name);
    assert(out@ =~= tree_connect_request_body(path@));
    out
}

/// The path a tree connect names.
pub open spec fn path_in(body: Seq<u8>) -> Result<Seq<char>, Fault> {
    match region_of(body, u16_at(body, 4), u16_at(body, 6) as u32) {
        Ok(name) => Ok(from_utf16(name)),
        Err(fault) => Err(fault),
    }
}

/// The path a tree connect names.
pub fn tree_connect_path(body: &[u8]) -> (path: Result<String, TransportError>)
    ensures
        agrees(path, path_in(body@)),
{
    match region(body, get_u16(body, 4), get_u16(body, 6)) {
        Ok(name) => Ok(utf16::decode_lossy(name)),
        Err(error) => Err(error),
    }
}

/// A `TREE_CONNECT` response for a disk share.
pub open spec fn tree_connect_response_body() -> Seq<u8> {
    le16(16) + seq![1u8, 0u8] + le32(0) + le32(0) + le32(0x001F_01FF)
}

/// A `TREE_CONNECT` response for a disk share.
pub fn tree_connect_response() -> (body: Vec<u8>)
    ensures
        body@ == tree_connect_response_body(),
{
    let mut out: Vec<u8> = Vec::new();
    push_u16(&mut out, 16);
    out.push(1);
    out.push(0);
    push_u32(&mut out, 0);
    push_u32(&mut out, 0);
    push_u32(&mut out, 0x001F_01FF);
    assert(out@ =~= tree_connect_response_body());
    out
}

/// A `CREATE` request for `name` with `disposition` and `options`.
pub open spec fn create_request_body(name: Seq<char>, disposition: u32, options: u32) -> Seq<u8> {
    le16(57) + zeros(2) + le32(2) + le64(0) + le64(0) + le32(0x001F_01FF) + le32(0x0000_0080)
        + le32(7) + le32(disposition) + le32(options) + le16(120) + le16(
        length16(utf16(name).len()),
    ) + le32(0) + le32(0) + utf16(name)
}

/// A `CREATE` request for `name` with `disposition` and `options`.
pub fn create_request(name: &str, disposition: u32, options: u32) -> (body: Vec<u8>)
    ensures
        body@ == create_request_body(name@, disposition, options),
{
    let encoded = utf16::encode(name);
    let mut out: Vec<u8> = Vec::new();
    push_u16(&mut out, 57);
    push_zeros(&mut out, 2);
    push_u32(&mut out, 2);
    push_u64(&mut out, 0);
    push_u64(&mut out, 0);
    push_u32(&mut out, 0x001F_01FF);
    push_u32(&mut out, 0x0000_0080);
    push_u32(&mut out, 7);
    push_u32(&mut out, disposition);
    push_u32(&mut out, options);
    push_u16(&mut out, HEADER as u16 + 56);
    push_u16(&mut out, to_length16(encoded.len()));
    push_u32(&mut out, 0);
    push_u32(&mut out, 0);
    push_bytes(&mut out, &encoded);
    assert(Seq::<u8>::empty() + le16(57) =~= le16(57));
    out
}

/// The name, disposition and options a create names.
pub open spec fn create_fields_in(body: Seq<u8>) -> Result<(Seq<char>, u32, u32), Fault> {
    match region_of(body, u16_at(body, 44), u16_at(body, 46) as u32) {
        Ok(name) => Ok((from_utf16(name), u32_at(body, 36), u32_at(body, 40))),
        Err(fault) => Err(fault),
    }
}

/// The name, disposition and options a create names.
pub fn create_fields(body: &[u8]) -> (fields: Result<(String, u32, u32), TransportError>)
    ensures
        agrees(fields, create_fields_in(body@)),
{
    let disposition = get_u32(body, 36);
    let options = get_u32(body, 40);
    match region(body, get_u16(body, 44), get_u16(body, 46)) {
        Ok(name) => Ok((utf16::decode_lossy(name), disposition, options)),
        Err(error) => Err(error),
    }
}

/// A `CREATE` response handing out `id` for a file `end_of_file` bytes long.
pub open spec fn create_response_body(id: Seq<u8>, end_of_file: u64) -> Seq<u8> {
    le16(89) + zeros(2) + le32(1) + zeros(32) + le64(end_of_file) + le64(end_of_file) + le32(
        0x0000_0080,
    ) + le32(0) + id + le32(0) + le32(0)
}

/// A `CREATE` response handing out `id` for a file `end_of_file` bytes long.
pub fn create_response(id: FileId, end_of_file: u64) -> (body: Vec<u8>)
    ensures
        body@ == create_response_body(id@, end_of_file),
{
    let mut out: Vec<u8> = Vec::new();
    push_u16(&mut out, 89);
    push_zeros(&mut out, 2);
    push_u32(&mut out, 1);
    push_zeros(&mut out, 32);
    push_u64(&mut out, end_of_file);
    push_u64(&mut out, end_of_file);
    push_u32(&mut out, 0x0000_0080);
    push_u32(&mut out, 0);
    push_bytes(&mut out, &id.0);
    push_u32(&mut out, 0);
    push_u32(&mut out, 0);
    assert(Seq::<u8>::empty() + le16(89) =~= le16(89));
    out
}

/// The file id a create response handed out, and the file's length.
pub open spec fn created_in(body: Seq<u8>) -> Result<(Seq<u8>, u64), Fault> {
    match id_at(body, 64) {
        Ok(id) => Ok((id, u64_at(body, 48))),
        Err(fault) => Err(fault),
    }
}

/// The file id a create response handed out, and the file's length.
pub fn created(body: &[u8]) -> (created: Result<(FileId, u64), TransportError>)
    ensures
        agrees(created, created_in(body@)),
{
    match FileId::read(body, 64) {
        Ok(id) => Ok((id, get_u64(body, 48))),
        Err(error) => Err(error),
    }
}

/// A `WRITE` request putting `data` at `offset` of `id`.
pub open spec fn write_request_body(id: Seq<u8>, offset: u64, data: Seq<u8>) -> Seq<u8> {
    le16(49) + le16(112) + le32(length32(data.len())) + le64(offset) + id + le32(0) + le32(0)
        + le16(0) + le16(0) + le32(0) + data
}

/// A `WRITE` request putting `data` at `offset` of `id`.
pub fn write_request(id: FileId, offset: u64, data: &[u8]) -> (body: Vec<u8>)
    ensures
        body@ == write_request_body(id@, offset, data@),
{
    let mut out: Vec<u8> = Vec::new();
    push_u16(&mut out, 49);
    push_u16(&mut out, HEADER as u16 + 48);
    push_u32(&mut out, to_length32(data.len()));
    push_u64(&mut out, offset);
    push_bytes(&mut out, &id.0);
    push_u32(&mut out, 0);
    push_u32(&mut out, 0);
    push_u16(&mut out, 0);
    push_u16(&mut out, 0);
    push_u32(&mut out, 0);
    push_bytes(&mut out, data);
    assert(Seq::<u8>::empty() + le16(49) =~= le16(49));
    out
}

/// The file id, offset and data a write carries.
pub open spec fn write_fields_in(body: Seq<u8>) -> Result<(Seq<u8>, u64, Seq<u8>), Fault> {
    match id_at(body, 16) {
        Ok(id) => match region_of(body, u16_at(body, 2), u32_at(body, 4)) {
            Ok(data) => Ok((id, u64_at(body, 8), data)),
            Err(fault) => Err(fault),
        },
        Err(fault) => Err(fault),
    }
}

/// The file id, offset and data a write carries.
pub fn write_fields(body: &[u8]) -> (fields: Result<(FileId, u64, Vec<u8>), TransportError>)
    ensures
        agrees(fields, write_fields_in(body@)),
{
    let id = match FileId::read(body, 16) {
        Ok(id) => id,
        Err(error) => return Err(error),
    };
    let offset = get_u64(body, 8);
    match wide_region(body, get_u16(body, 2), get_u32(body, 4)) {
        Ok(data) => Ok((id, offset, slice_to_vec(data))),
        Err(error) => Err(error),
    }
}

/// A `WRITE` response reporting `count` bytes written.
pub open spec fn write_response_body(count: u32) -> Seq<u8> {
    le16(17) + le16(0) + le32(count) + le32(0) + le32(0)
}

/// A `WRITE` response reporting `count` bytes written.
pub fn write_response(count: u32) -> (body: Vec<u8>)
    ensures
        body@ == write_response_body(count),
{
    let mut out: Vec<u8> = Vec::new();
    push_u16(&mut out, 17);
    push_u16(&mut out, 0);
    push_u32(&mut out, count);
    push_u32(&mut out, 0);
    push_u32(&mut out, 0);
    assert(Seq::<u8>::empty() + le16(17) =~= le16(17));
    out
}

/// The count a write response reports.
pub fn written(body: &[u8]) -> (count: u32)
    ensures
        count == u32_at(body@, 4),
{
    get_u32(body, 4)
}

/// A `READ` request for `length` bytes at `offset` of `id`.
pub open spec fn read_request_body(id: Seq<u8>, offset: u64, length: u32) -> Seq<u8> {
    le16(49) + zeros(2) + le32(length) + le64(offset) + id + le32(0) + le32(0) + le32(0) + le16(0)
        + le16(0)
}

/// A `READ` request for `length` bytes at `offset` of `id`.
pub fn read_request(id: FileId, offset: u64, length: u32) -> (body: Vec<u8>)
    ensures
        body@ == read_request_body(id@, offset, length),
{
    let mut out: Vec<u8> = Vec::new();
    push_u16(&mut out, 49);
    push_zeros(&mut out, 2);
    push_u32(&mut out, length);
    push_u64(&mut out, offset);
    push_bytes(&mut out, &id.0);
    push_u32(&mut out, 0);
    push_u32(&mut out, 0);
    push_u32(&mut out, 0);
    push_u16(&mut out, 0);
    push_u16(&mut out, 0);
    assert(Seq::<u8>::empty() + le16(49) =~= le16(49));
    out
}

/// The file id, offset and length a read asks for.
pub open spec fn read_fields_in(body: Seq<u8>) -> Result<(Seq<u8>, u64, u32), Fault> {
    match id_at(body, 16) {
        Ok(id) => Ok((id, u64_at(body, 8), u32_at(body, 4))),
        Err(fault) => Err(fault),
    }
}

/// The file id, offset and length a read asks for.
pub fn read_fields(body: &[u8]) -> (fields: Result<(FileId, u64, u32), TransportError>)
    ensures
        agrees(fields, read_fields_in(body@)),
{
    let length = get_u32(body, 4);
    let offset = get_u64(body, 8);
    match FileId::read(body, 16) {
        Ok(id) => Ok((id, offset, length)),
        Err(error) => Err(error),
    }
}

/// A `READ` response carrying `data`.
pub open spec fn read_response_body(data: Seq<u8>) -> Seq<u8> {
    le16(17) + seq![80u8, 0u8] + le32(length32(data.len())) + le32(0) + le32(0) + data
}

/// A `READ` response carrying `data`.
pub fn read_response(data: &[u8]) -> (body: Vec<u8>)
    ensures
        body@ == read_response_body(data@),
{
    let mut out: Vec<u8> = Vec::new();
    push_u16(&mut out, 17);
    out.push(HEADER as u8 + 16);
    out.push(0);
    assert(out@ =~= le16(17) + seq![80u8, 0u8]);
    push_u32(&mut out, to_length32(data.len()));
    push_u32(&mut out, 0);
    push_u32(&mut out, 0);
    push_bytes(&mut out, data);
    out
}

/// The data a read response carries.
pub open spec fn data_in(body: Seq<u8>) -> Result<Seq<u8>, Fault> {
    let offset: u16 = if body.len() > 2 {
        body[2] as u16
    } else {
        0
    };
    region_of(body, offset, u32_at(body, 4))
}

/// The data a read response carries.
pub fn read_data(body: &[u8]) -> (data: Result<Vec<u8>, TransportError>)
    ensures
        agrees(data, data_in(body@)),
{
    let offset: u16 = if body.len() > 2 {
        body[2] as u16
    } else {
        0
    };
    match wide_region(body, offset, get_u32(body, 4)) {
        Ok(data) => Ok(slice_to_vec(data)),
        Err(error) => Err(error),
    }
}

/// A `CLOSE` request for `id`.
pub open spec fn close_request_body(id: Seq<u8>) -> Seq<u8> {
    le16(24) + le16(0) + le32(0) + id
}

/// A `CLOSE` request for `id`.
pub fn close_request(id: FileId) -> (body: Vec<u8>)
    ensures
        body@ == close_request_body(id@),
{
    let mut out: Vec<u8> = Vec::new();
    push_u16(&mut out, 24);
    push_u16(&mut out, 0);
    push_u32(&mut out, 0);
    push_bytes(&mut out, &id.0);
    assert(Seq::<u8>::empty() + le16(24) =~= le16(24));
    out
}

/// The file id a close names.
pub fn close_id(body: &[u8]) -> (id: Result<FileId, TransportError>)
    ensures
        agrees(id, id_at(body@, 8)),
{
    FileId::read(body, 8)
}

/// A `CLOSE` response.
pub open spec fn close_response_body() -> Seq<u8> {
    le16(60) + zeros(58)
}

/// A `CLOSE` response.
pub fn close_response() -> (body: Vec<u8>)
    ensures
        body@ == close_response_body(),
{
    let mut out: Vec<u8> = Vec::new();
    push_u16(&mut out, 60);
    push_zeros(&mut out, 58);
    assert(Seq::<u8>::empty() + le16(60) =~= le16(60));
    out
}

/// The token read from a session setup is the token it was made with, where
/// the token is short enough to be counted.
pub proof fn law_session_token_reads_back(is_response: bool, token: Seq<u8>)
    requires
        token.len() <= 0xFFFF,
    ensures
        token_in(session_setup_body(is_response, token)) == Ok::<Seq<u8>, Fault>(token),
        session_setup_body(is_response, token).len() <= 24 + token.len(),
{
    let body = session_setup_body(is_response, token);
    let length = length16(token.len());
    if is_response {
        assert(body.subrange(0, 2) =~= le16(9));
        law_u16_reads_back(body, 0, 9);
        assert(body.subrange(4, 6) =~= le16(72));
        law_u16_reads_back(body, 4, 72);
        assert(body.subrange(6, 8) =~= le16(length));
        law_u16_reads_back(body, 6, length);
        assert(body.subrange(8, 8 + token.len() as int) =~= token);
    } else {
        assert(body.subrange(0, 2) =~= le16(25));
        law_u16_reads_back(body, 0, 25);
        assert(body.subrange(12, 14) =~= le16(88));
        law_u16_reads_back(body, 12, 88);
        assert(body.subrange(14, 16) =~= le16(length));
        law_u16_reads_back(body, 14, length);
        assert(body.subrange(24, 24 + token.len() as int) =~= token);
    }
    if token.len() == 0 {
        assert(token =~= Seq::empty());
    }
}

/// The path read from a tree connect is the path it was made with, where the
/// path is short enough to be counted.
pub proof fn law_tree_connect_reads_back(path: Seq<char>)
    requires
        utf16(path).len() <= 0xFFFF,
    ensures
        path_in(tree_connect_request_body(path)) == Ok::<Seq<char>, Fault>(path),
        tree_connect_request_body(path).len() == 8 + utf16(path).len(),
{
    let body = tree_connect_request_body(path);
    let name = utf16(path);
    law_utf16_reads_back(path);
    assert(body.subrange(4, 6) =~= le16(72));
    law_u16_reads_back(body, 4, 72);
    assert(body.subrange(6, 8) =~= le16(length16(name.len())));
    law_u16_reads_back(body, 6, length16(name.len()));
    if name.len() == 0 {
        assert(name =~= Seq::empty());
    } else {
        assert(body.subrange(8, 8 + name.len() as int) =~= name);
    }
}

/// Pieces of the sizes of a create request stand at its offsets.
proof fn lemma_create_layout(
    before: Seq<u8>,
    disposition: Seq<u8>,
    options: Seq<u8>,
    offset: Seq<u8>,
    length: Seq<u8>,
    contexts: Seq<u8>,
    context_length: Seq<u8>,
    name: Seq<u8>,
)
    requires
        before.len() == 36,
        disposition.len() == 4,
        options.len() == 4,
        offset.len() == 2,
        length.len() == 2,
        contexts.len() == 4,
        context_length.len() == 4,
    ensures
        ({
            let body = before + disposition + options + offset + length + contexts + context_length
                + name;
            &&& body.len() == 56 + name.len()
            &&& body.subrange(36, 40) == disposition
            &&& body.subrange(40, 44) == options
            &&& body.subrange(44, 46) == offset
            &&& body.subrange(46, 48) == length
            &&& body.subrange(56, 56 + name.len() as int) == name
        }),
{
    let body = before + disposition + options + offset + length + contexts + context_length + name;
    assert(body.subrange(36, 40) =~= disposition);
    assert(body.subrange(40, 44) =~= options);
    assert(body.subrange(44, 46) =~= offset);
    assert(body.subrange(46, 48) =~= length);
    assert(body.subrange(56, 56 + name.len() as int) =~= name);
}

proof fn lemma_create_fields(body: Seq<u8>, name: Seq<char>, disposition: u32, options: u32)
    requires
        utf16(name).len() <= 0xFFFF,
        body.len() == 56 + utf16(name).len(),
        body.subrange(36, 40) == le32(disposition),
        body.subrange(40, 44) == le32(options),
        body.subrange(44, 46) == le16(120),
        body.subrange(46, 48) == le16(length16(utf16(name).len())),
        body.subrange(56, 56 + utf16(name).len() as int) == utf16(name),
    ensures
        create_fields_in(body) == Ok::<(Seq<char>, u32, u32), Fault>((name, disposition, options)),
{
    law_u32_reads_back(body, 36, disposition);
    law_u32_reads_back(body, 40, options);
    law_u16_reads_back(body, 44, 120);
    law_u16_reads_back(body, 46, length16(utf16(name).len()));
    law_utf16_reads_back(name);
    if utf16(name).len() == 0 {
        assert(utf16(name) =~= Seq::empty());
    }
}

/// The fields read from a create request are those it was made with, where the
/// name is short enough to be counted.
#[verifier::rlimit(50)]
pub proof fn law_create_request_reads_back(name: Seq<char>, disposition: u32, options: u32)
    requires
        utf16(name).len() <= 0xFFFF,
    ensures
        create_fields_in(create_request_body(name, disposition, options)) == Ok::<
            (Seq<char>, u32, u32),
            Fault,
        >((name, disposition, options)),
        create_request_body(name, disposition, options).len() == 56 + utf16(name).len(),
{
    let before = le16(57) + zeros(2) + le32(2) + le64(0) + le64(0) + le32(0x001F_01FF) + le32(
        0x0000_0080,
    ) + le32(7);
    assert(before.len() == 36);
    let length = le16(length16(utf16(name).len()));
    lemma_create_layout(
        before,
        le32(disposition),
        le32(options),
        le16(120),
        length,
        le32(0),
        le32(0),
        utf16(name),
    );
    lemma_create_fields(
        create_request_body(name, disposition, options),
        name,
        disposition,
        options,
    );
}

/// The id and the length read from a create response are those it was made
/// with.
pub proof fn law_create_response_reads_back(id: Seq<u8>, end_of_file: u64)
    requires
        id.len() == 16,
    ensures
        created_in(create_response_body(id, end_of_file)) == Ok::<(Seq<u8>, u64), Fault>(
            (id, end_of_file),
        ),
        create_response_body(id, end_of_file).len() == 88,
{
    let body = create_response_body(id, end_of_file);
    let before = le16(89) + zeros(2) + le32(1) + zeros(32) + le64(end_of_file);
    let after = le32(0x0000_0080) + le32(0) + id + le32(0) + le32(0);
    assert(before.len() == 48 && after.len() == 32);
    lemma_middle(before, le64(end_of_file), after);
    assert(body =~= before + le64(end_of_file) + after);
    law_u64_reads_back(body, 48, end_of_file);
    assert(body.subrange(64, 80) =~= id);
}

proof fn lemma_middle(before: Seq<u8>, field: Seq<u8>, after: Seq<u8>)
    ensures
        (before + field + after).subrange(
            before.len() as int,
            (before.len() + field.len()) as int,
        ) == field,
{
    assert((before + field + after).subrange(
        before.len() as int,
        (before.len() + field.len()) as int,
    ) =~= field);
}

/// Pieces of the sizes of a read or write request stand at its offsets.
proof fn lemma_transfer_layout(
    size: Seq<u8>,
    data_offset: Seq<u8>,
    length: Seq<u8>,
    offset: Seq<u8>,
    id: Seq<u8>,
    a: Seq<u8>,
    b: Seq<u8>,
    c: Seq<u8>,
    d: Seq<u8>,
    e: Seq<u8>,
    data: Seq<u8>,
)
    requires
        size.len() == 2,
        data_offset.len() == 2,
        length.len() == 4,
        offset.len() == 8,
        id.len() == 16,
        a.len() + b.len() + c.len() + d.len() + e.len() == 16,
    ensures
        ({
            let fixed = size + data_offset + length + offset + id + a + b + c + d + e;
            let body = fixed + data;
            &&& fixed.len() == 48
            &&& fixed.subrange(4, 8) == length
            &&& fixed.subrange(8, 16) == offset
            &&& fixed.subrange(16, 32) == id
            &&& body.len() == 48 + data.len()
            &&& body.subrange(2, 4) == data_offset
            &&& body.subrange(4, 8) == length
            &&& body.subrange(8, 16) == offset
            &&& body.subrange(16, 32) == id
            &&& body.subrange(48, 48 + data.len() as int) == data
        }),
{
    let fixed = size + data_offset + length + offset + id + a + b + c + d + e;
    let body = fixed + data;
    assert(fixed.subrange(2, 4) =~= data_offset);
    assert(fixed.subrange(4, 8) =~= length);
    assert(fixed.subrange(8, 16) =~= offset);
    assert(fixed.subrange(16, 32) =~= id);
    assert(body.subrange(2, 4) =~= fixed.subrange(2, 4));
    assert(body.subrange(4, 8) =~= fixed.subrange(4, 8));
    assert(body.subrange(8, 16) =~= fixed.subrange(8, 16));
    assert(body.subrange(16, 32) =~= fixed.subrange(16, 32));
    assert(body.subrange(48, 48 + data.len() as int) =~= data);
}

proof fn lemma_write_fields(body: Seq<u8>, id: Seq<u8>, offset: u64, data: Seq<u8>)
    requires
        data.len() <= u32::MAX,
        body.len() == 48 + data.len(),
        body.subrange(2, 4) == le16(112),
        body.subrange(4, 8) == le32(data.len() as u32),
        body.subrange(8, 16) == le64(offset),
        body.subrange(16, 32) == id,
        body.subrange(48, 48 + data.len() as int) == data,
    ensures
        write_fields_in(body) == Ok::<(Seq<u8>, u64, Seq<u8>), Fault>((id, offset, data)),
{
    law_u16_reads_back(body, 2, 112);
    law_u32_reads_back(body, 4, data.len() as u32);
    law_u64_reads_back(body, 8, offset);
    if data.len() == 0 {
        assert(data =~= Seq::empty());
    }
}

proof fn lemma_write_pieces(
    size: Seq<u8>,
    id: Seq<u8>,
    offset: u64,
    none32: Seq<u8>,
    none16: Seq<u8>,
    data: Seq<u8>,
)
    requires
        size.len() == 2,
        id.len() == 16,
        none32.len() == 4,
        none16.len() == 2,
        data.len() <= u32::MAX,
    ensures
        ({
            let body = size + le16(112) + le32(length32(data.len())) + le64(offset) + id + none32
                + none32 + none16 + none16 + none32 + data;
            &&& body.len() == 48 + data.len()
            &&& write_fields_in(body) == Ok::<(Seq<u8>, u64, Seq<u8>), Fault>((id, offset, data))
        }),
{
    let length = le32(length32(data.len()));
    let body = size + le16(112) + length + le64(offset) + id + none32 + none32 + none16 + none16
        + none32 + data;
    lemma_transfer_layout(
        size,
        le16(112),
        length,
        le64(offset),
        id,
        none32,
        none32,
        none16,
        none16,
        none32,
        data,
    );
    lemma_write_fields(body, id, offset, data);
}

/// The fields read from a write request are those it was made with, where the
/// data is short enough to be counted.
#[verifier::rlimit(50)]
pub proof fn law_write_request_reads_back(id: Seq<u8>, offset: u64, data: Seq<u8>)
    requires
        id.len() == 16,
        data.len() <= u32::MAX,
    ensures
        write_fields_in(write_request_body(id, offset, data)) == Ok::<
            (Seq<u8>, u64, Seq<u8>),
            Fault,
        >((id, offset, data)),
        write_request_body(id, offset, data).len() == 48 + data.len(),
{
    lemma_write_pieces(le16(49), id, offset, le32(0), le16(0), data);
}

/// The count read from a write response is the count it was made with.
pub proof fn law_write_response_reads_back(count: u32)
    ensures
        u32_at(write_response_body(count), 4) == count,
        write_response_body(count).len() == 16,
{
    let body = write_response_body(count);
    assert(body.subrange(4, 8) =~= le32(count));
    law_u32_reads_back(body, 4, count);
}

proof fn lemma_read_pieces(
    size: Seq<u8>,
    padding: Seq<u8>,
    id: Seq<u8>,
    offset: u64,
    length: u32,
    none32: Seq<u8>,
    none16: Seq<u8>,
)
    requires
        size.len() == 2,
        padding.len() == 2,
        id.len() == 16,
        none32.len() == 4,
        none16.len() == 2,
    ensures
        read_fields_in(
            size + padding + le32(length) + le64(offset) + id + none32 + none32 + none32 + none16
                + none16,
        ) == Ok::<(Seq<u8>, u64, u32), Fault>((id, offset, length)),
{
    let body = size + padding + le32(length) + le64(offset) + id + none32 + none32 + none32
        + none16 + none16;
    lemma_transfer_layout(
        size,
        padding,
        le32(length),
        le64(offset),
        id,
        none32,
        none32,
        none32,
        none16,
        none16,
        Seq::empty(),
    );
    law_u32_reads_back(body, 4, length);
    law_u64_reads_back(body, 8, offset);
}

/// The fields read from a read request are those it was made with.
#[verifier::rlimit(50)]
pub proof fn law_read_request_reads_back(id: Seq<u8>, offset: u64, length: u32)
    requires
        id.len() == 16,
    ensures
        read_fields_in(read_request_body(id, offset, length)) == Ok::<(Seq<u8>, u64, u32), Fault>(
            (id, offset, length),
        ),
        read_request_body(id, offset, length).len() == 48,
{
    lemma_read_pieces(le16(49), zeros(2), id, offset, length, le32(0), le16(0));
}

/// The data read from a read response is the data it was made with, where it
/// is short enough to be counted.
pub proof fn law_read_response_reads_back(data: Seq<u8>)
    requires
        data.len() <= u32::MAX,
    ensures
        data_in(read_response_body(data)) == Ok::<Seq<u8>, Fault>(data),
        read_response_body(data).len() == 16 + data.len(),
{
    let body = read_response_body(data);
    assert(body[2] == 80);
    assert(body.subrange(4, 8) =~= le32(length32(data.len())));
    law_u32_reads_back(body, 4, length32(data.len()));
    if data.len() == 0 {
        assert(data =~= Seq::empty());
    } else {
        assert(body.subrange(16, 16 + data.len() as int) =~= data);
    }
}

/// The file id read from a close request is the id it was made with.
pub proof fn law_close_request_reads_back(id: Seq<u8>)
    requires
        id.len() == 16,
    ensures
        id_at(close_request_body(id), 8) == Ok::<Seq<u8>, Fault>(id),
        close_request_body(id).len() == 24,
{
    assert(close_request_body(id).subrange(8, 24) =~= id);
}

/// Every field of a request is read from its place: a create's disposition and
/// options from bytes 36 and 40 and its name from where bytes 44 to 47 say, a
/// read's and a write's length, offset and id from bytes 4, 8 and 16, and a
/// write's data from where bytes 2 to 7 say.
pub proof fn law_requests_are_read_from_their_places(body: Seq<u8>)
    requires
        body.len() >= 48,
    ensures
        create_fields_in(body) matches Ok((name, disposition, options)) ==> {
            let offset = body[44] + 0x100 * body[45];
            let length = body[46] + 0x100 * body[47];
            &&& le32(disposition) == body.subrange(36, 40)
            &&& le32(options) == body.subrange(40, 44)
            &&& name == if offset == 0 || length == 0 {
                Seq::empty()
            } else {
                from_utf16(body.subrange(offset - 64, offset - 64 + length))
            }
        },
        write_fields_in(body) matches Ok((id, offset, data)) ==> {
            let begin = body[2] + 0x100 * body[3];
            &&& id == body.subrange(16, 32)
            &&& le64(offset) == body.subrange(8, 16)
            &&& data.len() > 0 ==> le32(data.len() as u32) == body.subrange(4, 8) && data
                == body.subrange(begin - 64, begin - 64 + data.len())
            &&& data.len() == 0 ==> begin == 0 || body.subrange(4, 8) == seq![0u8, 0, 0, 0]
        },
        read_fields_in(body) matches Ok((id, offset, length)) && id == body.subrange(16, 32)
            && le64(offset) == body.subrange(8, 16) && le32(length) == body.subrange(4, 8),
        id_at(body, 8) == Ok::<Seq<u8>, Fault>(body.subrange(8, 24)),
{
    lemma_read_again32(body, 36);
    lemma_read_again32(body, 40);
    lemma_read_again32(body, 4);
    lemma_read_again64(body, 8);
    let none = Seq::<u8>::empty();
    assert(from_utf16(none) =~= Seq::<char>::empty());
    if u32_at(body, 4) == 0 {
        assert(body.subrange(4, 8) =~= seq![0u8, 0, 0, 0]);
    }
}

proof fn lemma_bytes_of(word: u32, a: u8, b: u8, c: u8, d: u8)
    requires
        word == a + 0x100 * b + 0x1_0000 * c + 0x100_0000 * d,
    ensures
        le32(word)[0] == a,
        le32(word)[1] == b,
        le32(word)[2] == c,
        le32(word)[3] == d,
{
    assert(word % 256 == a);
    assert(word / 256 == b + 0x100 * c + 0x1_0000 * d);
    assert(word / 0x1_0000 == c + 0x100 * d);
    assert(word / 0x100_0000 == d);
}

proof fn lemma_read_again32(bytes: Seq<u8>, at: int)
    requires
        0 <= at,
        at + 4 <= bytes.len(),
    ensures
        le32(u32_at(bytes, at)) == bytes.subrange(at, at + 4),
{
    let word = u32_at(bytes, at);
    lemma_bytes_of(word, bytes[at], bytes[at + 1], bytes[at + 2], bytes[at + 3]);
    assert(le32(word) =~= bytes.subrange(at, at + 4));
}

proof fn lemma_read_again64(bytes: Seq<u8>, at: int)
    requires
        0 <= at,
        at + 8 <= bytes.len(),
    ensures
        le64(u64_at(bytes, at)) == bytes.subrange(at, at + 8),
{
    let low = u32_at(bytes, at);
    let high = u32_at(bytes, at + 4);
    lemma_read_again32(bytes, at);
    lemma_read_again32(bytes, at + 4);
    let value = u64_at(bytes, at);
    assert(value == low + 0x1_0000_0000 * high);
    assert(value % 0x1_0000_0000 == low && value / 0x1_0000_0000 == high);
    assert(le64(value) =~= bytes.subrange(at, at + 4) + bytes.subrange(at + 4, at + 8));
    assert(bytes.subrange(at, at + 8) =~= bytes.subrange(at, at + 4) + bytes.subrange(
        at + 4,
        at + 8,
    ));
}

/// Every field of an answer is read from its place: what a create hands out from
/// bytes 64 to 79 with the length from byte 48, what a read carries from where
/// byte 2 and bytes 4 to 7 say. An answer too short for its id is refused.
pub proof fn law_answers_are_read_from_their_places(body: Seq<u8>)
    ensures
        match created_in(body) {
            Ok((id, length)) => {
                &&& body.len() >= 80
                &&& id == body.subrange(64, 80)
                &&& le64(length) == body.subrange(48, 56)
            },
            Err(fault) => body.len() < 80 && !fault.retryable,
        },
        data_in(body) matches Ok(data) ==> data.len() > 0 ==> {
            &&& body.len() >= 8
            &&& le32(data.len() as u32) == body.subrange(4, 8)
            &&& data == body.subrange(body[2] - 64, body[2] - 64 + data.len())
        },
{
    if body.len() >= 80 {
        lemma_read_again64(body, 48);
    }
    if body.len() >= 8 {
        lemma_read_again32(body, 4);
    }
}

/// A path is read from where bytes 4 to 7 of a tree connect say, and a token from
/// where a session setup says: bytes 4 to 7 of an answer, 12 to 15 of a request.
pub proof fn law_paths_and_tokens_are_read_from_their_places(body: Seq<u8>)
    requires
        body.len() >= 16,
    ensures
        path_in(body) matches Ok(path) ==> {
            let offset = body[4] + 0x100 * body[5];
            let length = body[6] + 0x100 * body[7];
            path == if offset == 0 || length == 0 {
                Seq::empty()
            } else {
                from_utf16(body.subrange(offset - 64, offset - 64 + length))
            }
        },
        token_in(body) matches Ok(token) ==> {
            let at: int = if body[0] == 9 && body[1] == 0 {
                4
            } else {
                12
            };
            let offset = body[at] + 0x100 * body[at + 1];
            let length = body[at + 2] + 0x100 * body[at + 3];
            token == if offset == 0 || length == 0 {
                Seq::empty()
            } else {
                body.subrange(offset - 64, offset - 64 + length)
            }
        },
{
    let none = Seq::<u8>::empty();
    assert(from_utf16(none) =~= Seq::<char>::empty());
}

/// A file id is its seed twice, low byte first.
pub proof fn law_a_file_id_is_its_seed_twice(seed: u64)
    ensures
        file_id(seed).len() == 16,
        forall|i: int| 0 <= i < 8 ==> #[trigger] file_id(seed)[i] == file_id(seed)[i + 8],
        u64_at(file_id(seed), 0) == seed,
{
    let id = file_id(seed);
    assert(id.subrange(0, 8) =~= le64(seed));
    law_u64_reads_back(id, 0, seed);
}

/// A length is counted as it is, as far as its field goes.
pub proof fn law_a_length_is_counted_as_far_as_it_goes(length: nat)
    ensures
        length <= 0xFFFF ==> length16(length) == length,
        length > 0xFFFF ==> length16(length) == 0xFFFF,
        length <= 0xFFFF_FFFF ==> length32(length) == length,
        length > 0xFFFF_FFFF ==> length32(length) == 0xFFFF_FFFF,
{
}

proof fn lemma_opening(before: Seq<u8>, rest: Seq<u8>, body: Seq<u8>)
    requires
        body == before + rest,
    ensures
        body.take(before.len() as int) == before,
{
    assert(body.take(before.len() as int) =~= before);
}

proof fn lemma_regrouped(
    before: Seq<u8>,
    a: Seq<u8>,
    b: Seq<u8>,
    c: Seq<u8>,
    d: Seq<u8>,
    e: Seq<u8>,
    f: Seq<u8>,
    g: Seq<u8>,
)
    ensures
        before + a + b + c + d + e + f + g == before + (a + b + c + d + e + f + g),
{
    assert(before + a + b + c + d + e + f + g =~= before + (a + b + c + d + e + f + g));
}

/// Whatever is opened, a create asks for it in the same way: with all access, as
/// an ordinary file, shared for reading, writing and deleting.
#[verifier::rlimit(50)]
pub proof fn law_every_create_asks_for_the_same_access(
    name: Seq<char>,
    disposition: u32,
    options: u32,
)
    ensures
        create_request_body(name, disposition, options).take(36) == seq![
            57u8, 0, 0, 0, 2, 0, 0, 0, 0, 0, 0, 0, 0, 0, 0, 0, 0, 0, 0, 0, 0, 0, 0, 0, 0xFF, 0x01,
            0x1F, 0x00, 0x80, 0, 0, 0, 7, 0, 0, 0,
        ],
{
    let before = le16(57) + zeros(2) + le32(2) + le64(0) + le64(0) + le32(0x001F_01FF) + le32(
        0x0000_0080,
    ) + le32(7);
    let length = le16(length16(utf16(name).len()));
    lemma_regrouped(
        before,
        le32(disposition),
        le32(options),
        le16(120),
        length,
        le32(0),
        le32(0),
        utf16(name),
    );
    lemma_opening(
        before,
        le32(disposition) + le32(options) + le16(120) + length + le32(0) + le32(0) + utf16(name),
        create_request_body(name, disposition, options),
    );
    assert(before.len() == 36);
    lemma_constants();
    assert(before =~= seq![
        57u8, 0, 0, 0, 2, 0, 0, 0, 0, 0, 0, 0, 0, 0, 0, 0, 0, 0, 0, 0, 0, 0, 0, 0, 0xFF, 0x01, 0x1F,
        0x00, 0x80, 0, 0, 0, 7, 0, 0, 0,
    ]);
}

proof fn lemma_constants()
    ensures
        le16(57) == seq![57u8, 0],
        zeros(2) == seq![0u8, 0],
        le32(2) == seq![2u8, 0, 0, 0],
        le64(0) == seq![0u8, 0, 0, 0, 0, 0, 0, 0],
        le32(0x001F_01FF) == seq![0xFFu8, 0x01, 0x1F, 0],
        le32(0x0000_0080) == seq![0x80u8, 0, 0, 0],
        le32(7) == seq![7u8, 0, 0, 0],
{
    assert(le16(57) =~= seq![57u8, 0]);
    assert(zeros(2) =~= seq![0u8, 0]);
    assert(le32(2) =~= seq![2u8, 0, 0, 0]);
    assert(le64(0) =~= seq![0u8, 0, 0, 0, 0, 0, 0, 0]);
    assert(le32(0x001F_01FF) =~= seq![0xFFu8, 0x01, 0x1F, 0]);
    assert(le32(0x0000_0080) =~= seq![0x80u8, 0, 0, 0]);
    assert(le32(7) =~= seq![7u8, 0, 0, 0]);
}

/// What a message carries is refused only where it is not there: an id exactly
/// where it would end past the message, and what stands out of line exactly where
/// it has a place and a length and would begin in the header or end past the
/// message.
pub proof fn law_only_what_is_not_there_is_refused(body: Seq<u8>, at: int)
    requires
        0 <= at,
    ensures
        id_at(body, at) is Ok <==> at + 16 <= body.len(),
        id_at(body, at) matches Ok(id) ==> id == body.subrange(at, at + 16),
        read_fields_in(body) is Ok <==> body.len() >= 32,
        write_fields_in(body) is Ok <==> body.len() >= 32 && ({
            let offset = u16_at(body, 2);
            let length = u32_at(body, 4);
            offset == 0 || length == 0 || 64 <= offset && offset - 64 + length <= body.len()
        }),
        create_fields_in(body) is Ok <==> ({
            let offset = u16_at(body, 44);
            let length = u16_at(body, 46);
            offset == 0 || length == 0 || 64 <= offset && offset - 64 + length <= body.len()
        }),
        path_in(body) is Ok <==> ({
            let offset = u16_at(body, 4);
            let length = u16_at(body, 6);
            offset == 0 || length == 0 || 64 <= offset && offset - 64 + length <= body.len()
        }),
        token_in(body) is Ok <==> ({
            let place: int = if u16_at(body, 0) == 9 {
                4
            } else {
                12
            };
            let offset = u16_at(body, place);
            let length = u16_at(body, place + 2);
            offset == 0 || length == 0 || 64 <= offset && offset - 64 + length <= body.len()
        }),
        data_in(body) is Ok <==> ({
            let length = u32_at(body, 4);
            body.len() < 3 || body[2] == 0 || length == 0 || 64 <= body[2] && body[2] - 64 + length
                <= body.len()
        }),
{
}

} // verus!
