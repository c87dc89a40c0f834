//! The `QUERY_DIRECTORY` command and the status codes a caller reads. A
//! directory entry is carried in a simplified shape — a next-entry offset and a
//! counted UTF-16 name — since this crate's own server is the only reader of
//! the listing; the many fields of a real `FileIdBothDirectoryInformation` a
//! whole-file drop box does not need.

use vstd::prelude::*;

use crate::error::{agrees, permanent_fault, protocol_error, Fault, TransportError};
use crate::message::{id_at, length16, length32, to_length16, to_length32, FileId};
use crate::utf16;
use crate::utf16::{from_utf16, law_utf16_reads_back, utf16};
use crate::wire::{
    get_u16, get_u32, law_u16_reads_back, law_u32_reads_back, le16, le32, push_bytes, push_u16,
    push_u32, region_of, u16_at, u32_at, wide_region, HEADER, STATUS_BAD_NETWORK_NAME,
    STATUS_END_OF_FILE, STATUS_LOGON_FAILURE, STATUS_NO_MORE_FILES, STATUS_OBJECT_NAME_NOT_FOUND,
    STATUS_SUCCESS,
};

verus! {

/// A `QUERY_DIRECTORY` request over `id`, matching `pattern`.
pub open spec fn request_body(id: Seq<u8>, pattern: Seq<char>) -> Seq<u8> {
    le16(33) + seq![37u8, 0u8] + le32(0) + id + le16(96) + le16(length16(utf16(pattern).len()))
        + le32(0x0001_0000) + utf16(pattern)
}

/// A `QUERY_DIRECTORY` request over `id`, matching `pattern`.
pub fn request(id: FileId, pattern: &str) -> (body: Vec<u8>)
    ensures
        body@ == request_body(id@, pattern@),
{
    let name = utf16::encode(pattern);
    let mut out: Vec<u8> = Vec::new();
    push_u16(&mut out, 33);
    out.push(37);
    out.push(0);
    assert(out@ =~= le16(33) + seq![37u8, 0u8]);
    push_u32(&mut out, 0);
    push_bytes(&mut out, &id.0);
    push_u16(&mut out, HEADER as u16 + 32);
    push_u16(&mut out, to_length16(name.len()));
    push_u32(&mut out, 0x0001_0000);
    push_bytes(&mut out, &name);
    out
}

/// The file id a query directory names.
pub fn id(body: &[u8]) -> (id: Result<FileId, TransportError>)
    ensures
        agrees(id, id_at(body@, 8)),
{
    FileId::read(body, 8)
}

/// One entry of a listing: how far on the next entry is, none after the last,
/// then the name's length in bytes and its UTF-16.
pub open spec fn entry(name: Seq<char>, last: bool) -> Seq<u8> {
    let length = utf16(name).len();
    let next: u32 = if last || 8 + length > u32::MAX {
        0
    } else {
        (8 + length) as u32
    };
    let counted: u32 = if length > u32::MAX {
        0xFFFF
    } else {
        length as u32
    };
    le32(next) + le32(counted) + utf16(name)
}

/// The entries of a listing, one after the other.
pub open spec fn entries(names: Seq<Seq<char>>) -> Seq<u8>
    decreases names.len(),
{
    if names.len() == 0 {
        Seq::empty()
    } else {
        entry(names[0], names.len() == 1) + entries(names.drop_first())
    }
}

/// A `QUERY_DIRECTORY` response listing `names`.
pub open spec fn response_body(names: Seq<Seq<char>>) -> Seq<u8> {
    le16(9) + le16(72) + le32(length32(entries(names).len())) + entries(names)
}

fn push_entry(buffer: &mut Vec<u8>, name: &str, last: bool)
    ensures
        final(buffer)@ == old(buffer)@ + entry(name@, last),
{
    let encoded = utf16::encode(name);
    let next: u32 = if last || encoded.len() > 0xFFFF_FFFF - 8 {
        0
    } else {
        8 + encoded.len() as u32
    };
    let counted: u32 = if encoded.len() > 0xFFFF_FFFF {
        0xFFFF
    } else {
        encoded.len() as u32
    };
    push_u32(buffer, next);
    push_u32(buffer, counted);
    push_bytes(buffer, &encoded);
    assert(buffer@ =~= old(buffer)@ + entry(name@, last));
}

/// A `QUERY_DIRECTORY` response listing `names`, each entry a next-entry offset
/// and a counted UTF-16 name.
pub fn response(names: &[String]) -> (body: Vec<u8>)
    ensures
        body@ == response_body(names.deep_view()),
{
    let ghost model = names.deep_view();
    let mut buffer: Vec<u8> = Vec::new();
    let mut index: usize = 0;
    assert(model.skip(0) =~= model);
    assert(buffer@ + entries(model) =~= entries(model));
    while index < names.len()
        invariant
            index <= names.len(),
            model == names.deep_view(),
            buffer@ + entries(model.skip(index as int)) == entries(model),
        decreases names.len() - index,
    {
        let ghost before = buffer@;
        let ghost left = model.skip(index as int);
        push_entry(&mut buffer, &names[index], index == names.len() - 1);
        proof {
            assert(left[0] == names[index as int]@);
            assert(left.drop_first() =~= model.skip(index + 1));
            assert(buffer@ + entries(model.skip(index + 1)) =~= before + entries(left));
        }
        index = index + 1;
    }
    assert(model.skip(names.len() as int) =~= Seq::empty());
    assert(buffer@ =~= entries(model));
    let mut out: Vec<u8> = Vec::new();
    push_u16(&mut out, 9);
    push_u16(&mut out, HEADER as u16 + 8);
    push_u32(&mut out, to_length32(buffer.len()));
    push_bytes(&mut out, &buffer);
    assert(Seq::<u8>::empty() + le16(9) =~= le16(9));
    out
}

/// The names in the entries of `buffer` from the one at `at` on.
pub open spec fn listed_from(buffer: Seq<u8>, at: int) -> Result<Seq<Seq<char>>, Fault>
    decreases
        (if at <= buffer.len() {
            buffer.len() - at + 1
        } else {
            0
        }),
{
    if at + 8 > buffer.len() {
        Err(permanent_fault("a directory entry past the buffer"@))
    } else {
        let next = u32_at(buffer, at);
        let end = at + 8 + u32_at(buffer, at + 4);
        if end > buffer.len() {
            Err(permanent_fault("a directory entry past the buffer"@))
        } else {
            let name = from_utf16(buffer.subrange(at + 8, end));
            if next == 0 {
                Ok(seq![name])
            } else {
                preceded(seq![name], listed_from(buffer, at + next))
            }
        }
    }
}

/// The names `listed`, if they could be read, after `first`.
pub open spec fn preceded(
    first: Seq<Seq<char>>,
    listed: Result<Seq<Seq<char>>, Fault>,
) -> Result<Seq<Seq<char>>, Fault> {
    match listed {
        Ok(names) => Ok(first + names),
        Err(fault) => Err(fault),
    }
}

/// The names a query directory response lists: none where its buffer is empty.
pub open spec fn names_in(body: Seq<u8>) -> Result<Seq<Seq<char>>, Fault> {
    match region_of(body, u16_at(body, 2), u32_at(body, 4)) {
        Ok(buffer) => if buffer.len() == 0 {
            Ok(Seq::empty())
        } else {
            listed_from(buffer, 0)
        },
        Err(fault) => Err(fault),
    }
}

/// The names a query directory response lists.
pub fn names(body: &[u8]) -> (names: Result<Vec<String>, TransportError>)
    ensures
        match (names, names_in(body@)) {
            (Ok(listed), Ok(model)) => listed.deep_view() == model,
            (Err(error), Err(fault)) => error@ == fault,
            _ => false,
        },
{
    let buffer = match wide_region(body, get_u16(body, 2), get_u32(body, 4)) {
        Ok(buffer) => buffer,
        Err(error) => return Err(error),
    };
    let mut listed: Vec<String> = Vec::new();
    if buffer.len() == 0 {
        assert(listed.deep_view() =~= Seq::empty());
        return Ok(listed);
    }
    let mut at: usize = 0;
    let ghost model = listed_from(buffer@, 0);
    assert(model == preceded(listed.deep_view(), model)) by {
        if let Ok(names) = model {
            assert(listed.deep_view() + names =~= names);
        }
    }
    while at <= buffer.len() && buffer.len() - at >= 8
        invariant
            model == names_in(body@),
            model == preceded(listed.deep_view(), listed_from(buffer@, at as int)),
        decreases buffer.len() - at,
    {
        let ghost before = listed.deep_view();
        let next = get_u32(buffer, at) as usize;
        let name_len = get_u32(buffer, at + 4) as usize;
        let start = at + 8;
        if buffer.len() - start < name_len {
            return Err(protocol_error("a directory entry past the buffer"));
        }
        let name = utf16::decode_lossy(&buffer[start..start + name_len]);
        let ghost text = name@;
        listed.push(name);
        assert(listed.deep_view() =~= before.push(text));
        if next == 0 {
            assert(before + seq![text] =~= before.push(text));
            return Ok(listed);
        }
        if next > buffer.len() - at {
            return Err(protocol_error("a directory entry past the buffer"));
        }
        proof {
            if let Ok(rest) = listed_from(buffer@, at + next) {
                assert(before + (seq![text] + rest) =~= listed.deep_view() + rest);
            }
        }
        at = at + next;
    }
    Err(protocol_error("a directory entry past the buffer"))
}

/// What a status is called in a message.
pub open spec fn name_of(status: u32) -> Seq<char> {
    if status == STATUS_SUCCESS {
        "success"@
    } else if status == STATUS_LOGON_FAILURE {
        "the logon failed"@
    } else if status == STATUS_BAD_NETWORK_NAME {
        "no such share"@
    } else if status == STATUS_OBJECT_NAME_NOT_FOUND {
        "no such file"@
    } else if status == STATUS_END_OF_FILE {
        "the end of the file"@
    } else if status == STATUS_NO_MORE_FILES {
        "no more files"@
    } else {
        "an error"@
    }
}

/// The status code of a status, named for a message.
pub fn status_name(status: u32) -> (name: &'static str)
    ensures
        name@ == name_of(status),
{
    if status == STATUS_SUCCESS {
        "success"
    } else if status == STATUS_LOGON_FAILURE {
        "the logon failed"
    } else if status == STATUS_BAD_NETWORK_NAME {
        "no such share"
    } else if status == STATUS_OBJECT_NAME_NOT_FOUND {
        "no such file"
    } else if status == STATUS_END_OF_FILE {
        "the end of the file"
    } else if status == STATUS_NO_MORE_FILES {
        "no more files"
    } else {
        "an error"
    }
}

proof fn lemma_entry_at(before: Seq<u8>, name: Seq<char>, last: bool, after: Seq<u8>)
    requires
        8 + utf16(name).len() <= u32::MAX,
    ensures
        ({
            let buffer = before + entry(name, last) + after;
            let at = before.len() as int;
            &&& u32_at(buffer, at) == (if last {
                0
            } else {
                8 + utf16(name).len()
            })
            &&& u32_at(buffer, at + 4) == utf16(name).len()
            &&& buffer.subrange(at + 8, at + 8 + utf16(name).len()) == utf16(name)
            &&& entry(name, last).len() == 8 + utf16(name).len()
        }),
{
    let buffer = before + entry(name, last) + after;
    let at = before.len() as int;
    let length = utf16(name).len();
    let next: u32 = if last {
        0
    } else {
        (8 + length) as u32
    };
    assert(buffer.subrange(at, at + 4) =~= le32(next));
    law_u32_reads_back(buffer, at, next);
    assert(buffer.subrange(at + 4, at + 8) =~= le32(length as u32));
    law_u32_reads_back(buffer, at + 4, length as u32);
    assert(buffer.subrange(at + 8, at + 8 + length) =~= utf16(name));
}

#[verifier::rlimit(50)]
proof fn lemma_entries_read_back(before: Seq<u8>, names: Seq<Seq<char>>)
    requires
        names.len() > 0,
        entries(names).len() <= u32::MAX,
    ensures
        listed_from(before + entries(names), before.len() as int) == Ok::<Seq<Seq<char>>, Fault>(
            names,
        ),
    decreases names.len(),
{
    let buffer = before + entries(names);
    let at = before.len() as int;
    let rest = names.drop_first();
    let last = names.len() == 1;
    let here = entry(names[0], last);
    assert(here.len() == 8 + utf16(names[0]).len());
    lemma_entry_at(before, names[0], last, entries(rest));
    assert(buffer =~= before + here + entries(rest));
    law_utf16_reads_back(names[0]);
    if last {
        assert(names =~= seq![names[0]]);
    } else {
        lemma_entries_read_back(before + here, rest);
        assert(seq![names[0]] + rest =~= names);
    }
}

/// The names read from a listing are the names it was made with, in their
/// order, where the listing is short enough for its length to be counted.
pub proof fn law_listing_reads_back(names: Seq<Seq<char>>)
    requires
        entries(names).len() <= u32::MAX,
    ensures
        names_in(response_body(names)) == Ok::<Seq<Seq<char>>, Fault>(names),
        response_body(names).len() == 8 + entries(names).len(),
{
    let body = response_body(names);
    let length = entries(names).len();
    assert(body.subrange(2, 4) =~= le16(72));
    law_u16_reads_back(body, 2, 72);
    assert(body.subrange(4, 8) =~= le32(length as u32));
    law_u32_reads_back(body, 4, length as u32);
    if names.len() > 0 {
        lemma_entries_read_back(Seq::empty(), names);
        assert(Seq::<u8>::empty() + entries(names) =~= entries(names));
        assert(entries(names).len() >= entry(names[0], names.len() == 1).len());
        assert(body.subrange(8, 8 + length as int) =~= entries(names));
    } else {
        assert(entries(names) =~= Seq::empty());
        assert(names =~= Seq::empty());
    }
}

/// The file id read from a query is the id it was made with.
pub proof fn law_query_reads_back(id: Seq<u8>, pattern: Seq<char>)
    requires
        id.len() == 16,
    ensures
        id_at(request_body(id, pattern), 8) == Ok::<Seq<u8>, Fault>(id),
        request_body(id, pattern).len() == 32 + utf16(pattern).len(),
{
    assert(request_body(id, pattern).subrange(8, 24) =~= id);
}

/// A listing is followed from entry to entry: each says in its first four bytes
/// how far on the next one is, none after the last, and in the next four how long
/// its name is, which stands right behind them. It is refused exactly where an
/// entry or its name would end past the buffer.
pub proof fn law_a_listing_is_followed_from_entry_to_entry(buffer: Seq<u8>, at: int)
    requires
        0 <= at,
    ensures
        at + 8 > buffer.len() ==> listed_from(buffer, at) is Err,
        at + 8 <= buffer.len() ==> {
            let next = buffer[at] + 0x100 * buffer[at + 1] + 0x1_0000 * buffer[at + 2]
                + 0x100_0000 * buffer[at + 3];
            let length = buffer[at + 4] + 0x100 * buffer[at + 5] + 0x1_0000 * buffer[at + 6]
                + 0x100_0000 * buffer[at + 7];
            let end = at + 8 + length;
            match listed_from(buffer, at) {
                Ok(names) => {
                    &&& end <= buffer.len()
                    &&& names.len() > 0
                    &&& names[0] == from_utf16(buffer.subrange(at + 8, end))
                    &&& if next == 0 {
                        names.len() == 1
                    } else {
                        listed_from(buffer, at + next) == Ok::<Seq<Seq<char>>, Fault>(names.skip(1))
                    }
                },
                Err(fault) => {
                    &&& !fault.retryable
                    &&& end > buffer.len() || next > 0 && listed_from(buffer, at + next) is Err
                },
            }
        },
    decreases
            (if at <= buffer.len() {
                buffer.len() - at + 1
            } else {
                0
            }),
{
    if at + 8 <= buffer.len() {
        let next = u32_at(buffer, at);
        let end = at + 8 + u32_at(buffer, at + 4);
        if next > 0 && end <= buffer.len() {
            law_a_listing_is_followed_from_entry_to_entry(buffer, at + next);
            if let Ok(rest) = listed_from(buffer, at + next) {
                let name = from_utf16(buffer.subrange(at + 8, end));
                assert((seq![name] + rest).skip(1) =~= rest);
            }
        }
    }
}

/// Every status has its name, and any other is just an error.
pub proof fn law_a_status_without_a_name_is_an_error(status: u32)
    ensures
        name_of(status) == match status {
            0u32 => "success"@,
            0xC000_006Du32 => "the logon failed"@,
            0xC000_00CCu32 => "no such share"@,
            0xC000_0034u32 => "no such file"@,
            0xC000_0011u32 => "the end of the file"@,
            0x8000_0006u32 => "no more files"@,
            _ => "an error"@,
        },
{
}

/// A query asks for the names that match its pattern, which stands where its
/// bytes 24 to 27 say.
pub proof fn law_a_query_carries_its_pattern(id: Seq<u8>, pattern: Seq<char>)
    requires
        id.len() == 16,
        utf16(pattern).len() <= 0xFFFF,
    ensures
        ({
            let body = request_body(id, pattern);
            &&& u16_at(body, 24) == 96
            &&& u16_at(body, 26) == utf16(pattern).len()
            &&& body.skip(32) == utf16(pattern)
        }),
{
    let body = request_body(id, pattern);
    let length = length16(utf16(pattern).len());
    assert(body.subrange(24, 26) =~= le16(96));
    law_u16_reads_back(body, 24, 96);
    assert(body.subrange(26, 28) =~= le16(length));
    law_u16_reads_back(body, 26, length);
    assert(body.skip(32) =~= utf16(pattern));
}

/// The names of a listing are read from the buffer that stands where bytes 2 to 7
/// of the answer say, from its first entry on; there are none where it is empty.
pub proof fn law_a_listing_is_read_from_its_buffer(body: Seq<u8>)
    ensures
        ({
            let offset = u16_at(body, 2);
            let length = u32_at(body, 4);
            if offset == 0 || length == 0 {
                names_in(body) matches Ok(names) && names.len() == 0
            } else if offset < 64 || offset - 64 + length > body.len() {
                names_in(body) is Err
            } else {
                names_in(body) == listed_from(
                    body.subrange(offset - 64, offset - 64 + length),
                    0,
                )
            }
        }),
{
}

} // verus!
