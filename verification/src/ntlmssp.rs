//! The NTLM messages as a session setup carries them: fixed fields at fixed
//! places, and names in security buffers, each a length, the room it has and
//! where in the message it stands.
//!
//! The client's Negotiate asks for UTF-16 names and NTLM. Its Authenticate names
//! the domain, the user and the workstation; the responses to the challenge and
//! the session key are the identity capability's, and are left empty. Of the
//! server's Challenge only the nonce is read here.

use vstd::prelude::*;

use crate::error::{agrees, permanent_fault, protocol_error, Fault, TransportError};
use crate::message::{length16, length32, to_length16, to_length32};
use crate::ntlm::{
    head, head_of, is_signed, lemma_head, message_type, signed, type_in, Identity, IdentityView,
    AUTHENTICATE, CHALLENGE, NEGOTIATE, NTLMSSP,
};
use crate::utf16;
use crate::utf16::{from_utf16, law_utf16_reads_back, utf16};
use crate::wire::{
    law_u16_reads_back, law_u32_reads_back, le16, le32, push_bytes, push_u16, push_u32,
    push_zeros, u16_at, u32_at, zeros,
};

verus! {

/// `NEGOTIATE_UNICODE`: names are in UTF-16.
pub const NEGOTIATE_UNICODE: u32 = 0x0000_0001;

/// `NEGOTIATE_NTLM`: the session is authenticated with NTLM.
pub const NEGOTIATE_NTLM: u32 = 0x0000_0200;

/// The flags a client asks for: UTF-16 names and NTLM.
pub const FLAGS: u32 = 0x0000_0201;

/// Where the names of an Authenticate begin.
pub const NAMES: u32 = 72;

/// A security buffer: the length of what it stands for, twice, and where that
/// begins.
pub open spec fn buffer(length: nat, offset: nat) -> Seq<u8> {
    le16(length16(length)) + le16(length16(length)) + le32(length32(offset))
}

/// The client's first message: its flags, no domain, no workstation, no
/// version.
pub open spec fn negotiation() -> Seq<u8> {
    head_of(NEGOTIATE) + le32(FLAGS) + zeros(24)
}

/// The fixed part of the client's second message, its names being `domain`,
/// `user` and `workstation` bytes long: both responses empty, the three names,
/// no session key, the flags, no version.
#[verifier::opaque]
pub open spec fn authentication_head(domain: nat, user: nat, workstation: nat) -> Seq<u8> {
    head_of(AUTHENTICATE) + buffer(0, NAMES as nat) + buffer(0, NAMES as nat) + buffer(
        domain,
        NAMES as nat,
    ) + buffer(user, NAMES as nat + domain) + buffer(workstation, NAMES as nat + domain + user)
        + buffer(0, NAMES as nat) + le32(FLAGS) + zeros(8)
}

/// The client's second message, naming `identity`.
pub open spec fn authentication(identity: IdentityView) -> Seq<u8> {
    let domain = utf16(identity.domain);
    let user = utf16(identity.user);
    let workstation = utf16(identity.workstation);
    authentication_head(domain.len(), user.len(), workstation.len()) + domain + user + workstation
}

/// The flags that a Negotiate asks for.
pub open spec fn flags_in(token: Seq<u8>) -> Result<u32, Fault> {
    match type_in(token) {
        Err(fault) => Err(fault),
        Ok(declared) => if declared != NEGOTIATE {
            Err(permanent_fault("not an NTLM negotiate"@))
        } else if token.len() < 32 {
            Err(permanent_fault("a negotiate cut short"@))
        } else {
            Ok(u32_at(token, 12))
        },
    }
}

/// The nonce that a Challenge carries.
pub open spec fn nonce_in(token: Seq<u8>) -> Result<Seq<u8>, Fault> {
    if is_signed(token) && token.len() < 12 {
        Err(permanent_fault("a challenge without its nonce"@))
    } else {
        match type_in(token) {
            Err(fault) => Err(fault),
            Ok(declared) => if declared != CHALLENGE {
                Err(permanent_fault("not an NTLM challenge"@))
            } else if token.len() < 32 {
                Err(permanent_fault("a challenge without its nonce"@))
            } else {
                Ok(token.subrange(24, 32))
            },
        }
    }
}

/// What the security buffer at `at` stands for.
pub open spec fn buffered(token: Seq<u8>, at: int) -> Result<Seq<u8>, Fault> {
    let begin = u32_at(token, at + 4) as int;
    let end = begin + u16_at(token, at);
    if end <= token.len() {
        Ok(token.subrange(begin, end))
    } else {
        Err(permanent_fault("an NTLM field past the token"@))
    }
}

/// The identity that an Authenticate names.
pub open spec fn identity_in(token: Seq<u8>) -> Result<IdentityView, Fault> {
    match type_in(token) {
        Err(fault) => Err(fault),
        Ok(declared) => if declared != AUTHENTICATE {
            Err(permanent_fault("not an NTLM authenticate"@))
        } else if token.len() < 64 {
            Err(permanent_fault("an authenticate cut short"@))
        } else {
            match (buffered(token, 28), buffered(token, 36), buffered(token, 44)) {
                (Ok(domain), Ok(user), Ok(workstation)) => Ok(
                    IdentityView {
                        domain: from_utf16(domain),
                        user: from_utf16(user),
                        workstation: from_utf16(workstation),
                    },
                ),
                _ => Err(permanent_fault("an NTLM field past the token"@)),
            }
        },
    }
}

/// The client's first message.
pub fn negotiate_message() -> (token: Vec<u8>)
    ensures
        token@ == negotiation(),
{
    let mut out = head(NEGOTIATE);
    push_u32(&mut out, FLAGS);
    push_zeros(&mut out, 24);
    out
}

fn push_buffer(out: &mut Vec<u8>, length: usize, offset: u32)
    ensures
        final(out)@ == old(out)@ + buffer(length as nat, offset as nat),
{
    push_u16(out, to_length16(length));
    push_u16(out, to_length16(length));
    push_u32(out, offset);
    assert(out@ =~= old(out)@ + buffer(length as nat, offset as nat));
}

/// Where what follows `length` bytes at `offset` begins, as far as four bytes
/// count.
fn past(offset: u32, length: usize) -> (end: u32)
    ensures
        end == length32(offset as nat + length as nat),
{
    let length = to_length32(length);
    if length > u32::MAX - offset {
        u32::MAX
    } else {
        offset + length
    }
}

/// The client's second message, naming `identity`.
pub fn authenticate_message(identity: &Identity) -> (token: Vec<u8>)
    ensures
        token@ == authentication(identity@),
{
    let domain = utf16::encode(&identity.domain);
    let user = utf16::encode(&identity.user);
    let workstation = utf16::encode(&identity.workstation);
    let user_at = past(NAMES, domain.len());
    let workstation_at = past(user_at, user.len());
    let mut out = head(AUTHENTICATE);
    push_buffer(&mut out, 0, NAMES);
    push_buffer(&mut out, 0, NAMES);
    push_buffer(&mut out, domain.len(), NAMES);
    push_buffer(&mut out, user.len(), user_at);
    push_buffer(&mut out, workstation.len(), workstation_at);
    push_buffer(&mut out, 0, NAMES);
    push_u32(&mut out, FLAGS);
    push_zeros(&mut out, 8);
    assert(out@ =~= authentication_head(domain@.len(), user@.len(), workstation@.len())) by {
        reveal(authentication_head);
    }
    push_bytes(&mut out, &domain);
    push_bytes(&mut out, &user);
    push_bytes(&mut out, &workstation);
    out
}

/// The nonce that a Challenge carries.
pub fn challenge_nonce(token: &[u8]) -> (nonce: Result<[u8; 8], TransportError>)
    ensures
        agrees(nonce, nonce_in(token@)),
{
    if signed(token) && token.len() < 12 {
        return Err(protocol_error("a challenge without its nonce"));
    }
    let declared = match message_type(token) {
        Ok(declared) => declared,
        Err(error) => return Err(error),
    };
    if declared != CHALLENGE {
        return Err(protocol_error("not an NTLM challenge"));
    }
    if token.len() < 32 {
        return Err(protocol_error("a challenge without its nonce"));
    }
    let nonce = [
        token[24],
        token[25],
        token[26],
        token[27],
        token[28],
        token[29],
        token[30],
        token[31],
    ];
    assert(nonce@ =~= token@.subrange(24, 32));
    Ok(nonce)
}

proof fn lemma_buffer(token: Seq<u8>, at: int, length: nat, offset: nat)
    requires
        0 <= at,
        at + 8 <= token.len(),
        token.subrange(at, at + 8) == buffer(length, offset),
        length <= 0xFFFF,
        offset + length <= token.len(),
        offset <= 0xFFFF_FFFF,
    ensures
        buffered(token, at) == Ok::<Seq<u8>, Fault>(
            token.subrange(offset as int, (offset + length) as int),
        ),
{
    let field = token.subrange(at, at + 8);
    let counted = length16(length);
    let placed = length32(offset);
    assert(field.subrange(0, 2) =~= le16(counted));
    assert(field.subrange(4, 8) =~= le32(placed));
    assert(token.subrange(at, at + 2) =~= field.subrange(0, 2));
    assert(token.subrange(at + 4, at + 8) =~= field.subrange(4, 8));
    law_u16_reads_back(token, at, counted);
    law_u32_reads_back(token, at + 4, placed);
}

/// Where the parts of an Authenticate stand.
proof fn lemma_parts(
    head: Seq<u8>,
    lm: Seq<u8>,
    nt: Seq<u8>,
    domain: Seq<u8>,
    user: Seq<u8>,
    workstation: Seq<u8>,
    key: Seq<u8>,
    flags: Seq<u8>,
    version: Seq<u8>,
)
    requires
        head.len() == 12,
        lm.len() == 8,
        nt.len() == 8,
        domain.len() == 8,
        user.len() == 8,
        workstation.len() == 8,
        key.len() == 8,
        flags.len() == 4,
        version.len() == 8,
    ensures
        ({
            let fixed = head + lm + nt + domain + user + workstation + key + flags + version;
            &&& fixed.len() == NAMES
            &&& fixed.subrange(0, 12) == head
            &&& fixed.subrange(12, 20) == lm
            &&& fixed.subrange(20, 28) == nt
            &&& fixed.subrange(28, 36) == domain
            &&& fixed.subrange(36, 44) == user
            &&& fixed.subrange(44, 52) == workstation
            &&& fixed.subrange(52, 60) == key
            &&& fixed.subrange(60, 64) == flags
        }),
{
    let fixed = head + lm + nt + domain + user + workstation + key + flags + version;
    assert(fixed.subrange(0, 12) =~= head);
    assert(fixed.subrange(12, 20) =~= lm);
    assert(fixed.subrange(20, 28) =~= nt);
    assert(fixed.subrange(28, 36) =~= domain);
    assert(fixed.subrange(36, 44) =~= user);
    assert(fixed.subrange(44, 52) =~= workstation);
    assert(fixed.subrange(52, 60) =~= key);
    assert(fixed.subrange(60, 64) =~= flags);
}

proof fn lemma_prefix(fixed: Seq<u8>, rest: Seq<u8>, begin: int, end: int)
    requires
        0 <= begin <= end <= fixed.len(),
    ensures
        (fixed + rest).subrange(begin, end) == fixed.subrange(begin, end),
{
    assert((fixed + rest).subrange(begin, end) =~= fixed.subrange(begin, end));
}

proof fn lemma_opens(token: Seq<u8>, message_type: u32)
    requires
        token.len() >= 12,
        token.subrange(0, 12) == head_of(message_type),
    ensures
        type_in(token) == Ok::<u32, Fault>(message_type),
{
    lemma_head(message_type, token.skip(12));
    assert(token =~= token.subrange(0, 12) + token.skip(12));
}

proof fn lemma_named(
    fixed: Seq<u8>,
    names: Seq<u8>,
    at: int,
    before: Seq<u8>,
    name: Seq<u8>,
    after: Seq<u8>,
)
    requires
        fixed.len() == NAMES,
        0 <= at,
        at + 8 <= NAMES,
        names == before + name + after,
        before.len() <= 0x2_0000,
        name.len() <= 0xFFFF,
        fixed.subrange(at, at + 8) == buffer(name.len(), NAMES as nat + before.len()),
    ensures
        buffered(fixed + names, at) == Ok::<Seq<u8>, Fault>(name),
{
    let token = fixed + names;
    let begin = NAMES as nat + before.len();
    lemma_prefix(fixed, names, at, at + 8);
    lemma_buffer(token, at, name.len(), begin);
    assert(token.subrange(begin as int, (begin + name.len()) as int) =~= name);
}

proof fn lemma_authentication_head(domain: nat, user: nat, workstation: nat)
    ensures
        ({
            let fixed = authentication_head(domain, user, workstation);
            let begin = NAMES as nat;
            &&& fixed.len() == NAMES
            &&& fixed.subrange(0, 12) == head_of(AUTHENTICATE)
            &&& fixed.subrange(12, 20) == buffer(0, begin)
            &&& fixed.subrange(20, 28) == buffer(0, begin)
            &&& fixed.subrange(28, 36) == buffer(domain, begin)
            &&& fixed.subrange(36, 44) == buffer(user, begin + domain)
            &&& fixed.subrange(44, 52) == buffer(workstation, begin + domain + user)
            &&& fixed.subrange(52, 60) == buffer(0, begin)
            &&& fixed.subrange(60, 64) == le32(FLAGS)
        }),
{
    let begin = NAMES as nat;
    let none = buffer(0, begin);
    reveal(authentication_head);
    lemma_parts(
        head_of(AUTHENTICATE),
        none,
        none,
        buffer(domain, begin),
        buffer(user, begin + domain),
        buffer(workstation, begin + domain + user),
        none,
        le32(FLAGS),
        zeros(8),
    );
}

/// What is read of the names that follow the fixed part of an Authenticate.
proof fn lemma_names_are_read(
    fixed: Seq<u8>,
    domain: Seq<u8>,
    user: Seq<u8>,
    workstation: Seq<u8>,
)
    requires
        fixed.len() == NAMES,
        domain.len() <= 0xFFFF,
        user.len() <= 0xFFFF,
        workstation.len() <= 0xFFFF,
        fixed.subrange(0, 12) == head_of(AUTHENTICATE),
        fixed.subrange(12, 20) == buffer(0, NAMES as nat),
        fixed.subrange(20, 28) == buffer(0, NAMES as nat),
        fixed.subrange(28, 36) == buffer(domain.len(), NAMES as nat),
        fixed.subrange(36, 44) == buffer(user.len(), NAMES as nat + domain.len()),
        fixed.subrange(44, 52) == buffer(
            workstation.len(),
            NAMES as nat + domain.len() + user.len(),
        ),
        fixed.subrange(52, 60) == buffer(0, NAMES as nat),
        fixed.subrange(60, 64) == le32(FLAGS),
    ensures
        ({
            let token = fixed + domain + user + workstation;
            &&& token.len() >= NAMES
            &&& type_in(token) == Ok::<u32, Fault>(AUTHENTICATE)
            &&& buffered(token, 12) == Ok::<Seq<u8>, Fault>(Seq::empty())
            &&& buffered(token, 20) == Ok::<Seq<u8>, Fault>(Seq::empty())
            &&& buffered(token, 28) == Ok::<Seq<u8>, Fault>(domain)
            &&& buffered(token, 36) == Ok::<Seq<u8>, Fault>(user)
            &&& buffered(token, 44) == Ok::<Seq<u8>, Fault>(workstation)
            &&& buffered(token, 52) == Ok::<Seq<u8>, Fault>(Seq::empty())
            &&& u32_at(token, 60) == FLAGS
        }),
{
    let token = fixed + domain + user + workstation;
    let names = domain + user + workstation;
    let empty = Seq::<u8>::empty();
    assert(token =~= fixed + names);
    assert(names =~= empty + empty + names);
    assert(names =~= empty + domain + (user + workstation));
    assert(names =~= (domain + user) + workstation + empty);
    lemma_named(fixed, names, 12, empty, empty, names);
    lemma_named(fixed, names, 20, empty, empty, names);
    lemma_named(fixed, names, 28, empty, domain, user + workstation);
    lemma_named(fixed, names, 36, domain, user, workstation);
    lemma_named(fixed, names, 44, domain + user, workstation, empty);
    lemma_named(fixed, names, 52, empty, empty, names);
    lemma_prefix(fixed, names, 0, 12);
    lemma_opens(token, AUTHENTICATE);
    lemma_prefix(fixed, names, 60, 64);
    law_u32_reads_back(token, 60, FLAGS);
}

/// The client's first message declares itself a Negotiate, is long enough for
/// the fixed fields, and asks for the flags, where they are looked for; it is
/// not read as a Challenge.
pub proof fn law_a_negotiate_asks_for_its_flags()
    ensures
        negotiation().len() == 40,
        u32_at(negotiation(), 12) == FLAGS,
        flags_in(negotiation()) == Ok::<u32, Fault>(FLAGS),
        nonce_in(negotiation()) is Err,
{
    let rest = le32(FLAGS) + zeros(24);
    let token = negotiation();
    lemma_head(NEGOTIATE, rest);
    assert(token =~= head_of(NEGOTIATE) + rest);
    assert(token.subrange(12, 16) =~= le32(FLAGS));
    law_u32_reads_back(token, 12, FLAGS);
}

/// The client's second message declares itself an Authenticate; its buffers
/// give back the domain, the user and the workstation it was made with, where
/// each is short enough to be counted, and no response and no session key; it
/// is not read as a Challenge.
pub proof fn law_an_authenticate_names_its_identity(identity: IdentityView)
    requires
        utf16(identity.domain).len() <= 0xFFFF,
        utf16(identity.user).len() <= 0xFFFF,
        utf16(identity.workstation).len() <= 0xFFFF,
    ensures
        ({
            let token = authentication(identity);
            &&& buffered(token, 12) == Ok::<Seq<u8>, Fault>(Seq::empty())
            &&& buffered(token, 20) == Ok::<Seq<u8>, Fault>(Seq::empty())
            &&& buffered(token, 28) == Ok::<Seq<u8>, Fault>(utf16(identity.domain))
            &&& buffered(token, 36) == Ok::<Seq<u8>, Fault>(utf16(identity.user))
            &&& buffered(token, 44) == Ok::<Seq<u8>, Fault>(utf16(identity.workstation))
            &&& buffered(token, 52) == Ok::<Seq<u8>, Fault>(Seq::empty())
            &&& u32_at(token, 60) == FLAGS
            &&& identity_in(token) == Ok::<IdentityView, Fault>(identity)
            &&& nonce_in(token) is Err
        }),
{
    let token = authentication(identity);
    let domain = utf16(identity.domain);
    let user = utf16(identity.user);
    let workstation = utf16(identity.workstation);
    let fixed = authentication_head(domain.len(), user.len(), workstation.len());
    lemma_authentication_head(domain.len(), user.len(), workstation.len());
    lemma_names_are_read(fixed, domain, user, workstation);
    law_utf16_reads_back(identity.domain);
    law_utf16_reads_back(identity.user);
    law_utf16_reads_back(identity.workstation);
}

/// A token is read as a Challenge exactly where it opens with `NTLMSSP` and a
/// zero, declares the second type and is long enough for its nonce, which stands
/// in its bytes 24 to 31.
pub proof fn law_a_challenge_is_read_where_it_is_one(token: Seq<u8>)
    ensures
        nonce_in(token) is Ok <==> {
            &&& token.len() >= 32
            &&& token.take(8) == seq![0x4Eu8, 0x54, 0x4C, 0x4D, 0x53, 0x53, 0x50, 0x00]
            &&& token.subrange(8, 12) == seq![2u8, 0, 0, 0]
        },
        nonce_in(token) matches Ok(nonce) ==> nonce == token.subrange(24, 32),
        nonce_in(token) matches Err(fault) ==> !fault.retryable,
{
    let opening = seq![0x4Eu8, 0x54, 0x4C, 0x4D, 0x53, 0x53, 0x50, 0x00];
    assert(NTLMSSP@ =~= opening);
    if token.len() >= 32 {
        assert(token.subrange(0, 8) =~= token.take(8));
        let declared = token.subrange(8, 12);
        assert(declared[0] == token[8] && declared[1] == token[9] && declared[2] == token[10]
            && declared[3] == token[11]);
        if u32_at(token, 8) == 2 {
            assert(declared =~= seq![2u8, 0, 0, 0]);
        }
    }
}

} // verus!
