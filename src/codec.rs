//! The wire format. Every message is a fixed sequence of fields; integers
//! are little-endian and of fixed width, a flag is one byte, a discriminant
//! is one byte, and text and data carry an eight-byte length before their
//! bytes, so a reader never scans for a delimiter.
use vstd::bytes::{
    lemma_auto_spec_u32_to_from_le_bytes, lemma_auto_spec_u64_to_from_le_bytes,
    spec_u32_from_le_bytes, spec_u32_to_le_bytes, spec_u64_from_le_bytes, spec_u64_to_le_bytes,
    u32_from_le_bytes, u32_to_le_bytes, u64_from_le_bytes, u64_to_le_bytes,
};
use vstd::prelude::*;
use vstd::slice::{slice_subrange, slice_to_vec};
use vstd::utf8::{
    decode_utf8, decode_utf8_encode_utf8, encode_utf8, encode_utf8_decode_utf8, encode_utf8_valid_utf8,
    valid_utf8,
};

use crate::structs::{
    AuthRequest, AuthRequestView, AuthResponse, AuthResponseView, FileDescription,
    FileDescriptionResponse, FileDescriptionResponseView, FileDescriptionView, FilePart,
    FilePartResponse, FilePartResponseView, FilePartView, FileStatus, FileStatusEnum, Version,
};

verus! {

/// Why bytes could not be read as a message.
#[derive(Debug, Clone, Copy, PartialEq, Eq, Structural)]
pub enum MalformedMessage {
    /// The bytes end before a field or a declared length is complete.
    Truncated,
    /// A flag or discriminant byte holds a value that no variant has.
    UnknownDiscriminant,
    /// Text bytes are not well-formed UTF-8.
    InvalidText,
}

/// What reading a value of view type `V` from the front of some bytes
/// gives: the value and the number of bytes it took, or why it failed.
pub type Parsed<V> = Result<(V, nat), MalformedMessage>;

/// An executable decoding result `r`, started at `pos`, agrees with the
/// abstract reading `p`: same value, and the position just past it.
pub open spec fn decoded<T: View>(
    r: Result<(T, usize), MalformedMessage>,
    pos: int,
    p: Parsed<T::V>,
) -> bool {
    match p {
        Ok((v, n)) => match r {
            Ok((t, end)) => t@ == v && end == pos + n,
            Err(_) => false,
        },
        Err(e) => match r {
            Ok(_) => false,
            Err(e2) => e2 == e,
        },
    }
}

pub open spec fn enc_u32(v: u32) -> Seq<u8> {
    spec_u32_to_le_bytes(v)
}

pub open spec fn enc_u64(v: u64) -> Seq<u8> {
    spec_u64_to_le_bytes(v)
}

pub open spec fn enc_i32(v: i32) -> Seq<u8> {
    spec_u32_to_le_bytes(v as u32)
}

pub open spec fn enc_bool(b: bool) -> Seq<u8> {
    seq![if b { 1u8 } else { 0u8 }]
}

pub open spec fn enc_bytes(d: Seq<u8>) -> Seq<u8> {
    enc_u64(d.len() as u64) + d
}

pub open spec fn enc_text(t: Seq<char>) -> Seq<u8> {
    enc_bytes(encode_utf8(t))
}

pub open spec fn parse_u32(s: Seq<u8>) -> Parsed<u32> {
    if s.len() < 4 {
        Err(MalformedMessage::Truncated)
    } else {
        Ok((spec_u32_from_le_bytes(s.take(4)), 4))
    }
}

pub open spec fn parse_u64(s: Seq<u8>) -> Parsed<u64> {
    if s.len() < 8 {
        Err(MalformedMessage::Truncated)
    } else {
        Ok((spec_u64_from_le_bytes(s.take(8)), 8))
    }
}

pub open spec fn parse_i32(s: Seq<u8>) -> Parsed<i32> {
    if s.len() < 4 {
        Err(MalformedMessage::Truncated)
    } else {
        Ok((spec_u32_from_le_bytes(s.take(4)) as i32, 4))
    }
}

pub open spec fn parse_bool(s: Seq<u8>) -> Parsed<bool> {
    if s.len() < 1 {
        Err(MalformedMessage::Truncated)
    } else if s[0] == 0 {
        Ok((false, 1))
    } else if s[0] == 1 {
        Ok((true, 1))
    } else {
        Err(MalformedMessage::UnknownDiscriminant)
    }
}

pub open spec fn parse_bytes(s: Seq<u8>) -> Parsed<Seq<u8>> {
    match parse_u64(s) {
        Err(e) => Err(e),
        Ok((n, _)) => if s.len() - 8 < n {
            Err(MalformedMessage::Truncated)
        } else {
            Ok((s.subrange(8, 8 + n), (8 + n) as nat))
        },
    }
}

pub open spec fn parse_text(s: Seq<u8>) -> Parsed<Seq<char>> {
    match parse_bytes(s) {
        Err(e) => Err(e),
        Ok((b, n)) => if valid_utf8(b) {
            Ok((decode_utf8(b), n))
        } else {
            Err(MalformedMessage::InvalidText)
        },
    }
}

/// Relies on `String::from_utf8`: it accepts exactly the well-formed UTF-8
/// byte sequences, and the string it makes holds the characters they encode.
#[verifier::external_body]
fn string_from_utf8(bytes: Vec<u8>) -> (r: Option<String>)
    ensures
        r is Some <==> valid_utf8(bytes@),
        r matches Some(s) ==> s@ == decode_utf8(bytes@),
{
    String::from_utf8(bytes).ok()
}

fn put_u32(out: &mut Vec<u8>, v: u32)
    ensures
        final(out)@ == old(out)@ + enc_u32(v),
{
    let mut b = u32_to_le_bytes(v);
    out.append(&mut b);
}

fn put_u64(out: &mut Vec<u8>, v: u64)
    ensures
        final(out)@ == old(out)@ + enc_u64(v),
{
    let mut b = u64_to_le_bytes(v);
    out.append(&mut b);
}

fn put_i32(out: &mut Vec<u8>, v: i32)
    ensures
        final(out)@ == old(out)@ + enc_i32(v),
{
    put_u32(out, v as u32);
}

fn put_bool(out: &mut Vec<u8>, b: bool)
    ensures
        final(out)@ == old(out)@ + enc_bool(b),
{
    out.push(if b { 1u8 } else { 0u8 });
    proof {
        assert(final(out)@ =~= old(out)@ + enc_bool(b));
    }
}

fn put_bytes(out: &mut Vec<u8>, d: &[u8])
    ensures
        final(out)@ == old(out)@ + enc_bytes(d@),
{
    put_u64(out, d.len() as u64);
    let mut v = slice_to_vec(d);
    out.append(&mut v);
    proof {
        assert(final(out)@ =~= old(out)@ + enc_bytes(d@));
    }
}

fn put_text(out: &mut Vec<u8>, t: &String)
    ensures
        final(out)@ == old(out)@ + enc_text(t@),
{
    put_bytes(out, t.as_str().as_bytes());
}

fn get_u32(buf: &[u8], pos: usize) -> (r: Result<(u32, usize), MalformedMessage>)
    requires
        pos <= buf@.len(),
    ensures
        decoded(r, pos as int, parse_u32(buf@.skip(pos as int))),
{
    if buf.len() - pos < 4 {
        Err(MalformedMessage::Truncated)
    } else {
        let v = u32_from_le_bytes(slice_subrange(buf, pos, pos + 4));
        proof {
            assert(buf@.subrange(pos as int, pos + 4) =~= buf@.skip(pos as int).take(4));
        }
        Ok((v, pos + 4))
    }
}

fn get_u64(buf: &[u8], pos: usize) -> (r: Result<(u64, usize), MalformedMessage>)
    requires
        pos <= buf@.len(),
    ensures
        decoded(r, pos as int, parse_u64(buf@.skip(pos as int))),
{
    if buf.len() - pos < 8 {
        Err(MalformedMessage::Truncated)
    } else {
        let v = u64_from_le_bytes(slice_subrange(buf, pos, pos + 8));
        proof {
            assert(buf@.subrange(pos as int, pos + 8) =~= buf@.skip(pos as int).take(8));
        }
        Ok((v, pos + 8))
    }
}

fn get_i32(buf: &[u8], pos: usize) -> (r: Result<(i32, usize), MalformedMessage>)
    requires
        pos <= buf@.len(),
    ensures
        decoded(r, pos as int, parse_i32(buf@.skip(pos as int))),
{
    match get_u32(buf, pos) {
        Ok((v, end)) => Ok((v as i32, end)),
        Err(e) => Err(e),
    }
}

fn get_bool(buf: &[u8], pos: usize) -> (r: Result<(bool, usize), MalformedMessage>)
    requires
        pos <= buf@.len(),
    ensures
        decoded(r, pos as int, parse_bool(buf@.skip(pos as int))),
{
    if buf.len() - pos < 1 {
        Err(MalformedMessage::Truncated)
    } else if buf[pos] == 0 {
        Ok((false, pos + 1))
    } else if buf[pos] == 1 {
        Ok((true, pos + 1))
    } else {
        Err(MalformedMessage::UnknownDiscriminant)
    }
}

fn get_bytes(buf: &[u8], pos: usize) -> (r: Result<(Vec<u8>, usize), MalformedMessage>)
    requires
        pos <= buf@.len(),
    ensures
        decoded(r, pos as int, parse_bytes(buf@.skip(pos as int))),
{
    let (n, start) = match get_u64(buf, pos) {
        Ok(x) => x,
        Err(e) => return Err(e),
    };
    if ((buf.len() - start) as u64) < n {
        Err(MalformedMessage::Truncated)
    } else {
        let end = start + n as usize;
        let d = slice_to_vec(slice_subrange(buf, start, end));
        proof {
            assert(d@ =~= buf@.skip(pos as int).subrange(8, 8 + n));
        }
        Ok((d, end))
    }
}

fn get_text(buf: &[u8], pos: usize) -> (r: Result<(String, usize), MalformedMessage>)
    requires
        pos <= buf@.len(),
    ensures
        decoded(r, pos as int, parse_text(buf@.skip(pos as int))),
{
    let (d, end) = match get_bytes(buf, pos) {
        Ok(x) => x,
        Err(e) => return Err(e),
    };
    match string_from_utf8(d) {
        Some(s) => Ok((s, end)),
        None => Err(MalformedMessage::InvalidText),
    }
}


pub open spec fn enc_status_kind(k: FileStatusEnum) -> Seq<u8> {
    match k {
        FileStatusEnum::Exists => seq![0u8],
        FileStatusEnum::Resumeable => seq![1u8],
        FileStatusEnum::Nonexistent => seq![2u8],
    }
}

pub open spec fn parse_status_kind(s: Seq<u8>) -> Parsed<FileStatusEnum> {
    if s.len() < 1 {
        Err(MalformedMessage::Truncated)
    } else if s[0] == 0 {
        Ok((FileStatusEnum::Exists, 1))
    } else if s[0] == 1 {
        Ok((FileStatusEnum::Resumeable, 1))
    } else if s[0] == 2 {
        Ok((FileStatusEnum::Nonexistent, 1))
    } else {
        Err(MalformedMessage::UnknownDiscriminant)
    }
}

pub open spec fn enc_version(v: Version) -> Seq<u8> {
    enc_u32(v.major) + enc_u32(v.minor) + enc_u32(v.patch)
}

pub open spec fn parse_version(s: Seq<u8>) -> Parsed<Version> {
    match parse_u32(s) {
        Err(e) => Err(e),
        Ok((major, a)) => match parse_u32(s.skip(a as int)) {
            Err(e) => Err(e),
            Ok((minor, b)) => match parse_u32(s.skip((a + b) as int)) {
                Err(e) => Err(e),
                Ok((patch, c)) => Ok((Version { major, minor, patch }, a + b + c)),
            },
        },
    }
}

pub open spec fn enc_auth_request(m: AuthRequestView) -> Seq<u8> {
    enc_version(m.version) + enc_text(m.token)
}

pub open spec fn parse_auth_request(s: Seq<u8>) -> Parsed<AuthRequestView> {
    match parse_version(s) {
        Err(e) => Err(e),
        Ok((version, a)) => match parse_text(s.skip(a as int)) {
            Err(e) => Err(e),
            Ok((token, b)) => Ok((AuthRequestView { version, token }, a + b)),
        },
    }
}

pub open spec fn enc_auth_response(m: AuthResponseView) -> Seq<u8> {
    enc_bool(m.success) + enc_text(m.failure_reason)
}

pub open spec fn parse_auth_response(s: Seq<u8>) -> Parsed<AuthResponseView> {
    match parse_bool(s) {
        Err(e) => Err(e),
        Ok((success, a)) => match parse_text(s.skip(a as int)) {
            Err(e) => Err(e),
            Ok((failure_reason, b)) => Ok((AuthResponseView { success, failure_reason }, a + b)),
        },
    }
}

pub open spec fn enc_file_description(m: FileDescriptionView) -> Seq<u8> {
    enc_text(m.name) + enc_u64(m.size) + enc_u64(m.packet_size)
}

pub open spec fn parse_file_description(s: Seq<u8>) -> Parsed<FileDescriptionView> {
    match parse_text(s) {
        Err(e) => Err(e),
        Ok((name, a)) => match parse_u64(s.skip(a as int)) {
            Err(e) => Err(e),
            Ok((size, b)) => match parse_u64(s.skip((a + b) as int)) {
                Err(e) => Err(e),
                Ok((packet_size, c)) => Ok(
                    (FileDescriptionView { name, size, packet_size }, a + b + c),
                ),
            },
        },
    }
}

pub open spec fn enc_file_status(m: FileStatus) -> Seq<u8> {
    enc_i32(m.id) + enc_status_kind(m.status) + enc_u64(m.request_packet) + enc_u64(
        m.packet_size,
    ) + enc_u64(m.total_packets)
}

pub open spec fn parse_file_status(s: Seq<u8>) -> Parsed<FileStatus> {
    match parse_i32(s) {
        Err(e) => Err(e),
        Ok((id, a)) => match parse_status_kind(s.skip(a as int)) {
            Err(e) => Err(e),
            Ok((status, b)) => match parse_u64(s.skip((a + b) as int)) {
                Err(e) => Err(e),
                Ok((request_packet, c)) => match parse_u64(s.skip((a + b + c) as int)) {
                    Err(e) => Err(e),
                    Ok((packet_size, d)) => match parse_u64(s.skip((a + b + c + d) as int)) {
                        Err(e) => Err(e),
                        Ok((total_packets, f)) => Ok(
                            (
                                FileStatus {
                                    id,
                                    status,
                                    request_packet,
                                    packet_size,
                                    total_packets,
                                },
                                a + b + c + d + f,
                            ),
                        ),
                    },
                },
            },
        },
    }
}

pub open spec fn enc_file_description_response(m: FileDescriptionResponseView) -> Seq<u8> {
    match m {
        FileDescriptionResponseView::Status(st) => seq![0u8] + enc_file_status(st),
        FileDescriptionResponseView::FailMessage(t) => seq![1u8] + enc_text(t),
    }
}

pub open spec fn parse_file_description_response(s: Seq<u8>) -> Parsed<
    FileDescriptionResponseView,
> {
    if s.len() < 1 {
        Err(MalformedMessage::Truncated)
    } else if s[0] == 0 {
        match parse_file_status(s.skip(1)) {
            Err(e) => Err(e),
            Ok((st, n)) => Ok((FileDescriptionResponseView::Status(st), (1 + n) as nat)),
        }
    } else if s[0] == 1 {
        match parse_text(s.skip(1)) {
            Err(e) => Err(e),
            Ok((t, n)) => Ok((FileDescriptionResponseView::FailMessage(t), (1 + n) as nat)),
        }
    } else {
        Err(MalformedMessage::UnknownDiscriminant)
    }
}

pub open spec fn enc_file_part(m: FilePartView) -> Seq<u8> {
    enc_u64(m.part_num) + enc_bytes(m.data)
}

pub open spec fn parse_file_part(s: Seq<u8>) -> Parsed<FilePartView> {
    match parse_u64(s) {
        Err(e) => Err(e),
        Ok((part_num, a)) => match parse_bytes(s.skip(a as int)) {
            Err(e) => Err(e),
            Ok((data, b)) => Ok((FilePartView { part_num, data }, a + b)),
        },
    }
}

pub open spec fn enc_file_part_response(m: FilePartResponseView) -> Seq<u8> {
    enc_bool(m.success) + enc_text(m.message)
}

pub open spec fn parse_file_part_response(s: Seq<u8>) -> Parsed<FilePartResponseView> {
    match parse_bool(s) {
        Err(e) => Err(e),
        Ok((success, a)) => match parse_text(s.skip(a as int)) {
            Err(e) => Err(e),
            Ok((message, b)) => Ok((FilePartResponseView { success, message }, a + b)),
        },
    }
}

fn put_version(out: &mut Vec<u8>, v: Version)
    ensures
        final(out)@ == old(out)@ + enc_version(v),
{
    put_u32(out, v.major);
    put_u32(out, v.minor);
    put_u32(out, v.patch);
    proof {
        assert(final(out)@ =~= old(out)@ + enc_version(v));
    }
}

fn put_status_kind(out: &mut Vec<u8>, k: FileStatusEnum)
    ensures
        final(out)@ == old(out)@ + enc_status_kind(k),
{
    let b: u8 = match k {
        FileStatusEnum::Exists => 0,
        FileStatusEnum::Resumeable => 1,
        FileStatusEnum::Nonexistent => 2,
    };
    out.push(b);
    proof {
        assert(final(out)@ =~= old(out)@ + enc_status_kind(k));
    }
}

fn put_file_status(out: &mut Vec<u8>, m: &FileStatus)
    ensures
        final(out)@ == old(out)@ + enc_file_status(*m),
{
    put_i32(out, m.id);
    put_status_kind(out, m.status);
    put_u64(out, m.request_packet);
    put_u64(out, m.packet_size);
    put_u64(out, m.total_packets);
    proof {
        assert(final(out)@ =~= old(out)@ + enc_file_status(*m));
    }
}

/// The bytes of an `AuthRequest` on the wire.
pub fn encode_auth_request(m: &AuthRequest) -> (r: Vec<u8>)
    ensures
        r@ == enc_auth_request(m@),
{
    let mut out: Vec<u8> = Vec::new();
    put_version(&mut out, m.version);
    put_text(&mut out, &m.token);
    proof {
        assert(out@ =~= enc_auth_request(m@));
    }
    out
}

/// The bytes of an `AuthResponse` on the wire.
pub fn encode_auth_response(m: &AuthResponse) -> (r: Vec<u8>)
    ensures
        r@ == enc_auth_response(m@),
{
    let mut out: Vec<u8> = Vec::new();
    put_bool(&mut out, m.success);
    put_text(&mut out, &m.failure_reason);
    proof {
        assert(out@ =~= enc_auth_response(m@));
    }
    out
}

/// The bytes of a `FileDescription` on the wire.
pub fn encode_file_description(m: &FileDescription) -> (r: Vec<u8>)
    ensures
        r@ == enc_file_description(m@),
{
    let mut out: Vec<u8> = Vec::new();
    put_text(&mut out, &m.name);
    put_u64(&mut out, m.size);
    put_u64(&mut out, m.packet_size);
    proof {
        assert(out@ =~= enc_file_description(m@));
    }
    out
}

/// The bytes of a `FileDescriptionResponse` on the wire.
pub fn encode_file_description_response(m: &FileDescriptionResponse) -> (r: Vec<u8>)
    ensures
        r@ == enc_file_description_response(m@),
{
    let mut out: Vec<u8> = Vec::new();
    match m {
        FileDescriptionResponse::Status(st) => {
            out.push(0u8);
            put_file_status(&mut out, st);
        },
        FileDescriptionResponse::FailMessage(t) => {
            out.push(1u8);
            put_text(&mut out, t);
        },
    }
    proof {
        assert(out@ =~= enc_file_description_response(m@));
    }
    out
}

/// The bytes of a `FilePart` on the wire.
pub fn encode_file_part(m: &FilePart) -> (r: Vec<u8>)
    ensures
        r@ == enc_file_part(m@),
{
    let mut out: Vec<u8> = Vec::new();
    put_u64(&mut out, m.part_num);
    put_bytes(&mut out, m.data.as_slice());
    proof {
        assert(out@ =~= enc_file_part(m@));
    }
    out
}

/// The bytes of a `FilePartResponse` on the wire.
pub fn encode_file_part_response(m: &FilePartResponse) -> (r: Vec<u8>)
    ensures
        r@ == enc_file_part_response(m@),
{
    let mut out: Vec<u8> = Vec::new();
    put_bool(&mut out, m.success);
    put_text(&mut out, &m.message);
    proof {
        assert(out@ =~= enc_file_part_response(m@));
    }
    out
}


fn get_version(buf: &[u8], pos: usize) -> (r: Result<(Version, usize), MalformedMessage>)
    requires
        pos <= buf@.len(),
    ensures
        decoded(r, pos as int, parse_version(buf@.skip(pos as int))),
{
    let (major, at1) = match get_u32(buf, pos) {
        Ok(x) => x,
        Err(e) => return Err(e),
    };
    proof {
        assert(buf@.skip(pos as int).skip(4) =~= buf@.skip(at1 as int));
    }
    let (minor, at2) = match get_u32(buf, at1) {
        Ok(x) => x,
        Err(e) => return Err(e),
    };
    proof {
        assert(buf@.skip(pos as int).skip(8) =~= buf@.skip(at2 as int));
    }
    let (patch, at3) = match get_u32(buf, at2) {
        Ok(x) => x,
        Err(e) => return Err(e),
    };
    Ok((Version { major, minor, patch }, at3))
}

fn get_status_kind(buf: &[u8], pos: usize) -> (r: Result<(FileStatusEnum, usize), MalformedMessage>)
    requires
        pos <= buf@.len(),
    ensures
        decoded(r, pos as int, parse_status_kind(buf@.skip(pos as int))),
{
    if buf.len() - pos < 1 {
        Err(MalformedMessage::Truncated)
    } else if buf[pos] == 0 {
        Ok((FileStatusEnum::Exists, pos + 1))
    } else if buf[pos] == 1 {
        Ok((FileStatusEnum::Resumeable, pos + 1))
    } else if buf[pos] == 2 {
        Ok((FileStatusEnum::Nonexistent, pos + 1))
    } else {
        Err(MalformedMessage::UnknownDiscriminant)
    }
}

fn get_file_status(buf: &[u8], pos: usize) -> (r: Result<(FileStatus, usize), MalformedMessage>)
    requires
        pos <= buf@.len(),
    ensures
        decoded(r, pos as int, parse_file_status(buf@.skip(pos as int))),
{
    let (id, at1) = match get_i32(buf, pos) {
        Ok(x) => x,
        Err(e) => return Err(e),
    };
    proof {
        assert(buf@.skip(pos as int).skip(4) =~= buf@.skip(at1 as int));
    }
    let (status, at2) = match get_status_kind(buf, at1) {
        Ok(x) => x,
        Err(e) => return Err(e),
    };
    proof {
        assert(buf@.skip(pos as int).skip(5) =~= buf@.skip(at2 as int));
    }
    let (request_packet, at3) = match get_u64(buf, at2) {
        Ok(x) => x,
        Err(e) => return Err(e),
    };
    proof {
        assert(buf@.skip(pos as int).skip(13) =~= buf@.skip(at3 as int));
    }
    let (packet_size, at4) = match get_u64(buf, at3) {
        Ok(x) => x,
        Err(e) => return Err(e),
    };
    proof {
        assert(buf@.skip(pos as int).skip(21) =~= buf@.skip(at4 as int));
    }
    let (total_packets, at5) = match get_u64(buf, at4) {
        Ok(x) => x,
        Err(e) => return Err(e),
    };
    Ok((FileStatus { id, status, request_packet, packet_size, total_packets }, at5))
}

/// Reads an `AuthRequest` from `buf` at `pos`; on success also gives the
/// position just past it.
pub fn decode_auth_request(buf: &[u8], pos: usize) -> (r: Result<
    (AuthRequest, usize),
    MalformedMessage,
>)
    requires
        pos <= buf@.len(),
    ensures
        decoded(r, pos as int, parse_auth_request(buf@.skip(pos as int))),
{
    let (version, at1) = match get_version(buf, pos) {
        Ok(x) => x,
        Err(e) => return Err(e),
    };
    proof {
        assert(buf@.skip(pos as int).skip(12) =~= buf@.skip(at1 as int));
    }
    let (token, at2) = match get_text(buf, at1) {
        Ok(x) => x,
        Err(e) => return Err(e),
    };
    Ok((AuthRequest { version, token }, at2))
}

/// Reads an `AuthResponse` from `buf` at `pos`; on success also gives the
/// position just past it.
pub fn decode_auth_response(buf: &[u8], pos: usize) -> (r: Result<
    (AuthResponse, usize),
    MalformedMessage,
>)
    requires
        pos <= buf@.len(),
    ensures
        decoded(r, pos as int, parse_auth_response(buf@.skip(pos as int))),
{
    let (success, at1) = match get_bool(buf, pos) {
        Ok(x) => x,
        Err(e) => return Err(e),
    };
    proof {
        assert(buf@.skip(pos as int).skip(1) =~= buf@.skip(at1 as int));
    }
    let (failure_reason, at2) = match get_text(buf, at1) {
        Ok(x) => x,
        Err(e) => return Err(e),
    };
    Ok((AuthResponse { success, failure_reason }, at2))
}

/// Reads a `FileDescription` from `buf` at `pos`; on success also gives the
/// position just past it.
pub fn decode_file_description(buf: &[u8], pos: usize) -> (r: Result<
    (FileDescription, usize),
    MalformedMessage,
>)
    requires
        pos <= buf@.len(),
    ensures
        decoded(r, pos as int, parse_file_description(buf@.skip(pos as int))),
{
    let (name, at1) = match get_text(buf, pos) {
        Ok(x) => x,
        Err(e) => return Err(e),
    };
    let ghost a = at1 - pos;
    proof {
        assert(buf@.skip(pos as int).skip(a) =~= buf@.skip(at1 as int));
    }
    let (size, at2) = match get_u64(buf, at1) {
        Ok(x) => x,
        Err(e) => return Err(e),
    };
    proof {
        assert(buf@.skip(pos as int).skip(a + 8) =~= buf@.skip(at2 as int));
    }
    let (packet_size, at3) = match get_u64(buf, at2) {
        Ok(x) => x,
        Err(e) => return Err(e),
    };
    Ok((FileDescription { name, size, packet_size }, at3))
}

/// Reads a `FileDescriptionResponse` from `buf` at `pos`; on success also
/// gives the position just past it.
pub fn decode_file_description_response(buf: &[u8], pos: usize) -> (r: Result<
    (FileDescriptionResponse, usize),
    MalformedMessage,
>)
    requires
        pos <= buf@.len(),
    ensures
        decoded(r, pos as int, parse_file_description_response(buf@.skip(pos as int))),
{
    if buf.len() - pos < 1 {
        return Err(MalformedMessage::Truncated);
    }
    proof {
        assert(buf@.skip(pos as int).skip(1) =~= buf@.skip(pos + 1));
    }
    if buf[pos] == 0 {
        match get_file_status(buf, pos + 1) {
            Ok((st, end)) => Ok((FileDescriptionResponse::Status(st), end)),
            Err(e) => Err(e),
        }
    } else if buf[pos] == 1 {
        match get_text(buf, pos + 1) {
            Ok((t, end)) => Ok((FileDescriptionResponse::FailMessage(t), end)),
            Err(e) => Err(e),
        }
    } else {
        Err(MalformedMessage::UnknownDiscriminant)
    }
}

/// How many bytes a `FilePart` with `data_len` bytes of data takes on the
/// wire, where a `u64` holds that.
pub fn file_part_len(data_len: u64) -> (r: Option<u64>)
    ensures
        r is Some <==> 16 + data_len <= u64::MAX,
        r matches Some(n) ==> forall|m: FilePartView|
            m.data.len() == data_len ==> #[trigger] enc_file_part(m).len() == n,
{
    proof {
        lemma_auto_spec_u64_to_from_le_bytes();
    }
    if data_len <= u64::MAX - 16 {
        Some(16 + data_len)
    } else {
        None
    }
}

/// Reads a `FilePart` from `buf` at `pos`; on success also gives the
/// position just past it.
pub fn decode_file_part(buf: &[u8], pos: usize) -> (r: Result<(FilePart, usize), MalformedMessage>)
    requires
        pos <= buf@.len(),
    ensures
        decoded(r, pos as int, parse_file_part(buf@.skip(pos as int))),
{
    let (part_num, at1) = match get_u64(buf, pos) {
        Ok(x) => x,
        Err(e) => return Err(e),
    };
    proof {
        assert(buf@.skip(pos as int).skip(8) =~= buf@.skip(at1 as int));
    }
    let (data, at2) = match get_bytes(buf, at1) {
        Ok(x) => x,
        Err(e) => return Err(e),
    };
    Ok((FilePart { part_num, data }, at2))
}

/// Reads a `FilePartResponse` from `buf` at `pos`; on success also gives
/// the position just past it.
pub fn decode_file_part_response(buf: &[u8], pos: usize) -> (r: Result<
    (FilePartResponse, usize),
    MalformedMessage,
>)
    requires
        pos <= buf@.len(),
    ensures
        decoded(r, pos as int, parse_file_part_response(buf@.skip(pos as int))),
{
    let (success, at1) = match get_bool(buf, pos) {
        Ok(x) => x,
        Err(e) => return Err(e),
    };
    proof {
        assert(buf@.skip(pos as int).skip(1) =~= buf@.skip(at1 as int));
    }
    let (message, at2) = match get_text(buf, at1) {
        Ok(x) => x,
        Err(e) => return Err(e),
    };
    Ok((FilePartResponse { success, message }, at2))
}


/// Text whose UTF-8 encoding is short enough for its length field.
pub open spec fn text_fits(t: Seq<char>) -> bool {
    encode_utf8(t).len() <= u64::MAX
}

proof fn lemma_u32_round_trip(v: u32, rest: Seq<u8>)
    ensures
        enc_u32(v).len() == 4,
        parse_u32(enc_u32(v) + rest) == Parsed::Ok((v, 4)),
{
    lemma_auto_spec_u32_to_from_le_bytes();
    assert((enc_u32(v) + rest).take(4) =~= enc_u32(v));
}

proof fn lemma_u64_round_trip(v: u64, rest: Seq<u8>)
    ensures
        enc_u64(v).len() == 8,
        parse_u64(enc_u64(v) + rest) == Parsed::Ok((v, 8)),
{
    lemma_auto_spec_u64_to_from_le_bytes();
    assert((enc_u64(v) + rest).take(8) =~= enc_u64(v));
}

proof fn lemma_i32_round_trip(v: i32, rest: Seq<u8>)
    ensures
        enc_i32(v).len() == 4,
        parse_i32(enc_i32(v) + rest) == Parsed::Ok((v, 4)),
{
    lemma_u32_round_trip(v as u32, rest);
    assert(((v as u32) as i32) == v) by (bit_vector);
}

proof fn lemma_bool_round_trip(b: bool, rest: Seq<u8>)
    ensures
        enc_bool(b).len() == 1,
        parse_bool(enc_bool(b) + rest) == Parsed::Ok((b, 1)),
{
}

proof fn lemma_status_kind_round_trip(k: FileStatusEnum, rest: Seq<u8>)
    ensures
        enc_status_kind(k).len() == 1,
        parse_status_kind(enc_status_kind(k) + rest) == Parsed::Ok((k, 1)),
{
}

proof fn lemma_bytes_round_trip(d: Seq<u8>, rest: Seq<u8>)
    requires
        d.len() <= u64::MAX,
    ensures
        enc_bytes(d).len() == 8 + d.len(),
        parse_bytes(enc_bytes(d) + rest) == Parsed::Ok((d, (8 + d.len()) as nat)),
{
    let s = enc_bytes(d) + rest;
    assert(s =~= enc_u64(d.len() as u64) + (d + rest));
    lemma_u64_round_trip(d.len() as u64, d + rest);
    assert(s.subrange(8, 8 + d.len() as int) =~= d);
}

proof fn lemma_text_round_trip(t: Seq<char>, rest: Seq<u8>)
    requires
        text_fits(t),
    ensures
        enc_text(t).len() == 8 + encode_utf8(t).len(),
        parse_text(enc_text(t) + rest) == Parsed::Ok((t, enc_text(t).len())),
{
    lemma_bytes_round_trip(encode_utf8(t), rest);
    encode_utf8_valid_utf8(t);
    encode_utf8_decode_utf8(t);
}

proof fn lemma_version_round_trip(v: Version, rest: Seq<u8>)
    ensures
        enc_version(v).len() == 12,
        parse_version(enc_version(v) + rest) == Parsed::Ok((v, 12)),
{
    let s = enc_version(v) + rest;
    let (a, b, c) = (enc_u32(v.major), enc_u32(v.minor), enc_u32(v.patch));
    lemma_u32_round_trip(v.major, b + c + rest);
    lemma_u32_round_trip(v.minor, c + rest);
    lemma_u32_round_trip(v.patch, rest);
    assert(s =~= a + (b + c + rest));
    assert(s.skip(4) =~= b + (c + rest));
    assert(s.skip(8) =~= c + rest);
}

proof fn lemma_file_status_round_trip(m: FileStatus, rest: Seq<u8>)
    ensures
        enc_file_status(m).len() == 29,
        parse_file_status(enc_file_status(m) + rest) == Parsed::Ok((m, 29)),
{
    let s = enc_file_status(m) + rest;
    let a = enc_i32(m.id);
    let b = enc_status_kind(m.status);
    let c = enc_u64(m.request_packet);
    let d = enc_u64(m.packet_size);
    let f = enc_u64(m.total_packets);
    lemma_i32_round_trip(m.id, b + c + d + f + rest);
    lemma_status_kind_round_trip(m.status, c + d + f + rest);
    lemma_u64_round_trip(m.request_packet, d + f + rest);
    lemma_u64_round_trip(m.packet_size, f + rest);
    lemma_u64_round_trip(m.total_packets, rest);
    assert(s =~= a + (b + c + d + f + rest));
    assert(s.skip(4) =~= b + (c + d + f + rest));
    assert(s.skip(5) =~= c + (d + f + rest));
    assert(s.skip(13) =~= d + (f + rest));
    assert(s.skip(21) =~= f + rest);
}

/// Reading back the bytes of an `AuthRequest`, whatever follows them,
/// gives the same request and takes exactly those bytes.
pub proof fn lemma_auth_request_round_trip(m: AuthRequestView, rest: Seq<u8>)
    requires
        text_fits(m.token),
    ensures
        parse_auth_request(enc_auth_request(m) + rest) == Parsed::Ok(
            (m, enc_auth_request(m).len()),
        ),
{
    let s = enc_auth_request(m) + rest;
    lemma_version_round_trip(m.version, enc_text(m.token) + rest);
    lemma_text_round_trip(m.token, rest);
    assert(s =~= enc_version(m.version) + (enc_text(m.token) + rest));
    assert(s.skip(12) =~= enc_text(m.token) + rest);
}

/// Reading back the bytes of an `AuthResponse`, whatever follows them,
/// gives the same response and takes exactly those bytes.
pub proof fn lemma_auth_response_round_trip(m: AuthResponseView, rest: Seq<u8>)
    requires
        text_fits(m.failure_reason),
    ensures
        parse_auth_response(enc_auth_response(m) + rest) == Parsed::Ok(
            (m, enc_auth_response(m).len()),
        ),
{
    let s = enc_auth_response(m) + rest;
    lemma_bool_round_trip(m.success, enc_text(m.failure_reason) + rest);
    lemma_text_round_trip(m.failure_reason, rest);
    assert(s =~= enc_bool(m.success) + (enc_text(m.failure_reason) + rest));
    assert(s.skip(1) =~= enc_text(m.failure_reason) + rest);
}

/// Reading back the bytes of a `FileDescription`, whatever follows them,
/// gives the same description and takes exactly those bytes.
pub proof fn lemma_file_description_round_trip(m: FileDescriptionView, rest: Seq<u8>)
    requires
        text_fits(m.name),
    ensures
        parse_file_description(enc_file_description(m) + rest) == Parsed::Ok(
            (m, enc_file_description(m).len()),
        ),
{
    let s = enc_file_description(m) + rest;
    let a = enc_text(m.name);
    let b = enc_u64(m.size);
    let c = enc_u64(m.packet_size);
    lemma_text_round_trip(m.name, b + c + rest);
    lemma_u64_round_trip(m.size, c + rest);
    lemma_u64_round_trip(m.packet_size, rest);
    assert(s =~= a + (b + c + rest));
    assert(s.skip(a.len() as int) =~= b + (c + rest));
    assert(s.skip(a.len() + 8int) =~= c + rest);
}

/// Reading back the bytes of a `FileDescriptionResponse`, whatever follows
/// them, gives the same response and takes exactly those bytes.
pub proof fn lemma_file_description_response_round_trip(
    m: FileDescriptionResponseView,
    rest: Seq<u8>,
)
    requires
        m matches FileDescriptionResponseView::FailMessage(t) ==> text_fits(t),
    ensures
        parse_file_description_response(enc_file_description_response(m) + rest) == Parsed::Ok(
            (m, enc_file_description_response(m).len()),
        ),
{
    let s = enc_file_description_response(m) + rest;
    match m {
        FileDescriptionResponseView::Status(st) => {
            lemma_file_status_round_trip(st, rest);
            assert(s.skip(1) =~= enc_file_status(st) + rest);
        },
        FileDescriptionResponseView::FailMessage(t) => {
            lemma_text_round_trip(t, rest);
            assert(s.skip(1) =~= enc_text(t) + rest);
        },
    }
}

/// Reading back the bytes of a `FilePart`, whatever follows them, gives
/// the same part and takes exactly those bytes.
pub proof fn lemma_file_part_round_trip(m: FilePartView, rest: Seq<u8>)
    requires
        m.data.len() <= u64::MAX,
    ensures
        parse_file_part(enc_file_part(m) + rest) == Parsed::Ok((m, enc_file_part(m).len())),
{
    let s = enc_file_part(m) + rest;
    lemma_u64_round_trip(m.part_num, enc_bytes(m.data) + rest);
    lemma_bytes_round_trip(m.data, rest);
    assert(s =~= enc_u64(m.part_num) + (enc_bytes(m.data) + rest));
    assert(s.skip(8) =~= enc_bytes(m.data) + rest);
}

/// Reading back the bytes of a `FilePartResponse`, whatever follows them,
/// gives the same response and takes exactly those bytes.
pub proof fn lemma_file_part_response_round_trip(m: FilePartResponseView, rest: Seq<u8>)
    requires
        text_fits(m.message),
    ensures
        parse_file_part_response(enc_file_part_response(m) + rest) == Parsed::Ok(
            (m, enc_file_part_response(m).len()),
        ),
{
    let s = enc_file_part_response(m) + rest;
    lemma_bool_round_trip(m.success, enc_text(m.message) + rest);
    lemma_text_round_trip(m.message, rest);
    assert(s =~= enc_bool(m.success) + (enc_text(m.message) + rest));
    assert(s.skip(1) =~= enc_text(m.message) + rest);
}


/// Bytes `s` start with `enc`.
pub open spec fn starts_with(s: Seq<u8>, enc: Seq<u8>) -> bool {
    enc.len() <= s.len() && s.take(enc.len() as int) == enc
}

proof fn lemma_join(s: Seq<u8>, a: Seq<u8>, b: Seq<u8>)
    requires
        starts_with(s, a),
        starts_with(s.skip(a.len() as int), b),
    ensures
        starts_with(s, a + b),
{
    assert(s.take((a + b).len() as int) =~= a + b) by {
        assert forall|k: int| 0 <= k < (a + b).len() implies s[k] == (a + b)[k] by {
            if k >= a.len() {
                assert(s.skip(a.len() as int)[k - a.len()] == s[k]);
                assert(s.skip(a.len() as int).take(b.len() as int)[k - a.len()] == b[k - a.len()]);
            } else {
                assert(s.take(a.len() as int)[k] == a[k]);
            }
        }
    }
}

proof fn lemma_u32_exact(s: Seq<u8>)
    requires
        parse_u32(s) is Ok,
    ensures
        parse_u32(s) matches Ok((v, n)) && n == 4 && enc_u32(v).len() == 4
            && starts_with(s, enc_u32(v)),
{
    lemma_auto_spec_u32_to_from_le_bytes();
    assert(s.take(4).len() == 4);
}

proof fn lemma_u64_exact(s: Seq<u8>)
    requires
        parse_u64(s) is Ok,
    ensures
        parse_u64(s) matches Ok((v, n)) && n == 8 && enc_u64(v).len() == 8
            && starts_with(s, enc_u64(v)),
{
    lemma_auto_spec_u64_to_from_le_bytes();
    assert(s.take(8).len() == 8);
}

proof fn lemma_i32_exact(s: Seq<u8>)
    requires
        parse_i32(s) is Ok,
    ensures
        parse_i32(s) matches Ok((v, n)) && n == 4 && enc_i32(v).len() == 4
            && starts_with(s, enc_i32(v)),
{
    lemma_auto_spec_u32_to_from_le_bytes();
    let x = spec_u32_from_le_bytes(s.take(4));
    assert(((x as i32) as u32) == x) by (bit_vector);
    assert(s.take(4).len() == 4);
}

proof fn lemma_bool_exact(s: Seq<u8>)
    requires
        parse_bool(s) is Ok,
    ensures
        parse_bool(s) matches Ok((v, n)) && n == 1 && enc_bool(v).len() == 1
            && starts_with(s, enc_bool(v)),
{
    assert(s.take(1) =~= seq![s[0]]);
}

proof fn lemma_status_kind_exact(s: Seq<u8>)
    requires
        parse_status_kind(s) is Ok,
    ensures
        parse_status_kind(s) matches Ok((v, n)) && n == 1 && enc_status_kind(v).len() == 1
            && starts_with(s, enc_status_kind(v)),
{
    assert(s.take(1) =~= seq![s[0]]);
}

proof fn lemma_bytes_exact(s: Seq<u8>)
    requires
        parse_bytes(s) is Ok,
    ensures
        parse_bytes(s) matches Ok((d, n)) && n == 8 + d.len() && d.len() <= u64::MAX
            && enc_bytes(d).len() == n && starts_with(s, enc_bytes(d)),
{
    lemma_u64_exact(s);
    let len = spec_u64_from_le_bytes(s.take(8));
    let d = s.subrange(8, 8 + len);
    assert(d.len() as u64 == len);
    assert(s.skip(8).take(d.len() as int) =~= d);
    lemma_join(s, enc_u64(len), d);
}

proof fn lemma_text_exact(s: Seq<u8>)
    requires
        parse_text(s) is Ok,
    ensures
        parse_text(s) matches Ok((t, n)) && n == enc_text(t).len() && text_fits(t) && starts_with(
            s,
            enc_text(t),
        ),
{
    lemma_bytes_exact(s);
    let b = parse_bytes(s)->Ok_0.0;
    decode_utf8_encode_utf8(b);
}

proof fn lemma_version_exact(s: Seq<u8>)
    requires
        parse_version(s) is Ok,
    ensures
        parse_version(s) matches Ok((v, n)) && n == 12 && enc_version(v).len() == 12
            && starts_with(s, enc_version(v)),
{
    lemma_u32_exact(s);
    lemma_u32_exact(s.skip(4));
    lemma_u32_exact(s.skip(8));
    let v = parse_version(s)->Ok_0.0;
    assert(s.skip(4).skip(4) =~= s.skip(8));
    lemma_join(s.skip(4), enc_u32(v.minor), enc_u32(v.patch));
    lemma_join(s, enc_u32(v.major), enc_u32(v.minor) + enc_u32(v.patch));
    assert(enc_u32(v.major) + (enc_u32(v.minor) + enc_u32(v.patch)) =~= enc_version(v));
}

proof fn lemma_file_status_exact(s: Seq<u8>)
    requires
        parse_file_status(s) is Ok,
    ensures
        parse_file_status(s) matches Ok((v, n)) && n == 29 && enc_file_status(v).len() == 29
            && starts_with(s, enc_file_status(v)),
{
    lemma_i32_exact(s);
    lemma_status_kind_exact(s.skip(4));
    lemma_u64_exact(s.skip(5));
    lemma_u64_exact(s.skip(13));
    lemma_u64_exact(s.skip(21));
    let v = parse_file_status(s)->Ok_0.0;
    let (a, b, c, d, f) = (
        enc_i32(v.id),
        enc_status_kind(v.status),
        enc_u64(v.request_packet),
        enc_u64(v.packet_size),
        enc_u64(v.total_packets),
    );
    assert(s.skip(4).skip(1) =~= s.skip(5));
    assert(s.skip(5).skip(8) =~= s.skip(13));
    assert(s.skip(13).skip(8) =~= s.skip(21));
    lemma_join(s.skip(13), d, f);
    lemma_join(s.skip(5), c, d + f);
    lemma_join(s.skip(4), b, c + (d + f));
    lemma_join(s, a, b + (c + (d + f)));
    assert(a + (b + (c + (d + f))) =~= enc_file_status(v));
}

/// Whatever an `AuthRequest` is read from begins with exactly that
/// request's bytes, and the reading takes those bytes and no others.
pub proof fn lemma_auth_request_exact(s: Seq<u8>)
    requires
        parse_auth_request(s) is Ok,
    ensures
        parse_auth_request(s) matches Ok((m, n)) && n == enc_auth_request(m).len() && text_fits(
            m.token,
        ) && starts_with(s, enc_auth_request(m)),
{
    lemma_version_exact(s);
    lemma_text_exact(s.skip(12));
    let m = parse_auth_request(s)->Ok_0.0;
    lemma_join(s, enc_version(m.version), enc_text(m.token));
}

/// Whatever an `AuthResponse` is read from begins with exactly that
/// response's bytes, and the reading takes those bytes and no others.
pub proof fn lemma_auth_response_exact(s: Seq<u8>)
    requires
        parse_auth_response(s) is Ok,
    ensures
        parse_auth_response(s) matches Ok((m, n)) && n == enc_auth_response(m).len() && text_fits(
            m.failure_reason,
        ) && starts_with(s, enc_auth_response(m)),
{
    lemma_bool_exact(s);
    lemma_text_exact(s.skip(1));
    let m = parse_auth_response(s)->Ok_0.0;
    lemma_join(s, enc_bool(m.success), enc_text(m.failure_reason));
}

/// Whatever a `FileDescription` is read from begins with exactly that
/// description's bytes, and the reading takes those bytes and no others.
pub proof fn lemma_file_description_exact(s: Seq<u8>)
    requires
        parse_file_description(s) is Ok,
    ensures
        parse_file_description(s) matches Ok((m, n)) && n == enc_file_description(m).len()
            && text_fits(m.name) && starts_with(s, enc_file_description(m)),
{
    lemma_text_exact(s);
    let a = parse_text(s)->Ok_0.1;
    lemma_u64_exact(s.skip(a as int));
    lemma_u64_exact(s.skip(a + 8int));
    let m = parse_file_description(s)->Ok_0.0;
    assert(s.skip(a as int).skip(8) =~= s.skip(a + 8int));
    lemma_join(s.skip(a as int), enc_u64(m.size), enc_u64(m.packet_size));
    lemma_join(s, enc_text(m.name), enc_u64(m.size) + enc_u64(m.packet_size));
    assert(enc_text(m.name) + (enc_u64(m.size) + enc_u64(m.packet_size)) =~= enc_file_description(
        m,
    ));
}

/// Whatever a `FileDescriptionResponse` is read from begins with exactly
/// that response's bytes, and the reading takes those bytes and no others.
pub proof fn lemma_file_description_response_exact(s: Seq<u8>)
    requires
        parse_file_description_response(s) is Ok,
    ensures
        parse_file_description_response(s) matches Ok((m, n)) && n
            == enc_file_description_response(m).len() && (m matches FileDescriptionResponseView::FailMessage(
            t,
        ) ==> text_fits(t)) && starts_with(s, enc_file_description_response(m)),
{
    assert(s.take(1) =~= seq![s[0]]);
    if s[0] == 0 {
        lemma_file_status_exact(s.skip(1));
        let st = parse_file_status(s.skip(1))->Ok_0.0;
        lemma_join(s, seq![0u8], enc_file_status(st));
    } else {
        lemma_text_exact(s.skip(1));
        let t = parse_text(s.skip(1))->Ok_0.0;
        lemma_join(s, seq![1u8], enc_text(t));
    }
}

/// Whatever a `FilePart` is read from begins with exactly that part's
/// bytes, and the reading takes those bytes and no others.
pub proof fn lemma_file_part_exact(s: Seq<u8>)
    requires
        parse_file_part(s) is Ok,
    ensures
        parse_file_part(s) matches Ok((m, n)) && n == enc_file_part(m).len() && m.data.len()
            <= u64::MAX && starts_with(s, enc_file_part(m)),
{
    lemma_u64_exact(s);
    lemma_bytes_exact(s.skip(8));
    let m = parse_file_part(s)->Ok_0.0;
    lemma_join(s, enc_u64(m.part_num), enc_bytes(m.data));
}

/// Whatever a `FilePartResponse` is read from begins with exactly that
/// response's bytes, and the reading takes those bytes and no others.
pub proof fn lemma_file_part_response_exact(s: Seq<u8>)
    requires
        parse_file_part_response(s) is Ok,
    ensures
        parse_file_part_response(s) matches Ok((m, n)) && n == enc_file_part_response(m).len()
            && text_fits(m.message) && starts_with(s, enc_file_part_response(m)),
{
    lemma_bool_exact(s);
    lemma_text_exact(s.skip(1));
    let m = parse_file_part_response(s)->Ok_0.0;
    lemma_join(s, enc_bool(m.success), enc_text(m.message));
}

} // verus!
