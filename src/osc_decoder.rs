use vstd::prelude::*;
use vstd::slice::slice_subrange;
use vstd::string::StrSliceExecFns;
use vstd::utf8::{decode_utf8, encode_utf8, is_scalar, valid_utf8};
use crate::types::{ArgModel, PacketModel, OscType, OscPacket, OscMessage, OscBundle, OscError, OscMidiMessage, OscColor, Result, packet_view};
use crate::be::{from_be32, from_be64, be_to_u32, be_to_u64};
use crate::encoder::{pad_spec, bundle_header, copy_bytes};
use crate::types::{arg_view, args_view};

verus! {

/// Common MTP size for ethernet
pub const MTP: usize = 1536;

/// `"/"`, the first byte of a message.
pub const MESSAGE_START: u8 = 47;

/// `"#"`, the first byte of a bundle.
pub const BUNDLE_START: u8 = 35;

/// Errors agree, where a malformed packet's reason is free.
pub open spec fn same_error(e: OscError, s: OscError) -> bool {
    match s {
        OscError::MalformedPacket(_) => e is MalformedPacket,
        _ => e == s,
    }
}

/// A malformed-packet error; its reason is left open.
pub open spec fn malformed() -> OscError {
    OscError::MalformedPacket(arbitrary())
}

/// The position of the first NUL byte of `b` at or after `pos`.
pub open spec fn first_nul(b: Seq<u8>, pos: int) -> Option<int>
    decreases b.len() - pos,
{
    if pos < 0 || pos >= b.len() {
        None
    } else if b[pos] == 0 {
        Some(pos)
    } else {
        first_nul(b, pos + 1)
    }
}

/// The smaller of `a` and `b`.
pub open spec fn min(a: int, b: int) -> int {
    if a <= b { a } else { b }
}

/// The bytes left after `pos`.
pub open spec fn avail(b: Seq<u8>, pos: int) -> usize {
    (b.len() - pos) as usize
}

/// Reads a string at `pos`: its characters and the position after its
/// padding (never past the end).
pub open spec fn dec_str(b: Seq<u8>, pos: int) -> core::result::Result<(Seq<char>, int), OscError> {
    match first_nul(b, pos) {
        None => Err(OscError::UnterminatedString),
        Some(z) => {
            let raw = b.subrange(pos, z);
            if valid_utf8(raw) {
                Ok((decode_utf8(raw), min(pad_spec(z + 1), b.len() as int)))
            } else {
                Err(OscError::InvalidUtf8)
            }
        },
    }
}

/// Reads the payload of one argument with type tag `tag` at `pos`.
#[verifier::opaque]
pub open spec fn dec_arg(b: Seq<u8>, pos: int, tag: char) -> core::result::Result<(ArgModel, int), OscError> {
    let left = b.len() - pos;
    if tag == 'i' || tag == 'f' || tag == 'c' || tag == 'm' || tag == 'r' {
        if left < 4 {
            Err(OscError::TruncatedValue(4, avail(b, pos)))
        } else {
            let w = b.subrange(pos, pos + 4);
            let n = from_be32(w);
            if tag == 'i' {
                Ok((ArgModel::Int(n as i32), pos + 4))
            } else if tag == 'f' {
                Ok((ArgModel::Float(n), pos + 4))
            } else if tag == 'c' {
                if is_scalar(n) {
                    Ok((ArgModel::Char(n as char), pos + 4))
                } else {
                    Err(malformed())
                }
            } else if tag == 'm' {
                Ok((ArgModel::Midi(w[0], w[1], w[2], w[3]), pos + 4))
            } else {
                Ok((ArgModel::Color(w[0], w[1], w[2], w[3]), pos + 4))
            }
        }
    } else if tag == 'h' || tag == 'd' || tag == 't' {
        if left < 8 {
            Err(OscError::TruncatedValue(8, avail(b, pos)))
        } else {
            let w = b.subrange(pos, pos + 8);
            if tag == 'h' {
                Ok((ArgModel::Long(from_be64(w) as i64), pos + 8))
            } else if tag == 'd' {
                Ok((ArgModel::Double(from_be64(w)), pos + 8))
            } else {
                Ok((ArgModel::Time(from_be32(w), from_be32(w.subrange(4, 8))), pos + 8))
            }
        }
    } else if tag == 's' {
        match dec_str(b, pos) {
            Err(e) => Err(e),
            Ok((s, next)) => Ok((ArgModel::Str(s), next)),
        }
    } else if tag == 'b' {
        if left < 4 {
            Err(OscError::TruncatedValue(4, avail(b, pos)))
        } else {
            let n = from_be32(b.subrange(pos, pos + 4)) as i32;
            if n < 0 {
                Err(OscError::NegativeOrOverflowingLength)
            } else if left - 4 < n {
                Err(OscError::TruncatedValue(n as usize, avail(b, pos + 4)))
            } else {
                Ok((
                    ArgModel::Blob(b.subrange(pos + 4, pos + 4 + n)),
                    min(pad_spec(pos + 4 + n), b.len() as int),
                ))
            }
        }
    } else if tag == 'T' {
        Ok((ArgModel::Bool(true), pos))
    } else if tag == 'F' {
        Ok((ArgModel::Bool(false), pos))
    } else if tag == 'N' {
        Ok((ArgModel::Nil, pos))
    } else if tag == 'I' {
        Ok((ArgModel::Inf, pos))
    } else {
        Err(OscError::UnsupportedTypeTag(tag))
    }
}

/// Reads the payloads of the arguments tagged by the first `k` of `tags`,
/// starting at `pos`.
pub open spec fn dec_args(b: Seq<u8>, tags: Seq<char>, k: int, pos: int) -> core::result::Result<(Seq<ArgModel>, int), OscError>
    decreases k,
{
    if k <= 0 {
        Ok((Seq::empty(), pos))
    } else {
        match dec_args(b, tags, k - 1, pos) {
            Err(e) => Err(e),
            Ok((args, p)) => match dec_arg(b, p, tags[k - 1]) {
                Err(e) => Err(e),
                Ok((a, next)) => Ok((args.push(a), next)),
            },
        }
    }
}

/// Reads a message that fills `b`.
pub open spec fn dec_message(b: Seq<u8>) -> core::result::Result<PacketModel, OscError> {
    match dec_str(b, 0) {
        Err(e) => Err(e),
        Ok((addr, p1)) => match dec_str(b, p1) {
            Err(e) => Err(e),
            Ok((tags, p2)) => if tags.len() == 0 || tags[0] != ',' {
                Err(malformed())
            } else {
                match dec_args(b, tags.drop_first(), tags.len() - 1, p2) {
                    Err(e) => Err(e),
                    Ok((args, _)) => Ok(
                        PacketModel::Message(addr, if args.len() == 0 { None } else { Some(args) }),
                    ),
                }
            },
        },
    }
}

/// Reads a packet that fills `b`.
pub open spec fn dec_packet(b: Seq<u8>) -> core::result::Result<PacketModel, OscError>
    decreases b.len(), 2int, 0int,
{
    if b.len() == 0 {
        Err(malformed())
    } else if b[0] == MESSAGE_START {
        dec_message(b)
    } else if b[0] == BUNDLE_START {
        dec_bundle(b)
    } else {
        Err(malformed())
    }
}

/// Reads a bundle that fills `b`.
pub open spec fn dec_bundle(b: Seq<u8>) -> core::result::Result<PacketModel, OscError>
    decreases b.len(), 1int, 0int,
{
    if b.len() < 8 {
        Err(OscError::TruncatedValue(8, b.len() as usize))
    } else if b.subrange(0, 8) != bundle_header() {
        Err(malformed())
    } else if b.len() < 16 {
        Err(OscError::TruncatedValue(8, avail(b, 8)))
    } else {
        match dec_elems(b, 16) {
            Err(e) => Err(e),
            Ok(elems) => Ok(
                PacketModel::Bundle(
                    ArgModel::Time(from_be32(b.subrange(8, 12)), from_be32(b.subrange(12, 16))),
                    elems,
                ),
            ),
        }
    }
}

/// Reads the length-prefixed elements of a bundle from `pos` to the end.
pub open spec fn dec_elems(b: Seq<u8>, pos: int) -> core::result::Result<Seq<PacketModel>, OscError>
    decreases b.len(), 0int, b.len() - pos,
{
    if pos < 16 || pos >= b.len() {
        Ok(Seq::empty())
    } else if b.len() - pos < 4 {
        Err(OscError::TruncatedValue(4, avail(b, pos)))
    } else {
        let n = from_be32(b.subrange(pos, pos + 4)) as int;
        if b.len() - pos - 4 < n {
            Err(OscError::TruncatedValue(n as usize, avail(b, pos + 4)))
        } else {
            match dec_packet(b.subrange(pos + 4, pos + 4 + n)) {
                Err(e) => Err(e),
                Ok(p) => match dec_elems(b, pos + 4 + n) {
                    Err(e) => Err(e),
                    Ok(rest) => Ok(seq![p] + rest),
                },
            }
        }
    }
}

/// `r` is the executable form of the specified outcome `s`.
pub open spec fn decoded(r: Result<OscPacket>, s: core::result::Result<PacketModel, OscError>) -> bool {
    match r {
        Ok(p) => s == Ok::<PacketModel, OscError>(packet_view(p)),
        Err(f) => s matches Err(e) && same_error(f, e),
    }
}

/// The models of a sequence of packets.
pub open spec fn elems_view(v: Seq<OscPacket>) -> Seq<PacketModel> {
    Seq::new(v.len(), |i: int| packet_view(v[i]))
}

/// `acc` in front of the elements that `r` reads, or the error it meets.
pub open spec fn chain(acc: Seq<PacketModel>, r: core::result::Result<Seq<PacketModel>, OscError>) -> core::result::Result<Seq<PacketModel>, OscError> {
    match r {
        Ok(rest) => Ok(acc + rest),
        Err(e) => Err(e),
    }
}

/// Relies on `String::from_utf8`: it succeeds exactly on valid UTF-8, and the
/// string it returns holds the given bytes.
#[verifier::external_body]
fn string_from_utf8(b: Vec<u8>) -> (r: Option<String>)
    ensures
        r is Some <==> valid_utf8(b@),
        r matches Some(s) ==> encode_utf8(s@) == b@,
{
    String::from_utf8(b).ok()
}

/// Relies on `char::from_u32`: it succeeds exactly on Unicode scalar values,
/// and the character it returns has that code point.
#[verifier::external_body]
fn char_from_u32(n: u32) -> (r: Option<char>)
    ensures
        r is Some <==> is_scalar(n),
        r matches Some(c) ==> c as u32 == n,
{
    char::from_u32(n)
}

/// Returns the position padded to 4 bytes.
pub fn pad_four(pos: u64) -> (r: u64)
    requires
        pos <= u64::MAX - 3,
    ensures
        r == pad_spec(pos as int),
{
    let d: u64 = pos % 4;
    if d == 0 {
        pos
    } else {
        pos + (4 - d)
    }
}

/// The cursor after padding from `pos`, kept within a buffer of `len` bytes.
fn advance(pos: usize, len: usize) -> (r: usize)
    requires
        pos <= len,
    ensures
        r == min(pad_spec(pos as int), len as int),
{
    if (pos as u64) <= u64::MAX - 3 {
        let p = pad_four(pos as u64);
        if p > len as u64 {
            len
        } else {
            p as usize
        }
    } else {
        len
    }
}

fn malformed_packet(reason: &str) -> (r: OscError)
    ensures
        r matches OscError::MalformedPacket(m) && m@ == reason@,
{
    OscError::MalformedPacket(reason.to_owned())
}

/// Reads a NUL-terminated, padded string at `pos`. Padding cut short by the
/// end of the buffer is accepted, and the cursor then stops at the end.
pub fn read_osc_string(buf: &[u8], pos: usize) -> (r: Result<(String, usize)>)
    requires
        pos <= buf@.len(),
    ensures
        match dec_str(buf@, pos as int) {
            Ok((s, next)) => r matches Ok((t, n)) && t@ == s && n == next,
            Err(e) => r == Err::<(String, usize), OscError>(e),
        },
        r matches Ok((_, n)) ==> pos <= n <= buf@.len(),
{
    let mut z: usize = pos;
    while z < buf.len() && buf[z] != 0
        invariant
            pos <= z <= buf@.len(),
            first_nul(buf@, pos as int) == first_nul(buf@, z as int),
        decreases buf@.len() - z,
    {
        z = z + 1;
    }
    if z == buf.len() {
        return Err(OscError::UnterminatedString);
    }
    let raw = copy_bytes(slice_subrange(buf, pos, z));
    proof {
        broadcast use vstd::utf8::encode_utf8_decode_utf8;
    }
    match string_from_utf8(raw) {
        None => Err(OscError::InvalidUtf8),
        Some(s) => Ok((s, advance(z + 1, buf.len()))),
    }
}

/// Reads the payload of one argument whose type tag is `tag`.
fn decode_arg(buf: &[u8], pos: usize, tag: char) -> (r: Result<(OscType, usize)>)
    requires
        pos <= buf@.len(),
    ensures
        match dec_arg(buf@, pos as int, tag) {
            Ok((a, next)) => r matches Ok((v, n)) && arg_view(v) == a && n == next,
            Err(e) => r matches Err(f) && same_error(f, e),
        },
        r matches Ok((_, n)) ==> pos <= n <= buf@.len(),
{
    reveal(dec_arg);
    let left = buf.len() - pos;
    if tag == 'i' || tag == 'f' || tag == 'c' || tag == 'm' || tag == 'r' {
        if left < 4 {
            return Err(OscError::TruncatedValue(4, left));
        }
        let n = be_to_u32(buf, pos);
        if tag == 'i' {
            Ok((OscType::Int(#[verifier::truncate] (n as i32)), pos + 4))
        } else if tag == 'f' {
            Ok((OscType::Float(n), pos + 4))
        } else if tag == 'c' {
            match char_from_u32(n) {
                Some(c) => {
                    proof {
                        vstd::utf8::char_u32_cast(c, n);
                    }
                    Ok((OscType::Char(c), pos + 4))
                },
                None => Err(malformed_packet("character out of range")),
            }
        } else if tag == 'm' {
            let m = OscMidiMessage { port: buf[pos], status: buf[pos + 1], data1: buf[pos + 2], data2: buf[pos + 3] };
            Ok((OscType::Midi(m), pos + 4))
        } else {
            let c = OscColor { red: buf[pos], green: buf[pos + 1], blue: buf[pos + 2], alpha: buf[pos + 3] };
            Ok((OscType::Color(c), pos + 4))
        }
    } else if tag == 'h' || tag == 'd' || tag == 't' {
        if left < 8 {
            return Err(OscError::TruncatedValue(8, left));
        }
        if tag == 'h' {
            Ok((OscType::Long(#[verifier::truncate] (be_to_u64(buf, pos) as i64)), pos + 8))
        } else if tag == 'd' {
            Ok((OscType::Double(be_to_u64(buf, pos)), pos + 8))
        } else {
            let sec = be_to_u32(buf, pos);
            let frac = be_to_u32(buf, pos + 4);
            proof {
                let w = buf@.subrange(pos as int, pos + 8);
                assert(w.subrange(4, 8) =~= buf@.subrange(pos + 4, pos + 8));
            }
            Ok((OscType::Time(sec, frac), pos + 8))
        }
    } else if tag == 's' {
        match read_osc_string(buf, pos) {
            Err(e) => Err(e),
            Ok((s, next)) => Ok((OscType::String(s), next)),
        }
    } else if tag == 'b' {
        if left < 4 {
            return Err(OscError::TruncatedValue(4, left));
        }
        let n = #[verifier::truncate] (be_to_u32(buf, pos) as i32);
        if n < 0 {
            return Err(OscError::NegativeOrOverflowingLength);
        }
        let n = n as usize;
        if left - 4 < n {
            return Err(OscError::TruncatedValue(n, left - 4));
        }
        let data = copy_bytes(slice_subrange(buf, pos + 4, pos + 4 + n));
        Ok((OscType::Blob(data), advance(pos + 4 + n, buf.len())))
    } else if tag == 'T' {
        Ok((OscType::Bool(true), pos))
    } else if tag == 'F' {
        Ok((OscType::Bool(false), pos))
    } else if tag == 'N' {
        Ok((OscType::Nil, pos))
    } else if tag == 'I' {
        Ok((OscType::Inf, pos))
    } else {
        Err(OscError::UnsupportedTypeTag(tag))
    }
}

/// An error met among the first `j` arguments stays the outcome.
proof fn lemma_args_error(b: Seq<u8>, tags: Seq<char>, j: int, k: int, pos: int)
    requires
        0 <= j <= k,
        dec_args(b, tags, j, pos) is Err,
    ensures
        dec_args(b, tags, k, pos) == dec_args(b, tags, j, pos),
    decreases k,
{
    if k > j {
        lemma_args_error(b, tags, j, k - 1, pos);
    }
}

fn decode_message(buf: &[u8]) -> (r: Result<OscPacket>)
    ensures
        decoded(r, dec_message(buf@)),
{
    let ghost b = buf@;
    let (addr, p1) = match read_osc_string(buf, 0) {
        Ok(x) => x,
        Err(e) => return Err(e),
    };
    let (tags, p2) = match read_osc_string(buf, p1) {
        Ok(x) => x,
        Err(e) => return Err(e),
    };
    let tl = tags.as_str().unicode_len();
    if tl == 0 || tags.as_str().get_char(0) != ',' {
        return Err(malformed_packet("type tags must begin with a comma"));
    }
    let ghost ts = tags@.drop_first();
    let mut args: Vec<OscType> = Vec::new();
    let mut pos: usize = p2;
    let mut k: usize = 1;
    assert(args_view(args@) =~= Seq::<ArgModel>::empty());
    while k < tl
        invariant
            b == buf@,
            ts == tags@.drop_first(),
            tl == tags@.len(),
            tags@[0] == ',',
            dec_str(b, 0) == Ok::<(Seq<char>, int), OscError>((addr@, p1 as int)),
            dec_str(b, p1 as int) == Ok::<(Seq<char>, int), OscError>((tags@, p2 as int)),
            1 <= k <= tl,
            pos <= buf@.len(),
            dec_args(b, ts, k - 1, p2 as int) == Ok::<(Seq<ArgModel>, int), OscError>((args_view(args@), pos as int)),
        decreases tl - k,
    {
        let t = tags.as_str().get_char(k);
        assert(ts[k - 1] == t);
        match decode_arg(buf, pos, t) {
            Err(e) => {
                proof {
                    assert(dec_args(b, ts, k as int, p2 as int) is Err);
                    lemma_args_error(b, ts, k as int, tl - 1, p2 as int);
                }
                return Err(e);
            },
            Ok((v, next)) => {
                let ghost before = args@;
                args.push(v);
                pos = next;
                assert(args_view(args@) =~= args_view(before).push(arg_view(v)));
            },
        }
        k = k + 1;
    }
    let msg_args = if args.len() == 0 {
        None
    } else {
        Some(args)
    };
    Ok(OscPacket::Message(OscMessage { addr, args: msg_args }))
}

/// Decodes the first `size` bytes of `msg` (all of it, if it is shorter)
/// as one packet.
///
/// A buffer that ends inside the NUL padding of its last string or blob is
/// accepted: the padding is skipped up to the end, not required.
pub fn decode(msg: &[u8], size: usize) -> (r: Result<OscPacket>)
    ensures
        decoded(r, dec_packet(msg@.take(min(size as int, msg@.len() as int)))),
        min(size as int, msg@.len() as int) > 0 && msg@[0] != MESSAGE_START && msg@[0] != BUNDLE_START
            ==> (r matches Err(OscError::MalformedPacket(m)) && m@ == "unknown leading byte"@),
{
    let n = if size < msg.len() {
        size
    } else {
        msg.len()
    };
    let body = slice_subrange(msg, 0, n);
    assert(body@ =~= msg@.take(n as int));
    decode_packet(body)
}

/// Decodes a packet that fills `buf`, dispatching on its first byte.
pub fn decode_packet(buf: &[u8]) -> (r: Result<OscPacket>)
    ensures
        decoded(r, dec_packet(buf@)),
        buf@.len() > 0 && buf@[0] != MESSAGE_START && buf@[0] != BUNDLE_START
            ==> (r matches Err(OscError::MalformedPacket(m)) && m@ == "unknown leading byte"@),
    decreases buf@.len(), 2int,
{
    if buf.len() == 0 {
        Err(malformed_packet("empty packet"))
    } else if buf[0] == MESSAGE_START {
        decode_message(buf)
    } else if buf[0] == BUNDLE_START {
        decode_bundle(buf)
    } else {
        Err(malformed_packet("unknown leading byte"))
    }
}

fn is_bundle_header(buf: &[u8]) -> (r: bool)
    requires
        buf@.len() >= 8,
    ensures
        r == (buf@.subrange(0, 8) == bundle_header()),
{
    let r = buf[0] == 35u8 && buf[1] == 98u8 && buf[2] == 117u8 && buf[3] == 110u8 && buf[4] == 100u8
        && buf[5] == 108u8 && buf[6] == 101u8 && buf[7] == 0u8;
    proof {
        if r {
            assert(buf@.subrange(0, 8) =~= bundle_header());
        } else {
            let h = bundle_header();
            assert(exists|i: int| 0 <= i < 8 && buf@.subrange(0, 8)[i] != h[i]);
        }
    }
    r
}

fn decode_bundle(buf: &[u8]) -> (r: Result<OscPacket>)
    ensures
        decoded(r, dec_bundle(buf@)),
    decreases buf@.len(), 1int,
{
    let ghost b = buf@;
    let len = buf.len();
    if len < 8 {
        return Err(OscError::TruncatedValue(8, len));
    }
    if !is_bundle_header(buf) {
        return Err(malformed_packet("bad bundle header"));
    }
    if len < 16 {
        return Err(OscError::TruncatedValue(8, len - 8));
    }
    let sec = be_to_u32(buf, 8);
    let frac = be_to_u32(buf, 12);
    let mut content: Vec<OscPacket> = Vec::new();
    let mut pos: usize = 16;
    assert(elems_view(content@) =~= Seq::<PacketModel>::empty());
    while pos < len
        invariant
            b == buf@,
            len == buf@.len(),
            16 <= pos <= len,
            b.subrange(0, 8) == bundle_header(),
            sec == from_be32(b.subrange(8, 12)),
            frac == from_be32(b.subrange(12, 16)),
            dec_elems(b, 16) == chain(elems_view(content@), dec_elems(b, pos as int)),
        decreases len - pos,
    {
        if len - pos < 4 {
            return Err(OscError::TruncatedValue(4, len - pos));
        }
        let n = be_to_u32(buf, pos) as usize;
        if len - pos - 4 < n {
            return Err(OscError::TruncatedValue(n, len - pos - 4));
        }
        let sub = slice_subrange(buf, pos + 4, pos + 4 + n);
        match decode_packet(sub) {
            Err(e) => {
                return Err(e);
            },
            Ok(p) => {
                let ghost before = content@;
                content.push(p);
                assert(elems_view(content@) =~= elems_view(before).push(packet_view(p)));
                assert(elems_view(before) + (seq![packet_view(p)] + dec_elems(b, pos + 4 + n)->Ok_0)
                    =~= elems_view(content@) + dec_elems(b, pos + 4 + n)->Ok_0);
            },
        }
        pos = pos + 4 + n;
    }
    let packet = OscPacket::Bundle(OscBundle { timetag: OscType::Time(sec, frac), content });
    assert(elems_view(content@) + Seq::<PacketModel>::empty() =~= elems_view(content@));
    proof {
        let pv = packet_view(packet);
        assert(pv->Bundle_1 =~= elems_view(content@));
    }
    Ok(packet)
}

} // verus!
