use vstd::prelude::*;
use vstd::utf8::encode_utf8;
use crate::types::{ArgModel, PacketModel, OscType, OscPacket, OscMessage, OscBundle, OscError, Result, arg_view, args_view, packet_view};
use crate::be::{be32, be64, u32_to_be, u64_to_be};

verus! {

broadcast use vstd::std_specs::vec::axiom_vec_index_decreases;

/// Type-tag characters, as bytes.
pub const TAG_INT: u8 = 105;
pub const TAG_LONG: u8 = 104;
pub const TAG_FLOAT: u8 = 102;
pub const TAG_DOUBLE: u8 = 100;
pub const TAG_CHAR: u8 = 99;
pub const TAG_STRING: u8 = 115;
pub const TAG_BLOB: u8 = 98;
pub const TAG_TIME: u8 = 116;
pub const TAG_MIDI: u8 = 109;
pub const TAG_COLOR: u8 = 114;
pub const TAG_TRUE: u8 = 84;
pub const TAG_FALSE: u8 = 70;
pub const TAG_NIL: u8 = 78;
pub const TAG_INF: u8 = 73;
pub const TAG_START: u8 = 44;
pub const TAG_ARRAY_START: u8 = 91;
pub const TAG_ARRAY_END: u8 = 93;

/// The smallest multiple of 4 that is at least `n`.
pub open spec fn pad_spec(n: int) -> int {
    if n % 4 == 0 { n } else { n + (4 - n % 4) }
}

/// `n` zero bytes.
pub open spec fn zeros(n: int) -> Seq<u8> {
    Seq::new(n as nat, |i: int| 0u8)
}

/// `b` followed by zero bytes up to the next multiple of 4.
pub open spec fn pad_to4(b: Seq<u8>) -> Seq<u8> {
    b + zeros(pad_spec(b.len() as int) - b.len())
}

/// `b`, a NUL terminator, and zero bytes up to the next multiple of 4.
pub open spec fn nul_pad(b: Seq<u8>) -> Seq<u8> {
    pad_to4(b.push(0u8))
}

/// The wire form of a string.
pub open spec fn enc_str(s: Seq<char>) -> Seq<u8> {
    nul_pad(encode_utf8(s))
}

/// The type-tag character of an argument.
pub open spec fn tag_of(a: ArgModel) -> u8 {
    match a {
        ArgModel::Int(_) => TAG_INT,
        ArgModel::Long(_) => TAG_LONG,
        ArgModel::Float(_) => TAG_FLOAT,
        ArgModel::Double(_) => TAG_DOUBLE,
        ArgModel::Char(_) => TAG_CHAR,
        ArgModel::Str(_) => TAG_STRING,
        ArgModel::Blob(_) => TAG_BLOB,
        ArgModel::Time(_, _) => TAG_TIME,
        ArgModel::Midi(_, _, _, _) => TAG_MIDI,
        ArgModel::Color(_, _, _, _) => TAG_COLOR,
        ArgModel::Bool(b) => if b { TAG_TRUE } else { TAG_FALSE },
        ArgModel::Nil => TAG_NIL,
        ArgModel::Inf => TAG_INF,
        ArgModel::Array(_) => 91u8,
    }
}

/// The bytes an argument contributes after the type-tag string.
pub open spec fn payload_of(a: ArgModel) -> Seq<u8> {
    match a {
        ArgModel::Int(x) => be32(x as u32),
        ArgModel::Long(x) => be64(x as u64),
        ArgModel::Float(x) => be32(x),
        ArgModel::Double(x) => be64(x),
        ArgModel::Char(c) => be32(c as u32),
        ArgModel::Str(s) => enc_str(s),
        ArgModel::Blob(b) => be32(b.len() as u32) + pad_to4(b),
        ArgModel::Time(s, f) => be32(s) + be32(f),
        ArgModel::Midi(a, b, c, d) => seq![a, b, c, d],
        ArgModel::Color(a, b, c, d) => seq![a, b, c, d],
        _ => Seq::empty(),
    }
}

/// Why an argument other than an array cannot be encoded, if it cannot.
pub open spec fn arg_error(a: ArgModel) -> Option<OscError> {
    match a {
        ArgModel::Blob(b) => if b.len() > i32::MAX { Some(OscError::NegativeOrOverflowingLength) } else { None },
        _ => None,
    }
}

/// The number of elements of an array argument (none for any other).
pub open spec fn n_items(a: ArgModel) -> int {
    match a {
        ArgModel::Array(v) => v.len() as int,
        _ => 0,
    }
}

/// The tag that closes an array; nothing for any other argument.
pub open spec fn close_tag(a: ArgModel) -> Seq<u8> {
    if a is Array {
        seq![TAG_ARRAY_END]
    } else {
        Seq::empty()
    }
}

/// What an argument adds to the type-tag string and to the payloads, or the
/// first error it meets; of an array, its opening tag and its first `n`
/// elements.
pub open spec fn arg_upto(a: ArgModel, n: int) -> core::result::Result<(Seq<u8>, Seq<u8>), OscError>
    decreases a, n,
{
    match a {
        ArgModel::Array(v) => {
            if n <= 0 {
                Ok((seq![TAG_ARRAY_START], Seq::empty()))
            } else if n > v.len() {
                arg_upto(a, v.len() as int)
            } else {
                match arg_upto(a, n - 1) {
                    Err(e) => Err(e),
                    Ok((t, p)) => {
                        let x = v[n - 1];
                        match arg_upto(x, n_items(x)) {
                            Err(e) => Err(e),
                            Ok((t2, p2)) => Ok((t + t2 + close_tag(x), p + p2)),
                        }
                    },
                }
            }
        },
        _ => match arg_error(a) {
            Some(e) => Err(e),
            None => Ok((seq![tag_of(a)], payload_of(a))),
        },
    }
}

/// The type tags and the payload of an argument, or the first error it meets.
/// An array's tags are its elements' tags between `[` and `]`, and its
/// payload is its elements' payloads in order.
pub open spec fn enc_arg(a: ArgModel) -> core::result::Result<(Seq<u8>, Seq<u8>), OscError> {
    match arg_upto(a, n_items(a)) {
        Err(e) => Err(e),
        Ok((t, p)) => Ok((t + close_tag(a), p)),
    }
}

/// The type tags and the payloads of the arguments, in order, or the first
/// error that one of them meets.
pub open spec fn enc_args(args: Seq<ArgModel>) -> core::result::Result<(Seq<u8>, Seq<u8>), OscError>
    decreases args.len(),
{
    if args.len() == 0 {
        Ok((Seq::empty(), Seq::empty()))
    } else {
        match enc_args(args.drop_last()) {
            Err(e) => Err(e),
            Ok((t, p)) => match enc_arg(args.last()) {
                Err(e) => Err(e),
                Ok((t2, p2)) => Ok((t + t2, p + p2)),
            },
        }
    }
}

pub open spec fn opt_args(args: Option<Seq<ArgModel>>) -> Seq<ArgModel> {
    match args {
        Some(s) => s,
        None => Seq::empty(),
    }
}

/// The wire form of a message: address, type-tag string, payloads.
pub open spec fn enc_message(addr: Seq<char>, args: Seq<ArgModel>) -> core::result::Result<Seq<u8>, OscError> {
    match enc_args(args) {
        Err(e) => Err(e),
        Ok((t, p)) => Ok(enc_str(addr) + nul_pad(seq![TAG_START] + t) + p),
    }
}

/// `"#bundle\0"`.
pub open spec fn bundle_header() -> Seq<u8> {
    seq![35u8, 98u8, 117u8, 110u8, 100u8, 108u8, 101u8, 0u8]
}

/// The number of elements of a bundle (none for a message).
pub open spec fn n_elems(p: PacketModel) -> int {
    match p {
        PacketModel::Message(_, _) => 0,
        PacketModel::Bundle(_, e) => e.len() as int,
    }
}

/// The wire form of a packet; for a bundle, of its header, time tag and first
/// `n` elements, each behind its length.
pub open spec fn enc_upto(p: PacketModel, n: int) -> core::result::Result<Seq<u8>, OscError>
    decreases p, n,
{
    match p {
        PacketModel::Message(addr, args) => enc_message(addr, opt_args(args)),
        PacketModel::Bundle(tt, elems) => {
            if n <= 0 {
                match tt {
                    ArgModel::Time(s, f) => Ok(bundle_header() + be32(s) + be32(f)),
                    _ => Err(OscError::BundleMissingTimeTag),
                }
            } else if n > elems.len() {
                enc_upto(p, elems.len() as int)
            } else {
                match enc_upto(p, n - 1) {
                    Err(e) => Err(e),
                    Ok(pre) => {
                        let e = elems[n - 1];
                        match enc_upto(e, n_elems(e)) {
                            Err(err) => Err(err),
                            Ok(eb) => if eb.len() > u32::MAX {
                                Err(OscError::NegativeOrOverflowingLength)
                            } else {
                                Ok(pre + be32(eb.len() as u32) + eb)
                            },
                        }
                    },
                }
            }
        },
    }
}

/// The wire form of a packet, or the error that encoding it meets first.
pub open spec fn enc_packet(p: PacketModel) -> core::result::Result<Seq<u8>, OscError> {
    enc_upto(p, n_elems(p))
}

/// `r` is the executable form of the specified outcome `s`.
pub open spec fn same_result(r: Result<Vec<u8>>, s: core::result::Result<Seq<u8>, OscError>) -> bool {
    match r {
        Ok(b) => s == Ok::<Seq<u8>, OscError>(b@),
        Err(e) => s == Err::<Seq<u8>, OscError>(e),
    }
}

/// The arguments of a message, an absent list read as empty.
pub open spec fn msg_args(m: OscMessage) -> Seq<ArgModel> {
    match m.args {
        Some(v) => args_view(v@),
        None => Seq::empty(),
    }
}

/// Takes a reference to an OSC packet and returns its wire form, or the
/// error that encoding it meets first.
///
/// A bundle without elements is its header and time tag alone. An `Array`
/// argument is written as its elements, their tags between `[` and `]`. A
/// bundle whose time tag is not `Time` is refused with `BundleMissingTimeTag`;
/// a blob longer than `i32::MAX` bytes, or a bundle element longer than
/// `u32::MAX` bytes, with `NegativeOrOverflowingLength`.
pub fn encode(packet: &OscPacket) -> (r: Result<Vec<u8>>)
    ensures
        same_result(r, enc_packet(packet_view(*packet))),
    decreases packet,
{
    match packet {
        OscPacket::Message(msg) => encode_message(msg),
        OscPacket::Bundle(bundle) => encode_bundle(bundle),
    }
}

fn encode_message(msg: &OscMessage) -> (r: Result<Vec<u8>>)
    ensures
        same_result(r, enc_message(msg.addr@, msg_args(*msg))),
{
    let ghost av = msg_args(*msg);
    let mut type_tags: Vec<u8> = Vec::new();
    type_tags.push(TAG_START);
    let mut arg_bytes: Vec<u8> = Vec::new();
    if let Some(args) = &msg.args {
        let mut i: usize = 0;
        while i < args.len()
            invariant
                av == args_view(args@),
                av == msg_args(*msg),
                i <= args@.len(),
                enc_args(av.take(i as int)) is Ok,
                type_tags@ == seq![TAG_START] + enc_args(av.take(i as int))->Ok_0.0,
                arg_bytes@ == enc_args(av.take(i as int))->Ok_0.1,
            decreases args@.len() - i,
        {
            let ghost pre = av.take(i as int);
            let ghost cur = av.take(i + 1);
            assert(cur.drop_last() =~= pre);
            assert(cur.last() == arg_view(args@[i as int]));
            match encode_arg(&args[i]) {
                Err(e) => {
                    proof {
                        assert(enc_args(cur) == Err::<(Seq<u8>, Seq<u8>), OscError>(e));
                        lemma_args_error_prefix(av, i + 1);
                    }
                    return Err(e);
                },
                Ok((b, t)) => {
                    let mut b = b;
                    let mut t = t;
                    type_tags.append(&mut t);
                    arg_bytes.append(&mut b);
                    assert(type_tags@ =~= seq![TAG_START] + enc_args(cur)->Ok_0.0);
                },
            }
            i = i + 1;
        }
        assert(av.take(i as int) =~= av);
    } else {
        assert(av.take(0) =~= av);
    }
    let mut msg_bytes = encode_string(msg.addr.as_str());
    type_tags.push(0u8);
    pad_bytes(&mut type_tags);
    msg_bytes.append(&mut type_tags);
    msg_bytes.append(&mut arg_bytes);
    Ok(msg_bytes)
}

/// An error met among the first `k` arguments is the first error of all of them.
proof fn lemma_args_error_prefix(s: Seq<ArgModel>, k: int)
    requires
        0 <= k <= s.len(),
        enc_args(s.take(k)) is Err,
    ensures
        enc_args(s) == enc_args(s.take(k)),
    decreases s.len(),
{
    if k < s.len() {
        assert(s.drop_last().take(k) =~= s.take(k));
        lemma_args_error_prefix(s.drop_last(), k);
    } else {
        assert(s.take(k) =~= s);
    }
}

/// An error met among the first `j` elements of a bundle stays the outcome.
proof fn lemma_upto_error(p: PacketModel, j: int, k: int)
    requires
        p is Bundle,
        0 <= j <= k <= n_elems(p),
        enc_upto(p, j) is Err,
    ensures
        enc_upto(p, k) == enc_upto(p, j),
    decreases k,
{
    if k > j {
        lemma_upto_error(p, j, k - 1);
    }
}

fn encode_bundle(bundle: &OscBundle) -> (r: Result<Vec<u8>>)
    ensures
        same_result(r, enc_packet(packet_view(OscPacket::Bundle(*bundle)))),
    decreases bundle,
{
    let ghost p = packet_view(OscPacket::Bundle(*bundle));
    let mut bundle_bytes: Vec<u8> = Vec::new();
    bundle_bytes.push(35u8);
    bundle_bytes.push(98u8);
    bundle_bytes.push(117u8);
    bundle_bytes.push(110u8);
    bundle_bytes.push(100u8);
    bundle_bytes.push(108u8);
    bundle_bytes.push(101u8);
    bundle_bytes.push(0u8);
    assert(bundle_bytes@ =~= bundle_header());
    match &bundle.timetag {
        OscType::Time(sec, frac) => {
            let mut t = encode_time_tag(*sec, *frac);
            bundle_bytes.append(&mut t);
        },
        _ => {
            proof {
                lemma_upto_error(p, 0, n_elems(p));
            }
            return Err(OscError::BundleMissingTimeTag);
        },
    }
    assert(bundle_bytes@ =~= enc_upto(p, 0)->Ok_0);
    let mut i: usize = 0;
    while i < bundle.content.len()
        invariant
            p == packet_view(OscPacket::Bundle(*bundle)),
            i <= bundle.content@.len(),
            enc_upto(p, i as int) == Ok::<Seq<u8>, OscError>(bundle_bytes@),
        decreases bundle.content@.len() - i,
    {
        assert(p->Bundle_1[i as int] == packet_view(bundle.content@[i as int]));
        match encode(&bundle.content[i]) {
            Err(e) => {
                proof {
                    lemma_upto_error(p, i + 1, n_elems(p));
                }
                return Err(e);
            },
            Ok(eb) => {
                if eb.len() > u32::MAX as usize {
                    proof {
                        lemma_upto_error(p, i + 1, n_elems(p));
                    }
                    return Err(OscError::NegativeOrOverflowingLength);
                }
                let mut size = u32_to_be(eb.len() as u32);
                let mut eb = eb;
                bundle_bytes.append(&mut size);
                bundle_bytes.append(&mut eb);
            },
        }
        i = i + 1;
    }
    Ok(bundle_bytes)
}

/// Encodes one argument: its payload and its type tags.
fn encode_arg(arg: &OscType) -> (r: Result<(Vec<u8>, Vec<u8>)>)
    ensures
        match enc_arg(arg_view(*arg)) {
            Err(e) => r == Err::<(Vec<u8>, Vec<u8>), OscError>(e),
            Ok((t, p)) => r matches Ok((b, tv)) && b@ == p && tv@ == t,
        },
    decreases arg,
{
    match arg {
        OscType::Array(v) => {
            let ghost a = arg_view(*arg);
            let mut tags: Vec<u8> = Vec::new();
            tags.push(TAG_ARRAY_START);
            let mut payload: Vec<u8> = Vec::new();
            let mut i: usize = 0;
            while i < v.len()
                invariant
                    a == arg_view(*arg),
                    *arg == OscType::Array(*v),
                    i <= v@.len(),
                    arg_upto(a, i as int) == Ok::<(Seq<u8>, Seq<u8>), OscError>((tags@, payload@)),
                decreases v@.len() - i,
            {
                assert(a->Array_0[i as int] == arg_view(v@[i as int]));
                match encode_arg(&v[i]) {
                    Err(e) => {
                        proof {
                            lemma_arg_upto_error(a, i + 1, n_items(a));
                        }
                        return Err(e);
                    },
                    Ok((b, t)) => {
                        let ghost x = arg_view(v@[i as int]);
                        let ghost inner = arg_upto(x, n_items(x))->Ok_0;
                        let ghost before = (tags@, payload@);
                        let mut b = b;
                        let mut t = t;
                        tags.append(&mut t);
                        payload.append(&mut b);
                        assert(arg_upto(a, i + 1) == Ok::<(Seq<u8>, Seq<u8>), OscError>(
                            (before.0 + inner.0 + close_tag(x), before.1 + inner.1),
                        ));
                        assert(tags@ =~= before.0 + inner.0 + close_tag(x));
                    },
                }
                i = i + 1;
            }
            tags.push(TAG_ARRAY_END);
            Ok((payload, tags))
        },
        _ => match encode_single_arg(arg) {
            Err(e) => Err(e),
            Ok((b, t)) => {
                let mut tv: Vec<u8> = Vec::new();
                tv.push(t);
                assert(tv@ =~= seq![t]);
                Ok((b, tv))
            },
        },
    }
}

/// An error met among the first `j` elements of an array stays the outcome.
proof fn lemma_arg_upto_error(a: ArgModel, j: int, k: int)
    requires
        a is Array,
        0 <= j <= k <= n_items(a),
        arg_upto(a, j) is Err,
    ensures
        arg_upto(a, k) == arg_upto(a, j),
    decreases k,
{
    if k > j {
        lemma_arg_upto_error(a, j, k - 1);
    }
}

/// Encodes an argument other than an array: its payload and its type-tag
/// character.
fn encode_single_arg(arg: &OscType) -> (r: Result<(Vec<u8>, u8)>)
    requires
        !(arg_view(*arg) is Array),
    ensures
        match arg_error(arg_view(*arg)) {
            Some(e) => r == Err::<(Vec<u8>, u8), OscError>(e),
            None => r matches Ok((b, t)) && b@ == payload_of(arg_view(*arg)) && t == tag_of(arg_view(*arg)),
        },
{
    match arg {
        OscType::Int(x) => Ok((u32_to_be(*x as u32), TAG_INT)),
        OscType::Long(x) => Ok((u64_to_be(*x as u64), TAG_LONG)),
        OscType::Float(x) => Ok((u32_to_be(*x), TAG_FLOAT)),
        OscType::Double(x) => Ok((u64_to_be(*x), TAG_DOUBLE)),
        OscType::Char(x) => Ok((u32_to_be(*x as u32), TAG_CHAR)),
        OscType::String(x) => Ok((encode_string(x.as_str()), TAG_STRING)),
        OscType::Blob(x) => {
            if x.len() > i32::MAX as usize {
                return Err(OscError::NegativeOrOverflowingLength);
            }
            let mut bytes = u32_to_be(x.len() as u32);
            let mut body = copy_bytes(x.as_slice());
            pad_bytes(&mut body);
            bytes.append(&mut body);
            Ok((bytes, TAG_BLOB))
        },
        OscType::Time(x, y) => Ok((encode_time_tag(*x, *y), TAG_TIME)),
        OscType::Midi(x) => Ok((four_bytes(x.port, x.status, x.data1, x.data2), TAG_MIDI)),
        OscType::Color(x) => Ok((four_bytes(x.red, x.green, x.blue, x.alpha), TAG_COLOR)),
        OscType::Bool(x) => {
            if *x {
                Ok((Vec::new(), TAG_TRUE))
            } else {
                Ok((Vec::new(), TAG_FALSE))
            }
        },
        OscType::Nil => Ok((Vec::new(), TAG_NIL)),
        OscType::Inf => Ok((Vec::new(), TAG_INF)),
        OscType::Array(_) => Err(OscError::UnsupportedTypeTag('[')),
    }
}

fn four_bytes(a: u8, b: u8, c: u8, d: u8) -> (r: Vec<u8>)
    ensures
        r@ == seq![a, b, c, d],
{
    let mut v: Vec<u8> = Vec::new();
    v.push(a);
    v.push(b);
    v.push(c);
    v.push(d);
    assert(v@ =~= seq![a, b, c, d]);
    v
}

pub(crate) fn copy_bytes(b: &[u8]) -> (r: Vec<u8>)
    ensures
        r@ == b@,
{
    let mut bytes: Vec<u8> = Vec::new();
    let mut i: usize = 0;
    while i < b.len()
        invariant
            i <= b@.len(),
            bytes@ == b@.take(i as int),
        decreases b@.len() - i,
    {
        bytes.push(b[i]);
        i = i + 1;
        assert(bytes@ =~= b@.take(i as int));
    }
    assert(b@.take(i as int) =~= b@);
    bytes
}

fn encode_time_tag(sec: u32, frac: u32) -> (r: Vec<u8>)
    ensures
        r@ == be32(sec) + be32(frac),
{
    let mut bytes = u32_to_be(sec);
    let mut f = u32_to_be(frac);
    bytes.append(&mut f);
    bytes
}

/// Returns the position padded to 4 bytes.
pub fn pad(pos: u64) -> (r: u64)
    requires
        pos <= u64::MAX - 3,
    ensures
        r == pad_spec(pos as int),
{
    let d: u64 = pos % 4;
    if d == 0 {
        pos
    } else {
        pos + (4 - d)
    }
}

/// Appends zero bytes until the length is a multiple of 4.
pub fn pad_bytes(bytes: &mut Vec<u8>)
    ensures
        final(bytes)@ == pad_to4(old(bytes)@),
{
    let ghost start = bytes@;
    while bytes.len() % 4 != 0
        invariant
            start.len() <= bytes@.len() <= pad_spec(start.len() as int),
            bytes@ == start + zeros(bytes@.len() - start.len()),
        decreases pad_spec(start.len() as int) - bytes@.len(),
    {
        bytes.push(0u8);
        assert(bytes@ =~= start + zeros(bytes@.len() - start.len()));
    }
    assert(bytes@ =~= pad_to4(start));
}

/// Null terminates the byte representation of string `s` and
/// adds null bytes until the length of the result is a
/// multiple of 4.
pub fn encode_string(s: &str) -> (r: Vec<u8>)
    ensures
        r@ == enc_str(s@),
        r@.len() % 4 == 0,
        r@.len() > 0,
        r@.last() == 0u8,
{
    let mut bytes = copy_bytes(s.as_bytes());
    bytes.push(0u8);
    pad_bytes(&mut bytes);
    proof {
        lemma_enc_str_shape(s@);
    }
    bytes
}

/// The encoded form of a string is a positive multiple of 4 bytes long and
/// ends in a NUL byte.
pub proof fn lemma_enc_str_shape(s: Seq<char>)
    ensures
        enc_str(s).len() % 4 == 0,
        enc_str(s).len() > 0,
        enc_str(s).last() == 0u8,
        enc_str(s).take(encode_utf8(s).len() as int) == encode_utf8(s),
        enc_str(s)[encode_utf8(s).len() as int] == 0u8,
{
    let b = encode_utf8(s);
    let n: int = b.len() as int + 1;
    assert(enc_str(s).take(b.len() as int) =~= b);
    assert(pad_spec(n) % 4 == 0);
    assert(pad_spec(n) >= n);
}

/// Padding rounds up to the smallest multiple of 4 that is at least `n`, and
/// padding twice changes nothing more.
pub proof fn lemma_pad(n: int)
    requires
        n >= 0,
    ensures
        pad_spec(n) % 4 == 0,
        n <= pad_spec(n) < n + 4,
        forall|m: int| m >= n && #[trigger] (m % 4) == 0 ==> m >= pad_spec(n),
        pad_spec(pad_spec(n)) == pad_spec(n),
{
}

} // verus!
