use vstd::prelude::*;
use vstd::utf8::{encode_utf8, encode_scalar, is_scalar, has_width_1_encoding, is_ascii_chars};
use crate::types::{ArgModel, PacketModel};
use crate::be::{be32, from_be32, lemma_be32_round_trip, lemma_be64_round_trip};
use crate::encoder::{pad_spec, enc_str, tag_of, payload_of, arg_error, enc_arg, enc_args, arg_upto, n_items, close_tag, opt_args, enc_message, bundle_header, n_elems, enc_upto, enc_packet};
use crate::osc_decoder::{first_nul, dec_str, dec_arg, dec_args, dec_message, dec_packet, dec_bundle, dec_elems};

verus! {

/// No character of `s` is NUL.
pub open spec fn no_nul(s: Seq<char>) -> bool {
    forall|i: int| 0 <= i < s.len() ==> s[i] != '\0'
}

/// The type-tag character of an argument.
pub open spec fn tag_char(a: ArgModel) -> char {
    match a {
        ArgModel::Int(_) => 'i',
        ArgModel::Long(_) => 'h',
        ArgModel::Float(_) => 'f',
        ArgModel::Double(_) => 'd',
        ArgModel::Char(_) => 'c',
        ArgModel::Str(_) => 's',
        ArgModel::Blob(_) => 'b',
        ArgModel::Time(_, _) => 't',
        ArgModel::Midi(_, _, _, _) => 'm',
        ArgModel::Color(_, _, _, _) => 'r',
        ArgModel::Bool(b) => if b { 'T' } else { 'F' },
        ArgModel::Nil => 'N',
        ArgModel::Inf => 'I',
        ArgModel::Array(_) => '[',
    }
}

/// The type-tag characters of the arguments, in order.
pub open spec fn tag_chars(args: Seq<ArgModel>) -> Seq<char> {
    Seq::new(args.len(), |i: int| tag_char(args[i]))
}

/// The type-tag string of a message: a comma, then one character per argument.
pub open spec fn tag_string(args: Seq<ArgModel>) -> Seq<char> {
    seq![','] + tag_chars(args)
}

/// An argument that is not an array and whose text, if any, holds no NUL.
pub open spec fn wf_arg(a: ArgModel) -> bool {
    match a {
        ArgModel::Str(s) => no_nul(s),
        ArgModel::Array(_) => false,
        _ => true,
    }
}

/// The type-tag characters of arguments that are not arrays, in order.
pub open spec fn flat_tags(args: Seq<ArgModel>) -> Seq<u8> {
    Seq::new(args.len(), |i: int| tag_of(args[i]))
}

/// The payloads of arguments that are not arrays, concatenated in order.
pub open spec fn flat_payloads(args: Seq<ArgModel>) -> Seq<u8>
    decreases args.len(),
{
    if args.len() == 0 {
        Seq::empty()
    } else {
        flat_payloads(args.drop_last()) + payload_of(args.last())
    }
}

/// Without arrays, the tags and payloads of the arguments are the flat ones.
proof fn lemma_flat(args: Seq<ArgModel>)
    requires
        forall|i: int| 0 <= i < args.len() ==> wf_arg(#[trigger] args[i]),
        enc_args(args) is Ok,
    ensures
        enc_args(args)->Ok_0.0 == flat_tags(args),
        enc_args(args)->Ok_0.1 == flat_payloads(args),
        forall|i: int| 0 <= i < args.len() ==> (#[trigger] arg_error(args[i])) is None,
    decreases args.len(),
{
    if args.len() > 0 {
        let d = args.drop_last();
        assert forall|i: int| 0 <= i < d.len() implies wf_arg(#[trigger] d[i]) by {
            assert(d[i] == args[i]);
        }
        lemma_flat(d);
        let x = args.last();
        assert(wf_arg(args[args.len() - 1]));
        assert(n_items(x) == 0);
        assert(arg_error(x) is None);
        assert(enc_arg(x) == Ok::<(Seq<u8>, Seq<u8>), crate::types::OscError>((seq![tag_of(x)], payload_of(x))));
        assert(flat_tags(args) =~= flat_tags(d) + seq![tag_of(x)]);
        assert forall|i: int| 0 <= i < args.len() implies (#[trigger] arg_error(args[i])) is None by {
            if i < args.len() - 1 {
                assert(d[i] == args[i]);
            }
        }
    }
}

/// A message whose address starts with `/`, whose text holds no NUL, and
/// whose argument list, when present, is not empty.
pub open spec fn wf_message(addr: Seq<char>, args: Option<Seq<ArgModel>>) -> bool {
    &&& addr.len() > 0
    &&& addr[0] == '/'
    &&& no_nul(addr)
    &&& match args {
        Some(v) => v.len() > 0 && forall|i: int| 0 <= i < v.len() ==> wf_arg(#[trigger] v[i]),
        None => true,
    }
}

/// Every message in the packet, down to the first `n` elements of a bundle,
/// is well formed in the sense of `wf_message`.
pub open spec fn wf_upto(p: PacketModel, n: int) -> bool
    decreases p, n,
{
    match p {
        PacketModel::Message(addr, args) => wf_message(addr, args),
        PacketModel::Bundle(_, elems) => {
            if n <= 0 {
                true
            } else if n > elems.len() {
                wf_upto(p, elems.len() as int)
            } else {
                wf_upto(p, n - 1) && wf_upto(elems[n - 1], n_elems(elems[n - 1]))
            }
        },
    }
}

/// Every message in the packet is well formed.
pub open spec fn wf_packet(p: PacketModel) -> bool {
    wf_upto(p, n_elems(p))
}

proof fn lemma_scalar_no_nul(c: u32)
    requires
        is_scalar(c),
        c != 0,
    ensures
        forall|k: int| 0 <= k < encode_scalar(c).len() ==> encode_scalar(c)[k] != 0,
{
    assert(has_width_1_encoding(c) ==> (c & 0x7F) as u8 != 0) by (bit_vector)
        requires c != 0;
    assert(forall|x: u8| (0xC0u8 | x) != 0) by (bit_vector);
    assert(forall|x: u8| (0xE0u8 | x) != 0) by (bit_vector);
    assert(forall|x: u8| (0xF0u8 | x) != 0) by (bit_vector);
    assert(forall|x: u8| (0x80u8 | x) != 0) by (bit_vector);
}

/// The UTF-8 form of text without NUL holds no zero byte.
proof fn lemma_utf8_no_nul(s: Seq<char>)
    requires
        no_nul(s),
    ensures
        forall|k: int| 0 <= k < encode_utf8(s).len() ==> encode_utf8(s)[k] != 0,
    decreases s.len(),
{
    if s.len() > 0 {
        let c = s[0] as u32;
        assert(s[0] != '\0');
        vstd::utf8::char_is_scalar(s[0]);
        if c == 0 {
            vstd::utf8::char_u32_cast(s[0], c);
            assert((0u32 as char) == '\0');
        }
        lemma_scalar_no_nul(c);
        lemma_utf8_no_nul(s.drop_first());
        let e = encode_utf8(s);
        assert(e == encode_scalar(c) + encode_utf8(s.drop_first()));
    }
}

proof fn lemma_first_nul(b: Seq<u8>, pos: int, z: int)
    requires
        0 <= pos <= z < b.len(),
        b[z] == 0,
        forall|j: int| pos <= j < z ==> b[j] != 0,
    ensures
        first_nul(b, pos) == Some(z),
    decreases z - pos,
{
    if pos < z {
        lemma_first_nul(b, pos + 1, z);
    }
}

proof fn lemma_pad_shift(pos: int, n: int)
    requires
        pos % 4 == 0,
        n >= 0,
    ensures
        pad_spec(pos + n) == pos + pad_spec(n),
{
}

/// A string stored at an aligned position reads back as itself.
proof fn lemma_dec_str(b: Seq<u8>, pos: int, s: Seq<char>)
    requires
        0 <= pos,
        pos % 4 == 0,
        no_nul(s),
        pos + enc_str(s).len() <= b.len(),
        b.subrange(pos, pos + enc_str(s).len()) == enc_str(s),
    ensures
        dec_str(b, pos) == Ok::<(Seq<char>, int), crate::types::OscError>((s, pos + enc_str(s).len())),
        enc_str(s).len() % 4 == 0,
{
    broadcast use {vstd::utf8::encode_utf8_valid_utf8, vstd::utf8::encode_utf8_decode_utf8};

    let u = encode_utf8(s);
    let e = enc_str(s);
    let z = pos + u.len();
    crate::encoder::lemma_enc_str_shape(s);
    lemma_utf8_no_nul(s);
    assert forall|j: int| pos <= j < z implies b[j] != 0 by {
        assert(b[j] == e[j - pos]);
        assert(e[j - pos] == u[j - pos]);
    }
    assert(b[z] == e[u.len() as int]);
    lemma_first_nul(b, pos, z);
    assert(b.subrange(pos, z) =~= u) by {
        assert forall|j: int| 0 <= j < u.len() implies b.subrange(pos, z)[j] == u[j] by {
            assert(b[pos + j] == e[j]);
            assert(e[j] == u[j]);
        }
    }
    lemma_pad_shift(pos, u.len() as int + 1);
}

proof fn lemma_tag_char(a: ArgModel)
    ensures
        tag_char(a) as u8 == tag_of(a),
        '\0' < tag_char(a) <= '\u{7f}',
{
}

/// The encoded type-tag string is the wire form of the type-tag text.
proof fn lemma_tag_string(args: Seq<ArgModel>)
    ensures
        encode_utf8(tag_string(args)) == seq![crate::encoder::TAG_START] + flat_tags(args),
        no_nul(tag_string(args)),
        tag_string(args).drop_first() == tag_chars(args),
{
    let t = tag_string(args);
    assert forall|i: int| 0 <= i < t.len() implies '\0' <= #[trigger] t[i] <= '\u{7f}' && t[i] != '\0' by {
        if i > 0 {
            lemma_tag_char(args[i - 1]);
        }
    }
    assert(is_ascii_chars(t));
    vstd::utf8::is_ascii_chars_encode_utf8(t);
    let e = encode_utf8(t);
    assert(e =~= seq![crate::encoder::TAG_START] + flat_tags(args)) by {
        assert forall|i: int| 0 <= i < e.len() implies e[i] == (seq![crate::encoder::TAG_START] + flat_tags(args))[i] by {
            assert(t[i] as u8 == e[i]);
            if i > 0 {
                lemma_tag_char(args[i - 1]);
            }
        }
    }
    assert(t.drop_first() =~= tag_chars(args));
}

/// An argument's payload stored at an aligned position reads back as the
/// argument, under its own type tag.
proof fn lemma_dec_arg(b: Seq<u8>, pos: int, a: ArgModel)
    requires
        0 <= pos,
        pos % 4 == 0,
        wf_arg(a),
        arg_error(a) is None,
        pos + payload_of(a).len() <= b.len(),
        b.subrange(pos, pos + payload_of(a).len()) == payload_of(a),
    ensures
        dec_arg(b, pos, tag_char(a)) == Ok::<(ArgModel, int), crate::types::OscError>((a, pos + payload_of(a).len())),
        payload_of(a).len() % 4 == 0,
{
    reveal(dec_arg);
    match a {
        ArgModel::Int(x) => {
            lemma_be32_round_trip(x as u32);
            assert((x as u32) as i32 == x) by (bit_vector);
        },
        ArgModel::Long(x) => {
            lemma_be64_round_trip(x as u64);
            assert((x as u64) as i64 == x) by (bit_vector);
        },
        ArgModel::Float(x) => {
            lemma_be32_round_trip(x);
        },
        ArgModel::Double(x) => {
            lemma_be64_round_trip(x);
        },
        ArgModel::Char(c) => {
            lemma_be32_round_trip(c as u32);
            vstd::utf8::char_is_scalar(c);
            vstd::utf8::char_u32_cast(c, c as u32);
        },
        ArgModel::Str(s) => {
            lemma_dec_str(b, pos, s);
        },
        ArgModel::Blob(d) => {
            let n = d.len() as int;
            let pl = payload_of(a);
            crate::encoder::lemma_pad(n);
            assert(b.subrange(pos, pos + 4) =~= pl.subrange(0, 4));
            assert(pl.subrange(0, 4) =~= be32(n as u32));
            lemma_be32_round_trip(n as u32);
            assert(b.subrange(pos + 4, pos + 4 + n) =~= d) by {
                assert forall|j: int| 0 <= j < n implies b.subrange(pos + 4, pos + 4 + n)[j] == d[j] by {
                    assert(b[pos + 4 + j] == pl[4 + j]);
                }
            }
            lemma_pad_shift(pos + 4, n);
        },
        ArgModel::Time(sec, frac) => {
            let w = b.subrange(pos, pos + 8);
            assert(w.subrange(0, 4) =~= be32(sec));
            assert(w.subrange(4, 8) =~= be32(frac));
            assert(from_be32(w) == from_be32(w.subrange(0, 4)));
            lemma_be32_round_trip(sec);
            lemma_be32_round_trip(frac);
        },
        _ => {},
    }
}

proof fn lemma_payloads_take(args: Seq<ArgModel>, k: int)
    requires
        0 <= k < args.len(),
    ensures
        flat_payloads(args.take(k + 1)) == flat_payloads(args.take(k)) + payload_of(args[k]),
{
    assert(args.take(k + 1).drop_last() =~= args.take(k));
}

proof fn lemma_payloads_prefix(args: Seq<ArgModel>, k: int)
    requires
        0 <= k <= args.len(),
    ensures
        flat_payloads(args.take(k)).len() <= flat_payloads(args).len(),
        flat_payloads(args).subrange(0, flat_payloads(args.take(k)).len() as int) == flat_payloads(args.take(k)),
    decreases args.len(),
{
    if k == args.len() {
        assert(args.take(k) =~= args);
        assert(flat_payloads(args).subrange(0, flat_payloads(args).len() as int) =~= flat_payloads(args));
    } else {
        let d = args.drop_last();
        assert(d.take(k) =~= args.take(k));
        lemma_payloads_prefix(d, k);
        let x = flat_payloads(args.take(k)).len() as int;
        assert(flat_payloads(args).subrange(0, x) =~= flat_payloads(d).subrange(0, x));
    }
}

/// The payloads of well-formed arguments read back as the arguments.
#[verifier::rlimit(30)]
proof fn lemma_dec_args(b: Seq<u8>, args: Seq<ArgModel>, k: int, p2: int)
    requires
        0 <= k <= args.len(),
        0 <= p2,
        p2 % 4 == 0,
        forall|i: int| 0 <= i < args.len() ==> wf_arg(#[trigger] args[i]),
        forall|i: int| 0 <= i < args.len() ==> (#[trigger] arg_error(args[i])) is None,
        p2 + flat_payloads(args).len() <= b.len(),
        b.subrange(p2, p2 + flat_payloads(args).len()) == flat_payloads(args),
    ensures
        dec_args(b, tag_chars(args), k, p2) == Ok::<(Seq<ArgModel>, int), crate::types::OscError>(
            (args.take(k), p2 + flat_payloads(args.take(k)).len()),
        ),
        flat_payloads(args.take(k)).len() % 4 == 0,
    decreases k,
{
    if k == 0 {
        assert(args.take(0) =~= Seq::<ArgModel>::empty());
    } else {
        lemma_dec_args(b, args, k - 1, p2);
        let all = flat_payloads(args);
        let before = flat_payloads(args.take(k - 1));
        let q = p2 + before.len();
        let pa = payload_of(args[k - 1]);
        lemma_payloads_take(args, k - 1);
        lemma_payloads_prefix(args, k);
        let upto = flat_payloads(args.take(k));
        assert(b.subrange(q, q + pa.len()) =~= pa) by {
            assert forall|j: int| 0 <= j < pa.len() implies b.subrange(q, q + pa.len())[j] == pa[j] by {
                assert(b[q + j] == b.subrange(p2, p2 + all.len())[before.len() + j]);
                assert(all[before.len() + j] == all.subrange(0, upto.len() as int)[before.len() + j]);
                assert(upto[before.len() + j] == pa[j]);
            }
        }
        lemma_dec_arg(b, q, args[k - 1]);
        assert(tag_chars(args)[k - 1] == tag_char(args[k - 1]));
        assert(args.take(k - 1).push(args[k - 1]) =~= args.take(k));
    }
}

/// A well-formed, encodable message decodes back to itself.
#[verifier::rlimit(100)]
proof fn lemma_message_round_trip(addr: Seq<char>, args: Option<Seq<ArgModel>>)
    requires
        wf_message(addr, args),
        enc_message(addr, opt_args(args)) is Ok,
    ensures
        dec_packet(enc_message(addr, opt_args(args))->Ok_0) == Ok::<PacketModel, crate::types::OscError>(
            PacketModel::Message(addr, args),
        ),
{
    let a = opt_args(args);
    let ts = tag_string(a);
    lemma_tag_string(a);
    let e1 = enc_str(addr);
    let e2 = enc_str(ts);
    let e3 = flat_payloads(a);
    let b = e1 + e2 + e3;
    lemma_flat(a);
    assert(b == enc_message(addr, a)->Ok_0);
    crate::encoder::lemma_enc_str_shape(addr);
    crate::encoder::lemma_enc_str_shape(ts);
    assert(b.subrange(0, e1.len() as int) =~= e1);
    lemma_dec_str(b, 0, addr);
    let l1 = e1.len() as int;
    let l2 = e2.len() as int;
    assert(b.subrange(l1, l1 + l2) =~= e2);
    lemma_dec_str(b, l1, ts);
    lemma_flat(a);
    assert(b.subrange(l1 + l2, l1 + l2 + e3.len()) =~= e3);
    lemma_dec_args(b, a, a.len() as int, l1 + l2);
    assert(a.take(a.len() as int) =~= a);
    assert(ts[0] == ',');
    lemma_slash_first(addr);
    assert(b[0] == e1[0]);
    assert(ts.drop_first() == tag_chars(a));
    let r3 = dec_args(b, ts.drop_first(), ts.len() - 1, l1 + l2);
    assert(r3 is Ok && r3->Ok_0.0 == a);
    assert(dec_message(b) == Ok::<PacketModel, crate::types::OscError>(PacketModel::Message(addr, args)));
}

/// An address that starts with `/` encodes to bytes that start with `/`.
proof fn lemma_slash_first(addr: Seq<char>)
    requires
        addr.len() > 0,
        addr[0] == '/',
    ensures
        enc_str(addr)[0] == crate::osc_decoder::MESSAGE_START,
{
    let u = encode_utf8(addr);
    assert(u == encode_scalar(addr[0] as u32) + encode_utf8(addr.drop_first()));
    assert(('/' as u32) == 47);
    assert(encode_scalar(47u32) =~= seq![47u8]) by {
        assert((47u32 & 0x7F) as u8 == 47u8) by (bit_vector);
    }
    assert(enc_str(addr)[0] == u[0]);
}

proof fn lemma_upto_len(p: PacketModel, i: int)
    requires
        p is Bundle,
        0 <= i <= n_elems(p),
        enc_upto(p, i) is Ok,
    ensures
        enc_upto(p, i)->Ok_0.len() >= 16,
    decreases i,
{
    if i > 0 {
        lemma_upto_len(p, i - 1);
    }
}

/// The encoding of a bundle's first `i` elements begins the encoding of its
/// first `k`.
proof fn lemma_upto_prefix(p: PacketModel, i: int, k: int)
    requires
        p is Bundle,
        0 <= i <= k <= n_elems(p),
        enc_upto(p, k) is Ok,
    ensures
        enc_upto(p, i) is Ok,
        16 <= enc_upto(p, i)->Ok_0.len() <= enc_upto(p, k)->Ok_0.len(),
        enc_upto(p, k)->Ok_0.subrange(0, enc_upto(p, i)->Ok_0.len() as int) == enc_upto(p, i)->Ok_0,
    decreases k,
{
    let bk = enc_upto(p, k)->Ok_0;
    if k > i {
        lemma_upto_prefix(p, i, k - 1);
        let bk1 = enc_upto(p, k - 1)->Ok_0;
        let li = enc_upto(p, i)->Ok_0.len() as int;
        assert(bk.subrange(0, bk1.len() as int) =~= bk1);
        assert(bk.subrange(0, li) =~= bk1.subrange(0, li));
    } else {
        lemma_upto_len(p, i);
        assert(bk.subrange(0, bk.len() as int) =~= bk);
    }
}

/// Each element of an encoded bundle stands behind a four-byte big-endian
/// length that equals the exact length of the element's own encoding.
pub proof fn lemma_bundle_frames(p: PacketModel, i: int)
    requires
        p is Bundle,
        0 <= i < n_elems(p),
        enc_packet(p) is Ok,
    ensures
        ({
            let b = enc_packet(p)->Ok_0;
            let e = enc_packet(p->Bundle_1[i]);
            let off = enc_upto(p, i)->Ok_0.len() as int;
            let len = e->Ok_0.len() as int;
            &&& enc_upto(p, i) is Ok
            &&& e is Ok
            &&& 16 <= off
            &&& len <= u32::MAX
            &&& off + 4 + len <= b.len()
            &&& from_be32(b.subrange(off, off + 4)) == len
            &&& b.subrange(off + 4, off + 4 + len) == e->Ok_0
            &&& enc_upto(p, i + 1)->Ok_0.len() == off + 4 + len
        }),
{
    let n = n_elems(p);
    lemma_upto_prefix(p, i + 1, n);
    lemma_upto_prefix(p, i, i + 1);
    let b = enc_packet(p)->Ok_0;
    let pre = enc_upto(p, i)->Ok_0;
    let e = enc_packet(p->Bundle_1[i])->Ok_0;
    let next = enc_upto(p, i + 1)->Ok_0;
    let len = e.len() as int;
    let off = pre.len() as int;
    assert(next == pre + be32(len as u32) + e);
    assert(b.subrange(off, off + 4) =~= next.subrange(off, off + 4));
    assert(next.subrange(off, off + 4) =~= be32(len as u32));
    lemma_be32_round_trip(len as u32);
    assert(b.subrange(off + 4, off + 4 + len) =~= e) by {
        assert forall|j: int| 0 <= j < len implies b.subrange(off + 4, off + 4 + len)[j] == e[j] by {
            assert(b[off + 4 + j] == b.subrange(0, next.len() as int)[off + 4 + j]);
            assert(next[off + 4 + j] == e[j]);
        }
    }
}

proof fn lemma_wf_elem(p: PacketModel, i: int, k: int)
    requires
        p is Bundle,
        0 <= i < k <= n_elems(p),
        wf_upto(p, k),
    ensures
        wf_packet(p->Bundle_1[i]),
    decreases k,
{
    if k - 1 > i {
        lemma_wf_elem(p, i, k - 1);
    }
}

/// The elements of an encoded bundle read back from the `i`-th frame on.
proof fn lemma_dec_elems(p: PacketModel, i: int)
    requires
        p is Bundle,
        enc_packet(p) is Ok,
        0 <= i <= n_elems(p),
        forall|j: int| 0 <= j < n_elems(p) ==> (#[trigger] enc_packet(p->Bundle_1[j])) is Ok
            && dec_packet(enc_packet(p->Bundle_1[j])->Ok_0) == Ok::<PacketModel, crate::types::OscError>(p->Bundle_1[j]),
    ensures
        enc_upto(p, i) is Ok,
        dec_elems(enc_packet(p)->Ok_0, enc_upto(p, i)->Ok_0.len() as int)
            == Ok::<Seq<PacketModel>, crate::types::OscError>(p->Bundle_1.subrange(i, n_elems(p))),
    decreases n_elems(p) - i,
{
    let n = n_elems(p);
    let elems = p->Bundle_1;
    let b = enc_packet(p)->Ok_0;
    lemma_upto_prefix(p, i, n);
    if i == n {
        assert(elems.subrange(i, n) =~= Seq::<PacketModel>::empty());
    } else {
        lemma_bundle_frames(p, i);
        lemma_dec_elems(p, i + 1);
        let off = enc_upto(p, i)->Ok_0.len() as int;
        let e = enc_packet(elems[i])->Ok_0;
        assert(dec_packet(b.subrange(off + 4, off + 4 + e.len())) == Ok::<PacketModel, crate::types::OscError>(elems[i]));
        assert(seq![elems[i]] + elems.subrange(i + 1, n) =~= elems.subrange(i, n));
    }
}

/// Decoding the encoding of a packet gives the packet back, for every packet
/// that encodes and whose messages are well formed (`wf_packet`).
#[verifier::rlimit(60)]
pub proof fn lemma_round_trip(p: PacketModel)
    requires
        wf_packet(p),
        enc_packet(p) is Ok,
    ensures
        dec_packet(enc_packet(p)->Ok_0) == Ok::<PacketModel, crate::types::OscError>(p),
    decreases p,
{
    match p {
        PacketModel::Message(addr, args) => {
            lemma_message_round_trip(addr, args);
        },
        PacketModel::Bundle(tt, elems) => {
            let n = elems.len() as int;
            assert forall|j: int| 0 <= j < n implies (#[trigger] enc_packet(p->Bundle_1[j])) is Ok
                && dec_packet(enc_packet(p->Bundle_1[j])->Ok_0) == Ok::<PacketModel, crate::types::OscError>(p->Bundle_1[j]) by {
                lemma_bundle_frames(p, j);
                lemma_wf_elem(p, j, n);
                lemma_round_trip(elems[j]);
            }
            lemma_dec_elems(p, 0);
            lemma_upto_prefix(p, 0, n);
            let b = enc_packet(p)->Ok_0;
            let h = enc_upto(p, 0)->Ok_0;
            let sec = tt->Time_0;
            let frac = tt->Time_1;
            assert(h == bundle_header() + be32(sec) + be32(frac));
            assert(b.subrange(0, 8) =~= bundle_header());
            assert(b.subrange(0, 16) == h);
            assert(b.subrange(8, 12) =~= h.subrange(8, 12));
            assert(h.subrange(8, 12) =~= be32(sec));
            assert(b.subrange(12, 16) =~= h.subrange(12, 16));
            assert(h.subrange(12, 16) =~= be32(frac));
            lemma_be32_round_trip(sec);
            lemma_be32_round_trip(frac);
            assert(elems.subrange(0, n) =~= elems);
            assert(h.len() == 16);
            assert(dec_elems(b, 16) == Ok::<Seq<PacketModel>, crate::types::OscError>(elems));
            assert(dec_bundle(b) == Ok::<PacketModel, crate::types::OscError>(p));
            assert(b[0] == bundle_header()[0]);
        },
    }
}

/// A blob's length prefix holds the blob's own byte count; the padding that
/// follows the bytes is not counted.
pub proof fn lemma_blob_length_prefix(d: Seq<u8>)
    requires
        d.len() <= i32::MAX,
    ensures
        payload_of(ArgModel::Blob(d)).len() == 4 + pad_spec(d.len() as int),
        from_be32(payload_of(ArgModel::Blob(d)).subrange(0, 4)) == d.len(),
        payload_of(ArgModel::Blob(d)).subrange(4, 4 + d.len() as int) == d,
{
    let pl = payload_of(ArgModel::Blob(d));
    crate::encoder::lemma_pad(d.len() as int);
    assert(pl.subrange(0, 4) =~= be32(d.len() as u32));
    lemma_be32_round_trip(d.len() as u32);
    assert(pl.subrange(4, 4 + d.len() as int) =~= d);
}

/// The width of an argument whose payload has a fixed size, if it has one.
pub open spec fn fixed_width(a: ArgModel) -> int {
    match a {
        ArgModel::Int(_) | ArgModel::Float(_) | ArgModel::Char(_) | ArgModel::Midi(_, _, _, _)
        | ArgModel::Color(_, _, _, _) => 4,
        ArgModel::Long(_) | ArgModel::Double(_) | ArgModel::Time(_, _) => 8,
        _ => 0,
    }
}

/// A fixed-width payload cut short fails with `TruncatedValue`, naming the
/// width it needed and the bytes that were left.
proof fn lemma_dec_arg_short(b: Seq<u8>, pos: int, a: ArgModel)
    requires
        0 <= pos <= b.len(),
        fixed_width(a) > 0,
        b.len() - pos < fixed_width(a),
    ensures
        dec_arg(b, pos, tag_char(a)) == Err::<(ArgModel, int), crate::types::OscError>(
            crate::types::OscError::TruncatedValue(fixed_width(a) as usize, (b.len() - pos) as usize),
        ),
{
    reveal(dec_arg);
}

/// Only the first `k` tags matter to reading `k` arguments.
proof fn lemma_dec_args_tags(b: Seq<u8>, t1: Seq<char>, t2: Seq<char>, k: int, pos: int)
    requires
        0 <= k <= t1.len(),
        k <= t2.len(),
        t1.take(k) == t2.take(k),
    ensures
        dec_args(b, t1, k, pos) == dec_args(b, t2, k, pos),
    decreases k,
{
    if k > 0 {
        assert(t1.take(k - 1) =~= t2.take(k - 1)) by {
            assert forall|j: int| 0 <= j < k - 1 implies #[trigger] t1.take(k - 1)[j] == t2.take(k - 1)[j] by {
                assert(t1.take(k)[j] == t2.take(k)[j]);
            }
        }
        assert(t1[k - 1] == t1.take(k)[k - 1]);
        assert(t2[k - 1] == t2.take(k)[k - 1]);
        lemma_dec_args_tags(b, t1, t2, k - 1, pos);
    }
}

/// The wire form of a well-formed message, spelled out without arrays.
proof fn lemma_message_layout(addr: Seq<char>, args: Seq<ArgModel>)
    requires
        wf_message(addr, Some(args)),
        enc_message(addr, args) is Ok,
    ensures
        enc_message(addr, args)->Ok_0 == enc_str(addr) + enc_str(tag_string(args)) + flat_payloads(args),
        forall|i: int| 0 <= i < args.len() ==> (#[trigger] arg_error(args[i])) is None,
{
    lemma_tag_string(args);
    lemma_flat(args);
}

/// Decoding the wire form of a message whose last, fixed-width payload is cut
/// by `cut` bytes.
#[verifier::rlimit(100)]
#[verifier::spinoff_prover]
proof fn lemma_truncated_layout(addr: Seq<char>, args: Seq<ArgModel>, cut: int)
    requires
        wf_message(addr, Some(args)),
        forall|i: int| 0 <= i < args.len() ==> (#[trigger] arg_error(args[i])) is None,
        fixed_width(args.last()) > 0,
        0 < cut <= fixed_width(args.last()),
    ensures
        ({
            let full = enc_str(addr) + enc_str(tag_string(args)) + flat_payloads(args);
            dec_packet(full.take(full.len() - cut)) == Err::<PacketModel, crate::types::OscError>(
                crate::types::OscError::TruncatedValue(
                    fixed_width(args.last()) as usize,
                    (fixed_width(args.last()) - cut) as usize,
                ),
            )
        }),
{
    let n = args.len() as int;
    let d = args.drop_last();
    let ts = tag_string(args);
    lemma_tag_string(args);
    let e1 = enc_str(addr);
    let e2 = enc_str(ts);
    let pd = flat_payloads(d);
    let w = fixed_width(args.last());
    assert(payload_of(args.last()).len() == w);
    let full = e1 + e2 + flat_payloads(args);
    assert(full == e1 + e2 + (pd + payload_of(args.last())));
    let b = full.take(full.len() - cut);
    crate::encoder::lemma_enc_str_shape(addr);
    crate::encoder::lemma_enc_str_shape(ts);
    let l1 = e1.len() as int;
    let l2 = e2.len() as int;
    assert(b.subrange(0, l1) =~= e1);
    lemma_dec_str(b, 0, addr);
    assert(b.subrange(l1, l1 + l2) =~= e2);
    lemma_dec_str(b, l1, ts);
    assert forall|i: int| 0 <= i < d.len() implies wf_arg(#[trigger] d[i]) && arg_error(d[i]) is None by {
        assert(d[i] == args[i]);
    }
    assert(b.subrange(l1 + l2, l1 + l2 + pd.len()) =~= pd);
    lemma_dec_args(b, d, n - 1, l1 + l2);
    assert(d.take(n - 1) =~= d);
    assert(tag_chars(d).take(n - 1) =~= tag_chars(args).take(n - 1));
    lemma_dec_args_tags(b, tag_chars(d), tag_chars(args), n - 1, l1 + l2);
    let q = l1 + l2 + pd.len();
    lemma_dec_arg_short(b, q, args.last());
    assert(tag_chars(args)[n - 1] == tag_char(args.last()));
    assert(ts.drop_first() == tag_chars(args));
    let terr = crate::types::OscError::TruncatedValue(w as usize, (w - cut) as usize);
    assert(b.len() - q == w - cut);
    assert(dec_args(b, tag_chars(args), n, l1 + l2) == Err::<(Seq<ArgModel>, int), crate::types::OscError>(terr));
    assert(dec_str(b, 0) == Ok::<(Seq<char>, int), crate::types::OscError>((addr, l1)));
    assert(dec_str(b, l1) == Ok::<(Seq<char>, int), crate::types::OscError>((ts, l1 + l2)));
    lemma_slash_first(addr);
    assert(b[0] == e1[0]);
    assert(dec_message(b) == Err::<PacketModel, crate::types::OscError>(
        crate::types::OscError::TruncatedValue(w as usize, (w - cut) as usize),
    ));
}

/// Cutting a message short inside the payload of its last argument, when that
/// payload has a fixed width, makes decoding fail with `TruncatedValue`.
pub proof fn lemma_truncated_last_arg(addr: Seq<char>, args: Seq<ArgModel>, cut: int)
    requires
        wf_message(addr, Some(args)),
        enc_message(addr, args) is Ok,
        fixed_width(args.last()) > 0,
        0 < cut <= fixed_width(args.last()),
    ensures
        dec_packet(enc_message(addr, args)->Ok_0.take(enc_message(addr, args)->Ok_0.len() - cut))
            == Err::<PacketModel, crate::types::OscError>(
                crate::types::OscError::TruncatedValue(
                    fixed_width(args.last()) as usize,
                    (fixed_width(args.last()) - cut) as usize,
                ),
            ),
{
    lemma_message_layout(addr, args);
    lemma_truncated_layout(addr, args, cut);
}

/// A message whose argument list is present but empty travels as one without
/// arguments, and decodes as that message with the list absent.
pub proof fn lemma_round_trip_empty_args(addr: Seq<char>)
    requires
        addr.len() > 0,
        addr[0] == '/',
        no_nul(addr),
    ensures
        enc_packet(PacketModel::Message(addr, Some(Seq::empty())))
            == enc_packet(PacketModel::Message(addr, None)),
        enc_packet(PacketModel::Message(addr, None)) is Ok,
        dec_packet(enc_packet(PacketModel::Message(addr, Some(Seq::empty())))->Ok_0)
            == Ok::<PacketModel, crate::types::OscError>(PacketModel::Message(addr, None)),
{
    assert(enc_args(Seq::<ArgModel>::empty()) is Ok);
    lemma_message_round_trip(addr, None);
}

} // verus!
