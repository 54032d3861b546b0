//! The wire protocol: self-delimiting binary frames.
//!
//! A frame is a `u32` little-endian discriminant followed by the variant's
//! fields in declaration order. A string is a `u64` little-endian byte length
//! followed by that many UTF-8 bytes; a byte field is a `u64` little-endian
//! length followed by the raw bytes; an optional string is a one-byte tag
//! (`0x00` absent, `0x01` present) followed by the string if present.
//!
//! [`spec_encode_frame`] and [`spec_decode_frame`] state the format once, in
//! full; the executable codec is proved against them, and
//! [`lemma_decode_encode`] shows that decoding an encoded frame, whatever
//! follows it in the buffer, gives the frame back and consumes exactly its
//! bytes.

use vstd::bytes::*;
use vstd::prelude::*;
use vstd::slice::{slice_subrange, slice_to_vec};
use vstd::utf8::*;

verus! {

/// A protocol frame. `Publish` travels in both directions: client to broker
/// it carries a message in; broker to client it delivers one.
#[derive(Clone, Debug, PartialEq, Eq)]
pub enum ZaichikFrame {
    CreateTopic { topic: String, retention_ttl: u64, compaction_window: u64 },
    Subscribe { topic: String },
    Unsubscribe { topic: String },
    Publish { topic: String, key: Option<String>, payload: Vec<u8> },
    Commit,
    CloseConnection,
}

/// The mathematical content of a [`ZaichikFrame`]: strings and payloads as
/// sequences.
pub enum FrameView {
    CreateTopic { topic: Seq<char>, retention_ttl: u64, compaction_window: u64 },
    Subscribe { topic: Seq<char> },
    Unsubscribe { topic: Seq<char> },
    Publish { topic: Seq<char>, key: Option<Seq<char>>, payload: Seq<u8> },
    Commit,
    CloseConnection,
}

impl View for ZaichikFrame {
    type V = FrameView;

    open spec fn view(&self) -> FrameView {
        match self {
            ZaichikFrame::CreateTopic { topic, retention_ttl, compaction_window } => {
                FrameView::CreateTopic {
                    topic: topic@,
                    retention_ttl: *retention_ttl,
                    compaction_window: *compaction_window,
                }
            },
            ZaichikFrame::Subscribe { topic } => FrameView::Subscribe { topic: topic@ },
            ZaichikFrame::Unsubscribe { topic } => FrameView::Unsubscribe { topic: topic@ },
            ZaichikFrame::Publish { topic, key, payload } => {
                FrameView::Publish { topic: topic@, key: key.deep_view(), payload: payload@ }
            },
            ZaichikFrame::Commit => FrameView::Commit,
            ZaichikFrame::CloseConnection => FrameView::CloseConnection,
        }
    }
}

/// The wire discriminant of each frame variant.
pub open spec fn spec_frame_tag(f: FrameView) -> u32 {
    match f {
        FrameView::CreateTopic { .. } => 0,
        FrameView::Subscribe { .. } => 1,
        FrameView::Unsubscribe { .. } => 2,
        FrameView::Publish { .. } => 3,
        FrameView::Commit => 4,
        FrameView::CloseConnection => 5,
    }
}

/// A string on the wire: `u64` little-endian byte length, then UTF-8 bytes.
pub open spec fn spec_encode_str(s: Seq<char>) -> Seq<u8> {
    spec_u64_to_le_bytes(encode_utf8(s).len() as u64) + encode_utf8(s)
}

/// Raw bytes on the wire: `u64` little-endian length, then the bytes.
pub open spec fn spec_encode_bytes(b: Seq<u8>) -> Seq<u8> {
    spec_u64_to_le_bytes(b.len() as u64) + b
}

/// An optional string on the wire: a presence tag, then the string if present.
pub open spec fn spec_encode_opt_str(o: Option<Seq<char>>) -> Seq<u8> {
    match o {
        None => seq![0u8],
        Some(s) => seq![1u8] + spec_encode_str(s),
    }
}

/// The bytes of one whole frame.
pub open spec fn spec_encode_frame(f: FrameView) -> Seq<u8> {
    spec_u32_to_le_bytes(spec_frame_tag(f)) + match f {
        FrameView::CreateTopic { topic, retention_ttl, compaction_window } => {
            spec_encode_str(topic) + spec_u64_to_le_bytes(retention_ttl) + spec_u64_to_le_bytes(
                compaction_window,
            )
        },
        FrameView::Subscribe { topic } => spec_encode_str(topic),
        FrameView::Unsubscribe { topic } => spec_encode_str(topic),
        FrameView::Publish { topic, key, payload } => {
            spec_encode_str(topic) + spec_encode_opt_str(key) + spec_encode_bytes(payload)
        },
        FrameView::Commit => Seq::empty(),
        FrameView::CloseConnection => Seq::empty(),
    }
}

/// The length stored for a string or a byte field must fit its `u64` prefix.
/// Every frame built from executable strings and vectors satisfies this.
pub open spec fn wf_frame(f: FrameView) -> bool {
    match f {
        FrameView::CreateTopic { topic, .. } => encode_utf8(topic).len() <= u64::MAX,
        FrameView::Subscribe { topic } => encode_utf8(topic).len() <= u64::MAX,
        FrameView::Unsubscribe { topic } => encode_utf8(topic).len() <= u64::MAX,
        FrameView::Publish { topic, key, payload } => {
            &&& encode_utf8(topic).len() <= u64::MAX
            &&& (key matches Some(k) ==> encode_utf8(k).len() <= u64::MAX)
            &&& payload.len() <= u64::MAX
        },
        FrameView::Commit => true,
        FrameView::CloseConnection => true,
    }
}

/// Appends the little-endian bytes of `x`.
fn push_u32(out: &mut Vec<u8>, x: u32)
    ensures
        final(out)@ == old(out)@ + spec_u32_to_le_bytes(x),
{
    let mut b = u32_to_le_bytes(x);
    out.append(&mut b);
}

/// Appends the little-endian bytes of `x`.
fn push_u64(out: &mut Vec<u8>, x: u64)
    ensures
        final(out)@ == old(out)@ + spec_u64_to_le_bytes(x),
{
    let mut b = u64_to_le_bytes(x);
    out.append(&mut b);
}

/// Appends a length-prefixed string.
fn push_str(out: &mut Vec<u8>, s: &String)
    ensures
        final(out)@ == old(out)@ + spec_encode_str(s@),
        encode_utf8(s@).len() <= u64::MAX,
{
    let mut bytes = s.as_str().as_bytes_vec();
    push_u64(out, bytes.len() as u64);
    out.append(&mut bytes);
}

/// Appends a length-prefixed byte field.
fn push_bytes(out: &mut Vec<u8>, b: &Vec<u8>)
    ensures
        final(out)@ == old(out)@ + spec_encode_bytes(b@),
        b@.len() <= u64::MAX,
{
    push_u64(out, b.len() as u64);
    let mut copy = slice_to_vec(b.as_slice());
    out.append(&mut copy);
}

/// Outcome of reading one field, or one whole frame, out of a byte sequence:
/// the value with the offset just past it, too few bytes, or bytes that no
/// frame encodes to.
pub enum SpecTake<T> {
    Got(T, int),
    Short,
    Bad,
}

/// Reads a little-endian `u64` at offset `i`.
pub open spec fn spec_take_u64(b: Seq<u8>, i: int) -> SpecTake<u64> {
    if i + 8 <= b.len() {
        SpecTake::Got(spec_u64_from_le_bytes(b.subrange(i, i + 8)), i + 8)
    } else {
        SpecTake::Short
    }
}

/// Reads a length-prefixed string at offset `i`; bytes that are not UTF-8 are
/// malformed.
pub open spec fn spec_take_str(b: Seq<u8>, i: int) -> SpecTake<Seq<char>> {
    match spec_take_u64(b, i) {
        SpecTake::Got(n, j) => {
            if j + n <= b.len() {
                let raw = b.subrange(j, j + n);
                if valid_utf8(raw) {
                    SpecTake::Got(decode_utf8(raw), j + n)
                } else {
                    SpecTake::Bad
                }
            } else {
                SpecTake::Short
            }
        },
        SpecTake::Short => SpecTake::Short,
        SpecTake::Bad => SpecTake::Bad,
    }
}

/// Reads a length-prefixed byte field at offset `i`.
pub open spec fn spec_take_bytes(b: Seq<u8>, i: int) -> SpecTake<Seq<u8>> {
    match spec_take_u64(b, i) {
        SpecTake::Got(n, j) => {
            if j + n <= b.len() {
                SpecTake::Got(b.subrange(j, j + n), j + n)
            } else {
                SpecTake::Short
            }
        },
        SpecTake::Short => SpecTake::Short,
        SpecTake::Bad => SpecTake::Bad,
    }
}

/// Reads an optional string at offset `i`: a tag byte, then the string when
/// the tag says present. Any tag besides absent and present is malformed.
pub open spec fn spec_take_opt_str(b: Seq<u8>, i: int) -> SpecTake<Option<Seq<char>>> {
    if i + 1 <= b.len() {
        if b[i] == 0u8 {
            SpecTake::Got(None, i + 1)
        } else if b[i] == 1u8 {
            match spec_take_str(b, i + 1) {
                SpecTake::Got(s, j) => SpecTake::Got(Some(s), j),
                SpecTake::Short => SpecTake::Short,
                SpecTake::Bad => SpecTake::Bad,
            }
        } else {
            SpecTake::Bad
        }
    } else {
        SpecTake::Short
    }
}

/// Reads one whole frame from the front of `b`: the discriminant, then the
/// variant's fields. An unknown discriminant is malformed.
pub open spec fn spec_decode_frame(b: Seq<u8>) -> SpecTake<FrameView> {
    if 4 <= b.len() {
        let tag = spec_u32_from_le_bytes(b.subrange(0, 4));
        if tag == 0 {
            match spec_take_str(b, 4) {
                SpecTake::Got(topic, i) => match spec_take_u64(b, i) {
                    SpecTake::Got(retention_ttl, j) => match spec_take_u64(b, j) {
                        SpecTake::Got(compaction_window, k) => SpecTake::Got(
                            FrameView::CreateTopic { topic, retention_ttl, compaction_window },
                            k,
                        ),
                        SpecTake::Short => SpecTake::Short,
                        SpecTake::Bad => SpecTake::Bad,
                    },
                    SpecTake::Short => SpecTake::Short,
                    SpecTake::Bad => SpecTake::Bad,
                },
                SpecTake::Short => SpecTake::Short,
                SpecTake::Bad => SpecTake::Bad,
            }
        } else if tag == 1 {
            match spec_take_str(b, 4) {
                SpecTake::Got(topic, i) => SpecTake::Got(FrameView::Subscribe { topic }, i),
                SpecTake::Short => SpecTake::Short,
                SpecTake::Bad => SpecTake::Bad,
            }
        } else if tag == 2 {
            match spec_take_str(b, 4) {
                SpecTake::Got(topic, i) => SpecTake::Got(FrameView::Unsubscribe { topic }, i),
                SpecTake::Short => SpecTake::Short,
                SpecTake::Bad => SpecTake::Bad,
            }
        } else if tag == 3 {
            match spec_take_str(b, 4) {
                SpecTake::Got(topic, i) => match spec_take_opt_str(b, i) {
                    SpecTake::Got(key, j) => match spec_take_bytes(b, j) {
                        SpecTake::Got(payload, k) => SpecTake::Got(
                            FrameView::Publish { topic, key, payload },
                            k,
                        ),
                        SpecTake::Short => SpecTake::Short,
                        SpecTake::Bad => SpecTake::Bad,
                    },
                    SpecTake::Short => SpecTake::Short,
                    SpecTake::Bad => SpecTake::Bad,
                },
                SpecTake::Short => SpecTake::Short,
                SpecTake::Bad => SpecTake::Bad,
            }
        } else if tag == 4 {
            SpecTake::Got(FrameView::Commit, 4)
        } else if tag == 5 {
            SpecTake::Got(FrameView::CloseConnection, 4)
        } else {
            SpecTake::Bad
        }
    } else {
        SpecTake::Short
    }
}

/// Appends an optional string with its presence tag.
fn push_opt_str(out: &mut Vec<u8>, o: &Option<String>)
    ensures
        final(out)@ == old(out)@ + spec_encode_opt_str(o.deep_view()),
        o matches Some(s) ==> encode_utf8(s@).len() <= u64::MAX,
{
    match o {
        None => {
            out.push(0u8);
            assert(out@ =~= old(out)@ + spec_encode_opt_str(o.deep_view()));
        },
        Some(s) => {
            out.push(1u8);
            push_str(out, s);
            assert(out@ =~= old(out)@ + spec_encode_opt_str(o.deep_view()));
        },
    }
}

/// Outcome of reading one field in executable code; mirrors [`SpecTake`].
enum TakeRes<T> {
    Got(T, usize),
    Short,
    Bad,
}

/// Relies on `String::from_utf8`: it succeeds exactly on valid UTF-8, and the
/// string it returns owns the given bytes, so its UTF-8 bytes are the input.
#[verifier::external_body]
fn string_from_utf8(bytes: Vec<u8>) -> (r: Option<String>)
    ensures
        r is Some <==> valid_utf8(bytes@),
        r matches Some(s) ==> encode_utf8(s@) == bytes@,
{
    String::from_utf8(bytes).ok()
}

/// Reads a little-endian `u64` at offset `i`; `None` when the buffer is short.
fn read_u64(buf: &Vec<u8>, i: usize) -> (r: Option<(u64, usize)>)
    ensures
        match r {
            Some((x, j)) => spec_take_u64(buf@, i as int) == SpecTake::Got(x, j as int) && j
                <= buf.len(),
            None => spec_take_u64(buf@, i as int) is Short,
        },
{
    if buf.len() >= 8 && i <= buf.len() - 8 {
        let x = u64_from_le_bytes(slice_subrange(buf.as_slice(), i, i + 8));
        Some((x, i + 8))
    } else {
        None
    }
}

/// Reads a length-prefixed string at offset `i`.
fn read_str(buf: &Vec<u8>, i: usize) -> (r: TakeRes<String>)
    ensures
        match r {
            TakeRes::Got(s, j) => spec_take_str(buf@, i as int) == SpecTake::Got(s@, j as int) && j
                <= buf.len(),
            TakeRes::Short => spec_take_str(buf@, i as int) is Short,
            TakeRes::Bad => spec_take_str(buf@, i as int) is Bad,
        },
{
    match read_u64(buf, i) {
        None => TakeRes::Short,
        Some((n, j)) => {
            if ((buf.len() - j) as u64) < n {
                TakeRes::Short
            } else {
                let n_us = n as usize;
                let raw = slice_to_vec(slice_subrange(buf.as_slice(), j, j + n_us));
                match string_from_utf8(raw) {
                    Some(s) => {
                        proof {
                            encode_utf8_decode_utf8(s@);
                        }
                        TakeRes::Got(s, j + n_us)
                    },
                    None => TakeRes::Bad,
                }
            }
        },
    }
}

/// Reads a length-prefixed byte field at offset `i`.
fn read_bytes(buf: &Vec<u8>, i: usize) -> (r: Option<(Vec<u8>, usize)>)
    ensures
        match r {
            Some((v, j)) => spec_take_bytes(buf@, i as int) == SpecTake::Got(v@, j as int) && j
                <= buf.len(),
            None => spec_take_bytes(buf@, i as int) is Short,
        },
{
    match read_u64(buf, i) {
        None => None,
        Some((n, j)) => {
            if ((buf.len() - j) as u64) < n {
                None
            } else {
                let n_us = n as usize;
                let raw = slice_to_vec(slice_subrange(buf.as_slice(), j, j + n_us));
                Some((raw, j + n_us))
            }
        },
    }
}

/// Reads an optional string at offset `i`.
fn read_opt_str(buf: &Vec<u8>, i: usize) -> (r: TakeRes<Option<String>>)
    ensures
        match r {
            TakeRes::Got(o, j) => spec_take_opt_str(buf@, i as int) == SpecTake::Got(
                o.deep_view(),
                j as int,
            ) && j <= buf.len(),
            TakeRes::Short => spec_take_opt_str(buf@, i as int) is Short,
            TakeRes::Bad => spec_take_opt_str(buf@, i as int) is Bad,
        },
{
    if i < buf.len() {
        let tag = buf[i];
        if tag == 0 {
            TakeRes::Got(None, i + 1)
        } else if tag == 1 {
            match read_str(buf, i + 1) {
                TakeRes::Got(s, j) => TakeRes::Got(Some(s), j),
                TakeRes::Short => TakeRes::Short,
                TakeRes::Bad => TakeRes::Bad,
            }
        } else {
            TakeRes::Bad
        }
    } else {
        TakeRes::Short
    }
}

/// When `b` holds `e` at offset `i`, every index of `e` is visible through
/// `b`.
proof fn lemma_embedded_bytes(b: Seq<u8>, i: int, e: Seq<u8>)
    requires
        0 <= i,
        i + e.len() <= b.len(),
        b.subrange(i, i + e.len() as int) == e,
    ensures
        forall|k: int| 0 <= k < e.len() ==> b[i + k] == e[k],
{
    assert forall|k: int| 0 <= k < e.len() implies b[i + k] == e[k] by {
        assert(b.subrange(i, i + e.len() as int)[k] == e[k]);
    }
}

/// Reading a `u64` where one was written finds it.
proof fn lemma_take_u64_at(b: Seq<u8>, i: int, x: u64)
    requires
        0 <= i,
        i + 8 <= b.len(),
        b.subrange(i, i + 8) == spec_u64_to_le_bytes(x),
    ensures
        spec_take_u64(b, i) == SpecTake::<u64>::Got(x, i + 8),
{
    lemma_auto_spec_u64_to_from_le_bytes();
}

/// Reading a string where one was written finds it, whatever follows.
proof fn lemma_take_str_at(b: Seq<u8>, i: int, s: Seq<char>)
    requires
        0 <= i,
        encode_utf8(s).len() <= u64::MAX,
        i + spec_encode_str(s).len() <= b.len(),
        b.subrange(i, i + spec_encode_str(s).len()) == spec_encode_str(s),
    ensures
        spec_take_str(b, i) == SpecTake::<Seq<char>>::Got(s, i + spec_encode_str(s).len()),
{
    lemma_auto_spec_u64_to_from_le_bytes();
    let u = encode_utf8(s);
    let n = u.len() as int;
    let enc = spec_encode_str(s);
    let len_bytes = spec_u64_to_le_bytes(u.len() as u64);
    assert(len_bytes.len() == 8);
    assert(enc.len() == 8 + n);
    lemma_embedded_bytes(b, i, enc);
    assert forall|k: int| 0 <= k < 8 implies b.subrange(i, i + 8)[k] == len_bytes[k] by {
        assert(b[i + k] == enc[k]);
    }
    assert(b.subrange(i, i + 8) =~= len_bytes);
    assert(spec_take_u64(b, i) == SpecTake::<u64>::Got(u.len() as u64, i + 8));
    assert forall|k: int| 0 <= k < n implies b.subrange(i + 8, i + 8 + n)[k] == u[k] by {
        assert(b[i + (8 + k)] == enc[8 + k]);
    }
    assert(b.subrange(i + 8, i + 8 + n) =~= u);
    encode_utf8_valid_utf8(s);
    encode_utf8_decode_utf8(s);
}

/// Reading a byte field where one was written finds it, whatever follows.
proof fn lemma_take_bytes_at(b: Seq<u8>, i: int, p: Seq<u8>)
    requires
        0 <= i,
        p.len() <= u64::MAX,
        i + spec_encode_bytes(p).len() <= b.len(),
        b.subrange(i, i + spec_encode_bytes(p).len()) == spec_encode_bytes(p),
    ensures
        spec_take_bytes(b, i) == SpecTake::<Seq<u8>>::Got(p, i + spec_encode_bytes(p).len()),
{
    lemma_auto_spec_u64_to_from_le_bytes();
    let n = p.len() as int;
    let enc = spec_encode_bytes(p);
    let len_bytes = spec_u64_to_le_bytes(p.len() as u64);
    assert(len_bytes.len() == 8);
    lemma_embedded_bytes(b, i, enc);
    assert forall|k: int| 0 <= k < 8 implies b.subrange(i, i + 8)[k] == len_bytes[k] by {
        assert(b[i + k] == enc[k]);
    }
    assert(b.subrange(i, i + 8) =~= len_bytes);
    assert(spec_take_u64(b, i) == SpecTake::<u64>::Got(p.len() as u64, i + 8));
    assert forall|k: int| 0 <= k < n implies b.subrange(i + 8, i + 8 + n)[k] == p[k] by {
        assert(b[i + (8 + k)] == enc[8 + k]);
    }
    assert(b.subrange(i + 8, i + 8 + n) =~= p);
}

/// Reading an optional string where one was written finds it.
proof fn lemma_take_opt_str_at(b: Seq<u8>, i: int, o: Option<Seq<char>>)
    requires
        0 <= i,
        (o matches Some(s) ==> encode_utf8(s).len() <= u64::MAX),
        i + spec_encode_opt_str(o).len() <= b.len(),
        b.subrange(i, i + spec_encode_opt_str(o).len()) == spec_encode_opt_str(o),
    ensures
        spec_take_opt_str(b, i) == SpecTake::<Option<Seq<char>>>::Got(
            o,
            i + spec_encode_opt_str(o).len(),
        ),
{
    let e = spec_encode_opt_str(o);
    lemma_embedded_bytes(b, i, e);
    assert(b[i + 0] == e[0]);
    match o {
        None => {
            assert(e[0] == 0u8);
        },
        Some(s) => {
            let es = spec_encode_str(s);
            assert(e[0] == 1u8);
            assert forall|k: int| 0 <= k < es.len() implies b.subrange(
                i + 1,
                i + 1 + es.len() as int,
            )[k] == es[k] by {
                assert(b[i + (1 + k)] == e[1 + k]);
            }
            assert(b.subrange(i + 1, i + 1 + es.len() as int) =~= es);
            lemma_take_str_at(b, i + 1, s);
        },
    }
}

/// Decoding an encoded frame, whatever follows it in the buffer, yields the
/// frame back and consumes exactly its bytes. With [`ZaichikCodec::encode`]
/// and [`ZaichikCodec::decode`] proved against [`spec_encode_frame`] and
/// [`spec_decode_frame`], this is the codec's round trip, frame by frame, on
/// a multiplexed byte stream.
pub proof fn lemma_decode_encode(f: FrameView, rest: Seq<u8>)
    requires
        wf_frame(f),
    ensures
        spec_decode_frame(spec_encode_frame(f) + rest) == SpecTake::<FrameView>::Got(
            f,
            spec_encode_frame(f).len() as int,
        ),
{
    lemma_auto_spec_u32_to_from_le_bytes();
    lemma_auto_spec_u64_to_from_le_bytes();
    let e = spec_encode_frame(f);
    let b = e + rest;
    let tag = spec_frame_tag(f);
    assert(b.subrange(0, 4) =~= spec_u32_to_le_bytes(tag));
    assert(spec_u32_from_le_bytes(b.subrange(0, 4)) == tag);
    match f {
        FrameView::CreateTopic { topic, retention_ttl, compaction_window } => {
            let es = spec_encode_str(topic);
            let e1 = spec_u64_to_le_bytes(retention_ttl);
            let e2 = spec_u64_to_le_bytes(compaction_window);
            let i = 4 + es.len() as int;
            assert(e.len() == i + 16);
            assert forall|k: int| 0 <= k < es.len() implies b.subrange(4, i)[k] == es[k] by {
                assert(b[4 + k] == es[k]);
            }
            assert(b.subrange(4, i) =~= es);
            lemma_take_str_at(b, 4, topic);
            assert forall|k: int| 0 <= k < 8 implies b.subrange(i, i + 8)[k] == e1[k] by {
                assert(b[(4 + es.len() as int) + k] == e1[k]);
            }
            assert(b.subrange(i, i + 8) =~= e1);
            lemma_take_u64_at(b, i, retention_ttl);
            assert forall|k: int| 0 <= k < 8 implies b.subrange(i + 8, i + 16)[k] == e2[k] by {
                assert(b[(4 + es.len() as int) + (8 + k)] == e2[k]);
            }
            assert(b.subrange(i + 8, i + 16) =~= e2);
            lemma_take_u64_at(b, i + 8, compaction_window);
        },
        FrameView::Subscribe { topic } => {
            let es = spec_encode_str(topic);
            assert forall|k: int| 0 <= k < es.len() implies b.subrange(4, 4 + es.len() as int)[k]
                == es[k] by {
                assert(b[4 + k] == es[k]);
            }
            assert(b.subrange(4, 4 + es.len() as int) =~= es);
            lemma_take_str_at(b, 4, topic);
        },
        FrameView::Unsubscribe { topic } => {
            let es = spec_encode_str(topic);
            assert forall|k: int| 0 <= k < es.len() implies b.subrange(4, 4 + es.len() as int)[k]
                == es[k] by {
                assert(b[4 + k] == es[k]);
            }
            assert(b.subrange(4, 4 + es.len() as int) =~= es);
            lemma_take_str_at(b, 4, topic);
        },
        FrameView::Publish { topic, key, payload } => {
            let es = spec_encode_str(topic);
            let eo = spec_encode_opt_str(key);
            let ep = spec_encode_bytes(payload);
            let i = 4 + es.len() as int;
            let j = i + eo.len() as int;
            let k = j + ep.len() as int;
            assert(e.len() == k);
            assert forall|m: int| 0 <= m < es.len() implies b.subrange(4, i)[m] == es[m] by {
                assert(b[4 + m] == es[m]);
            }
            assert(b.subrange(4, i) =~= es);
            lemma_take_str_at(b, 4, topic);
            assert forall|m: int| 0 <= m < eo.len() implies b.subrange(i, j)[m] == eo[m] by {
                assert(b[(4 + es.len() as int) + m] == eo[m]);
            }
            assert(b.subrange(i, j) =~= eo);
            lemma_take_opt_str_at(b, i, key);
            assert forall|m: int| 0 <= m < ep.len() implies b.subrange(j, k)[m] == ep[m] by {
                assert(b[(4 + es.len() as int) + (eo.len() as int + m)] == ep[m]);
            }
            assert(b.subrange(j, k) =~= ep);
            lemma_take_bytes_at(b, j, payload);
        },
        FrameView::Commit => {
            assert(e.len() == 4);
        },
        FrameView::CloseConnection => {
            assert(e.len() == 4);
        },
    }
}

/// Reading a string where only part of one was written finds too few bytes.
/// The part that stands in `b` at offset `i` agrees with the string's
/// encoding.
proof fn lemma_take_str_prefix(b: Seq<u8>, i: int, s: Seq<char>)
    requires
        0 <= i,
        encode_utf8(s).len() <= u64::MAX,
        b.len() < i + spec_encode_str(s).len(),
        forall|x: int| i <= x < b.len() ==> b[x] == spec_encode_str(s)[x - i],
    ensures
        spec_take_str(b, i) is Short,
{
    lemma_auto_spec_u64_to_from_le_bytes();
    let len_bytes = spec_u64_to_le_bytes(encode_utf8(s).len() as u64);
    assert(len_bytes.len() == 8);
    if i + 8 <= b.len() {
        assert forall|k: int| 0 <= k < 8 implies b.subrange(i, i + 8)[k] == len_bytes[k] by {
            assert(b[i + k] == spec_encode_str(s)[k]);
        }
        assert(b.subrange(i, i + 8) =~= len_bytes);
        assert(spec_take_u64(b, i) == SpecTake::<u64>::Got(encode_utf8(s).len() as u64, i + 8));
    }
}

/// Reading a byte field where only part of one was written finds too few
/// bytes.
proof fn lemma_take_bytes_prefix(b: Seq<u8>, i: int, p: Seq<u8>)
    requires
        0 <= i,
        p.len() <= u64::MAX,
        b.len() < i + spec_encode_bytes(p).len(),
        forall|x: int| i <= x < b.len() ==> b[x] == spec_encode_bytes(p)[x - i],
    ensures
        spec_take_bytes(b, i) is Short,
{
    lemma_auto_spec_u64_to_from_le_bytes();
    let len_bytes = spec_u64_to_le_bytes(p.len() as u64);
    assert(len_bytes.len() == 8);
    if i + 8 <= b.len() {
        assert forall|k: int| 0 <= k < 8 implies b.subrange(i, i + 8)[k] == len_bytes[k] by {
            assert(b[i + k] == spec_encode_bytes(p)[k]);
        }
        assert(b.subrange(i, i + 8) =~= len_bytes);
        assert(spec_take_u64(b, i) == SpecTake::<u64>::Got(p.len() as u64, i + 8));
    }
}

/// Reading an optional string where only part of one was written finds too
/// few bytes.
proof fn lemma_take_opt_str_prefix(b: Seq<u8>, i: int, o: Option<Seq<char>>)
    requires
        0 <= i,
        (o matches Some(s) ==> encode_utf8(s).len() <= u64::MAX),
        b.len() < i + spec_encode_opt_str(o).len(),
        forall|x: int| i <= x < b.len() ==> b[x] == spec_encode_opt_str(o)[x - i],
    ensures
        spec_take_opt_str(b, i) is Short,
{
    if i + 1 <= b.len() {
        let e = spec_encode_opt_str(o);
        assert(b[i + 0] == e[0]);
        match o {
            None => {
                // an absent option is one byte; the buffer cannot cut it
                assert(false);
            },
            Some(s) => {
                assert(e[0] == 1u8);
                let es = spec_encode_str(s);
                assert forall|x: int| i + 1 <= x < b.len() implies b[x] == es[x - (i + 1)] by {
                    assert(b[x] == e[x - i]);
                    assert(e[x - i] == es[x - i - 1]);
                }
                lemma_take_str_prefix(b, i + 1, s);
            },
        }
    }
}

/// A buffer holding fewer bytes than one whole frame decodes to "not yet a
/// frame": never to a wrong frame, and never to a malformed window. With
/// [`lemma_decode_encode`], the decoder consumes a frame exactly when its
/// last byte has arrived.
pub proof fn lemma_decode_prefix(f: FrameView, n: int)
    requires
        wf_frame(f),
        0 <= n < spec_encode_frame(f).len(),
    ensures
        spec_decode_frame(spec_encode_frame(f).take(n)) is Short,
{
    lemma_auto_spec_u32_to_from_le_bytes();
    lemma_auto_spec_u64_to_from_le_bytes();
    let e = spec_encode_frame(f);
    let b = e.take(n);
    let tag = spec_frame_tag(f);
    assert(forall|x: int| 0 <= x < n ==> b[x] == e[x]);
    if n >= 4 {
        assert(b.subrange(0, 4) =~= spec_u32_to_le_bytes(tag));
        assert(spec_u32_from_le_bytes(b.subrange(0, 4)) == tag);
        match f {
            FrameView::CreateTopic { topic, retention_ttl, compaction_window } => {
                let es = spec_encode_str(topic);
                let i = 4 + es.len() as int;
                assert(e.len() == i + 16);
                if n < i {
                    assert forall|x: int| 4 <= x < b.len() implies b[x] == es[x - 4] by {
                        assert(b[x] == e[x]);
                    }
                    lemma_take_str_prefix(b, 4, topic);
                } else {
                    assert forall|k: int| 0 <= k < es.len() implies b.subrange(4, i)[k]
                        == es[k] by {
                        assert(b[4 + k] == e[4 + k]);
                    }
                    assert(b.subrange(4, i) =~= es);
                    lemma_take_str_at(b, 4, topic);
                    if n >= i + 8 {
                        let e1 = spec_u64_to_le_bytes(retention_ttl);
                        assert forall|k: int| 0 <= k < 8 implies b.subrange(i, i + 8)[k]
                            == e1[k] by {
                            assert(b[(4 + es.len() as int) + k] == e[(4 + es.len() as int) + k]);
                        }
                        assert(b.subrange(i, i + 8) =~= e1);
                        lemma_take_u64_at(b, i, retention_ttl);
                        // the final field runs short: the buffer ends before it
                        assert(b.len() < i + 16);
                    }
                }
            },
            FrameView::Subscribe { topic } => {
                let es = spec_encode_str(topic);
                assert(e.len() == 4 + es.len());
                assert forall|x: int| 4 <= x < b.len() implies b[x] == es[x - 4] by {
                    assert(b[x] == e[x]);
                }
                lemma_take_str_prefix(b, 4, topic);
            },
            FrameView::Unsubscribe { topic } => {
                let es = spec_encode_str(topic);
                assert(e.len() == 4 + es.len());
                assert forall|x: int| 4 <= x < b.len() implies b[x] == es[x - 4] by {
                    assert(b[x] == e[x]);
                }
                lemma_take_str_prefix(b, 4, topic);
            },
            FrameView::Publish { topic, key, payload } => {
                let es = spec_encode_str(topic);
                let eo = spec_encode_opt_str(key);
                let ep = spec_encode_bytes(payload);
                let i = 4 + es.len() as int;
                let j = i + eo.len() as int;
                assert(e.len() == j + ep.len());
                if n < i {
                    assert forall|x: int| 4 <= x < b.len() implies b[x] == es[x - 4] by {
                        assert(b[x] == e[x]);
                    }
                    lemma_take_str_prefix(b, 4, topic);
                } else {
                    assert forall|k: int| 0 <= k < es.len() implies b.subrange(4, i)[k]
                        == es[k] by {
                        assert(b[4 + k] == e[4 + k]);
                    }
                    assert(b.subrange(4, i) =~= es);
                    lemma_take_str_at(b, 4, topic);
                    if n < j {
                        assert forall|x: int| i <= x < b.len() implies b[x] == eo[x - i] by {
                            assert(b[x] == e[x]);
                            assert(e[x] == eo[x - (4 + es.len() as int)]);
                        }
                        lemma_take_opt_str_prefix(b, i, key);
                    } else {
                        assert forall|k: int| 0 <= k < eo.len() implies b.subrange(i, j)[k]
                            == eo[k] by {
                            assert(b[(4 + es.len() as int) + k] == e[(4 + es.len() as int) + k]);
                        }
                        assert(b.subrange(i, j) =~= eo);
                        lemma_take_opt_str_at(b, i, key);
                        // the payload runs short: the buffer ends inside it
                        assert forall|x: int| j <= x < b.len() implies b[x] == ep[x - j] by {
                            assert(b[x] == e[x]);
                            assert(e[x] == ep[x - ((4 + es.len() as int) + eo.len() as int)]);
                        }
                        lemma_take_bytes_prefix(b, j, payload);
                    }
                }
            },
            FrameView::Commit => {},
            FrameView::CloseConnection => {},
        }
    }
}

/// An inbound byte window that no frame encodes to.
#[derive(Clone, Debug, PartialEq, Eq)]
pub enum CodecError {
    Malformed,
}

/// Turns frames into bytes and bytes back into frames. Carries no state.
#[derive(Clone, Debug)]
pub struct ZaichikCodec;

impl ZaichikCodec {
    /// Builds a codec.
    pub fn new() -> ZaichikCodec {
        ZaichikCodec
    }

    /// Appends the encoding of `item` to `buffer`. Never fails; the `Result`
    /// mirrors the transport-facing interface.
    pub fn encode(&mut self, item: ZaichikFrame, buffer: &mut Vec<u8>) -> (r: Result<
        (),
        CodecError,
    >)
        ensures
            r is Ok,
            final(buffer)@ == old(buffer)@ + spec_encode_frame(item@),
            wf_frame(item@),
    {
        match &item {
            ZaichikFrame::CreateTopic { topic, retention_ttl, compaction_window } => {
                push_u32(buffer, 0);
                push_str(buffer, topic);
                push_u64(buffer, *retention_ttl);
                push_u64(buffer, *compaction_window);
                assert(buffer@ =~= old(buffer)@ + spec_encode_frame(item@));
            },
            ZaichikFrame::Subscribe { topic } => {
                push_u32(buffer, 1);
                push_str(buffer, topic);
                assert(buffer@ =~= old(buffer)@ + spec_encode_frame(item@));
            },
            ZaichikFrame::Unsubscribe { topic } => {
                push_u32(buffer, 2);
                push_str(buffer, topic);
                assert(buffer@ =~= old(buffer)@ + spec_encode_frame(item@));
            },
            ZaichikFrame::Publish { topic, key, payload } => {
                push_u32(buffer, 3);
                push_str(buffer, topic);
                push_opt_str(buffer, key);
                push_bytes(buffer, payload);
                assert(buffer@ =~= old(buffer)@ + spec_encode_frame(item@));
            },
            ZaichikFrame::Commit => {
                push_u32(buffer, 4);
                assert(buffer@ =~= old(buffer)@ + spec_encode_frame(item@));
            },
            ZaichikFrame::CloseConnection => {
                push_u32(buffer, 5);
                assert(buffer@ =~= old(buffer)@ + spec_encode_frame(item@));
            },
        }
        Ok(())
    }

    /// Consumes exactly one frame from the front of `buffer`. With fewer bytes
    /// than a complete frame it returns nothing and leaves the buffer as it
    /// was; on bytes that no frame encodes to it discards the buffer's
    /// contents and reports the error.
    pub fn decode(&mut self, buffer: &mut Vec<u8>) -> (r: Result<Option<ZaichikFrame>, CodecError>)
        ensures
            match spec_decode_frame(old(buffer)@) {
                SpecTake::Got(fv, n) => {
                    &&& r matches Ok(Some(f)) && f@ == fv
                    &&& final(buffer)@ == old(buffer)@.subrange(n, old(buffer)@.len() as int)
                },
                SpecTake::Short => r matches Ok(None) && final(buffer)@ == old(buffer)@,
                SpecTake::Bad => r is Err && final(buffer)@ == Seq::<u8>::empty(),
            },
    {
        if buffer.len() < 4 {
            return Ok(None);
        }
        let tag = u32_from_le_bytes(slice_subrange(buffer.as_slice(), 0, 4));
        let parsed: TakeRes<ZaichikFrame> = if tag == 0 {
            match read_str(buffer, 4) {
                TakeRes::Got(topic, i) => match read_u64(buffer, i) {
                    Some((retention_ttl, j)) => match read_u64(buffer, j) {
                        Some((compaction_window, k)) => TakeRes::Got(
                            ZaichikFrame::CreateTopic { topic, retention_ttl, compaction_window },
                            k,
                        ),
                        None => TakeRes::Short,
                    },
                    None => TakeRes::Short,
                },
                TakeRes::Short => TakeRes::Short,
                TakeRes::Bad => TakeRes::Bad,
            }
        } else if tag == 1 {
            match read_str(buffer, 4) {
                TakeRes::Got(topic, i) => TakeRes::Got(ZaichikFrame::Subscribe { topic }, i),
                TakeRes::Short => TakeRes::Short,
                TakeRes::Bad => TakeRes::Bad,
            }
        } else if tag == 2 {
            match read_str(buffer, 4) {
                TakeRes::Got(topic, i) => TakeRes::Got(ZaichikFrame::Unsubscribe { topic }, i),
                TakeRes::Short => TakeRes::Short,
                TakeRes::Bad => TakeRes::Bad,
            }
        } else if tag == 3 {
            match read_str(buffer, 4) {
                TakeRes::Got(topic, i) => match read_opt_str(buffer, i) {
                    TakeRes::Got(key, j) => match read_bytes(buffer, j) {
                        Some((payload, k)) => TakeRes::Got(
                            ZaichikFrame::Publish { topic, key, payload },
                            k,
                        ),
                        None => TakeRes::Short,
                    },
                    TakeRes::Short => TakeRes::Short,
                    TakeRes::Bad => TakeRes::Bad,
                },
                TakeRes::Short => TakeRes::Short,
                TakeRes::Bad => TakeRes::Bad,
            }
        } else if tag == 4 {
            TakeRes::Got(ZaichikFrame::Commit, 4)
        } else if tag == 5 {
            TakeRes::Got(ZaichikFrame::CloseConnection, 4)
        } else {
            TakeRes::Bad
        };
        match parsed {
            TakeRes::Got(f, n) => {
                let rest = slice_to_vec(slice_subrange(buffer.as_slice(), n, buffer.len()));
                *buffer = rest;
                Ok(Some(f))
            },
            TakeRes::Short => Ok(None),
            TakeRes::Bad => {
                buffer.clear();
                Err(CodecError::Malformed)
            },
        }
    }
}

} // verus!
