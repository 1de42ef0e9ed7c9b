//! Binary encoding of [`Message`] values and the length-prefixed framing
//! used on the wire.
//!
//! The payload encoding is fixed here: a one-byte variant tag followed by
//! the fields in order. A string travels as a `u32` little-endian character
//! count followed by each character as a `u32` little-endian scalar value;
//! an optional string carries a one-byte presence flag first; a transform is
//! its sixteen words, each `u32` little-endian. `spec_decode` is the
//! mathematical decoder; `decode_message` returns exactly what it says;
//! `lemma_decode_encode` shows that decoding an encoded message gives the
//! message back, and `lemma_decode_sound` that whatever decodes was
//! exactly such an encoding.

use vstd::prelude::*;
use vstd::utf8::is_scalar;
use vstd::string::StrSliceExecFns;
use crate::message::{Message, MessageView, Transform};

verus! {

/// The four little-endian bytes of a 32-bit word.
pub open spec fn u32_le(v: u32) -> Seq<u8> {
    seq![
        (v & 0xff) as u8,
        ((v >> 8) & 0xff) as u8,
        ((v >> 16) & 0xff) as u8,
        ((v >> 24) & 0xff) as u8,
    ]
}

/// The word read back from four little-endian bytes.
pub open spec fn u32_of_le(b0: u8, b1: u8, b2: u8, b3: u8) -> u32 {
    (b0 as u32) | ((b1 as u32) << 8) | ((b2 as u32) << 16) | ((b3 as u32) << 24)
}

/// Reading a word at `pos`: the four bytes there, little endian.
pub open spec fn spec_read_u32(d: Seq<u8>, pos: int) -> Option<(u32, int)> {
    if 0 <= pos && pos + 4 <= d.len() {
        Some((u32_of_le(d[pos], d[pos + 1], d[pos + 2], d[pos + 3]), pos + 4))
    } else {
        None
    }
}

proof fn lemma_u32_le_round(v: u32)
    ensures
        u32_of_le((v & 0xff) as u8, ((v >> 8) & 0xff) as u8, ((v >> 16) & 0xff) as u8, ((v >> 24) & 0xff) as u8) == v,
{
    assert((((v & 0xff) as u8) as u32) | ((((v >> 8) & 0xff) as u8) as u32) << 8
        | ((((v >> 16) & 0xff) as u8) as u32) << 16 | ((((v >> 24) & 0xff) as u8) as u32) << 24
        == v) by (bit_vector);
}

/// A word laid down at `pos` reads back as itself.
proof fn lemma_spec_read_u32_exact(d: Seq<u8>, pos: int, v: u32)
    requires
        0 <= pos,
        pos + 4 <= d.len(),
        d.subrange(pos, pos + 4) == u32_le(v),
    ensures
        spec_read_u32(d, pos) == Some((v, pos + 4)),
{
    assert(d[pos] == u32_le(v)[0]);
    assert(d[pos + 1] == u32_le(v)[1]);
    assert(d[pos + 2] == u32_le(v)[2]);
    assert(d[pos + 3] == u32_le(v)[3]);
    lemma_u32_le_round(v);
}

fn push_u32_le(out: &mut Vec<u8>, v: u32)
    ensures
        final(out)@ == old(out)@ + u32_le(v),
{
    out.push((v & 0xff) as u8);
    out.push(((v >> 8) & 0xff) as u8);
    out.push(((v >> 16) & 0xff) as u8);
    out.push(((v >> 24) & 0xff) as u8);
    proof {
        assert(out@ =~= old(out)@ + u32_le(v));
    }
}

fn read_u32(data: &Vec<u8>, pos: usize) -> (r: Option<(u32, usize)>)
    requires
        pos <= data@.len(),
    ensures
        match r {
            Some(vp) => spec_read_u32(data@, pos as int) == Some((vp.0, vp.1 as int)),
            None => spec_read_u32(data@, pos as int) is None,
        },
{
    if data.len() - pos >= 4 {
        let b0 = data[pos];
        let b1 = data[pos + 1];
        let b2 = data[pos + 2];
        let b3 = data[pos + 3];
        Some(((b0 as u32) | ((b1 as u32) << 8) | ((b2 as u32) << 16) | ((b3 as u32) << 24), pos + 4))
    } else {
        None
    }
}

/// Relies on char::from_u32: `Some` exactly on Unicode scalar values (not a
/// surrogate, at most 0x10FFFF), and the character has that code point.
#[verifier::external_body]
fn char_from_u32(u: u32) -> (r: Option<char>)
    ensures
        r is Some <==> is_scalar(u),
        r is Some ==> r->0 as u32 == u,
{
    char::from_u32(u)
}

/// Relies on String::push: appends the character to the end of the string.
#[verifier::external_body]
fn string_push_char(s: &mut String, c: char)
    ensures
        final(s)@ == old(s)@.push(c),
{
    s.push(c);
}

/// The characters of `s`, each as its scalar value in four little-endian
/// bytes.
pub open spec fn chars_bytes(s: Seq<char>) -> Seq<u8>
    decreases s.len(),
{
    if s.len() == 0 {
        Seq::empty()
    } else {
        u32_le(s[0] as u32) + chars_bytes(s.drop_first())
    }
}

/// A string on the wire: character count, then the characters.
pub open spec fn string_bytes(s: Seq<char>) -> Seq<u8> {
    u32_le(s.len() as u32) + chars_bytes(s)
}

proof fn lemma_chars_bytes_len(s: Seq<char>)
    ensures
        chars_bytes(s).len() == 4 * s.len(),
    decreases s.len(),
{
    if s.len() > 0 {
        lemma_chars_bytes_len(s.drop_first());
    }
}

proof fn lemma_chars_bytes_push(s: Seq<char>, c: char)
    ensures
        chars_bytes(s.push(c)) == chars_bytes(s) + u32_le(c as u32),
    decreases s.len(),
{
    if s.len() == 0 {
        assert(s.push(c)[0] == c);
        assert(s.push(c).drop_first() =~= Seq::<char>::empty());
        assert(chars_bytes(Seq::<char>::empty()) == Seq::<u8>::empty());
        assert(chars_bytes(s.push(c)) == u32_le(c as u32) + chars_bytes(Seq::<char>::empty()));
        assert(chars_bytes(s.push(c)) =~= chars_bytes(s) + u32_le(c as u32));
    } else {
        assert(s.push(c).drop_first() =~= s.drop_first().push(c));
        lemma_chars_bytes_push(s.drop_first(), c);
        assert(chars_bytes(s.push(c)) =~= chars_bytes(s) + u32_le(c as u32));
    }
}

/// Reading `n` more characters at `pos`, onto those read already.
pub open spec fn spec_read_chars(d: Seq<u8>, pos: int, n: int, acc: Seq<char>) -> Option<(Seq<char>, int)>
    decreases n,
{
    if n <= 0 {
        Some((acc, pos))
    } else {
        match spec_read_u32(d, pos) {
            None => None,
            Some((u, p)) => if is_scalar(u) {
                spec_read_chars(d, p, n - 1, acc.push(u as char))
            } else {
                None
            },
        }
    }
}

/// Reading a string at `pos`: a character count, then that many characters.
pub open spec fn spec_read_string(d: Seq<u8>, pos: int) -> Option<(Seq<char>, int)> {
    match spec_read_u32(d, pos) {
        None => None,
        Some((n, p)) => spec_read_chars(d, p, n as int, Seq::empty()),
    }
}

fn push_str_chars(out: &mut Vec<u8>, s: &str)
    ensures
        final(out)@ == old(out)@ + chars_bytes(s@),
{
    let n = s.unicode_len();
    let mut i: usize = 0;
    while i < n
        invariant
            i <= n,
            n == s@.len(),
            out@ == old(out)@ + chars_bytes(s@.take(i as int)),
        decreases n - i,
    {
        let c = s.get_char(i);
        push_u32_le(out, c as u32);
        proof {
            lemma_chars_bytes_push(s@.take(i as int), s@[i as int]);
            assert(s@.take(i + 1 as int) =~= s@.take(i as int).push(s@[i as int]));
        }
        i = i + 1;
    }
    proof {
        assert(s@.take(n as int) =~= s@);
    }
}

fn push_string(out: &mut Vec<u8>, s: &str)
    requires
        s@.len() <= u32::MAX,
    ensures
        final(out)@ == old(out)@ + string_bytes(s@),
{
    let n = s.unicode_len();
    push_u32_le(out, n as u32);
    push_str_chars(out, s);
    proof {
        assert(out@ =~= old(out)@ + string_bytes(s@));
    }
}

fn read_string(data: &Vec<u8>, pos: usize) -> (r: Option<(String, usize)>)
    requires
        pos <= data@.len(),
    ensures
        match r {
            Some(sp) => spec_read_string(data@, pos as int) == Some((sp.0@, sp.1 as int))
                && sp.1 <= data@.len(),
            None => spec_read_string(data@, pos as int) is None,
        },
{
    let (count, mut cur) = match read_u32(data, pos) {
        Some(vp) => vp,
        None => { return None; },
    };
    let mut s = String::new();
    let mut i: u32 = 0;
    while i < count
        invariant
            i <= count,
            cur <= data@.len(),
            spec_read_string(data@, pos as int)
                == spec_read_chars(data@, cur as int, (count - i) as int, s@),
        decreases count - i,
    {
        let (u, next) = match read_u32(data, cur) {
            Some(vp) => vp,
            None => { return None; },
        };
        let c = match char_from_u32(u) {
            Some(c) => c,
            None => { return None; },
        };
        proof {
            vstd::utf8::char_u32_cast(c, u);
        }
        string_push_char(&mut s, c);
        cur = next;
        i = i + 1;
    }
    Some((s, cur))
}

/// The sixteen words of a transform, each little endian.
pub open spec fn words_bytes(t: Seq<u32>) -> Seq<u8>
    decreases t.len(),
{
    if t.len() == 0 {
        Seq::empty()
    } else {
        u32_le(t[0]) + words_bytes(t.drop_first())
    }
}

/// An optional string: a presence byte, then the string if present.
pub open spec fn opt_string_bytes(o: Option<Seq<char>>) -> Seq<u8> {
    match o {
        None => seq![0u8],
        Some(s) => seq![1u8] + string_bytes(s),
    }
}

proof fn lemma_words_bytes_len(t: Seq<u32>)
    ensures
        words_bytes(t).len() == 4 * t.len(),
    decreases t.len(),
{
    if t.len() > 0 {
        lemma_words_bytes_len(t.drop_first());
    }
}

proof fn lemma_words_bytes_push(t: Seq<u32>, v: u32)
    ensures
        words_bytes(t.push(v)) == words_bytes(t) + u32_le(v),
    decreases t.len(),
{
    if t.len() == 0 {
        assert(t.push(v)[0] == v);
        assert(t.push(v).drop_first() =~= Seq::<u32>::empty());
        assert(words_bytes(Seq::<u32>::empty()) == Seq::<u8>::empty());
        assert(words_bytes(t.push(v)) == u32_le(v) + words_bytes(Seq::<u32>::empty()));
        assert(words_bytes(t.push(v)) =~= words_bytes(t) + u32_le(v));
    } else {
        assert(t.push(v).drop_first() =~= t.drop_first().push(v));
        lemma_words_bytes_push(t.drop_first(), v);
        assert(words_bytes(t.push(v)) =~= words_bytes(t) + u32_le(v));
    }
}

/// Reading `n` more words at `pos`, onto those read already.
pub open spec fn spec_read_words(d: Seq<u8>, pos: int, n: int, acc: Seq<u32>) -> Option<(Seq<u32>, int)>
    decreases n,
{
    if n <= 0 {
        Some((acc, pos))
    } else {
        match spec_read_u32(d, pos) {
            None => None,
            Some((u, p)) => spec_read_words(d, p, n - 1, acc.push(u)),
        }
    }
}

/// Reading an optional string at `pos`.
pub open spec fn spec_read_opt_string(d: Seq<u8>, pos: int) -> Option<(Option<Seq<char>>, int)> {
    if 0 <= pos && pos < d.len() {
        if d[pos] == 0 {
            Some((None, pos + 1))
        } else if d[pos] == 1 {
            match spec_read_string(d, pos + 1) {
                None => None,
                Some((s, p)) => Some((Some(s), p)),
            }
        } else {
            None
        }
    } else {
        None
    }
}

/// The character sequence behind an optional string.
pub open spec fn opt_view(o: Option<String>) -> Option<Seq<char>> {
    match o {
        Some(s) => Some(s@),
        None => None,
    }
}

fn push_transform(out: &mut Vec<u8>, t: &Transform)
    ensures
        final(out)@ == old(out)@ + words_bytes(t@),
{
    let mut i: usize = 0;
    while i < 16
        invariant
            i <= 16,
            t@.len() == 16,
            out@ == old(out)@ + words_bytes(t@.take(i as int)),
        decreases 16 - i,
    {
        let v = t.bits[i];
        push_u32_le(out, v);
        proof {
            lemma_words_bytes_push(t@.take(i as int), t@[i as int]);
            assert(t@.take(i + 1 as int) =~= t@.take(i as int).push(t@[i as int]));
        }
        i = i + 1;
    }
    proof {
        assert(t@.take(16) =~= t@);
    }
}

fn read_transform(data: &Vec<u8>, pos: usize) -> (r: Option<(Transform, usize)>)
    requires
        pos <= data@.len(),
    ensures
        match r {
            Some(tp) => spec_read_words(data@, pos as int, 16, Seq::empty()) == Some((tp.0@, tp.1 as int))
                && tp.1 <= data@.len(),
            None => spec_read_words(data@, pos as int, 16, Seq::empty()) is None,
        },
{
    let mut bits: [u32; 16] = [0; 16];
    let mut cur = pos;
    let mut i: usize = 0;
    proof {
        assert(bits@.take(0) =~= Seq::<u32>::empty());
    }
    while i < 16
        invariant
            i <= 16,
            cur <= data@.len(),
            bits@.len() == 16,
            spec_read_words(data@, pos as int, 16, Seq::empty())
                == spec_read_words(data@, cur as int, 16 - i, bits@.take(i as int)),
        decreases 16 - i,
    {
        let (v, next) = match read_u32(data, cur) {
            Some(vp) => vp,
            None => { return None; },
        };
        let ghost prev = bits@;
        bits[i] = v;
        proof {
            assert(bits@.take(i as int) =~= prev.take(i as int));
            assert(bits@.take(i + 1 as int) =~= prev.take(i as int).push(v));
            assert(spec_read_words(data@, cur as int, (16 - i) as int, prev.take(i as int))
                == spec_read_words(data@, next as int, (16 - (i + 1)) as int, bits@.take(i + 1 as int)));
        }
        cur = next;
        i = i + 1;
    }
    proof {
        assert(bits@.take(16) =~= bits@);
    }
    Some((Transform { bits }, cur))
}

fn read_opt_string(data: &Vec<u8>, pos: usize) -> (r: Option<(Option<String>, usize)>)
    requires
        pos <= data@.len(),
    ensures
        match r {
            Some(op) => spec_read_opt_string(data@, pos as int) == Some((opt_view(op.0), op.1 as int))
                && op.1 <= data@.len(),
            None => spec_read_opt_string(data@, pos as int) is None,
        },
{
    if pos < data.len() {
        let flag = data[pos];
        if flag == 0 {
            Some((None, pos + 1))
        } else if flag == 1 {
            match read_string(data, pos + 1) {
                Some((s, p)) => Some((Some(s), p)),
                None => None,
            }
        } else {
            None
        }
    } else {
        None
    }
}

/// The tag byte of each variant.
pub open spec fn msg_tag(v: MessageView) -> u8 {
    match v {
        MessageView::Login { .. } => 0,
        MessageView::Join { .. } => 1,
        MessageView::Leave { .. } => 2,
        MessageView::Spawn { .. } => 3,
        MessageView::Destroy { .. } => 4,
        MessageView::TransformUpdate { .. } => 5,
    }
}

/// The payload bytes of a message: its tag, then its fields in order.
pub open spec fn msg_bytes(v: MessageView) -> Seq<u8> {
    seq![msg_tag(v)] + match v {
        MessageView::Login { id } => string_bytes(id),
        MessageView::Join { scene } => string_bytes(scene),
        MessageView::Leave { scene } => string_bytes(scene),
        MessageView::Spawn { id, scene, drawable, behavior } => string_bytes(id)
            + string_bytes(scene) + string_bytes(drawable) + opt_string_bytes(behavior),
        MessageView::Destroy { id, scene } => string_bytes(id) + string_bytes(scene),
        MessageView::TransformUpdate { scene, id, t } => string_bytes(scene) + string_bytes(id)
            + words_bytes(t),
    }
}

/// Every string short enough for its 32-bit count prefix, and the
/// transform complete with its sixteen words.
pub open spec fn wf_message(v: MessageView) -> bool {
    match v {
        MessageView::Login { id } => id.len() <= u32::MAX,
        MessageView::Join { scene } => scene.len() <= u32::MAX,
        MessageView::Leave { scene } => scene.len() <= u32::MAX,
        MessageView::Spawn { id, scene, drawable, behavior } => id.len() <= u32::MAX
            && scene.len() <= u32::MAX && drawable.len() <= u32::MAX
            && (behavior is Some ==> behavior->0.len() <= u32::MAX),
        MessageView::Destroy { id, scene } => id.len() <= u32::MAX && scene.len() <= u32::MAX,
        MessageView::TransformUpdate { scene, id, t } => scene.len() <= u32::MAX
            && id.len() <= u32::MAX && t.len() == 16,
    }
}

/// The mathematical decoder: a payload decodes to at most one message, and
/// only when every byte is consumed.
pub open spec fn spec_decode(d: Seq<u8>) -> Option<MessageView> {
    if d.len() < 1 {
        None
    } else if d[0] == 0 {
        match spec_read_string(d, 1) {
            Some((id, p)) => if p == d.len() { Some(MessageView::Login { id }) } else { None },
            None => None,
        }
    } else if d[0] == 1 {
        match spec_read_string(d, 1) {
            Some((scene, p)) => if p == d.len() { Some(MessageView::Join { scene }) } else { None },
            None => None,
        }
    } else if d[0] == 2 {
        match spec_read_string(d, 1) {
            Some((scene, p)) => if p == d.len() { Some(MessageView::Leave { scene }) } else { None },
            None => None,
        }
    } else if d[0] == 3 {
        match spec_read_string(d, 1) {
            Some((id, p1)) => match spec_read_string(d, p1) {
                Some((scene, p2)) => match spec_read_string(d, p2) {
                    Some((drawable, p3)) => match spec_read_opt_string(d, p3) {
                        Some((behavior, p4)) => if p4 == d.len() {
                            Some(MessageView::Spawn { id, scene, drawable, behavior })
                        } else {
                            None
                        },
                        None => None,
                    },
                    None => None,
                },
                None => None,
            },
            None => None,
        }
    } else if d[0] == 4 {
        match spec_read_string(d, 1) {
            Some((id, p1)) => match spec_read_string(d, p1) {
                Some((scene, p2)) => if p2 == d.len() {
                    Some(MessageView::Destroy { id, scene })
                } else {
                    None
                },
                None => None,
            },
            None => None,
        }
    } else if d[0] == 5 {
        match spec_read_string(d, 1) {
            Some((scene, p1)) => match spec_read_string(d, p1) {
                Some((id, p2)) => match spec_read_words(d, p2, 16, Seq::empty()) {
                    Some((t, p3)) => if p3 == d.len() {
                        Some(MessageView::TransformUpdate { scene, id, t })
                    } else {
                        None
                    },
                    None => None,
                },
                None => None,
            },
            None => None,
        }
    } else {
        None
    }
}

/// Encode one message payload (without the length prefix).
pub fn encode_message(m: &Message) -> (r: Vec<u8>)
    requires
        wf_message(m@),
    ensures
        r@ == msg_bytes(m@),
{
    let mut out: Vec<u8> = Vec::new();
    match m {
        Message::Login { id } => {
            out.push(0);
            push_string(&mut out, id.as_str());
        },
        Message::Join { scene } => {
            out.push(1);
            push_string(&mut out, scene.as_str());
        },
        Message::Leave { scene } => {
            out.push(2);
            push_string(&mut out, scene.as_str());
        },
        Message::Spawn { id, scene, drawable, behavior } => {
            out.push(3);
            push_string(&mut out, id.as_str());
            push_string(&mut out, scene.as_str());
            push_string(&mut out, drawable.as_str());
            match behavior {
                None => out.push(0),
                Some(b) => {
                    out.push(1);
                    push_string(&mut out, b.as_str());
                },
            }
        },
        Message::Destroy { id, scene } => {
            out.push(4);
            push_string(&mut out, id.as_str());
            push_string(&mut out, scene.as_str());
        },
        Message::TransformUpdate { scene, id, t } => {
            out.push(5);
            push_string(&mut out, scene.as_str());
            push_string(&mut out, id.as_str());
            push_transform(&mut out, t);
        },
    }
    proof {
        assert(out@ =~= msg_bytes(m@));
    }
    out
}

/// Decode one complete payload. `None` is a fatal protocol error for the
/// connection: the bytes decode to no message.
pub fn decode_message(data: &Vec<u8>) -> (r: Option<Message>)
    ensures
        match r {
            Some(m) => spec_decode(data@) == Some(m@),
            None => spec_decode(data@) is None,
        },
{
    if data.len() < 1 {
        return None;
    }
    let tag = data[0];
    if tag == 0 {
        match read_string(data, 1) {
            Some((id, p)) => if p == data.len() { Some(Message::Login { id }) } else { None },
            None => None,
        }
    } else if tag == 1 {
        match read_string(data, 1) {
            Some((scene, p)) => if p == data.len() { Some(Message::Join { scene }) } else { None },
            None => None,
        }
    } else if tag == 2 {
        match read_string(data, 1) {
            Some((scene, p)) => if p == data.len() { Some(Message::Leave { scene }) } else { None },
            None => None,
        }
    } else if tag == 3 {
        let (id, p1) = match read_string(data, 1) {
            Some(sp) => sp,
            None => { return None; },
        };
        let (scene, p2) = match read_string(data, p1) {
            Some(sp) => sp,
            None => { return None; },
        };
        let (drawable, p3) = match read_string(data, p2) {
            Some(sp) => sp,
            None => { return None; },
        };
        let (behavior, p4) = match read_opt_string(data, p3) {
            Some(op) => op,
            None => { return None; },
        };
        if p4 == data.len() {
            Some(Message::Spawn { id, scene, drawable, behavior })
        } else {
            None
        }
    } else if tag == 4 {
        let (id, p1) = match read_string(data, 1) {
            Some(sp) => sp,
            None => { return None; },
        };
        let (scene, p2) = match read_string(data, p1) {
            Some(sp) => sp,
            None => { return None; },
        };
        if p2 == data.len() {
            Some(Message::Destroy { id, scene })
        } else {
            None
        }
    } else if tag == 5 {
        let (scene, p1) = match read_string(data, 1) {
            Some(sp) => sp,
            None => { return None; },
        };
        let (id, p2) = match read_string(data, p1) {
            Some(sp) => sp,
            None => { return None; },
        };
        let (t, p3) = match read_transform(data, p2) {
            Some(tp) => tp,
            None => { return None; },
        };
        if p3 == data.len() {
            Some(Message::TransformUpdate { scene, id, t })
        } else {
            None
        }
    } else {
        None
    }
}

proof fn lemma_subrange_concat(d: Seq<u8>, pos: int, x: Seq<u8>, y: Seq<u8>)
    requires
        0 <= pos,
        pos + x.len() + y.len() <= d.len(),
        d.subrange(pos, pos + x.len() + y.len()) == x + y,
    ensures
        d.subrange(pos, pos + x.len()) == x,
        d.subrange(pos + x.len(), pos + x.len() + y.len()) == y,
{
    broadcast use vstd::seq::axiom_seq_subrange_index;

    let l: int = (x.len() + y.len()) as int;
    assert forall|k: int| 0 <= k < x.len() implies d[pos + k] == x[k] by {
        assert(d.subrange(pos, pos + l) == x + y);
        assert(d.subrange(pos, pos + l)[k] == d[k + pos]);
        assert((x + y)[k] == x[k]);
    }
    assert(d.subrange(pos, pos + x.len()) =~= x);
    assert forall|k: int| 0 <= k < y.len() implies d[pos + x.len() + k] == y[k] by {
        assert(d.subrange(pos, pos + l) == x + y);
        assert(d.subrange(pos, pos + l)[x.len() + k] == d[x.len() + k + pos]);
        assert((x + y)[x.len() + k] == y[k]);
    }
    assert(d.subrange(pos + x.len(), pos + x.len() + y.len()) =~= y);
}

proof fn lemma_read_chars_exact(d: Seq<u8>, pos: int, s: Seq<char>, acc: Seq<char>)
    requires
        0 <= pos,
        pos + chars_bytes(s).len() <= d.len(),
        d.subrange(pos, pos + chars_bytes(s).len()) == chars_bytes(s),
    ensures
        spec_read_chars(d, pos, s.len() as int, acc)
            == Some((acc + s, pos + chars_bytes(s).len())),
    decreases s.len(),
{
    lemma_chars_bytes_len(s);
    if s.len() == 0 {
        assert(acc + s =~= acc);
    } else {
        let c = s[0];
        let u = c as u32;
        let rest = s.drop_first();
        lemma_chars_bytes_len(rest);
        assert(chars_bytes(s) == u32_le(u) + chars_bytes(rest));
        lemma_subrange_concat(d, pos, u32_le(u), chars_bytes(rest));
        lemma_spec_read_u32_exact(d, pos, u);
        vstd::utf8::char_is_scalar(c);
        vstd::utf8::char_u32_cast(c, u);
        lemma_read_chars_exact(d, pos + 4, rest, acc.push(c));
        assert(acc.push(c) + rest =~= acc + s);
    }
}

proof fn lemma_read_string_exact(d: Seq<u8>, pos: int, s: Seq<char>)
    requires
        s.len() <= u32::MAX,
        0 <= pos,
        pos + string_bytes(s).len() <= d.len(),
        d.subrange(pos, pos + string_bytes(s).len()) == string_bytes(s),
    ensures
        spec_read_string(d, pos) == Some((s, pos + string_bytes(s).len())),
{
    lemma_chars_bytes_len(s);
    let n = s.len() as u32;
    lemma_subrange_concat(d, pos, u32_le(n), chars_bytes(s));
    lemma_spec_read_u32_exact(d, pos, n);
    lemma_read_chars_exact(d, pos + 4, s, Seq::empty());
    assert(Seq::<char>::empty() + s =~= s);
}

proof fn lemma_read_opt_string_exact(d: Seq<u8>, pos: int, o: Option<Seq<char>>)
    requires
        o is Some ==> o->0.len() <= u32::MAX,
        0 <= pos,
        pos + opt_string_bytes(o).len() <= d.len(),
        d.subrange(pos, pos + opt_string_bytes(o).len()) == opt_string_bytes(o),
    ensures
        spec_read_opt_string(d, pos) == Some((o, pos + opt_string_bytes(o).len())),
{
    match o {
        None => {
            assert(d.subrange(pos, pos + 1)[0] == opt_string_bytes(o)[0]);
            assert(d[pos] == 0);
        },
        Some(s) => {
            lemma_chars_bytes_len(s);
            lemma_subrange_concat(d, pos, seq![1u8], string_bytes(s));
            assert(d.subrange(pos, pos + 1)[0] == seq![1u8][0]);
            assert(d[pos] == 1);
            lemma_read_string_exact(d, pos + 1, s);
        },
    }
}

proof fn lemma_read_words_exact(d: Seq<u8>, pos: int, t: Seq<u32>, acc: Seq<u32>)
    requires
        0 <= pos,
        pos + words_bytes(t).len() <= d.len(),
        d.subrange(pos, pos + words_bytes(t).len()) == words_bytes(t),
    ensures
        spec_read_words(d, pos, t.len() as int, acc) == Some((acc + t, pos + words_bytes(t).len())),
    decreases t.len(),
{
    lemma_words_bytes_len(t);
    if t.len() == 0 {
        assert(acc + t =~= acc);
    } else {
        let v = t[0];
        let rest = t.drop_first();
        lemma_words_bytes_len(rest);
        assert(words_bytes(t) == u32_le(v) + words_bytes(rest));
        lemma_subrange_concat(d, pos, u32_le(v), words_bytes(rest));
        lemma_spec_read_u32_exact(d, pos, v);
        lemma_read_words_exact(d, pos + 4, rest, acc.push(v));
        assert(acc.push(v) + rest =~= acc + t);
    }
}

/// Round trip: decoding the encoding of any well-formed message gives that
/// message back, so `encode_message` and `decode_message` are inverse.
#[verifier::rlimit(60)]
pub proof fn lemma_decode_encode(v: MessageView)
    requires
        wf_message(v),
    ensures
        spec_decode(msg_bytes(v)) == Some(v),
{
    let d = msg_bytes(v);
    assert(d.subrange(0, d.len() as int) =~= d);
    match v {
        MessageView::Login { id } => {
            let b = string_bytes(id);
            lemma_chars_bytes_len(id);
            lemma_subrange_concat(d, 0, seq![0u8], b);
            assert(d.subrange(0, 1)[0] == seq![0u8][0]);
            lemma_read_string_exact(d, 1, id);
        },
        MessageView::Join { scene } => {
            let b = string_bytes(scene);
            lemma_chars_bytes_len(scene);
            lemma_subrange_concat(d, 0, seq![1u8], b);
            assert(d.subrange(0, 1)[0] == seq![1u8][0]);
            lemma_read_string_exact(d, 1, scene);
        },
        MessageView::Leave { scene } => {
            let b = string_bytes(scene);
            lemma_chars_bytes_len(scene);
            lemma_subrange_concat(d, 0, seq![2u8], b);
            assert(d.subrange(0, 1)[0] == seq![2u8][0]);
            lemma_read_string_exact(d, 1, scene);
        },
        MessageView::Spawn { id, scene, drawable, behavior } => {
            let b1 = string_bytes(id);
            let b2 = string_bytes(scene);
            let b3 = string_bytes(drawable);
            let b4 = opt_string_bytes(behavior);
            lemma_chars_bytes_len(id);
            lemma_chars_bytes_len(scene);
            lemma_chars_bytes_len(drawable);
            assert(b1 + b2 + b3 + b4 =~= b1 + (b2 + (b3 + b4)));
            lemma_subrange_concat(d, 0, seq![3u8], b1 + (b2 + (b3 + b4)));
            assert(d.subrange(0, 1)[0] == seq![3u8][0]);
            let p1: int = 1 + b1.len() as int;
            let p2: int = p1 + b2.len() as int;
            let p3: int = p2 + b3.len() as int;
            lemma_subrange_concat(d, 1, b1, b2 + (b3 + b4));
            lemma_read_string_exact(d, 1, id);
            lemma_subrange_concat(d, p1, b2, b3 + b4);
            lemma_read_string_exact(d, p1, scene);
            lemma_subrange_concat(d, p2, b3, b4);
            lemma_read_string_exact(d, p2, drawable);
            lemma_read_opt_string_exact(d, p3, behavior);
        },
        MessageView::Destroy { id, scene } => {
            let b1 = string_bytes(id);
            let b2 = string_bytes(scene);
            lemma_chars_bytes_len(id);
            lemma_chars_bytes_len(scene);
            assert(b1 + b2 =~= b1 + b2);
            lemma_subrange_concat(d, 0, seq![4u8], b1 + b2);
            assert(d.subrange(0, 1)[0] == seq![4u8][0]);
            let p1: int = 1 + b1.len() as int;
            lemma_subrange_concat(d, 1, b1, b2);
            lemma_read_string_exact(d, 1, id);
            lemma_read_string_exact(d, p1, scene);
        },
        MessageView::TransformUpdate { scene, id, t } => {
            let b1 = string_bytes(scene);
            let b2 = string_bytes(id);
            let b3 = words_bytes(t);
            lemma_chars_bytes_len(scene);
            lemma_chars_bytes_len(id);
            lemma_words_bytes_len(t);
            assert(b1 + b2 + b3 =~= b1 + (b2 + b3));
            lemma_subrange_concat(d, 0, seq![5u8], b1 + (b2 + b3));
            assert(d.subrange(0, 1)[0] == seq![5u8][0]);
            let p1: int = 1 + b1.len() as int;
            let p2: int = p1 + b2.len() as int;
            lemma_subrange_concat(d, 1, b1, b2 + b3);
            lemma_read_string_exact(d, 1, scene);
            lemma_subrange_concat(d, p1, b2, b3);
            lemma_read_string_exact(d, p1, id);
            lemma_read_words_exact(d, p2, t, Seq::empty());
            assert(Seq::<u32>::empty() + t =~= t);
        },
    }
}

/// Whether a message is well formed for encoding, checked at run time.
pub fn message_wf(m: &Message) -> (b: bool)
    ensures
        b == wf_message(m@),
{
    let limit: u64 = 0xffff_ffff;
    match m {
        Message::Login { id } => id.as_str().unicode_len() as u64 <= limit,
        Message::Join { scene } => scene.as_str().unicode_len() as u64 <= limit,
        Message::Leave { scene } => scene.as_str().unicode_len() as u64 <= limit,
        Message::Spawn { id, scene, drawable, behavior } => {
            let b_ok = match behavior {
                Some(b) => b.as_str().unicode_len() as u64 <= limit,
                None => true,
            };
            id.as_str().unicode_len() as u64 <= limit
                && scene.as_str().unicode_len() as u64 <= limit
                && drawable.as_str().unicode_len() as u64 <= limit && b_ok
        },
        Message::Destroy { id, scene } => id.as_str().unicode_len() as u64 <= limit
            && scene.as_str().unicode_len() as u64 <= limit,
        Message::TransformUpdate { scene, id, t } => {
            proof {
                assert(t@.len() == 16);
            }
            scene.as_str().unicode_len() as u64 <= limit
                && id.as_str().unicode_len() as u64 <= limit
        },
    }
}

/// A frame: the payload length as a `u32` little endian, then the payload.
pub open spec fn frame_bytes(v: MessageView) -> Seq<u8> {
    u32_le(msg_bytes(v).len() as u32) + msg_bytes(v)
}

/// Whether a message fits in one frame: well formed, payload length within
/// the 32-bit prefix.
pub open spec fn frameable(v: MessageView) -> bool {
    wf_message(v) && msg_bytes(v).len() <= u32::MAX
}

/// The framed bytes of `m`. `None` exactly when the message cannot be
/// framed: a string, or the whole payload, too long for a 32-bit prefix.
pub fn frame_message(m: &Message) -> (r: Option<Vec<u8>>)
    ensures
        match r {
            Some(out) => frameable(m@) && out@ == frame_bytes(m@),
            None => !frameable(m@),
        },
{
    if !message_wf(m) {
        return None;
    }
    let payload = encode_message(m);
    if payload.len() as u64 > 0xffff_ffff {
        return None;
    }
    let mut out: Vec<u8> = Vec::new();
    push_u32_le(&mut out, payload.len() as u32);
    out.extend_from_slice(payload.as_slice());
    proof {
        assert(out@ =~= frame_bytes(m@));
    }
    Some(out)
}

proof fn lemma_u32_le_canon(b0: u8, b1: u8, b2: u8, b3: u8)
    ensures
        u32_le(u32_of_le(b0, b1, b2, b3)) == seq![b0, b1, b2, b3],
{
    assert((((b0 as u32) | ((b1 as u32) << 8) | ((b2 as u32) << 16) | ((b3 as u32) << 24)) & 0xff)
        as u8 == b0) by (bit_vector);
    assert(((((b0 as u32) | ((b1 as u32) << 8) | ((b2 as u32) << 16) | ((b3 as u32) << 24)) >> 8)
        & 0xff) as u8 == b1) by (bit_vector);
    assert(((((b0 as u32) | ((b1 as u32) << 8) | ((b2 as u32) << 16) | ((b3 as u32) << 24)) >> 16)
        & 0xff) as u8 == b2) by (bit_vector);
    assert(((((b0 as u32) | ((b1 as u32) << 8) | ((b2 as u32) << 16) | ((b3 as u32) << 24)) >> 24)
        & 0xff) as u8 == b3) by (bit_vector);
    assert(u32_le(u32_of_le(b0, b1, b2, b3)) =~= seq![b0, b1, b2, b3]);
}

proof fn lemma_spec_read_u32_sound(d: Seq<u8>, pos: int)
    requires
        spec_read_u32(d, pos) is Some,
    ensures
        ({
            let (v, p) = spec_read_u32(d, pos)->0;
            &&& 0 <= pos
            &&& p == pos + 4
            &&& p <= d.len()
            &&& d.subrange(pos, p) == u32_le(v)
        }),
{
    lemma_u32_le_canon(d[pos], d[pos + 1], d[pos + 2], d[pos + 3]);
    assert(d.subrange(pos, pos + 4) =~= seq![d[pos], d[pos + 1], d[pos + 2], d[pos + 3]]);
}

proof fn lemma_read_chars_sound(d: Seq<u8>, pos: int, n: int, acc: Seq<char>)
    requires
        spec_read_chars(d, pos, n, acc) is Some,
        0 <= pos <= d.len(),
        n >= 0,
    ensures
        ({
            let (cs, p) = spec_read_chars(d, pos, n, acc)->0;
            &&& cs.len() == acc.len() + n
            &&& cs.take(acc.len() as int) == acc
            &&& p == pos + 4 * n
            &&& p <= d.len()
            &&& chars_bytes(cs.skip(acc.len() as int)) == d.subrange(pos, p)
        }),
    decreases n,
{
    let (cs, p) = spec_read_chars(d, pos, n, acc)->0;
    if n <= 0 {
        assert(cs.skip(acc.len() as int) =~= Seq::<char>::empty());
        assert(d.subrange(pos, pos) =~= Seq::<u8>::empty());
        assert(cs.take(acc.len() as int) =~= acc);
    } else {
        let (u, p1) = spec_read_u32(d, pos)->0;
        lemma_spec_read_u32_sound(d, pos);
        let c = u as char;
        lemma_read_chars_sound(d, p1, n - 1, acc.push(c));
        assert(cs.take((acc.len() + 1) as int) == acc.push(c));
        assert(cs.take(acc.len() as int)
            =~= cs.take((acc.len() + 1) as int).take(acc.len() as int));
        assert(acc.push(c).take(acc.len() as int) =~= acc);
        assert(cs.take((acc.len() + 1) as int)[acc.len() as int] == c);
        assert(cs[acc.len() as int] == c);
        assert(cs.skip(acc.len() as int)[0] == c);
        assert(cs.skip(acc.len() as int).drop_first() =~= cs.skip((acc.len() + 1) as int));
        assert(cs.skip(acc.len() as int).len() > 0);
        assert(chars_bytes(cs.skip(acc.len() as int))
            == u32_le(c as u32) + chars_bytes(cs.skip((acc.len() + 1) as int)));
        assert(d.subrange(pos, p) =~= d.subrange(pos, pos + 4) + d.subrange(pos + 4, p));
    }
}

proof fn lemma_read_string_sound(d: Seq<u8>, pos: int)
    requires
        spec_read_string(d, pos) is Some,
        0 <= pos <= d.len(),
    ensures
        ({
            let (s, p) = spec_read_string(d, pos)->0;
            &&& s.len() <= u32::MAX
            &&& p == pos + string_bytes(s).len()
            &&& p <= d.len()
            &&& d.subrange(pos, p) == string_bytes(s)
        }),
{
    let (s, p) = spec_read_string(d, pos)->0;
    let (count, p1) = spec_read_u32(d, pos)->0;
    lemma_spec_read_u32_sound(d, pos);
    lemma_read_chars_sound(d, p1, count as int, Seq::empty());
    lemma_chars_bytes_len(s);
    assert(s.skip(0) =~= s);
    assert(s.len() == count);
    assert(d.subrange(pos, p) =~= d.subrange(pos, pos + 4) + d.subrange(pos + 4, p));
}

proof fn lemma_read_opt_string_sound(d: Seq<u8>, pos: int)
    requires
        spec_read_opt_string(d, pos) is Some,
        0 <= pos <= d.len(),
    ensures
        ({
            let (o, p) = spec_read_opt_string(d, pos)->0;
            &&& (o is Some ==> o->0.len() <= u32::MAX)
            &&& p == pos + opt_string_bytes(o).len()
            &&& p <= d.len()
            &&& d.subrange(pos, p) == opt_string_bytes(o)
        }),
{
    let (o, p) = spec_read_opt_string(d, pos)->0;
    if d[pos] == 0 {
        assert(d.subrange(pos, pos + 1) =~= seq![0u8]);
    } else {
        lemma_read_string_sound(d, pos + 1);
        let (s, p2) = spec_read_string(d, pos + 1)->0;
        assert(d.subrange(pos, p) =~= seq![1u8] + d.subrange(pos + 1, p));
    }
}

proof fn lemma_read_words_sound(d: Seq<u8>, pos: int, n: int, acc: Seq<u32>)
    requires
        spec_read_words(d, pos, n, acc) is Some,
        0 <= pos <= d.len(),
        n >= 0,
    ensures
        ({
            let (ws, p) = spec_read_words(d, pos, n, acc)->0;
            &&& ws.len() == acc.len() + n
            &&& ws.take(acc.len() as int) == acc
            &&& p == pos + 4 * n
            &&& p <= d.len()
            &&& words_bytes(ws.skip(acc.len() as int)) == d.subrange(pos, p)
        }),
    decreases n,
{
    let (ws, p) = spec_read_words(d, pos, n, acc)->0;
    if n <= 0 {
        assert(ws.skip(acc.len() as int) =~= Seq::<u32>::empty());
        assert(d.subrange(pos, pos) =~= Seq::<u8>::empty());
        assert(ws.take(acc.len() as int) =~= acc);
    } else {
        let (u, p1) = spec_read_u32(d, pos)->0;
        lemma_spec_read_u32_sound(d, pos);
        lemma_read_words_sound(d, p1, n - 1, acc.push(u));
        assert(ws.take((acc.len() + 1) as int) == acc.push(u));
        assert(ws.take(acc.len() as int)
            =~= ws.take((acc.len() + 1) as int).take(acc.len() as int));
        assert(acc.push(u).take(acc.len() as int) =~= acc);
        assert(ws.take((acc.len() + 1) as int)[acc.len() as int] == u);
        assert(ws[acc.len() as int] == u);
        assert(ws.skip(acc.len() as int)[0] == u);
        assert(ws.skip(acc.len() as int).drop_first() =~= ws.skip((acc.len() + 1) as int));
        assert(ws.skip(acc.len() as int).len() > 0);
        assert(words_bytes(ws.skip(acc.len() as int))
            == u32_le(u) + words_bytes(ws.skip((acc.len() + 1) as int)));
        assert(d.subrange(pos, p) =~= d.subrange(pos, pos + 4) + d.subrange(pos + 4, p));
    }
}

/// Soundness: a payload that decodes at all is exactly the encoding of
/// the well-formed message it decodes to. Together with
/// `lemma_decode_encode`, encoding is a bijection between well-formed
/// messages and the byte strings the decoder accepts.
#[verifier::rlimit(60)]
pub proof fn lemma_decode_sound(d: Seq<u8>)
    requires
        spec_decode(d) is Some,
    ensures
        wf_message(spec_decode(d)->0),
        msg_bytes(spec_decode(d)->0) == d,
{
    let v = spec_decode(d)->0;
    assert(d.subrange(0, 1) =~= seq![d[0]]);
    if d[0] == 0 || d[0] == 1 || d[0] == 2 {
        lemma_read_string_sound(d, 1);
        let (s, p) = spec_read_string(d, 1)->0;
        assert(msg_bytes(v) =~= d.subrange(0, 1) + d.subrange(1, p));
        assert(d =~= d.subrange(0, 1) + d.subrange(1, p));
    } else if d[0] == 3 {
        lemma_read_string_sound(d, 1);
        let (id, p1) = spec_read_string(d, 1)->0;
        lemma_read_string_sound(d, p1);
        let (scene, p2) = spec_read_string(d, p1)->0;
        lemma_read_string_sound(d, p2);
        let (drawable, p3) = spec_read_string(d, p2)->0;
        lemma_read_opt_string_sound(d, p3);
        let (behavior, p4) = spec_read_opt_string(d, p3)->0;
        assert(msg_bytes(v) =~= d.subrange(0, 1) + d.subrange(1, p1) + d.subrange(p1, p2)
            + d.subrange(p2, p3) + d.subrange(p3, p4));
        assert(d =~= d.subrange(0, 1) + d.subrange(1, p1) + d.subrange(p1, p2)
            + d.subrange(p2, p3) + d.subrange(p3, p4));
    } else if d[0] == 4 {
        lemma_read_string_sound(d, 1);
        let (id, p1) = spec_read_string(d, 1)->0;
        lemma_read_string_sound(d, p1);
        let (scene, p2) = spec_read_string(d, p1)->0;
        assert(msg_bytes(v) =~= d.subrange(0, 1) + d.subrange(1, p1) + d.subrange(p1, p2));
        assert(d =~= d.subrange(0, 1) + d.subrange(1, p1) + d.subrange(p1, p2));
    } else {
        lemma_read_string_sound(d, 1);
        let (scene, p1) = spec_read_string(d, 1)->0;
        lemma_read_string_sound(d, p1);
        let (id, p2) = spec_read_string(d, p1)->0;
        lemma_read_words_sound(d, p2, 16, Seq::empty());
        let (t, p3) = spec_read_words(d, p2, 16, Seq::empty())->0;
        assert(t.skip(0) =~= t);
        assert(msg_bytes(v) =~= d.subrange(0, 1) + d.subrange(1, p1) + d.subrange(p1, p2)
            + d.subrange(p2, p3));
        assert(d =~= d.subrange(0, 1) + d.subrange(1, p1) + d.subrange(p1, p2)
            + d.subrange(p2, p3));
    }
}

} // verus!
