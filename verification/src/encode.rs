//! The result serializer: a compact, self-describing encoding of an
//! [`ExtractionResult`] — a leading tag byte, little-endian 32-bit integers,
//! and length-prefixed UTF-8 text fields. `encoding_of` is the exact
//! specification; `encode_result` is the verified encoder.

use vstd::prelude::*;
use vstd::utf8::encode_scalar;
use vstd::utf8::encode_utf8;
use crate::records::ExtractionResult;
use crate::records::Torrent;

verus! {

/// Tag byte opening the encoding of a favorites record.
pub const TAG_FAV: u8 = 1;

/// Tag byte opening the encoding of a limits record.
pub const TAG_LIMITS: u8 = 2;

/// Tag byte opening the encoding of a torrent list.
pub const TAG_TORRENTS: u8 = 3;

/// The four little-endian bytes of a 32-bit value.
pub open spec fn le32(v: u32) -> Seq<u8> {
    seq![
        (v & 0xFF) as u8,
        ((v >> 8) & 0xFF) as u8,
        ((v >> 16) & 0xFF) as u8,
        ((v >> 24) & 0xFF) as u8,
    ]
}

/// Little-endian bytes of a non-negative count, reduced modulo 2^32.
pub open spec fn le32_len(n: int) -> Seq<u8> {
    le32((n % 0x1_0000_0000) as u32)
}

/// Encoding of a signed 32-bit field: its two's-complement bits,
/// little-endian.
pub open spec fn enc_i32(x: i32) -> Seq<u8> {
    le32(x as u32)
}

/// Encoding of a text field: byte length, then the UTF-8 bytes.
pub open spec fn enc_text(s: Seq<char>) -> Seq<u8> {
    le32_len(encode_utf8(s).len() as int) + encode_utf8(s)
}

/// Encoding of a length-prefixed list of text fields.
pub open spec fn enc_text_items(l: Seq<Seq<char>>) -> Seq<u8>
    decreases l.len(),
{
    if l.len() == 0 {
        Seq::empty()
    } else {
        enc_text_items(l.drop_last()) + enc_text(l.last())
    }
}

pub open spec fn enc_texts(l: Seq<Seq<char>>) -> Seq<u8> {
    le32_len(l.len() as int) + enc_text_items(l)
}

/// Encoding of a length-prefixed list of 32-bit fields.
pub open spec fn enc_i32_items(l: Seq<i32>) -> Seq<u8>
    decreases l.len(),
{
    if l.len() == 0 {
        Seq::empty()
    } else {
        enc_i32_items(l.drop_last()) + enc_i32(l.last())
    }
}

pub open spec fn enc_i32s(l: Seq<i32>) -> Seq<u8> {
    le32_len(l.len() as int) + enc_i32_items(l)
}

/// Encoding of one torrent row: its seven fields in declaration order.
pub open spec fn enc_torrent(t: Torrent) -> Seq<u8> {
    enc_text(t.posted@) + enc_text(t.size@) + enc_i32(t.seeds) + enc_i32(t.peers) + enc_i32(
        t.downloads,
    ) + enc_text(t.url@) + enc_text(t.name@)
}

pub open spec fn enc_torrent_items(l: Seq<Torrent>) -> Seq<u8>
    decreases l.len(),
{
    if l.len() == 0 {
        Seq::empty()
    } else {
        enc_torrent_items(l.drop_last()) + enc_torrent(l.last())
    }
}

/// The view of a list of character vectors as a list of character sequences.
pub open spec fn views_of(l: Seq<Vec<char>>) -> Seq<Seq<char>> {
    l.map_values(|v: Vec<char>| v@)
}

/// The byte encoding of an extraction result, in full. This is the shared
/// contract with the host: what a success status promises the buffer to
/// hold.
pub open spec fn encoding_of(r: ExtractionResult) -> Seq<u8> {
    match r {
        ExtractionResult::Fav(f) => seq![TAG_FAV] + enc_texts(views_of(f.cat_array@)) + enc_i32s(
            f.count_array@,
        ) + enc_texts(views_of(f.entries@)),
        ExtractionResult::Limits(l) => seq![TAG_LIMITS] + enc_i32(l.current) + enc_i32(l.maximum)
            + enc_i32(l.reset_cost),
        ExtractionResult::Torrents(ts) => seq![TAG_TORRENTS] + le32_len(ts@.len() as int)
            + enc_torrent_items(ts@),
    }
}

proof fn lemma_encode_utf8_push(s: Seq<char>, c: char)
    ensures
        encode_utf8(s.push(c)) == encode_utf8(s) + encode_scalar(c as u32),
    decreases s.len(),
{
    if s.len() == 0 {
        assert(s.push(c)[0] == c);
        assert(s.push(c).drop_first() =~= Seq::<char>::empty());
        assert(encode_utf8(Seq::<char>::empty()) =~= Seq::<u8>::empty());
        assert(encode_utf8(s.push(c)) == encode_scalar(c as u32) + encode_utf8(
            Seq::<char>::empty(),
        ));
        assert(encode_utf8(s.push(c)) =~= encode_scalar(c as u32));
        assert(encode_utf8(s) + encode_scalar(c as u32) =~= encode_scalar(c as u32));
    } else {
        lemma_encode_utf8_push(s.drop_first(), c);
        assert(s.push(c).drop_first() =~= s.drop_first().push(c));
        assert(s.push(c)[0] == s[0]);
        assert(encode_utf8(s.push(c)) == encode_scalar(s[0] as u32) + encode_utf8(
            s.drop_first().push(c),
        ));
        assert(encode_utf8(s.push(c)) =~= encode_utf8(s) + encode_scalar(c as u32));
    }
}

/// Appends the UTF-8 encoding of one character, mirroring `encode_scalar`.
fn push_char_utf8(out: &mut Vec<u8>, c: char)
    ensures
        final(out)@ == old(out)@ + encode_scalar(c as u32),
{
    broadcast use vstd::utf8::char_is_scalar;

    let u = c as u32;
    if u <= 0x7F {
        out.push((u & 0x7F) as u8);
        assert(out@ =~= old(out)@ + encode_scalar(c as u32));
    } else if u <= 0x7FF {
        out.push(0xC0 | ((u >> 6) & 0x1F) as u8);
        out.push(0x80 | (u & 0x3F) as u8);
        assert(out@ =~= old(out)@ + encode_scalar(c as u32));
    } else if u <= 0xFFFF {
        out.push(0xE0 | ((u >> 12) & 0x0F) as u8);
        out.push(0x80 | ((u >> 6) & 0x3F) as u8);
        out.push(0x80 | (u & 0x3F) as u8);
        assert(out@ =~= old(out)@ + encode_scalar(c as u32));
    } else {
        out.push(0xF0 | ((u >> 18) & 0x7) as u8);
        out.push(0x80 | ((u >> 12) & 0x3F) as u8);
        out.push(0x80 | ((u >> 6) & 0x3F) as u8);
        out.push(0x80 | (u & 0x3F) as u8);
        assert(out@ =~= old(out)@ + encode_scalar(c as u32));
    }
}

/// The UTF-8 bytes of a character vector.
pub fn utf8_of_chars(s: &Vec<char>) -> (r: Vec<u8>)
    ensures
        r@ == encode_utf8(s@),
{
    let mut r: Vec<u8> = Vec::new();
    let mut i: usize = 0;
    assert(s@.take(0) =~= Seq::<char>::empty());
    while i < s.len()
        invariant
            i <= s@.len(),
            r@ == encode_utf8(s@.take(i as int)),
        decreases s@.len() - i,
    {
        proof {
            lemma_encode_utf8_push(s@.take(i as int), s@[i as int]);
            assert(s@.take(i as int).push(s@[i as int]) =~= s@.take(i + 1));
        }
        push_char_utf8(&mut r, s[i]);
        i = i + 1;
    }
    assert(s@.take(s@.len() as int) =~= s@);
    r
}

/// Appends the four little-endian bytes of `v`.
fn push_le32(out: &mut Vec<u8>, v: u32)
    ensures
        final(out)@ == old(out)@ + le32(v),
{
    out.push((v & 0xFF) as u8);
    out.push(((v >> 8) & 0xFF) as u8);
    out.push(((v >> 16) & 0xFF) as u8);
    out.push(((v >> 24) & 0xFF) as u8);
    assert(out@ =~= old(out)@ + le32(v));
}

/// Appends a length prefix, reduced modulo 2^32.
fn push_len(out: &mut Vec<u8>, n: usize)
    ensures
        final(out)@ == old(out)@ + le32_len(n as int),
{
    let v = ((n as u64) % 0x1_0000_0000) as u32;
    assert(v == (n as int) % 0x1_0000_0000);
    push_le32(out, v);
}

/// Appends a signed 32-bit field.
fn push_i32(out: &mut Vec<u8>, x: i32)
    ensures
        final(out)@ == old(out)@ + enc_i32(x),
{
    push_le32(out, x as u32);
}

/// Appends one length-prefixed text field.
fn push_text(out: &mut Vec<u8>, s: &Vec<char>)
    ensures
        final(out)@ == old(out)@ + enc_text(s@),
{
    let mut b = utf8_of_chars(s);
    push_len(out, b.len());
    out.append(&mut b);
    assert(out@ =~= old(out)@ + enc_text(s@));
}

/// Appends a length-prefixed list of text fields.
fn push_texts(out: &mut Vec<u8>, l: &Vec<Vec<char>>)
    ensures
        final(out)@ == old(out)@ + enc_texts(views_of(l@)),
{
    push_len(out, l.len());
    let ghost base = out@;
    let mut i: usize = 0;
    assert(enc_text_items(views_of(l@).take(0)) =~= Seq::<u8>::empty());
    while i < l.len()
        invariant
            i <= l@.len(),
            out@ == base + enc_text_items(views_of(l@).take(i as int)),
        decreases l@.len() - i,
    {
        push_text(out, &l[i]);
        proof {
            let vs = views_of(l@);
            assert(vs.take(i + 1).drop_last() =~= vs.take(i as int));
            assert(vs.take(i + 1).last() == l@[i as int]@);
            assert(out@ =~= base + enc_text_items(vs.take(i + 1)));
        }
        i = i + 1;
    }
    assert(views_of(l@).take(l@.len() as int) =~= views_of(l@));
}

/// Appends a length-prefixed list of 32-bit fields.
fn push_i32s(out: &mut Vec<u8>, l: &Vec<i32>)
    ensures
        final(out)@ == old(out)@ + enc_i32s(l@),
{
    push_len(out, l.len());
    let ghost base = out@;
    let mut i: usize = 0;
    assert(enc_i32_items(l@.take(0)) =~= Seq::<u8>::empty());
    while i < l.len()
        invariant
            i <= l@.len(),
            out@ == base + enc_i32_items(l@.take(i as int)),
        decreases l@.len() - i,
    {
        push_i32(out, l[i]);
        proof {
            assert(l@.take(i + 1).drop_last() =~= l@.take(i as int));
            assert(out@ =~= base + enc_i32_items(l@.take(i + 1)));
        }
        i = i + 1;
    }
    assert(l@.take(l@.len() as int) =~= l@);
}

/// Appends one torrent row.
fn push_torrent(out: &mut Vec<u8>, t: &Torrent)
    ensures
        final(out)@ == old(out)@ + enc_torrent(*t),
{
    push_text(out, &t.posted);
    push_text(out, &t.size);
    push_i32(out, t.seeds);
    push_i32(out, t.peers);
    push_i32(out, t.downloads);
    push_text(out, &t.url);
    push_text(out, &t.name);
    assert(out@ =~= old(out)@ + enc_torrent(*t));
}

/// Serializes an extraction result to its exact byte encoding.
pub fn encode_result(r: &ExtractionResult) -> (out: Vec<u8>)
    ensures
        out@ == encoding_of(*r),
{
    let mut out: Vec<u8> = Vec::new();
    match r {
        ExtractionResult::Fav(f) => {
            out.push(TAG_FAV);
            push_texts(&mut out, &f.cat_array);
            push_i32s(&mut out, &f.count_array);
            push_texts(&mut out, &f.entries);
            assert(out@ =~= encoding_of(*r));
        },
        ExtractionResult::Limits(l) => {
            out.push(TAG_LIMITS);
            push_i32(&mut out, l.current);
            push_i32(&mut out, l.maximum);
            push_i32(&mut out, l.reset_cost);
            assert(out@ =~= encoding_of(*r));
        },
        ExtractionResult::Torrents(ts) => {
            out.push(TAG_TORRENTS);
            push_len(&mut out, ts.len());
            let ghost base = out@;
            let mut i: usize = 0;
            assert(enc_torrent_items(ts@.take(0)) =~= Seq::<u8>::empty());
            while i < ts.len()
                invariant
                    i <= ts@.len(),
                    out@ == base + enc_torrent_items(ts@.take(i as int)),
                decreases ts@.len() - i,
            {
                push_torrent(&mut out, &ts[i]);
                proof {
                    assert(ts@.take(i + 1).drop_last() =~= ts@.take(i as int));
                    assert(out@ =~= base + enc_torrent_items(ts@.take(i + 1)));
                }
                i = i + 1;
            }
            assert(ts@.take(ts@.len() as int) =~= ts@);
            assert(out@ =~= encoding_of(*r));
        },
    }
    out
}

} // verus!
