//! Binary codec for items and whole inventories.
//!
//! The wire exchanges structured payloads as length-prefixed blobs; this
//! module defines that stable byte layout. All multi-byte integers are
//! big-endian; byte strings and text carry a 32-bit length prefix; optional
//! values carry a one-byte tag. Every encoder is pinned to the spec-level
//! byte sequence it produces, and every decoder is proved to take an encoding
//! back to the value it came from.

use vstd::prelude::*;

verus! {

use vstd::utf8::encode_utf8;
use crate::inv::{Id, Inv, InvV, Item, ItemMap, ItemV, Listing, Listings, Picture, PictureV, Usd, entries_seq_view, keys_unique, spec_opt_pic_view};

/// Big-endian bytes of a 32-bit integer.
pub open spec fn spec_enc_u32(x: u32) -> Seq<u8> {
    seq![
        ((x >> 24) & 0xff) as u8,
        ((x >> 16) & 0xff) as u8,
        ((x >> 8) & 0xff) as u8,
        (x & 0xff) as u8,
    ]
}

/// The 32-bit integer four big-endian bytes spell.
pub open spec fn spec_u32_from_be_bytes(s: Seq<u8>) -> u32
    recommends
        s.len() == 4,
{
    (s[0] as u32) << 24 | (s[1] as u32) << 16 | (s[2] as u32) << 8 | (s[3] as u32)
}

/// Reading back the four bytes of a 32-bit integer recovers it.
pub proof fn lemma_u32_be_round(x: u32)
    ensures
        spec_u32_from_be_bytes(spec_enc_u32(x)) == x,
{
    assert((((((x >> 24) & 0xff) as u8) as u32) << 24 | ((((x >> 16) & 0xff) as u8) as u32) << 16
        | ((((x >> 8) & 0xff) as u8) as u32) << 8 | (((x & 0xff) as u8) as u32)) == x)
        by (bit_vector);
}

/// Big-endian bytes of a 64-bit integer.
pub open spec fn spec_enc_u64(x: u64) -> Seq<u8> {
    seq![
        ((x >> 56) & 0xff) as u8,
        ((x >> 48) & 0xff) as u8,
        ((x >> 40) & 0xff) as u8,
        ((x >> 32) & 0xff) as u8,
        ((x >> 24) & 0xff) as u8,
        ((x >> 16) & 0xff) as u8,
        ((x >> 8) & 0xff) as u8,
        (x & 0xff) as u8,
    ]
}

/// The 64-bit integer eight big-endian bytes spell.
pub open spec fn spec_u64_from_be_bytes(s: Seq<u8>) -> u64
    recommends
        s.len() == 8,
{
    (s[0] as u64) << 56 | (s[1] as u64) << 48 | (s[2] as u64) << 40 | (s[3] as u64) << 32 | (
    s[4] as u64) << 24 | (s[5] as u64) << 16 | (s[6] as u64) << 8 | (s[7] as u64)
}

/// Reading back the eight bytes of a 64-bit integer recovers it.
pub proof fn lemma_u64_be_round(x: u64)
    ensures
        spec_u64_from_be_bytes(spec_enc_u64(x)) == x,
{
    assert((((((x >> 56) & 0xff) as u8) as u64) << 56 | ((((x >> 48) & 0xff) as u8) as u64) << 48
        | ((((x >> 40) & 0xff) as u8) as u64) << 40 | ((((x >> 32) & 0xff) as u8) as u64) << 32
        | ((((x >> 24) & 0xff) as u8) as u64) << 24 | ((((x >> 16) & 0xff) as u8) as u64) << 16
        | ((((x >> 8) & 0xff) as u8) as u64) << 8 | (((x & 0xff) as u8) as u64)) == x)
        by (bit_vector);
}

/// Appends the big-endian bytes of `x`.
pub fn enc_u32(out: &mut Vec<u8>, x: u32)
    ensures
        final(out)@ == old(out)@ + spec_enc_u32(x),
{
    assert((x >> 24) & 0xff < 256 && (x >> 16) & 0xff < 256 && (x >> 8) & 0xff < 256 && x & 0xff
        < 256) by (bit_vector);
    out.push(((x >> 24) & 0xff) as u8);
    out.push(((x >> 16) & 0xff) as u8);
    out.push(((x >> 8) & 0xff) as u8);
    out.push((x & 0xff) as u8);
    proof {
        assert(out@ =~= old(out)@ + spec_enc_u32(x));
    }
}

/// Appends the big-endian bytes of `x`.
pub fn enc_u64(out: &mut Vec<u8>, x: u64)
    ensures
        final(out)@ == old(out)@ + spec_enc_u64(x),
{
    assert((x >> 56) & 0xff < 256 && (x >> 48) & 0xff < 256 && (x >> 40) & 0xff < 256 && (x >> 32)
        & 0xff < 256 && (x >> 24) & 0xff < 256 && (x >> 16) & 0xff < 256 && (x >> 8) & 0xff < 256
        && x & 0xff < 256) by (bit_vector);
    out.push(((x >> 56) & 0xff) as u8);
    out.push(((x >> 48) & 0xff) as u8);
    out.push(((x >> 40) & 0xff) as u8);
    out.push(((x >> 32) & 0xff) as u8);
    out.push(((x >> 24) & 0xff) as u8);
    out.push(((x >> 16) & 0xff) as u8);
    out.push(((x >> 8) & 0xff) as u8);
    out.push((x & 0xff) as u8);
    proof {
        assert(out@ =~= old(out)@ + spec_enc_u64(x));
    }
}

/// Reads a big-endian 32-bit integer at `pos`.
pub fn dec_u32(data: &Vec<u8>, pos: usize) -> (r: Option<(u32, usize)>)
    ensures
        pos + 4 <= data@.len() ==> (r matches Some(v) && v.0 == spec_u32_from_be_bytes(
            data@.subrange(pos as int, pos as int + 4),
        ) && v.1 == pos + 4),
        pos + 4 > data@.len() ==> r is None,
{
    if data.len() < 4 || pos > data.len() - 4 {
        return None;
    }
    let x = (data[pos] as u32) << 24 | (data[pos + 1] as u32) << 16 | (data[pos + 2] as u32) << 8 | (
    data[pos + 3] as u32);
    proof {
        let s = data@.subrange(pos as int, pos as int + 4);
        assert(s[0] == data@[pos as int] && s[1] == data@[pos as int + 1] && s[2] == data@[pos as int
            + 2] && s[3] == data@[pos as int + 3]);
    }
    Some((x, pos + 4))
}

/// Reads a big-endian 64-bit integer at `pos`.
pub fn dec_u64(data: &Vec<u8>, pos: usize) -> (r: Option<(u64, usize)>)
    ensures
        pos + 8 <= data@.len() ==> (r matches Some(v) && v.0 == spec_u64_from_be_bytes(
            data@.subrange(pos as int, pos as int + 8),
        ) && v.1 == pos + 8),
        pos + 8 > data@.len() ==> r is None,
{
    if data.len() < 8 || pos > data.len() - 8 {
        return None;
    }
    let x = (data[pos] as u64) << 56 | (data[pos + 1] as u64) << 48 | (data[pos + 2] as u64) << 40 | (
    data[pos + 3] as u64) << 32 | (data[pos + 4] as u64) << 24 | (data[pos + 5] as u64) << 16 | (
    data[pos + 6] as u64) << 8 | (data[pos + 7] as u64);
    proof {
        let s = data@.subrange(pos as int, pos as int + 8);
        assert(s[0] == data@[pos as int] && s[1] == data@[pos as int + 1] && s[2] == data@[pos as int
            + 2] && s[3] == data@[pos as int + 3] && s[4] == data@[pos as int + 4] && s[5]
            == data@[pos as int + 5] && s[6] == data@[pos as int + 6] && s[7] == data@[pos as int
            + 7]);
    }
    Some((x, pos + 8))
}

/// A byte string short enough for its 32-bit length prefix.
pub open spec fn bytes_encodable(b: Seq<u8>) -> bool {
    b.len() <= u32::MAX
}

/// Length-prefixed byte string.
pub open spec fn spec_enc_bytes(b: Seq<u8>) -> Seq<u8> {
    spec_enc_u32(b.len() as u32) + b
}

/// Text whose UTF-8 form is short enough for its 32-bit length prefix.
pub open spec fn string_encodable(s: Seq<char>) -> bool {
    bytes_encodable(encode_utf8(s))
}

/// Length-prefixed UTF-8 bytes of the text.
pub open spec fn spec_enc_string(s: Seq<char>) -> Seq<u8> {
    spec_enc_bytes(encode_utf8(s))
}

/// Appends the length-prefixed byte string, unless it is too long to frame.
pub fn enc_bytes(out: &mut Vec<u8>, b: &[u8]) -> (ok: bool)
    ensures
        ok ==> bytes_encodable(b@) && final(out)@ == old(out)@ + spec_enc_bytes(b@),
        !ok ==> !bytes_encodable(b@) && final(out)@ == old(out)@,
{
    if b.len() as u64 > u32::MAX as u64 {
        return false;
    }
    enc_u32(out, b.len() as u32);
    out.extend_from_slice(b);
    proof {
        assert(out@ =~= old(out)@ + spec_enc_bytes(b@));
    }
    true
}

/// Appends the length-prefixed UTF-8 form of the text, unless it is too long
/// to frame.
pub fn enc_string(out: &mut Vec<u8>, s: &str) -> (ok: bool)
    ensures
        ok ==> string_encodable(s@) && final(out)@ == old(out)@ + spec_enc_string(s@),
        !ok ==> !string_encodable(s@) && final(out)@ == old(out)@,
{
    enc_bytes(out, s.as_bytes())
}

/// Reads a length-prefixed byte string at `pos`; what it accepts is exactly
/// the framing it would have produced.
pub fn dec_bytes(data: &Vec<u8>, pos: usize) -> (r: Option<(Vec<u8>, usize)>)
    ensures
        r matches Some(v) ==> bytes_encodable(v.0@) && pos + spec_enc_bytes(v.0@).len() == v.1
            && v.1 <= data@.len() && data@.subrange(pos as int, v.1 as int) == spec_enc_bytes(
            v.0@,
        ),
        ({
            let len = data@.len() as int;
            if pos + 4 <= len {
                let n = spec_u32_from_be_bytes(data@.subrange(pos as int, pos as int + 4)) as int;
                if pos + 4 + n <= len {
                    match r {
                        Some((b, p)) => b@ == data@.subrange(pos as int + 4, pos as int + 4 + n)
                            && p == pos + 4 + n,
                        None => false,
                    }
                } else {
                    r is None
                }
            } else {
                r is None
            }
        }),
{
    let (n, p) = match dec_u32(data, pos) {
        Some(v) => v,
        None => {
            return None;
        },
    };
    let n = n as usize;
    if n > data.len() - p {
        return None;
    }
    let end: usize = p + n;
    let mut out: Vec<u8> = Vec::new();
    let mut i: usize = 0;
    while i < n
        invariant
            i <= n,
            end == p + n,
            p + n <= data@.len(),
            out@ == data@.subrange(p as int, p as int + i as int),
        decreases n - i,
    {
        out.push(data[p + i]);
        proof {
            assert(out@ =~= data@.subrange(p as int, p as int + i as int + 1));
        }
        i = i + 1;
    }
    proof {
        lemma_u32_bytes_round(data@.subrange(pos as int, pos as int + 4));
        lemma_concat_join(
            data@,
            pos as int,
            p as int,
            p as int + n as int,
            spec_enc_u32(out@.len() as u32),
            out@,
        );
    }
    Some((out, p + n))
}

/// Reads length-prefixed text at `pos`; it must be valid UTF-8. What it
/// accepts is exactly the encoding of the text it returns.
pub fn dec_string(data: &Vec<u8>, pos: usize) -> (r: Option<(String, usize)>)
    ensures
        r matches Some(v) ==> string_encodable(v.0@) && pos + spec_enc_string(v.0@).len() == v.1
            && v.1 <= data@.len() && data@.subrange(pos as int, v.1 as int) == spec_enc_string(
            v.0@,
        ),
        forall|s: Seq<char>|
            (#[trigger] spec_enc_string(s).len() + pos <= data@.len() && string_encodable(s)
                && data@.subrange(pos as int, pos as int + spec_enc_string(s).len() as int)
                == spec_enc_string(s)) ==> (r matches Some(v) && v.0@ == s && v.1 == pos
                + spec_enc_string(s).len()),
{
    let b = match dec_bytes(data, pos) {
        Some(v) => v,
        None => {
            proof {
                lemma_dec_string_hyp(data@, pos as int);
            }
            return None;
        },
    };
    let (b, p) = b;
    let ghost bv = b@;
    match crate::ext::string_from_utf8(b) {
        Some(s) => {
            let r = Some((s, p));
            proof {
                lemma_dec_string_hyp(data@, pos as int);
                vstd::utf8::decode_utf8_encode_utf8(bv);
                assert(encode_utf8(s@) == bv);
            }
            r
        },
        None => {
            proof {
                lemma_dec_string_hyp(data@, pos as int);
            }
            None
        },
    }
}

/// Unfolds what an encoded string looks like in place: its length prefix and
/// its UTF-8 bytes, each recoverable by a subrange read.
pub proof fn lemma_dec_string_hyp(data: Seq<u8>, pos: int)
    requires
        pos >= 0,
    ensures
        forall|s: Seq<char>|
            (#[trigger] spec_enc_string(s).len() + pos <= data.len() && string_encodable(s)
                && data.subrange(pos, pos + spec_enc_string(s).len() as int) == spec_enc_string(s))
                ==> {
                &&& data.subrange(pos, pos + 4) == spec_enc_u32(encode_utf8(s).len() as u32)
                &&& spec_u32_from_be_bytes(data.subrange(pos, pos + 4)) == encode_utf8(s).len()
                &&& data.subrange(pos + 4, pos + 4 + encode_utf8(s).len()) == encode_utf8(s)
                &&& vstd::utf8::valid_utf8(encode_utf8(s))
                &&& vstd::utf8::decode_utf8(encode_utf8(s)) == s
            },
{
    assert forall|s: Seq<char>|
        (#[trigger] spec_enc_string(s).len() + pos <= data.len() && string_encodable(s)
            && data.subrange(pos, pos + spec_enc_string(s).len() as int) == spec_enc_string(
            s,
        )) implies {
        &&& data.subrange(pos, pos + 4) == spec_enc_u32(encode_utf8(s).len() as u32)
        &&& spec_u32_from_be_bytes(data.subrange(pos, pos + 4)) == encode_utf8(s).len()
        &&& data.subrange(pos + 4, pos + 4 + encode_utf8(s).len()) == encode_utf8(s)
        &&& vstd::utf8::valid_utf8(encode_utf8(s))
        &&& vstd::utf8::decode_utf8(encode_utf8(s)) == s
    } by {
        let u = encode_utf8(s);
        lemma_concat_split(data, pos, spec_enc_u32(u.len() as u32), u);
        lemma_u32_be_round(u.len() as u32);
        vstd::utf8::encode_utf8_valid_utf8(s);
        vstd::utf8::encode_utf8_decode_utf8(s);
    }
}

/// Reads one byte at `pos`.
pub fn dec_u8(data: &Vec<u8>, pos: usize) -> (r: Option<(u8, usize)>)
    ensures
        pos < data@.len() ==> (r matches Some(v) && v.0 == data@[pos as int] && v.1 == pos + 1),
        pos >= data@.len() ==> r is None,
{
    if pos >= data.len() {
        return None;
    }
    Some((data[pos], pos + 1))
}

/// One listing: when it was made and how many units sold.
pub open spec fn spec_enc_listing(l: Listing) -> Seq<u8> {
    spec_enc_u64(l.date) + spec_enc_u32(l.sold)
}

/// One listings-table slot: a presence tag, then the listing if occupied.
pub open spec fn spec_enc_slot(o: Option<Listing>) -> Seq<u8> {
    match o {
        None => seq![0u8],
        Some(l) => seq![1u8] + spec_enc_listing(l),
    }
}

/// The slots of a listings table from index `i` on, in order.
pub open spec fn spec_enc_slots_from(s: Seq<Option<Listing>>, i: int) -> Seq<u8>
    recommends
        s.len() == 8,
    decreases 8 - i,
{
    if i < 0 || i >= 8 {
        Seq::empty()
    } else {
        spec_enc_slot(s[i]) + spec_enc_slots_from(s, i + 1)
    }
}

/// The eight slots of a listings table, in order.
pub open spec fn spec_enc_slots(s: Seq<Option<Listing>>) -> Seq<u8>
    recommends
        s.len() == 8,
{
    spec_enc_slots_from(s, 0)
}

/// Appends one slot.
fn enc_slot(out: &mut Vec<u8>, o: &Option<Listing>)
    ensures
        final(out)@ == old(out)@ + spec_enc_slot(*o),
{
    match o {
        None => {
            out.push(0);
            proof {
                assert(out@ =~= old(out)@ + spec_enc_slot(*o));
            }
        },
        Some(l) => {
            out.push(1);
            enc_u64(out, l.date);
            enc_u32(out, l.sold);
            proof {
                assert(out@ =~= old(out)@ + spec_enc_slot(*o));
            }
        },
    }
}

/// Appends the slots of a listings table from index `i` on.
fn enc_slots_from(out: &mut Vec<u8>, l: &Listings, i: usize)
    requires
        i <= 8,
    ensures
        final(out)@ == old(out)@ + spec_enc_slots_from(l.0@, i as int),
    decreases 8 - i,
{
    if i < 8 {
        enc_slot(out, &l.0[i]);
        enc_slots_from(out, l, i + 1);
        proof {
            assert(out@ =~= old(out)@ + spec_enc_slots_from(l.0@, i as int));
        }
    } else {
        proof {
            assert(out@ =~= old(out)@ + spec_enc_slots_from(l.0@, i as int));
        }
    }
}

/// Appends the eight slots of a listings table.
pub fn enc_listings(out: &mut Vec<u8>, l: &Listings)
    ensures
        final(out)@ == old(out)@ + spec_enc_slots(l.0@),
{
    enc_slots_from(out, l, 0);
}

/// Reads one slot at `pos`; what it accepts is exactly the encoding of the
/// slot it returns.
fn dec_slot(data: &Vec<u8>, pos: usize) -> (r: Option<(Option<Listing>, usize)>)
    ensures
        r matches Some(v) ==> pos + spec_enc_slot(v.0).len() == v.1 && v.1 <= data@.len()
            && data@.subrange(pos as int, v.1 as int) == spec_enc_slot(v.0),
        forall|o: Option<Listing>|
            ((#[trigger] spec_enc_slot(o)).len() + pos <= data@.len() && data@.subrange(
                pos as int,
                pos as int + spec_enc_slot(o).len() as int,
            ) == spec_enc_slot(o)) ==> (r matches Some(v) && v.0 == o && v.1 == pos
                + spec_enc_slot(o).len()),
{
    let (tag, p) = match dec_u8(data, pos) {
        Some(v) => v,
        None => {
            proof {
                lemma_dec_slot_hyp(data@, pos as int);
            }
            return None;
        },
    };
    if tag == 0 {
        proof {
            lemma_dec_slot_hyp(data@, pos as int);
            assert(data@.subrange(pos as int, pos as int + 1) =~= spec_enc_slot(
                Option::<Listing>::None,
            ));
        }
        return Some((None, p));
    }
    if tag != 1 {
        proof {
            lemma_dec_slot_hyp(data@, pos as int);
        }
        return None;
    }
    let (date, p) = match dec_u64(data, p) {
        Some(v) => v,
        None => {
            proof {
                lemma_dec_slot_hyp(data@, pos as int);
            }
            return None;
        },
    };
    let (sold, p) = match dec_u32(data, p) {
        Some(v) => v,
        None => {
            proof {
                lemma_dec_slot_hyp(data@, pos as int);
            }
            return None;
        },
    };
    let r = Some((Some(Listing { date, sold }), p));
    proof {
        lemma_dec_slot_hyp(data@, pos as int);
        lemma_u64_bytes_round(data@.subrange(pos as int + 1, pos as int + 9));
        lemma_u32_bytes_round(data@.subrange(pos as int + 9, pos as int + 13));
        assert(data@.subrange(pos as int, pos as int + 1) =~= seq![1u8]);
        lemma_concat_join(
            data@,
            pos as int + 1,
            pos as int + 9,
            pos as int + 13,
            spec_enc_u64(date),
            spec_enc_u32(sold),
        );
        lemma_concat_join(
            data@,
            pos as int,
            pos as int + 1,
            pos as int + 13,
            seq![1u8],
            spec_enc_listing(Listing { date, sold }),
        );
        assert forall|o: Option<Listing>|
            ((#[trigger] spec_enc_slot(o)).len() + pos <= data@.len() && data@.subrange(
                pos as int,
                pos as int + spec_enc_slot(o).len() as int,
            ) == spec_enc_slot(o)) implies (r matches Some(v) && v.0 == o && v.1 == pos
            + spec_enc_slot(o).len()) by {
            match o {
                None => {},
                Some(l) => {
                    assert(Listing { date: l.date, sold: l.sold } == l);
                },
            }
        }
    }
    r
}

/// Unfolds what an encoded slot looks like in place: the tag byte, and for an
/// occupied slot the listing fields, each recoverable by a subrange read.
proof fn lemma_dec_slot_hyp(data: Seq<u8>, pos: int)
    requires
        pos >= 0,
    ensures
        forall|o: Option<Listing>|
            ((#[trigger] spec_enc_slot(o)).len() + pos <= data.len() && data.subrange(
                pos,
                pos + spec_enc_slot(o).len() as int,
            ) == spec_enc_slot(o)) ==> {
                &&& pos < data.len()
                &&& (o is None ==> data[pos] == 0u8 && spec_enc_slot(o).len() == 1)
                &&& (o is Some ==> {
                    let l = o->Some_0;
                    &&& data[pos] == 1u8
                    &&& spec_enc_slot(o).len() == 13
                    &&& data.subrange(pos + 1, pos + 9) == spec_enc_u64(l.date)
                    &&& spec_u64_from_be_bytes(data.subrange(pos + 1, pos + 9)) == l.date
                    &&& data.subrange(pos + 9, pos + 13) == spec_enc_u32(l.sold)
                    &&& spec_u32_from_be_bytes(data.subrange(pos + 9, pos + 13)) == l.sold
                })
            },
{
    assert forall|o: Option<Listing>|
        ((#[trigger] spec_enc_slot(o)).len() + pos <= data.len() && data.subrange(
            pos,
            pos + spec_enc_slot(o).len() as int,
        ) == spec_enc_slot(o)) implies {
        &&& pos < data.len()
        &&& (o is None ==> data[pos] == 0u8 && spec_enc_slot(o).len() == 1)
        &&& (o is Some ==> {
            let l = o->Some_0;
            &&& data[pos] == 1u8
            &&& spec_enc_slot(o).len() == 13
            &&& data.subrange(pos + 1, pos + 9) == spec_enc_u64(l.date)
            &&& spec_u64_from_be_bytes(data.subrange(pos + 1, pos + 9)) == l.date
            &&& data.subrange(pos + 9, pos + 13) == spec_enc_u32(l.sold)
            &&& spec_u32_from_be_bytes(data.subrange(pos + 9, pos + 13)) == l.sold
        })
    } by {
        assert(data[pos] == data.subrange(pos, pos + spec_enc_slot(o).len() as int)[0]);
        match o {
            None => {},
            Some(l) => {
                lemma_concat_split(data, pos, seq![1u8], spec_enc_listing(l));
                lemma_concat_split(data, pos + 1, spec_enc_u64(l.date), spec_enc_u32(l.sold));
                lemma_u64_be_round(l.date);
                lemma_u32_be_round(l.sold);
            },
        }
    }
}

/// Reads the slots of a listings table from index `i` on.
fn dec_slots_from(data: &Vec<u8>, pos: usize, i: usize) -> (r: Option<
    (Vec<Option<Listing>>, usize),
>)
    requires
        i <= 8,
    ensures
        r matches Some(v) ==> v.0@.len() == 8 - i && pos <= v.1 <= data@.len() && forall|
            t: Seq<Option<Listing>>,
        |
            (t.len() == 8 && t.skip(i as int) == v.0@) ==> data@.subrange(pos as int, v.1 as int)
                == #[trigger] spec_enc_slots_from(t, i as int),
        forall|s: Seq<Option<Listing>>|
            (s.len() == 8 && (#[trigger] spec_enc_slots_from(s, i as int)).len() + pos
                <= data@.len() && data@.subrange(
                pos as int,
                pos as int + spec_enc_slots_from(s, i as int).len() as int,
            ) == spec_enc_slots_from(s, i as int)) ==> (r matches Some(v) && v.0@ == s.skip(i as int)
                && v.1 == pos + spec_enc_slots_from(s, i as int).len()),
    decreases 8 - i,
{
    if i >= 8 {
        if pos > data.len() {
            return None;
        }
        let r = Some((Vec::<Option<Listing>>::new(), pos));
        proof {
            assert forall|s: Seq<Option<Listing>>| s.len() == 8 implies Seq::<
                Option<Listing>,
            >::empty() == s.skip(8) by {
                assert(s.skip(8) =~= Seq::<Option<Listing>>::empty());
            }
            assert forall|t: Seq<Option<Listing>>| t.len() == 8 implies data@.subrange(
                pos as int,
                pos as int,
            ) == #[trigger] spec_enc_slots_from(t, 8) by {
                assert(data@.subrange(pos as int, pos as int) =~= Seq::<u8>::empty());
            }
        }
        return r;
    }
    let head = match dec_slot(data, pos) {
        Some(v) => v,
        None => {
            proof {
                assert forall|s: Seq<Option<Listing>>|
                    (s.len() == 8 && (#[trigger] spec_enc_slots_from(s, i as int)).len() + pos
                        <= data@.len() && data@.subrange(
                        pos as int,
                        pos as int + spec_enc_slots_from(s, i as int).len() as int,
                    ) == spec_enc_slots_from(s, i as int)) implies false by {
                    lemma_concat_split(
                        data@,
                        pos as int,
                        spec_enc_slot(s[i as int]),
                        spec_enc_slots_from(s, i as int + 1),
                    );
                }
            }
            return None;
        },
    };
    let (slot, p) = head;
    let rest = match dec_slots_from(data, p, i + 1) {
        Some(v) => v,
        None => {
            proof {
                assert forall|s: Seq<Option<Listing>>|
                    (s.len() == 8 && (#[trigger] spec_enc_slots_from(s, i as int)).len() + pos
                        <= data@.len() && data@.subrange(
                        pos as int,
                        pos as int + spec_enc_slots_from(s, i as int).len() as int,
                    ) == spec_enc_slots_from(s, i as int)) implies false by {
                    lemma_concat_split(
                        data@,
                        pos as int,
                        spec_enc_slot(s[i as int]),
                        spec_enc_slots_from(s, i as int + 1),
                    );
                }
            }
            return None;
        },
    };
    let (mut tail, p2) = rest;
    let ghost rv = tail@;
    tail.insert(0, slot);
    let r = Some((tail, p2));
    proof {
        assert(tail@ =~= seq![slot] + rv);
        assert forall|t: Seq<Option<Listing>>| (t.len() == 8 && t.skip(i as int) == tail@) implies
            data@.subrange(pos as int, p2 as int) == #[trigger] spec_enc_slots_from(
            t,
            i as int,
        ) by {
            assert(t[i as int] == tail@[0]);
            assert(t[i as int] == slot);
            assert(t.skip(i as int + 1) =~= tail@.skip(1));
            assert(tail@.skip(1) =~= rv);
            assert(data@.subrange(p as int, p2 as int) == spec_enc_slots_from(t, i as int + 1));
            lemma_concat_join(
                data@,
                pos as int,
                p as int,
                p2 as int,
                spec_enc_slot(slot),
                spec_enc_slots_from(t, i as int + 1),
            );
        }
        assert forall|s: Seq<Option<Listing>>|
            (s.len() == 8 && (#[trigger] spec_enc_slots_from(s, i as int)).len() + pos
                <= data@.len() && data@.subrange(
                pos as int,
                pos as int + spec_enc_slots_from(s, i as int).len() as int,
            ) == spec_enc_slots_from(s, i as int)) implies (r matches Some(v) && v.0@ == s.skip(
            i as int,
        ) && v.1 == pos + spec_enc_slots_from(s, i as int).len()) by {
            lemma_concat_split(
                data@,
                pos as int,
                spec_enc_slot(s[i as int]),
                spec_enc_slots_from(s, i as int + 1),
            );
            assert(tail@ =~= seq![s[i as int]] + s.skip(i as int + 1));
            assert(tail@ =~= s.skip(i as int));
        }
    }
    r
}

/// Reads the eight slots of a listings table at `pos`; what it accepts is
/// exactly the encoding of the table it returns.
pub fn dec_listings(data: &Vec<u8>, pos: usize) -> (r: Option<(Listings, usize)>)
    ensures
        r matches Some(v) ==> pos + spec_enc_slots(v.0.0@).len() == v.1 && v.1 <= data@.len()
            && data@.subrange(pos as int, v.1 as int) == spec_enc_slots(v.0.0@),
        forall|s: Seq<Option<Listing>>|
            (s.len() == 8 && (#[trigger] spec_enc_slots(s)).len() + pos <= data@.len()
                && data@.subrange(pos as int, pos as int + spec_enc_slots(s).len() as int)
                == spec_enc_slots(s)) ==> (r matches Some(v) && v.0.0@ == s && v.1 == pos
                + spec_enc_slots(s).len()),
{
    let (slots, p) = match dec_slots_from(data, pos, 0) {
        Some(v) => v,
        None => {
            return None;
        },
    };
    if slots.len() != 8 {
        return None;
    }
    let table = Listings(
        [
            slots[0],
            slots[1],
            slots[2],
            slots[3],
            slots[4],
            slots[5],
            slots[6],
            slots[7],
        ],
    );
    let r = Some((table, p));
    proof {
        assert(table.0@ =~= slots@);
        assert(table.0@.skip(0) =~= slots@);
        assert(data@.subrange(pos as int, p as int) == spec_enc_slots_from(table.0@, 0));
        assert forall|s: Seq<Option<Listing>>|
            (s.len() == 8 && (#[trigger] spec_enc_slots(s)).len() + pos <= data@.len()
                && data@.subrange(pos as int, pos as int + spec_enc_slots(s).len() as int)
                == spec_enc_slots(s)) implies (r matches Some(v) && v.0.0@ == s && v.1 == pos
            + spec_enc_slots(s).len()) by {
            assert(slots@ == s.skip(0));
            assert(s.skip(0) =~= s);
            assert(table.0@ =~= s);
        }
    }
    r
}

/// A picture whose pixel buffer fits its length prefix.
pub open spec fn picture_encodable(p: PictureV) -> bool {
    bytes_encodable(p.data)
}

/// A picture: its length-prefixed pixel bytes, then width and height.
pub open spec fn spec_enc_picture(p: PictureV) -> Seq<u8> {
    spec_enc_bytes(p.data) + (spec_enc_u32(p.width) + spec_enc_u32(p.height))
}

/// An optional picture that can be framed.
pub open spec fn opt_picture_encodable(o: Option<PictureV>) -> bool {
    match o {
        None => true,
        Some(p) => picture_encodable(p),
    }
}

/// An optional picture: a presence tag, then the picture if there is one.
pub open spec fn spec_enc_opt_picture(o: Option<PictureV>) -> Seq<u8> {
    match o {
        None => seq![0u8],
        Some(p) => seq![1u8] + spec_enc_picture(p),
    }
}

/// Appends an optional picture, unless its pixel buffer is too long to frame.
pub fn enc_opt_picture(out: &mut Vec<u8>, o: &Option<Picture>) -> (ok: bool)
    ensures
        ok ==> opt_picture_encodable(spec_opt_pic_view(*o)) && final(out)@ == old(out)@
            + spec_enc_opt_picture(spec_opt_pic_view(*o)),
        !ok ==> !opt_picture_encodable(spec_opt_pic_view(*o)),
{
    match o {
        None => {
            out.push(0);
            proof {
                assert(out@ =~= old(out)@ + spec_enc_opt_picture(spec_opt_pic_view(*o)));
            }
            true
        },
        Some(p) => {
            out.push(1);
            if !enc_bytes(out, p.data.as_slice()) {
                return false;
            }
            enc_u32(out, p.size[0]);
            enc_u32(out, p.size[1]);
            proof {
                assert(out@ =~= old(out)@ + spec_enc_opt_picture(spec_opt_pic_view(*o)));
            }
            true
        },
    }
}

/// Reads an optional picture at `pos`; what it accepts is exactly the
/// encoding of what it returns.
pub fn dec_opt_picture(data: &Vec<u8>, pos: usize) -> (r: Option<(Option<Picture>, usize)>)
    ensures
        r matches Some(v) ==> opt_picture_encodable(spec_opt_pic_view(v.0)) && pos
            + spec_enc_opt_picture(spec_opt_pic_view(v.0)).len() == v.1 && v.1 <= data@.len()
            && data@.subrange(pos as int, v.1 as int) == spec_enc_opt_picture(
            spec_opt_pic_view(v.0),
        ),
        forall|o: Option<PictureV>|
            (opt_picture_encodable(o) && (#[trigger] spec_enc_opt_picture(o)).len() + pos
                <= data@.len() && data@.subrange(
                pos as int,
                pos as int + spec_enc_opt_picture(o).len() as int,
            ) == spec_enc_opt_picture(o)) ==> (r matches Some(v) && spec_opt_pic_view(v.0) == o
                && v.1 == pos + spec_enc_opt_picture(o).len()),
{
    let (tag, p) = match dec_u8(data, pos) {
        Some(v) => v,
        None => {
            proof {
                lemma_dec_opt_picture_hyp(data@, pos as int);
            }
            return None;
        },
    };
    if tag == 0 {
        proof {
            lemma_dec_opt_picture_hyp(data@, pos as int);
            assert(data@.subrange(pos as int, pos as int + 1) =~= spec_enc_opt_picture(
                spec_opt_pic_view(Option::<Picture>::None),
            ));
        }
        return Some((None, p));
    }
    if tag != 1 {
        proof {
            lemma_dec_opt_picture_hyp(data@, pos as int);
        }
        return None;
    }
    let (bytes, p) = match dec_bytes(data, p) {
        Some(v) => v,
        None => {
            proof {
                lemma_dec_opt_picture_hyp(data@, pos as int);
            }
            return None;
        },
    };
    let (w, p) = match dec_u32(data, p) {
        Some(v) => v,
        None => {
            proof {
                lemma_dec_opt_picture_hyp(data@, pos as int);
            }
            return None;
        },
    };
    let (h, p) = match dec_u32(data, p) {
        Some(v) => v,
        None => {
            proof {
                lemma_dec_opt_picture_hyp(data@, pos as int);
            }
            return None;
        },
    };
    let pic = Picture { data: bytes, size: [w, h] };
    let r = Some((Some(pic), p));
    proof {
        lemma_dec_opt_picture_hyp(data@, pos as int);
        assert(data@.subrange(pos as int, pos as int + 1) =~= seq![1u8]);
        lemma_u32_bytes_round(data@.subrange(p as int - 8, p as int - 4));
        lemma_u32_bytes_round(data@.subrange(p as int - 4, p as int));
        lemma_concat_join(
            data@,
            p as int - 8,
            p as int - 4,
            p as int,
            spec_enc_u32(w),
            spec_enc_u32(h),
        );
        lemma_concat_join(
            data@,
            pos as int + 1,
            p as int - 8,
            p as int,
            spec_enc_bytes(pic@.data),
            spec_enc_u32(w) + spec_enc_u32(h),
        );
        lemma_concat_join(
            data@,
            pos as int,
            pos as int + 1,
            p as int,
            seq![1u8],
            spec_enc_picture(pic@),
        );
        assert(pic@.width == w && pic@.height == h);
        assert(data@.subrange(pos as int, p as int) == spec_enc_opt_picture(
            spec_opt_pic_view(Some(pic)),
        ));
        assert forall|o: Option<PictureV>|
            (opt_picture_encodable(o) && (#[trigger] spec_enc_opt_picture(o)).len() + pos
                <= data@.len() && data@.subrange(
                pos as int,
                pos as int + spec_enc_opt_picture(o).len() as int,
            ) == spec_enc_opt_picture(o)) implies (r matches Some(v) && spec_opt_pic_view(v.0) == o
            && v.1 == pos + spec_enc_opt_picture(o).len()) by {
            match o {
                None => {},
                Some(pv) => {
                    assert(pic@ =~= pv);
                },
            }
        }
    }
    r
}

/// Unfolds what an encoded picture looks like in place: the tag, the pixel
/// bytes with their length prefix, then width and height.
proof fn lemma_dec_opt_picture_hyp(data: Seq<u8>, pos: int)
    requires
        pos >= 0,
    ensures
        forall|o: Option<PictureV>|
            (opt_picture_encodable(o) && (#[trigger] spec_enc_opt_picture(o)).len() + pos
                <= data.len() && data.subrange(pos, pos + spec_enc_opt_picture(o).len() as int)
                == spec_enc_opt_picture(o)) ==> {
                &&& pos < data.len()
                &&& (o is None ==> data[pos] == 0u8 && spec_enc_opt_picture(o).len() == 1)
                &&& (o is Some ==> {
                    let p = o->Some_0;
                    let q0 = pos + 1;
                    let q1 = q0 + 4 + p.data.len();
                    &&& data[pos] == 1u8
                    &&& spec_enc_opt_picture(o).len() == 1 + (4 + p.data.len()) + 8
                    &&& data.subrange(q0, q0 + 4) == spec_enc_u32(p.data.len() as u32)
                    &&& spec_u32_from_be_bytes(data.subrange(q0, q0 + 4)) == p.data.len()
                    &&& data.subrange(q0 + 4, q1) == p.data
                    &&& data.subrange(q1, q1 + 4) == spec_enc_u32(p.width)
                    &&& spec_u32_from_be_bytes(data.subrange(q1, q1 + 4)) == p.width
                    &&& data.subrange(q1 + 4, q1 + 8) == spec_enc_u32(p.height)
                    &&& spec_u32_from_be_bytes(data.subrange(q1 + 4, q1 + 8)) == p.height
                })
            },
{
    assert forall|o: Option<PictureV>|
        (opt_picture_encodable(o) && (#[trigger] spec_enc_opt_picture(o)).len() + pos <= data.len()
            && data.subrange(pos, pos + spec_enc_opt_picture(o).len() as int)
            == spec_enc_opt_picture(o)) implies {
        &&& pos < data.len()
        &&& (o is None ==> data[pos] == 0u8 && spec_enc_opt_picture(o).len() == 1)
        &&& (o is Some ==> {
            let p = o->Some_0;
            let q0 = pos + 1;
            let q1 = q0 + 4 + p.data.len();
            &&& data[pos] == 1u8
            &&& spec_enc_opt_picture(o).len() == 1 + (4 + p.data.len()) + 8
            &&& data.subrange(q0, q0 + 4) == spec_enc_u32(p.data.len() as u32)
            &&& spec_u32_from_be_bytes(data.subrange(q0, q0 + 4)) == p.data.len()
            &&& data.subrange(q0 + 4, q1) == p.data
            &&& data.subrange(q1, q1 + 4) == spec_enc_u32(p.width)
            &&& spec_u32_from_be_bytes(data.subrange(q1, q1 + 4)) == p.width
            &&& data.subrange(q1 + 4, q1 + 8) == spec_enc_u32(p.height)
            &&& spec_u32_from_be_bytes(data.subrange(q1 + 4, q1 + 8)) == p.height
        })
    } by {
        assert(data[pos] == data.subrange(pos, pos + spec_enc_opt_picture(o).len() as int)[0]);
        match o {
            None => {},
            Some(p) => {
                let q0 = pos + 1;
                let q1 = q0 + 4 + p.data.len();
                lemma_concat_split(data, pos, seq![1u8], spec_enc_picture(p));
                lemma_concat_split(
                    data,
                    q0,
                    spec_enc_bytes(p.data),
                    spec_enc_u32(p.width) + spec_enc_u32(p.height),
                );
                lemma_concat_split(data, q0, spec_enc_u32(p.data.len() as u32), p.data);
                lemma_concat_split(data, q1, spec_enc_u32(p.width), spec_enc_u32(p.height));
                lemma_u32_be_round(p.data.len() as u32);
                lemma_u32_be_round(p.width);
                lemma_u32_be_round(p.height);
            },
        }
    }
}

/// Rebracketing a concatenation does not change it.
proof fn lemma_seq_assoc(a: Seq<u8>, b: Seq<u8>, c: Seq<u8>)
    ensures
        (a + b) + c == a + (b + c),
{
    assert((a + b) + c =~= a + (b + c));
}

/// The provenance and storage part of an item: creation time, location,
/// listings table, picture.
pub open spec fn item_g1_encodable(v: ItemV) -> bool {
    &&& string_encodable(v.location)
    &&& v.listings.len() == 8
    &&& opt_picture_encodable(v.picture)
}

pub open spec fn spec_enc_item_g1(v: ItemV) -> Seq<u8> {
    spec_enc_u64(v.creation_date) + (spec_enc_string(v.location) + (spec_enc_slots(v.listings)
        + spec_enc_opt_picture(v.picture)))
}

/// The naming part of an item: name, description, count, estimated cost.
pub open spec fn item_g2_encodable(v: ItemV) -> bool {
    string_encodable(v.name) && string_encodable(v.desc)
}

pub open spec fn spec_enc_item_g2(v: ItemV) -> Seq<u8> {
    spec_enc_string(v.name) + (spec_enc_string(v.desc) + (spec_enc_u32(v.count) + spec_enc_u32(
        v.est_cost,
    )))
}

/// The condition part of an item: condition, color, dimensions.
pub open spec fn item_g3_encodable(v: ItemV) -> bool {
    string_encodable(v.condition) && string_encodable(v.color) && v.dimensions.len() == 3
}

pub open spec fn spec_enc_item_g3(v: ItemV) -> Seq<u8> {
    spec_enc_string(v.condition) + (spec_enc_string(v.color) + (spec_enc_u32(v.dimensions[0]) + (
    spec_enc_u32(v.dimensions[1]) + spec_enc_u32(v.dimensions[2]))))
}

/// The remaining numbers and the brand of an item.
pub open spec fn item_g4_encodable(v: ItemV) -> bool {
    string_encodable(v.brand)
}

pub open spec fn spec_enc_item_g4(v: ItemV) -> Seq<u8> {
    spec_enc_u32(v.weight) + (spec_enc_u32(v.shipping_weight) + (spec_enc_u64(v.model_no) + (
    spec_enc_u64(v.serial_no) + spec_enc_string(v.brand))))
}

/// An item every part of which fits its length prefixes.
pub open spec fn item_encodable(v: ItemV) -> bool {
    item_g1_encodable(v) && item_g2_encodable(v) && item_g3_encodable(v) && item_g4_encodable(v)
}

/// A whole item: the four field groups in order. Opaque so that entry- and
/// inventory-level reasoning treats an item's bytes as one block.
#[verifier::opaque]
pub open spec fn spec_enc_item(v: ItemV) -> Seq<u8> {
    spec_enc_item_g1(v) + (spec_enc_item_g2(v) + (spec_enc_item_g3(v) + spec_enc_item_g4(v)))
}

fn enc_item_g1(out: &mut Vec<u8>, item: &Item) -> (ok: bool)
    ensures
        ok ==> item_g1_encodable(item@) && final(out)@ == old(out)@ + spec_enc_item_g1(item@),
        !ok ==> !item_g1_encodable(item@),
{
    let ghost b0 = out@;
    let ghost e1 = spec_enc_u64(item@.creation_date);
    let ghost e2 = spec_enc_string(item@.location);
    let ghost e3 = spec_enc_slots(item@.listings);
    let ghost e4 = spec_enc_opt_picture(item@.picture);
    enc_u64(out, item.creation_date);
    if !enc_string(out, item.location.as_str()) {
        return false;
    }
    enc_listings(out, &item.listings);
    if !enc_opt_picture(out, &item.picture) {
        return false;
    }
    proof {
        assert(out@ == ((b0 + e1) + e2 + e3) + e4);
        lemma_seq_assoc(b0 + e1 + e2, e3, e4);
        lemma_seq_assoc(b0 + e1, e2, e3 + e4);
        lemma_seq_assoc(b0, e1, e2 + (e3 + e4));
    }
    true
}

fn enc_item_g2(out: &mut Vec<u8>, item: &Item) -> (ok: bool)
    ensures
        ok ==> item_g2_encodable(item@) && final(out)@ == old(out)@ + spec_enc_item_g2(item@),
        !ok ==> !item_g2_encodable(item@),
{
    let ghost b0 = out@;
    let ghost e1 = spec_enc_string(item@.name);
    let ghost e2 = spec_enc_string(item@.desc);
    let ghost e3 = spec_enc_u32(item@.count);
    let ghost e4 = spec_enc_u32(item@.est_cost);
    if !enc_string(out, item.name.as_str()) {
        return false;
    }
    if !enc_string(out, item.desc.as_str()) {
        return false;
    }
    enc_u32(out, item.count);
    enc_u32(out, item.est_cost.0);
    proof {
        assert(out@ == ((b0 + e1) + e2 + e3) + e4);
        lemma_seq_assoc(b0 + e1 + e2, e3, e4);
        lemma_seq_assoc(b0 + e1, e2, e3 + e4);
        lemma_seq_assoc(b0, e1, e2 + (e3 + e4));
    }
    true
}

fn enc_item_g3(out: &mut Vec<u8>, item: &Item) -> (ok: bool)
    ensures
        ok ==> item_g3_encodable(item@) && final(out)@ == old(out)@ + spec_enc_item_g3(item@),
        !ok ==> !item_g3_encodable(item@),
{
    let ghost b0 = out@;
    let ghost e1 = spec_enc_string(item@.condition);
    let ghost e2 = spec_enc_string(item@.color);
    let ghost e3 = spec_enc_u32(item@.dimensions[0]);
    let ghost e4 = spec_enc_u32(item@.dimensions[1]);
    let ghost e5 = spec_enc_u32(item@.dimensions[2]);
    if !enc_string(out, item.condition.as_str()) {
        return false;
    }
    if !enc_string(out, item.color.as_str()) {
        return false;
    }
    enc_u32(out, item.dimensions[0]);
    enc_u32(out, item.dimensions[1]);
    enc_u32(out, item.dimensions[2]);
    proof {
        assert(out@ == (((b0 + e1) + e2 + e3) + e4) + e5);
        lemma_seq_assoc(b0 + e1 + e2 + e3, e4, e5);
        lemma_seq_assoc(b0 + e1 + e2, e3, e4 + e5);
        lemma_seq_assoc(b0 + e1, e2, e3 + (e4 + e5));
        lemma_seq_assoc(b0, e1, e2 + (e3 + (e4 + e5)));
    }
    true
}

fn enc_item_g4(out: &mut Vec<u8>, item: &Item) -> (ok: bool)
    ensures
        ok ==> item_g4_encodable(item@) && final(out)@ == old(out)@ + spec_enc_item_g4(item@),
        !ok ==> !item_g4_encodable(item@),
{
    let ghost b0 = out@;
    let ghost e1 = spec_enc_u32(item@.weight);
    let ghost e2 = spec_enc_u32(item@.shipping_weight);
    let ghost e3 = spec_enc_u64(item@.model_no);
    let ghost e4 = spec_enc_u64(item@.serial_no);
    let ghost e5 = spec_enc_string(item@.brand);
    enc_u32(out, item.weight);
    enc_u32(out, item.shipping_weight);
    enc_u64(out, item.model_no);
    enc_u64(out, item.serial_no);
    if !enc_string(out, item.brand.as_str()) {
        return false;
    }
    proof {
        assert(out@ == (((b0 + e1) + e2 + e3) + e4) + e5);
        lemma_seq_assoc(b0 + e1 + e2 + e3, e4, e5);
        lemma_seq_assoc(b0 + e1 + e2, e3, e4 + e5);
        lemma_seq_assoc(b0 + e1, e2, e3 + (e4 + e5));
        lemma_seq_assoc(b0, e1, e2 + (e3 + (e4 + e5)));
    }
    true
}

/// Appends a whole item, unless one of its parts is too long to frame.
pub fn enc_item(out: &mut Vec<u8>, item: &Item) -> (ok: bool)
    ensures
        ok ==> item_encodable(item@) && final(out)@ == old(out)@ + spec_enc_item(item@),
        !ok ==> !item_encodable(item@),
{
    let ghost b0 = out@;
    let ghost e1 = spec_enc_item_g1(item@);
    let ghost e2 = spec_enc_item_g2(item@);
    let ghost e3 = spec_enc_item_g3(item@);
    let ghost e4 = spec_enc_item_g4(item@);
    if !enc_item_g1(out, item) {
        return false;
    }
    if !enc_item_g2(out, item) {
        return false;
    }
    if !enc_item_g3(out, item) {
        return false;
    }
    if !enc_item_g4(out, item) {
        return false;
    }
    proof {
        reveal(spec_enc_item);
        assert(out@ == ((b0 + e1) + e2 + e3) + e4);
        lemma_seq_assoc(b0 + e1 + e2, e3, e4);
        lemma_seq_assoc(b0 + e1, e2, e3 + e4);
        lemma_seq_assoc(b0, e1, e2 + (e3 + e4));
    }
    true
}

/// Unfolds the four field groups of an encoded item in place.
proof fn lemma_dec_item_hyp(data: Seq<u8>, pos: int)
    requires
        pos >= 0,
    ensures
        forall|v: ItemV|
            (item_encodable(v) && (#[trigger] spec_enc_item(v)).len() + pos <= data.len()
                && data.subrange(pos, pos + spec_enc_item(v).len() as int) == spec_enc_item(v))
                ==> {
                let q1 = pos + spec_enc_item_g1(v).len();
                let q2 = q1 + spec_enc_item_g2(v).len();
                let q3 = q2 + spec_enc_item_g3(v).len();
                let q4 = q3 + spec_enc_item_g4(v).len();
                &&& data.subrange(pos, q1) == spec_enc_item_g1(v)
                &&& data.subrange(q1, q2) == spec_enc_item_g2(v)
                &&& data.subrange(q2, q3) == spec_enc_item_g3(v)
                &&& data.subrange(q3, q4) == spec_enc_item_g4(v)
                &&& q4 == pos + spec_enc_item(v).len()
            },
{
    assert forall|v: ItemV|
        (item_encodable(v) && (#[trigger] spec_enc_item(v)).len() + pos <= data.len()
            && data.subrange(pos, pos + spec_enc_item(v).len() as int) == spec_enc_item(
            v,
        )) implies {
        let q1 = pos + spec_enc_item_g1(v).len();
        let q2 = q1 + spec_enc_item_g2(v).len();
        let q3 = q2 + spec_enc_item_g3(v).len();
        let q4 = q3 + spec_enc_item_g4(v).len();
        &&& data.subrange(pos, q1) == spec_enc_item_g1(v)
        &&& data.subrange(q1, q2) == spec_enc_item_g2(v)
        &&& data.subrange(q2, q3) == spec_enc_item_g3(v)
        &&& data.subrange(q3, q4) == spec_enc_item_g4(v)
        &&& q4 == pos + spec_enc_item(v).len()
    } by {
        reveal(spec_enc_item);
        let q1 = pos + spec_enc_item_g1(v).len();
        let q2 = q1 + spec_enc_item_g2(v).len();
        let q3 = q2 + spec_enc_item_g3(v).len();
        lemma_concat_split(
            data,
            pos,
            spec_enc_item_g1(v),
            spec_enc_item_g2(v) + (spec_enc_item_g3(v) + spec_enc_item_g4(v)),
        );
        lemma_concat_split(
            data,
            q1,
            spec_enc_item_g2(v),
            spec_enc_item_g3(v) + spec_enc_item_g4(v),
        );
        lemma_concat_split(data, q2, spec_enc_item_g3(v), spec_enc_item_g4(v));
    }
}

/// Unfolds the pieces of an encoded first field group in place.
proof fn lemma_dec_item_g1_hyp(data: Seq<u8>, pos: int)
    requires
        pos >= 0,
    ensures
        forall|v: ItemV|
            (item_g1_encodable(v) && (#[trigger] spec_enc_item_g1(v)).len() + pos <= data.len()
                && data.subrange(pos, pos + spec_enc_item_g1(v).len() as int) == spec_enc_item_g1(
                v,
            )) ==> {
                let q1 = pos + 8;
                let q2 = q1 + spec_enc_string(v.location).len();
                let q3 = q2 + spec_enc_slots(v.listings).len();
                let q4 = q3 + spec_enc_opt_picture(v.picture).len();
                &&& data.subrange(pos, q1) == spec_enc_u64(v.creation_date)
                &&& spec_u64_from_be_bytes(data.subrange(pos, q1)) == v.creation_date
                &&& data.subrange(q1, q2) == spec_enc_string(v.location)
                &&& data.subrange(q2, q3) == spec_enc_slots(v.listings)
                &&& data.subrange(q3, q4) == spec_enc_opt_picture(v.picture)
                &&& q4 == pos + spec_enc_item_g1(v).len()
            },
{
    assert forall|v: ItemV|
        (item_g1_encodable(v) && (#[trigger] spec_enc_item_g1(v)).len() + pos <= data.len()
            && data.subrange(pos, pos + spec_enc_item_g1(v).len() as int) == spec_enc_item_g1(
            v,
        )) implies {
        let q1 = pos + 8;
        let q2 = q1 + spec_enc_string(v.location).len();
        let q3 = q2 + spec_enc_slots(v.listings).len();
        let q4 = q3 + spec_enc_opt_picture(v.picture).len();
        &&& data.subrange(pos, q1) == spec_enc_u64(v.creation_date)
        &&& spec_u64_from_be_bytes(data.subrange(pos, q1)) == v.creation_date
        &&& data.subrange(q1, q2) == spec_enc_string(v.location)
        &&& data.subrange(q2, q3) == spec_enc_slots(v.listings)
        &&& data.subrange(q3, q4) == spec_enc_opt_picture(v.picture)
        &&& q4 == pos + spec_enc_item_g1(v).len()
    } by {
        let q1 = pos + 8;
        let q2 = q1 + spec_enc_string(v.location).len();
        let q3 = q2 + spec_enc_slots(v.listings).len();
        lemma_concat_split(
            data,
            pos,
            spec_enc_u64(v.creation_date),
            spec_enc_string(v.location) + (spec_enc_slots(v.listings) + spec_enc_opt_picture(
                v.picture,
            )),
        );
        lemma_concat_split(
            data,
            q1,
            spec_enc_string(v.location),
            spec_enc_slots(v.listings) + spec_enc_opt_picture(v.picture),
        );
        lemma_concat_split(data, q2, spec_enc_slots(v.listings), spec_enc_opt_picture(v.picture));
        lemma_u64_be_round(v.creation_date);
    }
}

fn dec_item_g1(data: &Vec<u8>, pos: usize) -> (r: Option<
    (u64, String, Listings, Option<Picture>, usize),
>)
    ensures
        forall|v: ItemV|
            (item_g1_encodable(v) && (#[trigger] spec_enc_item_g1(v)).len() + pos <= data@.len()
                && data@.subrange(pos as int, pos as int + spec_enc_item_g1(v).len() as int)
                == spec_enc_item_g1(v)) ==> (r matches Some(t) && t.0 == v.creation_date && t.1@
                == v.location && t.2.0@ == v.listings && spec_opt_pic_view(t.3) == v.picture && t.4
                == pos + spec_enc_item_g1(v).len()),
        r matches Some(t) ==> {
            &&& string_encodable(t.1@)
            &&& opt_picture_encodable(spec_opt_pic_view(t.3))
            &&& pos <= t.4 <= data@.len()
            &&& data@.subrange(pos as int, t.4 as int) == spec_enc_u64(t.0) + (spec_enc_string(
                t.1@,
            ) + (spec_enc_slots(t.2.0@) + spec_enc_opt_picture(spec_opt_pic_view(t.3))))
        },
{
    proof {
        lemma_dec_item_g1_hyp(data@, pos as int);
    }
    let (created, p1) = match dec_u64(data, pos) {
        Some(x) => x,
        None => {
            return None;
        },
    };
    let (location, p2) = match dec_string(data, p1) {
        Some(x) => x,
        None => {
            return None;
        },
    };
    let (listings, p3) = match dec_listings(data, p2) {
        Some(x) => x,
        None => {
            return None;
        },
    };
    let (picture, p4) = match dec_opt_picture(data, p3) {
        Some(x) => x,
        None => {
            return None;
        },
    };
    proof {
        lemma_u64_bytes_round(data@.subrange(pos as int, p1 as int));
        lemma_concat_join(
            data@,
            p2 as int,
            p3 as int,
            p4 as int,
            spec_enc_slots(listings.0@),
            spec_enc_opt_picture(spec_opt_pic_view(picture)),
        );
        lemma_concat_join(
            data@,
            p1 as int,
            p2 as int,
            p4 as int,
            spec_enc_string(location@),
            spec_enc_slots(listings.0@) + spec_enc_opt_picture(spec_opt_pic_view(picture)),
        );
        lemma_concat_join(
            data@,
            pos as int,
            p1 as int,
            p4 as int,
            spec_enc_u64(created),
            spec_enc_string(location@) + (spec_enc_slots(listings.0@) + spec_enc_opt_picture(
                spec_opt_pic_view(picture),
            )),
        );
    }
    Some((created, location, listings, picture, p4))
}

/// Unfolds the pieces of an encoded second field group in place.
proof fn lemma_dec_item_g2_hyp(data: Seq<u8>, pos: int)
    requires
        pos >= 0,
    ensures
        forall|v: ItemV|
            (item_g2_encodable(v) && (#[trigger] spec_enc_item_g2(v)).len() + pos <= data.len()
                && data.subrange(pos, pos + spec_enc_item_g2(v).len() as int) == spec_enc_item_g2(
                v,
            )) ==> {
                let q1 = pos + spec_enc_string(v.name).len();
                let q2 = q1 + spec_enc_string(v.desc).len();
                &&& data.subrange(pos, q1) == spec_enc_string(v.name)
                &&& data.subrange(q1, q2) == spec_enc_string(v.desc)
                &&& data.subrange(q2, q2 + 4) == spec_enc_u32(v.count)
                &&& spec_u32_from_be_bytes(data.subrange(q2, q2 + 4)) == v.count
                &&& data.subrange(q2 + 4, q2 + 8) == spec_enc_u32(v.est_cost)
                &&& spec_u32_from_be_bytes(data.subrange(q2 + 4, q2 + 8)) == v.est_cost
                &&& q2 + 8 == pos + spec_enc_item_g2(v).len()
            },
{
    assert forall|v: ItemV|
        (item_g2_encodable(v) && (#[trigger] spec_enc_item_g2(v)).len() + pos <= data.len()
            && data.subrange(pos, pos + spec_enc_item_g2(v).len() as int) == spec_enc_item_g2(
            v,
        )) implies {
        let q1 = pos + spec_enc_string(v.name).len();
        let q2 = q1 + spec_enc_string(v.desc).len();
        &&& data.subrange(pos, q1) == spec_enc_string(v.name)
        &&& data.subrange(q1, q2) == spec_enc_string(v.desc)
        &&& data.subrange(q2, q2 + 4) == spec_enc_u32(v.count)
        &&& spec_u32_from_be_bytes(data.subrange(q2, q2 + 4)) == v.count
        &&& data.subrange(q2 + 4, q2 + 8) == spec_enc_u32(v.est_cost)
        &&& spec_u32_from_be_bytes(data.subrange(q2 + 4, q2 + 8)) == v.est_cost
        &&& q2 + 8 == pos + spec_enc_item_g2(v).len()
    } by {
        let q1 = pos + spec_enc_string(v.name).len();
        let q2 = q1 + spec_enc_string(v.desc).len();
        lemma_concat_split(
            data,
            pos,
            spec_enc_string(v.name),
            spec_enc_string(v.desc) + (spec_enc_u32(v.count) + spec_enc_u32(v.est_cost)),
        );
        lemma_concat_split(
            data,
            q1,
            spec_enc_string(v.desc),
            spec_enc_u32(v.count) + spec_enc_u32(v.est_cost),
        );
        lemma_concat_split(data, q2, spec_enc_u32(v.count), spec_enc_u32(v.est_cost));
        lemma_u32_be_round(v.count);
        lemma_u32_be_round(v.est_cost);
    }
}

fn dec_item_g2(data: &Vec<u8>, pos: usize) -> (r: Option<(String, String, u32, u32, usize)>)
    ensures
        forall|v: ItemV|
            (item_g2_encodable(v) && (#[trigger] spec_enc_item_g2(v)).len() + pos <= data@.len()
                && data@.subrange(pos as int, pos as int + spec_enc_item_g2(v).len() as int)
                == spec_enc_item_g2(v)) ==> (r matches Some(t) && t.0@ == v.name && t.1@ == v.desc
                && t.2 == v.count && t.3 == v.est_cost && t.4 == pos + spec_enc_item_g2(v).len()),
        r matches Some(t) ==> {
            &&& string_encodable(t.0@)
            &&& string_encodable(t.1@)
            &&& pos <= t.4 <= data@.len()
            &&& data@.subrange(pos as int, t.4 as int) == spec_enc_string(t.0@) + (spec_enc_string(
                t.1@,
            ) + (spec_enc_u32(t.2) + spec_enc_u32(t.3)))
        },
{
    proof {
        lemma_dec_item_g2_hyp(data@, pos as int);
    }
    let (name, p1) = match dec_string(data, pos) {
        Some(x) => x,
        None => {
            return None;
        },
    };
    let (desc, p2) = match dec_string(data, p1) {
        Some(x) => x,
        None => {
            return None;
        },
    };
    let (count, p3) = match dec_u32(data, p2) {
        Some(x) => x,
        None => {
            return None;
        },
    };
    let (est_cost, p4) = match dec_u32(data, p3) {
        Some(x) => x,
        None => {
            return None;
        },
    };
    proof {
        lemma_u32_bytes_round(data@.subrange(p2 as int, p3 as int));
        lemma_u32_bytes_round(data@.subrange(p3 as int, p4 as int));
        lemma_concat_join(
            data@,
            p2 as int,
            p3 as int,
            p4 as int,
            spec_enc_u32(count),
            spec_enc_u32(est_cost),
        );
        lemma_concat_join(
            data@,
            p1 as int,
            p2 as int,
            p4 as int,
            spec_enc_string(desc@),
            spec_enc_u32(count) + spec_enc_u32(est_cost),
        );
        lemma_concat_join(
            data@,
            pos as int,
            p1 as int,
            p4 as int,
            spec_enc_string(name@),
            spec_enc_string(desc@) + (spec_enc_u32(count) + spec_enc_u32(est_cost)),
        );
    }
    Some((name, desc, count, est_cost, p4))
}

/// Unfolds the pieces of an encoded third field group in place.
proof fn lemma_dec_item_g3_hyp(data: Seq<u8>, pos: int)
    requires
        pos >= 0,
    ensures
        forall|v: ItemV|
            (item_g3_encodable(v) && (#[trigger] spec_enc_item_g3(v)).len() + pos <= data.len()
                && data.subrange(pos, pos + spec_enc_item_g3(v).len() as int) == spec_enc_item_g3(
                v,
            )) ==> {
                let q1 = pos + spec_enc_string(v.condition).len();
                let q2 = q1 + spec_enc_string(v.color).len();
                &&& data.subrange(pos, q1) == spec_enc_string(v.condition)
                &&& data.subrange(q1, q2) == spec_enc_string(v.color)
                &&& spec_u32_from_be_bytes(data.subrange(q2, q2 + 4)) == v.dimensions[0]
                &&& spec_u32_from_be_bytes(data.subrange(q2 + 4, q2 + 8)) == v.dimensions[1]
                &&& spec_u32_from_be_bytes(data.subrange(q2 + 8, q2 + 12)) == v.dimensions[2]
                &&& q2 + 12 == pos + spec_enc_item_g3(v).len()
            },
{
    assert forall|v: ItemV|
        (item_g3_encodable(v) && (#[trigger] spec_enc_item_g3(v)).len() + pos <= data.len()
            && data.subrange(pos, pos + spec_enc_item_g3(v).len() as int) == spec_enc_item_g3(
            v,
        )) implies {
        let q1 = pos + spec_enc_string(v.condition).len();
        let q2 = q1 + spec_enc_string(v.color).len();
        &&& data.subrange(pos, q1) == spec_enc_string(v.condition)
        &&& data.subrange(q1, q2) == spec_enc_string(v.color)
        &&& spec_u32_from_be_bytes(data.subrange(q2, q2 + 4)) == v.dimensions[0]
        &&& spec_u32_from_be_bytes(data.subrange(q2 + 4, q2 + 8)) == v.dimensions[1]
        &&& spec_u32_from_be_bytes(data.subrange(q2 + 8, q2 + 12)) == v.dimensions[2]
        &&& q2 + 12 == pos + spec_enc_item_g3(v).len()
    } by {
        let q1 = pos + spec_enc_string(v.condition).len();
        let q2 = q1 + spec_enc_string(v.color).len();
        lemma_concat_split(
            data,
            pos,
            spec_enc_string(v.condition),
            spec_enc_string(v.color) + (spec_enc_u32(v.dimensions[0]) + (spec_enc_u32(
                v.dimensions[1],
            ) + spec_enc_u32(v.dimensions[2]))),
        );
        lemma_concat_split(
            data,
            q1,
            spec_enc_string(v.color),
            spec_enc_u32(v.dimensions[0]) + (spec_enc_u32(v.dimensions[1]) + spec_enc_u32(
                v.dimensions[2],
            )),
        );
        lemma_concat_split(
            data,
            q2,
            spec_enc_u32(v.dimensions[0]),
            spec_enc_u32(v.dimensions[1]) + spec_enc_u32(v.dimensions[2]),
        );
        lemma_concat_split(
            data,
            q2 + 4,
            spec_enc_u32(v.dimensions[1]),
            spec_enc_u32(v.dimensions[2]),
        );
        lemma_u32_be_round(v.dimensions[0]);
        lemma_u32_be_round(v.dimensions[1]);
        lemma_u32_be_round(v.dimensions[2]);
    }
}

fn dec_item_g3(data: &Vec<u8>, pos: usize) -> (r: Option<(String, String, u32, u32, u32, usize)>)
    ensures
        forall|v: ItemV|
            (item_g3_encodable(v) && (#[trigger] spec_enc_item_g3(v)).len() + pos <= data@.len()
                && data@.subrange(pos as int, pos as int + spec_enc_item_g3(v).len() as int)
                == spec_enc_item_g3(v)) ==> (r matches Some(t) && t.0@ == v.condition && t.1@
                == v.color && t.2 == v.dimensions[0] && t.3 == v.dimensions[1] && t.4
                == v.dimensions[2] && t.5 == pos + spec_enc_item_g3(v).len()),
        r matches Some(t) ==> {
            &&& string_encodable(t.0@)
            &&& string_encodable(t.1@)
            &&& pos <= t.5 <= data@.len()
            &&& data@.subrange(pos as int, t.5 as int) == spec_enc_string(t.0@) + (spec_enc_string(
                t.1@,
            ) + (spec_enc_u32(t.2) + (spec_enc_u32(t.3) + spec_enc_u32(t.4))))
        },
{
    proof {
        lemma_dec_item_g3_hyp(data@, pos as int);
    }
    let (condition, p1) = match dec_string(data, pos) {
        Some(x) => x,
        None => {
            return None;
        },
    };
    let (color, p2) = match dec_string(data, p1) {
        Some(x) => x,
        None => {
            return None;
        },
    };
    let (d0, p3) = match dec_u32(data, p2) {
        Some(x) => x,
        None => {
            return None;
        },
    };
    let (d1, p4) = match dec_u32(data, p3) {
        Some(x) => x,
        None => {
            return None;
        },
    };
    let (d2, p5) = match dec_u32(data, p4) {
        Some(x) => x,
        None => {
            return None;
        },
    };
    proof {
        lemma_u32_bytes_round(data@.subrange(p2 as int, p3 as int));
        lemma_u32_bytes_round(data@.subrange(p3 as int, p4 as int));
        lemma_u32_bytes_round(data@.subrange(p4 as int, p5 as int));
        lemma_concat_join(
            data@,
            p3 as int,
            p4 as int,
            p5 as int,
            spec_enc_u32(d1),
            spec_enc_u32(d2),
        );
        lemma_concat_join(
            data@,
            p2 as int,
            p3 as int,
            p5 as int,
            spec_enc_u32(d0),
            spec_enc_u32(d1) + spec_enc_u32(d2),
        );
        lemma_concat_join(
            data@,
            p1 as int,
            p2 as int,
            p5 as int,
            spec_enc_string(color@),
            spec_enc_u32(d0) + (spec_enc_u32(d1) + spec_enc_u32(d2)),
        );
        lemma_concat_join(
            data@,
            pos as int,
            p1 as int,
            p5 as int,
            spec_enc_string(condition@),
            spec_enc_string(color@) + (spec_enc_u32(d0) + (spec_enc_u32(d1) + spec_enc_u32(d2))),
        );
    }
    Some((condition, color, d0, d1, d2, p5))
}

/// Unfolds the pieces of an encoded fourth field group in place.
proof fn lemma_dec_item_g4_hyp(data: Seq<u8>, pos: int)
    requires
        pos >= 0,
    ensures
        forall|v: ItemV|
            (item_g4_encodable(v) && (#[trigger] spec_enc_item_g4(v)).len() + pos <= data.len()
                && data.subrange(pos, pos + spec_enc_item_g4(v).len() as int) == spec_enc_item_g4(
                v,
            )) ==> {
                let q1 = pos + 8;
                let q2 = q1 + 16;
                &&& spec_u32_from_be_bytes(data.subrange(pos, pos + 4)) == v.weight
                &&& spec_u32_from_be_bytes(data.subrange(pos + 4, q1)) == v.shipping_weight
                &&& spec_u64_from_be_bytes(data.subrange(q1, q1 + 8)) == v.model_no
                &&& spec_u64_from_be_bytes(data.subrange(q1 + 8, q2)) == v.serial_no
                &&& data.subrange(q2, q2 + spec_enc_string(v.brand).len() as int)
                    == spec_enc_string(v.brand)
                &&& q2 + spec_enc_string(v.brand).len() == pos + spec_enc_item_g4(v).len()
            },
{
    assert forall|v: ItemV|
        (item_g4_encodable(v) && (#[trigger] spec_enc_item_g4(v)).len() + pos <= data.len()
            && data.subrange(pos, pos + spec_enc_item_g4(v).len() as int) == spec_enc_item_g4(
            v,
        )) implies {
        let q1 = pos + 8;
        let q2 = q1 + 16;
        &&& spec_u32_from_be_bytes(data.subrange(pos, pos + 4)) == v.weight
        &&& spec_u32_from_be_bytes(data.subrange(pos + 4, q1)) == v.shipping_weight
        &&& spec_u64_from_be_bytes(data.subrange(q1, q1 + 8)) == v.model_no
        &&& spec_u64_from_be_bytes(data.subrange(q1 + 8, q2)) == v.serial_no
        &&& data.subrange(q2, q2 + spec_enc_string(v.brand).len() as int) == spec_enc_string(
            v.brand,
        )
        &&& q2 + spec_enc_string(v.brand).len() == pos + spec_enc_item_g4(v).len()
    } by {
        lemma_concat_split(
            data,
            pos,
            spec_enc_u32(v.weight),
            spec_enc_u32(v.shipping_weight) + (spec_enc_u64(v.model_no) + (spec_enc_u64(
                v.serial_no,
            ) + spec_enc_string(v.brand))),
        );
        lemma_concat_split(
            data,
            pos + 4,
            spec_enc_u32(v.shipping_weight),
            spec_enc_u64(v.model_no) + (spec_enc_u64(v.serial_no) + spec_enc_string(v.brand)),
        );
        lemma_concat_split(
            data,
            pos + 8,
            spec_enc_u64(v.model_no),
            spec_enc_u64(v.serial_no) + spec_enc_string(v.brand),
        );
        lemma_concat_split(data, pos + 16, spec_enc_u64(v.serial_no), spec_enc_string(v.brand));
        lemma_u32_be_round(v.weight);
        lemma_u32_be_round(v.shipping_weight);
        lemma_u64_be_round(v.model_no);
        lemma_u64_be_round(v.serial_no);
    }
}

fn dec_item_g4(data: &Vec<u8>, pos: usize) -> (r: Option<(u32, u32, u64, u64, String, usize)>)
    ensures
        forall|v: ItemV|
            (item_g4_encodable(v) && (#[trigger] spec_enc_item_g4(v)).len() + pos <= data@.len()
                && data@.subrange(pos as int, pos as int + spec_enc_item_g4(v).len() as int)
                == spec_enc_item_g4(v)) ==> (r matches Some(t) && t.0 == v.weight && t.1
                == v.shipping_weight && t.2 == v.model_no && t.3 == v.serial_no && t.4@ == v.brand
                && t.5 == pos + spec_enc_item_g4(v).len()),
        r matches Some(t) ==> {
            &&& string_encodable(t.4@)
            &&& pos <= t.5 <= data@.len()
            &&& data@.subrange(pos as int, t.5 as int) == spec_enc_u32(t.0) + (spec_enc_u32(t.1) + (
            spec_enc_u64(t.2) + (spec_enc_u64(t.3) + spec_enc_string(t.4@))))
        },
{
    proof {
        lemma_dec_item_g4_hyp(data@, pos as int);
    }
    let (weight, p1) = match dec_u32(data, pos) {
        Some(x) => x,
        None => {
            return None;
        },
    };
    let (shipping_weight, p2) = match dec_u32(data, p1) {
        Some(x) => x,
        None => {
            return None;
        },
    };
    let (model_no, p3) = match dec_u64(data, p2) {
        Some(x) => x,
        None => {
            return None;
        },
    };
    let (serial_no, p4) = match dec_u64(data, p3) {
        Some(x) => x,
        None => {
            return None;
        },
    };
    let (brand, p5) = match dec_string(data, p4) {
        Some(x) => x,
        None => {
            return None;
        },
    };
    proof {
        lemma_u32_bytes_round(data@.subrange(pos as int, p1 as int));
        lemma_u32_bytes_round(data@.subrange(p1 as int, p2 as int));
        lemma_u64_bytes_round(data@.subrange(p2 as int, p3 as int));
        lemma_u64_bytes_round(data@.subrange(p3 as int, p4 as int));
        lemma_concat_join(
            data@,
            p3 as int,
            p4 as int,
            p5 as int,
            spec_enc_u64(serial_no),
            spec_enc_string(brand@),
        );
        lemma_concat_join(
            data@,
            p2 as int,
            p3 as int,
            p5 as int,
            spec_enc_u64(model_no),
            spec_enc_u64(serial_no) + spec_enc_string(brand@),
        );
        lemma_concat_join(
            data@,
            p1 as int,
            p2 as int,
            p5 as int,
            spec_enc_u32(shipping_weight),
            spec_enc_u64(model_no) + (spec_enc_u64(serial_no) + spec_enc_string(brand@)),
        );
        lemma_concat_join(
            data@,
            pos as int,
            p1 as int,
            p5 as int,
            spec_enc_u32(weight),
            spec_enc_u32(shipping_weight) + (spec_enc_u64(model_no) + (spec_enc_u64(serial_no)
                + spec_enc_string(brand@))),
        );
    }
    Some((weight, shipping_weight, model_no, serial_no, brand, p5))
}

/// Reads a whole item at `pos`; what it accepts is exactly the encoding of
/// the item it returns.
pub fn dec_item(data: &Vec<u8>, pos: usize) -> (r: Option<(Item, usize)>)
    ensures
        r matches Some(t) ==> item_encodable(t.0@) && pos + spec_enc_item(t.0@).len() == t.1 && t.1
            <= data@.len() && data@.subrange(pos as int, t.1 as int) == spec_enc_item(t.0@),
        forall|v: ItemV|
            (item_encodable(v) && (#[trigger] spec_enc_item(v)).len() + pos <= data@.len()
                && data@.subrange(pos as int, pos as int + spec_enc_item(v).len() as int)
                == spec_enc_item(v)) ==> (r matches Some(t) && t.0@ == v && t.1 == pos
                + spec_enc_item(v).len()),
{
    proof {
        lemma_dec_item_hyp(data@, pos as int);
    }
    let g1 = match dec_item_g1(data, pos) {
        Some(x) => x,
        None => {
            return None;
        },
    };
    let g2 = match dec_item_g2(data, g1.4) {
        Some(x) => x,
        None => {
            return None;
        },
    };
    let g3 = match dec_item_g3(data, g2.4) {
        Some(x) => x,
        None => {
            return None;
        },
    };
    let g4 = match dec_item_g4(data, g3.5) {
        Some(x) => x,
        None => {
            return None;
        },
    };
    let (created, location, listings, picture, _) = g1;
    let (name, desc, count, est_cost, _) = g2;
    let (condition, color, d0, d1, d2, _) = g3;
    let (weight, shipping_weight, model_no, serial_no, brand, p) = g4;
    let item = Item {
        creation_date: created,
        location,
        listings,
        picture,
        name,
        desc,
        count,
        est_cost: Usd(est_cost),
        condition,
        color,
        dimensions: [d0, d1, d2],
        weight,
        shipping_weight,
        model_no,
        serial_no,
        brand,
    };
    let r = Some((item, p));
    proof {
        assert(item@.picture == spec_opt_pic_view(picture));
        assert(item@.dimensions =~= seq![d0, d1, d2]);
        assert(data@.subrange(pos as int, g1.4 as int) == spec_enc_item_g1(item@));
        assert(data@.subrange(g1.4 as int, g2.4 as int) == spec_enc_item_g2(item@));
        assert(data@.subrange(g2.4 as int, g3.5 as int) == spec_enc_item_g3(item@));
        assert(data@.subrange(g3.5 as int, p as int) == spec_enc_item_g4(item@));
        lemma_concat_join(
            data@,
            g2.4 as int,
            g3.5 as int,
            p as int,
            spec_enc_item_g3(item@),
            spec_enc_item_g4(item@),
        );
        lemma_concat_join(
            data@,
            g1.4 as int,
            g2.4 as int,
            p as int,
            spec_enc_item_g2(item@),
            spec_enc_item_g3(item@) + spec_enc_item_g4(item@),
        );
        lemma_concat_join(
            data@,
            pos as int,
            g1.4 as int,
            p as int,
            spec_enc_item_g1(item@),
            spec_enc_item_g2(item@) + (spec_enc_item_g3(item@) + spec_enc_item_g4(item@)),
        );
        reveal(spec_enc_item);
        assert forall|v: ItemV|
            (item_encodable(v) && (#[trigger] spec_enc_item(v)).len() + pos <= data@.len()
                && data@.subrange(pos as int, pos as int + spec_enc_item(v).len() as int)
                == spec_enc_item(v)) implies (r matches Some(t) && t.0@ == v && t.1 == pos
            + spec_enc_item(v).len()) by {
            assert(item@.dimensions =~= v.dimensions);
            assert(item@ =~= v);
        }
    }
    r
}

/// Encodes a whole item as a fresh payload blob.
pub fn encode_item(item: &Item) -> (r: Option<Vec<u8>>)
    ensures
        match r {
            Some(b) => item_encodable(item@) && b@ == spec_enc_item(item@),
            None => !item_encodable(item@),
        },
{
    let mut out: Vec<u8> = Vec::new();
    if !enc_item(&mut out, item) {
        return None;
    }
    proof {
        assert(out@ =~= spec_enc_item(item@));
    }
    Some(out)
}

/// Decodes a payload blob that holds exactly one item.
///
/// Decoding what [`encode_item`] produced yields an item whose every field
/// reads back equal: the round trip is lossless.
pub fn decode_item(data: &Vec<u8>) -> (r: Option<Item>)
    ensures
        r matches Some(item) ==> item_encodable(item@) && data@ == spec_enc_item(item@),
        forall|v: ItemV|
            (item_encodable(v) && data@ == #[trigger] spec_enc_item(v)) ==> (r matches Some(item)
                && item@ == v),
{
    let (item, p) = match dec_item(data, 0) {
        Some(x) => x,
        None => {
            proof {
                assert forall|v: ItemV|
                    (item_encodable(v) && data@ == #[trigger] spec_enc_item(v)) implies false by {
                    assert(data@.subrange(0, spec_enc_item(v).len() as int) =~= data@);
                }
            }
            return None;
        },
    };
    if p != data.len() {
        proof {
            assert forall|v: ItemV|
                (item_encodable(v) && data@ == #[trigger] spec_enc_item(v)) implies false by {
                assert(data@.subrange(0, spec_enc_item(v).len() as int) =~= data@);
            }
        }
        return None;
    }
    let r = Some(item);
    proof {
        assert(data@.subrange(0, p as int) =~= data@);
        assert forall|v: ItemV|
            (item_encodable(v) && data@ == #[trigger] spec_enc_item(v)) implies (r matches Some(
                item,
            ) && item@ == v) by {
            assert(data@.subrange(0, spec_enc_item(v).len() as int) =~= data@);
        }
    }
    r
}

/// A platform-name list every entry of which fits its length prefix.
pub open spec fn names_encodable(s: Seq<Seq<char>>) -> bool {
    forall|i: int| 0 <= i < s.len() ==> string_encodable(#[trigger] s[i])
}

/// A platform-name list, each name in order.
pub open spec fn spec_enc_names(s: Seq<Seq<char>>) -> Seq<u8>
    decreases s.len(),
{
    if s.len() == 0 {
        Seq::empty()
    } else {
        spec_enc_string(s[0]) + spec_enc_names(s.drop_first())
    }
}

/// An item-entry list every item of which can be framed.
pub open spec fn entries_encodable(s: Seq<(Id, ItemV)>) -> bool {
    forall|i: int| 0 <= i < s.len() ==> item_encodable((#[trigger] s[i]).1)
}

/// One item entry: the identifier, then the item.
pub open spec fn spec_enc_entry(e: (Id, ItemV)) -> Seq<u8> {
    spec_enc_u32(e.0.0) + spec_enc_item(e.1)
}

/// An item-entry list: each entry in order.
pub open spec fn spec_enc_entries(s: Seq<(Id, ItemV)>) -> Seq<u8>
    decreases s.len(),
{
    if s.len() == 0 {
        Seq::empty()
    } else {
        spec_enc_entry(s[0]) + spec_enc_entries(s.drop_first())
    }
}

/// An inventory whose lists and items all fit their length prefixes.
pub open spec fn inv_encodable(v: InvV) -> bool {
    &&& v.platform_names.len() <= u32::MAX
    &&& names_encodable(v.platform_names)
    &&& v.items.len() <= u32::MAX
    &&& entries_encodable(v.items)
}

/// A whole inventory: the counted platform names, then the counted item
/// entries.
pub open spec fn spec_enc_inv(v: InvV) -> Seq<u8> {
    spec_enc_u32(v.platform_names.len() as u32) + (spec_enc_names(v.platform_names) + (
    spec_enc_u32(v.items.len() as u32) + spec_enc_entries(v.items)))
}

/// Appends the platform names from index `i` on.
fn enc_names_from(out: &mut Vec<u8>, names: &Vec<String>, i: usize) -> (ok: bool)
    requires
        i <= names@.len(),
    ensures
        ok ==> final(out)@ == old(out)@ + spec_enc_names(names.deep_view().skip(i as int))
            && names_encodable(names.deep_view().skip(i as int)),
        !ok ==> !names_encodable(names.deep_view().skip(i as int)),
    decreases names@.len() - i,
{
    if i == names.len() {
        proof {
            assert(names.deep_view().skip(i as int) =~= Seq::<Seq<char>>::empty());
            assert(out@ =~= out@ + spec_enc_names(names.deep_view().skip(i as int)));
        }
        return true;
    }
    let ghost tail = names.deep_view().skip(i as int);
    proof {
        assert(tail[0] == names@[i as int]@);
        assert(tail.drop_first() =~= names.deep_view().skip(i as int + 1));
    }
    if !enc_string(out, names[i].as_str()) {
        return false;
    }
    if !enc_names_from(out, names, i + 1) {
        proof {
            assert(!names_encodable(tail.drop_first()));
            let k = choose|k: int|
                0 <= k < tail.drop_first().len() && !string_encodable(
                    #[trigger] tail.drop_first()[k],
                );
            assert(tail[k + 1] == tail.drop_first()[k]);
        }
        return false;
    }
    proof {
        lemma_seq_assoc(
            old(out)@,
            spec_enc_string(names@[i as int]@),
            spec_enc_names(tail.drop_first()),
        );
        assert forall|k: int| 0 <= k < tail.len() implies string_encodable(
            #[trigger] tail[k],
        ) by {
            if k > 0 {
                assert(tail[k] == tail.drop_first()[k - 1]);
            }
        }
    }
    true
}

/// Appends the item entries from index `i` on.
fn enc_entries_from(out: &mut Vec<u8>, items: &ItemMap, i: usize) -> (ok: bool)
    requires
        i <= items.seq_view().len(),
    ensures
        ok ==> final(out)@ == old(out)@ + spec_enc_entries(items.seq_view().skip(i as int))
            && entries_encodable(items.seq_view().skip(i as int)),
        !ok ==> !entries_encodable(items.seq_view().skip(i as int)),
    decreases items.seq_view().len() - i,
{
    if i == items.len() {
        proof {
            assert(items.seq_view().skip(i as int) =~= Seq::<(Id, ItemV)>::empty());
            assert(out@ =~= out@ + spec_enc_entries(items.seq_view().skip(i as int)));
        }
        return true;
    }
    let ghost tail = items.seq_view().skip(i as int);
    proof {
        assert(tail[0] == items.seq_view()[i as int]);
        assert(tail.drop_first() =~= items.seq_view().skip(i as int + 1));
    }
    let (id, item) = items.entry_at(i);
    let ghost mid = out@;
    enc_u32(out, id.0);
    if !enc_item(out, item) {
        return false;
    }
    proof {
        lemma_seq_assoc(mid, spec_enc_u32(id.0), spec_enc_item(items.seq_view()[i as int].1));
        assert(out@ == mid + spec_enc_entry(tail[0]));
    }
    if !enc_entries_from(out, items, i + 1) {
        proof {
            assert(!entries_encodable(tail.drop_first()));
            let k = choose|k: int|
                0 <= k < tail.drop_first().len() && !item_encodable(
                    (#[trigger] tail.drop_first()[k]).1,
                );
            assert(tail[k + 1] == tail.drop_first()[k]);
        }
        return false;
    }
    proof {
        lemma_seq_assoc(mid, spec_enc_entry(tail[0]), spec_enc_entries(tail.drop_first()));
        assert forall|k: int| 0 <= k < tail.len() implies item_encodable(
            (#[trigger] tail[k]).1,
        ) by {
            if k > 0 {
                assert(tail[k] == tail.drop_first()[k - 1]);
            }
        }
    }
    true
}

/// Encodes a whole inventory as a fresh payload blob.
pub fn encode_inv(inv: &Inv) -> (r: Option<Vec<u8>>)
    ensures
        match r {
            Some(b) => inv_encodable(inv@) && b@ == spec_enc_inv(inv@) && keys_unique(inv@.items),
            None => !inv_encodable(inv@),
        },
{
    let mut out: Vec<u8> = Vec::new();
    if inv.platform_names.len() as u64 > u32::MAX as u64 {
        return None;
    }
    enc_u32(&mut out, inv.platform_names.len() as u32);
    let ghost e1 = spec_enc_u32(inv@.platform_names.len() as u32);
    proof {
        assert(inv.platform_names.deep_view().skip(0) =~= inv@.platform_names);
    }
    if !enc_names_from(&mut out, &inv.platform_names, 0) {
        return None;
    }
    let n = inv.items.len();
    if n as u64 > u32::MAX as u64 {
        return None;
    }
    let ghost mid = out@;
    enc_u32(&mut out, n as u32);
    proof {
        assert(inv.items.seq_view().skip(0) =~= inv@.items);
    }
    if !enc_entries_from(&mut out, &inv.items, 0) {
        return None;
    }
    proof {
        use_type_invariant(&inv.items);
        lemma_seq_assoc(
            mid,
            spec_enc_u32(inv@.items.len() as u32),
            spec_enc_entries(inv@.items),
        );
        lemma_seq_assoc(
            e1,
            spec_enc_names(inv@.platform_names),
            spec_enc_u32(inv@.items.len() as u32) + spec_enc_entries(inv@.items),
        );
        assert(out@ =~= spec_enc_inv(inv@));
    }
    Some(out)
}

/// Reads `n` platform names at `pos`; what it accepts is exactly the
/// encoding of the names it returns.
fn dec_names(data: &Vec<u8>, pos: usize, n: u32) -> (r: Option<(Vec<String>, usize)>)
    ensures
        r matches Some(v) ==> v.0@.len() == n && names_encodable(v.0.deep_view()) && pos
            + spec_enc_names(v.0.deep_view()).len() == v.1 && v.1 <= data@.len() && data@.subrange(
            pos as int,
            v.1 as int,
        ) == spec_enc_names(v.0.deep_view()),
        forall|s: Seq<Seq<char>>|
            (s.len() == n && names_encodable(s) && (#[trigger] spec_enc_names(s)).len() + pos
                <= data@.len() && data@.subrange(
                pos as int,
                pos as int + spec_enc_names(s).len() as int,
            ) == spec_enc_names(s)) ==> (r matches Some(v) && v.0.deep_view() == s && v.1 == pos
                + spec_enc_names(s).len()),
    decreases n,
{
    if n == 0 {
        if pos > data.len() {
            return None;
        }
        let v0: Vec<String> = Vec::new();
        proof {
            assert(v0.deep_view() =~= Seq::<Seq<char>>::empty());
            assert(data@.subrange(pos as int, pos as int) =~= Seq::<u8>::empty());
            assert forall|s: Seq<Seq<char>>| s.len() == 0 implies s =~= Seq::<
                Seq<char>,
            >::empty() by {}
        }
        return Some((v0, pos));
    }
    let (head, p) = match dec_string(data, pos) {
        Some(x) => x,
        None => {
            proof {
                lemma_dec_names_hyp(data@, pos as int, n as int);
            }
            return None;
        },
    };
    let (rest0, p2) = match dec_names(data, p, n - 1) {
        Some(x) => x,
        None => {
            proof {
                lemma_dec_names_hyp(data@, pos as int, n as int);
            }
            return None;
        },
    };
    let ghost rv = rest0.deep_view();
    let mut rest = rest0;
    rest.insert(0, head);
    let r = Some((rest, p2));
    proof {
        assert(rest.deep_view() =~= seq![head@] + rv);
        assert(rest.deep_view()[0] == head@);
        assert(rest.deep_view().drop_first() =~= rv);
        lemma_concat_join(
            data@,
            pos as int,
            p as int,
            p2 as int,
            spec_enc_string(head@),
            spec_enc_names(rv),
        );
        assert forall|k: int| 0 <= k < rest.deep_view().len() implies string_encodable(
            #[trigger] rest.deep_view()[k],
        ) by {
            if k > 0 {
                assert(rest.deep_view()[k] == rv[k - 1]);
            }
        }
        lemma_dec_names_hyp(data@, pos as int, n as int);
        assert forall|s: Seq<Seq<char>>|
            (s.len() == n && names_encodable(s) && (#[trigger] spec_enc_names(s)).len() + pos
                <= data@.len() && data@.subrange(
                pos as int,
                pos as int + spec_enc_names(s).len() as int,
            ) == spec_enc_names(s)) implies (r matches Some(v) && v.0.deep_view() == s && v.1 == pos
            + spec_enc_names(s).len()) by {
            assert(rv == s.drop_first());
            assert(seq![s[0]] + s.drop_first() =~= s);
        }
    }
    r
}

/// Unfolds a non-empty encoded name list in place: the first name, then the
/// rest.
proof fn lemma_dec_names_hyp(data: Seq<u8>, pos: int, n: int)
    requires
        pos >= 0,
        n >= 1,
    ensures
        forall|s: Seq<Seq<char>>|
            (s.len() == n && names_encodable(s) && (#[trigger] spec_enc_names(s)).len() + pos
                <= data.len() && data.subrange(pos, pos + spec_enc_names(s).len() as int)
                == spec_enc_names(s)) ==> {
                let q1 = pos + spec_enc_string(s[0]).len();
                &&& string_encodable(s[0])
                &&& data.subrange(pos, q1) == spec_enc_string(s[0])
                &&& names_encodable(s.drop_first())
                &&& s.drop_first().len() == n - 1
                &&& data.subrange(q1, q1 + spec_enc_names(s.drop_first()).len() as int)
                    == spec_enc_names(s.drop_first())
                &&& q1 + spec_enc_names(s.drop_first()).len() == pos + spec_enc_names(s).len()
            },
{
    assert forall|s: Seq<Seq<char>>|
        (s.len() == n && names_encodable(s) && (#[trigger] spec_enc_names(s)).len() + pos
            <= data.len() && data.subrange(pos, pos + spec_enc_names(s).len() as int)
            == spec_enc_names(s)) implies {
        let q1 = pos + spec_enc_string(s[0]).len();
        &&& string_encodable(s[0])
        &&& data.subrange(pos, q1) == spec_enc_string(s[0])
        &&& names_encodable(s.drop_first())
        &&& s.drop_first().len() == n - 1
        &&& data.subrange(q1, q1 + spec_enc_names(s.drop_first()).len() as int) == spec_enc_names(
            s.drop_first(),
        )
        &&& q1 + spec_enc_names(s.drop_first()).len() == pos + spec_enc_names(s).len()
    } by {
        lemma_concat_split(data, pos, spec_enc_string(s[0]), spec_enc_names(s.drop_first()));
        assert forall|k: int| 0 <= k < s.drop_first().len() implies string_encodable(
            #[trigger] s.drop_first()[k],
        ) by {
            assert(s.drop_first()[k] == s[k + 1]);
        }
    }
}

/// Reads one item entry at `pos`; what it accepts is exactly the encoding of
/// the entry it returns.
fn dec_entry(data: &Vec<u8>, pos: usize) -> (r: Option<((Id, Item), usize)>)
    ensures
        r matches Some(v) ==> item_encodable(v.0.1@) && pos + spec_enc_entry(
            (v.0.0, v.0.1@),
        ).len() == v.1 && v.1 <= data@.len() && data@.subrange(pos as int, v.1 as int)
            == spec_enc_entry((v.0.0, v.0.1@)),
        forall|e: (Id, ItemV)|
            (item_encodable(e.1) && (#[trigger] spec_enc_entry(e)).len() + pos <= data@.len()
                && data@.subrange(pos as int, pos as int + spec_enc_entry(e).len() as int)
                == spec_enc_entry(e)) ==> (r matches Some(v) && v.0.0 == e.0 && v.0.1@ == e.1
                && v.1 == pos + spec_enc_entry(e).len()),
{
    proof {
        lemma_dec_entry_hyp(data@, pos as int);
    }
    let (rid, p) = match dec_u32(data, pos) {
        Some(x) => x,
        None => {
            return None;
        },
    };
    let (item, p) = match dec_item(data, p) {
        Some(x) => x,
        None => {
            return None;
        },
    };
    let r = Some(((Id(rid), item), p));
    proof {
        lemma_u32_bytes_round(data@.subrange(pos as int, pos as int + 4));
        lemma_concat_join(
            data@,
            pos as int,
            pos as int + 4,
            p as int,
            spec_enc_u32(rid),
            spec_enc_item(item@),
        );
        assert forall|e: (Id, ItemV)|
            (item_encodable(e.1) && (#[trigger] spec_enc_entry(e)).len() + pos <= data@.len()
                && data@.subrange(pos as int, pos as int + spec_enc_entry(e).len() as int)
                == spec_enc_entry(e)) implies (r matches Some(v) && v.0.0 == e.0 && v.0.1@ == e.1
            && v.1 == pos + spec_enc_entry(e).len()) by {
            assert(Id(e.0.0) == e.0);
        }
    }
    r
}

/// Unfolds one encoded entry in place: the identifier bytes, then the item.
proof fn lemma_dec_entry_hyp(data: Seq<u8>, pos: int)
    requires
        pos >= 0,
    ensures
        forall|e: (Id, ItemV)|
            (item_encodable(e.1) && (#[trigger] spec_enc_entry(e)).len() + pos <= data.len()
                && data.subrange(pos, pos + spec_enc_entry(e).len() as int) == spec_enc_entry(e))
                ==> {
                let q1 = pos + 4;
                let q2 = q1 + spec_enc_item(e.1).len();
                &&& data.subrange(pos, q1) == spec_enc_u32(e.0.0)
                &&& spec_u32_from_be_bytes(data.subrange(pos, q1)) == e.0.0
                &&& data.subrange(q1, q2) == spec_enc_item(e.1)
                &&& q2 == pos + spec_enc_entry(e).len()
            },
{
    assert forall|e: (Id, ItemV)|
        (item_encodable(e.1) && (#[trigger] spec_enc_entry(e)).len() + pos <= data.len()
            && data.subrange(pos, pos + spec_enc_entry(e).len() as int) == spec_enc_entry(
            e,
        )) implies {
        let q1 = pos + 4;
        let q2 = q1 + spec_enc_item(e.1).len();
        &&& data.subrange(pos, q1) == spec_enc_u32(e.0.0)
        &&& spec_u32_from_be_bytes(data.subrange(pos, q1)) == e.0.0
        &&& data.subrange(q1, q2) == spec_enc_item(e.1)
        &&& q2 == pos + spec_enc_entry(e).len()
    } by {
        lemma_concat_split(data, pos, spec_enc_u32(e.0.0), spec_enc_item(e.1));
        lemma_u32_be_round(e.0.0);
    }
}

/// Reads `n` item entries at `pos`; what it accepts is exactly the encoding
/// of the entries it returns.
fn dec_entries(data: &Vec<u8>, pos: usize, n: u32) -> (r: Option<(Vec<(Id, Item)>, usize)>)
    ensures
        r matches Some(v) ==> v.0@.len() == n && entries_encodable(entries_seq_view(v.0@)) && pos
            + spec_enc_entries(entries_seq_view(v.0@)).len() == v.1 && v.1 <= data@.len()
            && data@.subrange(pos as int, v.1 as int) == spec_enc_entries(entries_seq_view(v.0@)),
        forall|s: Seq<(Id, ItemV)>|
            (s.len() == n && entries_encodable(s) && (#[trigger] spec_enc_entries(s)).len() + pos
                <= data@.len() && data@.subrange(
                pos as int,
                pos as int + spec_enc_entries(s).len() as int,
            ) == spec_enc_entries(s)) ==> (r matches Some(v) && entries_seq_view(v.0@) == s && v.1
                == pos + spec_enc_entries(s).len()),
    decreases n,
{
    if n == 0 {
        if pos > data.len() {
            return None;
        }
        let v0: Vec<(Id, Item)> = Vec::new();
        proof {
            assert(entries_seq_view(v0@) =~= Seq::<(Id, ItemV)>::empty());
            assert(data@.subrange(pos as int, pos as int) =~= Seq::<u8>::empty());
            assert forall|s: Seq<(Id, ItemV)>| s.len() == 0 implies s =~= Seq::<
                (Id, ItemV),
            >::empty() by {}
        }
        return Some((v0, pos));
    }
    let (head, p) = match dec_entry(data, pos) {
        Some(x) => x,
        None => {
            proof {
                lemma_dec_entries_hyp(data@, pos as int, n as int);
            }
            return None;
        },
    };
    let (rest0, p2) = match dec_entries(data, p, n - 1) {
        Some(x) => x,
        None => {
            proof {
                lemma_dec_entries_hyp(data@, pos as int, n as int);
            }
            return None;
        },
    };
    let ghost rv = entries_seq_view(rest0@);
    let ghost headv = (head.0, head.1@);
    let mut rest = rest0;
    rest.insert(0, head);
    let r = Some((rest, p2));
    proof {
        assert(entries_seq_view(rest@) =~= seq![headv] + rv);
        assert(entries_seq_view(rest@)[0] == headv);
        assert(entries_seq_view(rest@).drop_first() =~= rv);
        lemma_concat_join(
            data@,
            pos as int,
            p as int,
            p2 as int,
            spec_enc_entry(headv),
            spec_enc_entries(rv),
        );
        assert forall|k: int| 0 <= k < entries_seq_view(rest@).len() implies item_encodable(
            (#[trigger] entries_seq_view(rest@)[k]).1,
        ) by {
            if k > 0 {
                assert(entries_seq_view(rest@)[k] == rv[k - 1]);
            }
        }
        lemma_dec_entries_hyp(data@, pos as int, n as int);
        assert forall|s: Seq<(Id, ItemV)>|
            (s.len() == n && entries_encodable(s) && (#[trigger] spec_enc_entries(s)).len() + pos
                <= data@.len() && data@.subrange(
                pos as int,
                pos as int + spec_enc_entries(s).len() as int,
            ) == spec_enc_entries(s)) implies (r matches Some(v) && entries_seq_view(v.0@) == s
            && v.1 == pos + spec_enc_entries(s).len()) by {
            assert(rv == s.drop_first());
            assert(headv == s[0]);
            assert(seq![s[0]] + s.drop_first() =~= s);
        }
    }
    r
}

/// Unfolds a non-empty encoded entry list in place: the first entry, then
/// the rest.
proof fn lemma_dec_entries_hyp(data: Seq<u8>, pos: int, n: int)
    requires
        pos >= 0,
        n >= 1,
    ensures
        forall|s: Seq<(Id, ItemV)>|
            (s.len() == n && entries_encodable(s) && (#[trigger] spec_enc_entries(s)).len() + pos
                <= data.len() && data.subrange(pos, pos + spec_enc_entries(s).len() as int)
                == spec_enc_entries(s)) ==> {
                let q1 = pos + spec_enc_entry(s[0]).len();
                &&& item_encodable(s[0].1)
                &&& data.subrange(pos, q1) == spec_enc_entry(s[0])
                &&& entries_encodable(s.drop_first())
                &&& s.drop_first().len() == n - 1
                &&& data.subrange(q1, q1 + spec_enc_entries(s.drop_first()).len() as int)
                    == spec_enc_entries(s.drop_first())
                &&& q1 + spec_enc_entries(s.drop_first()).len() == pos + spec_enc_entries(s).len()
            },
{
    assert forall|s: Seq<(Id, ItemV)>|
        (s.len() == n && entries_encodable(s) && (#[trigger] spec_enc_entries(s)).len() + pos
            <= data.len() && data.subrange(pos, pos + spec_enc_entries(s).len() as int)
            == spec_enc_entries(s)) implies {
        let q1 = pos + spec_enc_entry(s[0]).len();
        &&& item_encodable(s[0].1)
        &&& data.subrange(pos, q1) == spec_enc_entry(s[0])
        &&& entries_encodable(s.drop_first())
        &&& s.drop_first().len() == n - 1
        &&& data.subrange(q1, q1 + spec_enc_entries(s.drop_first()).len() as int)
            == spec_enc_entries(s.drop_first())
        &&& q1 + spec_enc_entries(s.drop_first()).len() == pos + spec_enc_entries(s).len()
    } by {
        lemma_concat_split(data, pos, spec_enc_entry(s[0]), spec_enc_entries(s.drop_first()));
        assert forall|k: int| 0 <= k < s.drop_first().len() implies item_encodable(
            (#[trigger] s.drop_first()[k]).1,
        ) by {
            assert(s.drop_first()[k] == s[k + 1]);
        }
    }
}

/// Decodes a payload blob that holds exactly one inventory. Entry lists that
/// repeat an identifier are rejected.
///
/// Decoding what [`encode_inv`] produced yields an inventory with the same
/// platform names and the same item entries: serializing and deserializing an
/// inventory reproduces its identifier-to-item mapping and its name list.
pub fn decode_inv(data: &Vec<u8>) -> (r: Option<Inv>)
    ensures
        r matches Some(inv2) ==> inv_encodable(inv2@) && keys_unique(inv2@.items) && data@
            == spec_enc_inv(inv2@),
        forall|v: InvV|
            (inv_encodable(v) && keys_unique(v.items) && data@ == #[trigger] spec_enc_inv(v)) ==> (
            r matches Some(inv2) && inv2@.platform_names == v.platform_names && inv2@.items
                == v.items),
{
    proof {
        lemma_decode_inv_hyp(data@);
    }
    let (n_names, q1) = match dec_u32(data, 0) {
        Some(x) => x,
        None => {
            return None;
        },
    };
    let (names, q2) = match dec_names(data, q1, n_names) {
        Some(x) => x,
        None => {
            return None;
        },
    };
    let (n_items, q3) = match dec_u32(data, q2) {
        Some(x) => x,
        None => {
            return None;
        },
    };
    let (entries, q4) = match dec_entries(data, q3, n_items) {
        Some(x) => x,
        None => {
            return None;
        },
    };
    if q4 != data.len() {
        return None;
    }
    let items = match ItemMap::from_entries(entries) {
        Some(m) => m,
        None => {
            return None;
        },
    };
    let inv = Inv { platform_names: names, items };
    let r = Some(inv);
    proof {
        assert(inv@.platform_names =~= names.deep_view());
        assert(inv@.items =~= entries_seq_view(entries@));
        lemma_u32_bytes_round(data@.subrange(0, 4));
        lemma_u32_bytes_round(data@.subrange(q2 as int, q3 as int));
        assert(spec_enc_u32(inv@.platform_names.len() as u32) == data@.subrange(0, 4));
        assert(spec_enc_u32(inv@.items.len() as u32) == data@.subrange(q2 as int, q3 as int));
        lemma_concat_join(
            data@,
            q2 as int,
            q3 as int,
            q4 as int,
            spec_enc_u32(inv@.items.len() as u32),
            spec_enc_entries(inv@.items),
        );
        lemma_concat_join(
            data@,
            q1 as int,
            q2 as int,
            q4 as int,
            spec_enc_names(inv@.platform_names),
            spec_enc_u32(inv@.items.len() as u32) + spec_enc_entries(inv@.items),
        );
        lemma_concat_join(
            data@,
            0,
            q1 as int,
            q4 as int,
            spec_enc_u32(inv@.platform_names.len() as u32),
            spec_enc_names(inv@.platform_names) + (spec_enc_u32(inv@.items.len() as u32)
                + spec_enc_entries(inv@.items)),
        );
        assert(data@.subrange(0, q4 as int) =~= data@);
        assert(data@ == spec_enc_inv(inv@));
        assert forall|v: InvV|
            (inv_encodable(v) && keys_unique(v.items) && data@ == #[trigger] spec_enc_inv(
                v,
            )) implies (r matches Some(inv2) && inv2@.platform_names == v.platform_names
            && inv2@.items == v.items) by {
            assert(inv@.platform_names =~= names.deep_view());
        }
    }
    r
}

/// Unfolds an encoded inventory in place: the name count and names, then the
/// entry count and entries.
proof fn lemma_decode_inv_hyp(data: Seq<u8>)
    ensures
        forall|v: InvV|
            (inv_encodable(v) && data == #[trigger] spec_enc_inv(v)) ==> {
                let q1: int = 4;
                let q2 = q1 + spec_enc_names(v.platform_names).len();
                let q3 = q2 + 4;
                let q4 = q3 + spec_enc_entries(v.items).len();
                &&& spec_u32_from_be_bytes(data.subrange(0, q1)) == v.platform_names.len()
                &&& data.subrange(q1, q2 as int) == spec_enc_names(v.platform_names)
                &&& spec_u32_from_be_bytes(data.subrange(q2 as int, q3 as int)) == v.items.len()
                &&& data.subrange(q3 as int, q4 as int) == spec_enc_entries(v.items)
                &&& q4 == data.len()
            },
{
    assert forall|v: InvV| (inv_encodable(v) && data == #[trigger] spec_enc_inv(v)) implies {
        let q1: int = 4;
        let q2 = q1 + spec_enc_names(v.platform_names).len();
        let q3 = q2 + 4;
        let q4 = q3 + spec_enc_entries(v.items).len();
        &&& spec_u32_from_be_bytes(data.subrange(0, q1)) == v.platform_names.len()
        &&& data.subrange(q1, q2 as int) == spec_enc_names(v.platform_names)
        &&& spec_u32_from_be_bytes(data.subrange(q2 as int, q3 as int)) == v.items.len()
        &&& data.subrange(q3 as int, q4 as int) == spec_enc_entries(v.items)
        &&& q4 == data.len()
    } by {
        let q2 = 4 + spec_enc_names(v.platform_names).len();
        assert(data.subrange(0, data.len() as int) =~= data);
        lemma_concat_split(
            data,
            0,
            spec_enc_u32(v.platform_names.len() as u32),
            spec_enc_names(v.platform_names) + (spec_enc_u32(v.items.len() as u32)
                + spec_enc_entries(v.items)),
        );
        lemma_concat_split(
            data,
            4,
            spec_enc_names(v.platform_names),
            spec_enc_u32(v.items.len() as u32) + spec_enc_entries(v.items),
        );
        lemma_concat_split(
            data,
            q2 as int,
            spec_enc_u32(v.items.len() as u32),
            spec_enc_entries(v.items),
        );
        lemma_u32_be_round(v.platform_names.len() as u32);
        lemma_u32_be_round(v.items.len() as u32);
    }
}

/// Two adjacent recovered parts join back into one encoding in place.
pub proof fn lemma_concat_join(data: Seq<u8>, pos: int, q1: int, q2: int, a: Seq<u8>, b: Seq<u8>)
    requires
        0 <= pos <= q1 <= q2 <= data.len(),
        data.subrange(pos, q1) == a,
        data.subrange(q1, q2) == b,
    ensures
        data.subrange(pos, q2) == a + b,
{
    assert(data.subrange(pos, q2) =~= a + b);
}

/// Re-encoding the integer four big-endian bytes spell recovers the bytes.
pub proof fn lemma_u32_bytes_round(s: Seq<u8>)
    requires
        s.len() == 4,
    ensures
        spec_enc_u32(spec_u32_from_be_bytes(s)) == s,
{
    let b0 = s[0];
    let b1 = s[1];
    let b2 = s[2];
    let b3 = s[3];
    let x = (b0 as u32) << 24 | (b1 as u32) << 16 | (b2 as u32) << 8 | (b3 as u32);
    assert(forall|y: u32|
        y == (b0 as u32) << 24 | (b1 as u32) << 16 | (b2 as u32) << 8 | (b3 as u32) ==> (((y >> 24)
            & 0xff) as u8 == b0 && ((y >> 16) & 0xff) as u8 == b1 && ((y >> 8) & 0xff) as u8 == b2
            && (y & 0xff) as u8 == b3)) by (bit_vector);
    assert(spec_enc_u32(spec_u32_from_be_bytes(s)) =~= s);
}

/// Re-encoding the integer eight big-endian bytes spell recovers the bytes.
pub proof fn lemma_u64_bytes_round(s: Seq<u8>)
    requires
        s.len() == 8,
    ensures
        spec_enc_u64(spec_u64_from_be_bytes(s)) == s,
{
    let b0 = s[0];
    let b1 = s[1];
    let b2 = s[2];
    let b3 = s[3];
    let b4 = s[4];
    let b5 = s[5];
    let b6 = s[6];
    let b7 = s[7];
    let x = (b0 as u64) << 56 | (b1 as u64) << 48 | (b2 as u64) << 40 | (b3 as u64) << 32 | (
    b4 as u64) << 24 | (b5 as u64) << 16 | (b6 as u64) << 8 | (b7 as u64);
    assert(forall|y: u64|
        y == (b0 as u64) << 56 | (b1 as u64) << 48 | (b2 as u64) << 40 | (b3 as u64) << 32 | (
        b4 as u64) << 24 | (b5 as u64) << 16 | (b6 as u64) << 8 | (b7 as u64) ==> (((y >> 56)
            & 0xff) as u8 == b0 && ((y >> 48) & 0xff) as u8 == b1 && ((y >> 40) & 0xff) as u8 == b2
            && ((y >> 32) & 0xff) as u8 == b3 && ((y >> 24) & 0xff) as u8 == b4 && ((y >> 16)
            & 0xff) as u8 == b5 && ((y >> 8) & 0xff) as u8 == b6 && (y & 0xff) as u8 == b7))
        by (bit_vector);
    assert(spec_enc_u64(spec_u64_from_be_bytes(s)) =~= s);
}

/// Splitting a known two-part encoding at `pos` recovers each part in place.
pub proof fn lemma_concat_split(data: Seq<u8>, pos: int, a: Seq<u8>, b: Seq<u8>)
    requires
        0 <= pos,
        pos + a.len() + b.len() <= data.len(),
        data.subrange(pos, pos + a.len() + b.len()) == a + b,
    ensures
        data.subrange(pos, pos + a.len()) == a,
        data.subrange(pos + a.len(), pos + a.len() + b.len()) == b,
{
    let ab = data.subrange(pos, pos + a.len() + b.len());
    assert forall|i: int| 0 <= i < a.len() implies data.subrange(pos, pos + a.len())[i] == a[i] by {
        assert(ab[i] == a[i]);
        assert(data[pos + i] == ab[i]);
    }
    assert(data.subrange(pos, pos + a.len()) =~= a);
    assert forall|i: int| 0 <= i < b.len() implies data.subrange(
        pos + a.len(),
        pos + a.len() + b.len(),
    )[i] == b[i] by {
        assert(ab[a.len() + i] == b[i]);
        assert(data[pos + a.len() + i] == ab[a.len() + i]);
    }
    assert(data.subrange(pos + a.len(), pos + a.len() + b.len()) =~= b);
}

} // verus!
