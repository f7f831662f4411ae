//! The byte form of the stored entities.
//!
//! Every entity is a list of byte fields, and a list of byte fields is
//! framed as one byte string: each field behind its length, eight bytes
//! little-endian. The form depends on the value alone, and decoding an
//! encoded value gives the value back.

use crate::seqs::lemma_map_step;
use vstd::bytes::{
    lemma_auto_spec_u32_to_from_le_bytes, lemma_auto_spec_u64_to_from_le_bytes,
    spec_u32_from_le_bytes, spec_u32_to_le_bytes, spec_u64_from_le_bytes, spec_u64_to_le_bytes,
    u32_from_le_bytes, u32_to_le_bytes, u64_from_le_bytes, u64_to_le_bytes,
};
use vstd::prelude::*;
use vstd::utf8::{decode_utf8, encode_utf8, valid_utf8};

verus! {

/// The views of a list of byte strings.
pub open spec fn byte_fields(v: Seq<Vec<u8>>) -> Seq<Seq<u8>> {
    v.map_values(|f: Vec<u8>| f@)
}

/// One framed field: its length, then its bytes.
pub open spec fn framed(field: Seq<u8>) -> Seq<u8> {
    spec_u64_to_le_bytes(field.len() as u64) + field
}

/// The frame of a list of fields: the framed fields one after the other.
pub open spec fn frame(fields: Seq<Seq<u8>>) -> Seq<u8>
    decreases fields.len(),
{
    if fields.len() == 0 {
        Seq::empty()
    } else {
        frame(fields.drop_last()) + framed(fields.last())
    }
}

/// The fields of a frame, if the bytes are one.
pub open spec fn unframe(bytes: Seq<u8>) -> Option<Seq<Seq<u8>>>
    decreases bytes.len(),
{
    if bytes.len() == 0 {
        Some(Seq::empty())
    } else if bytes.len() < 8 {
        None
    } else {
        let n = spec_u64_from_le_bytes(bytes.take(8)) as int;
        if bytes.len() - 8 < n {
            None
        } else {
            match unframe(bytes.skip(8 + n)) {
                Some(rest) => Some(seq![bytes.subrange(8, 8 + n)] + rest),
                None => None,
            }
        }
    }
}

/// Every field is short enough for its length to be written down.
pub open spec fn framable(fields: Seq<Seq<u8>>) -> bool {
    forall|i: int| 0 <= i < fields.len() ==> (#[trigger] fields[i]).len() <= u64::MAX
}

pub proof fn lemma_frame_cons(first: Seq<u8>, rest: Seq<Seq<u8>>)
    ensures
        frame(seq![first] + rest) == framed(first) + frame(rest),
    decreases rest.len(),
{
    let all = seq![first] + rest;
    if rest.len() == 0 {
        assert(all.drop_last() == Seq::<Seq<u8>>::empty());
        assert(frame(all.drop_last()) == Seq::<u8>::empty());
        assert(all.last() == first);
        assert(frame(all) == Seq::<u8>::empty() + framed(first));
        assert(frame(rest) == Seq::<u8>::empty());
        assert(Seq::<u8>::empty() + framed(first) == framed(first) + Seq::<u8>::empty());
    } else {
        assert(all.drop_last() == seq![first] + rest.drop_last());
        assert(all.last() == rest.last());
        lemma_frame_cons(first, rest.drop_last());
        assert(frame(all) == (framed(first) + frame(rest.drop_last())) + framed(rest.last()));
        assert((framed(first) + frame(rest.drop_last())) + framed(rest.last()) == framed(first) + (
        frame(rest.drop_last()) + framed(rest.last())));
    }
}

/// Taking a frame apart gives the fields that it was made of.
pub proof fn lemma_unframe_frame(fields: Seq<Seq<u8>>)
    requires
        framable(fields),
    ensures
        unframe(frame(fields)) == Some(fields),
    decreases fields.len(),
{
    if fields.len() == 0 {
    } else {
        let first = fields[0];
        let rest = fields.drop_first();
        assert(fields == seq![first] + rest);
        lemma_frame_cons(first, rest);
        lemma_auto_spec_u64_to_from_le_bytes();
        let bytes = frame(fields);
        let head = spec_u64_to_le_bytes(first.len() as u64);
        assert(bytes == (head + first) + frame(rest));
        assert(head.len() == 8);
        assert(bytes.take(8) == head);
        assert(spec_u64_from_le_bytes(head) == first.len() as u64);
        let n = first.len() as int;
        assert(bytes.subrange(8, 8 + n) == first);
        assert(bytes.skip(8 + n) == frame(rest));
        assert forall|i: int| 0 <= i < rest.len() implies (#[trigger] rest[i]).len()
            <= u64::MAX by {
            assert(rest[i] == fields[i + 1]);
        }
        lemma_unframe_frame(rest);
    }
}

/// Appends one framed field to the buffer.
pub fn put_field(buf: &mut Vec<u8>, field: &[u8])
    ensures
        final(buf)@ == old(buf)@ + framed(field@),
{
    let n: u64 = field.len() as u64;
    let mut head: Vec<u8> = u64_to_le_bytes(n);
    buf.append(&mut head);
    let mut i: usize = 0;
    while i < field.len()
        invariant
            i <= field.len(),
            buf@ == old(buf)@ + spec_u64_to_le_bytes(field@.len() as u64) + field@.take(i as int),
        decreases field.len() - i,
    {
        buf.push(field[i]);
        assert(field@.take(i + 1) == field@.take(i as int).push(field@[i as int]));
        i += 1;
    }
    assert(field@.take(field.len() as int) == field@);
    assert(old(buf)@ + spec_u64_to_le_bytes(field@.len() as u64) + field@ == old(buf)@ + framed(
        field@,
    ));
}

/// The frame of the given fields.
pub fn frame_fields(fields: &Vec<Vec<u8>>) -> (r: Vec<u8>)
    ensures
        r@ == frame(byte_fields(fields@)),
        framable(byte_fields(fields@)),
{
    let mut buf: Vec<u8> = Vec::new();
    let mut i: usize = 0;
    assert(byte_fields(fields@.take(0)) == Seq::<Seq<u8>>::empty());
    while i < fields.len()
        invariant
            i <= fields.len(),
            buf@ == frame(byte_fields(fields@.take(i as int))),
        decreases fields.len() - i,
    {
        put_field(&mut buf, fields[i].as_slice());
        proof {
            let before = byte_fields(fields@.take(i as int));
            let after = byte_fields(fields@.take(i + 1));
            lemma_map_step(fields@, i as int, |f: Vec<u8>| f@);
            assert(after == before.push(fields@[i as int]@));
            assert(after.drop_last() == before);
            assert(after.last() == fields@[i as int]@);
        }
        i += 1;
    }
    assert(fields@.take(fields.len() as int) == fields@);
    assert forall|k: int| 0 <= k < byte_fields(fields@).len() implies (#[trigger] byte_fields(
        fields@,
    )[k]).len() <= u64::MAX by {
        assert(byte_fields(fields@)[k] == fields@[k]@);
        assert(fields@[k]@.len() == fields@[k].len());
    }
    buf
}

/// A copy of the window `[from, to)` of a byte string.
pub fn copy_range(bytes: &[u8], from: usize, to: usize) -> (r: Vec<u8>)
    requires
        from <= to <= bytes@.len(),
    ensures
        r@ == bytes@.subrange(from as int, to as int),
{
    let mut r: Vec<u8> = Vec::new();
    let mut i: usize = from;
    while i < to
        invariant
            from <= i <= to <= bytes@.len(),
            r@ == bytes@.subrange(from as int, i as int),
        decreases to - i,
    {
        r.push(bytes[i]);
        assert(bytes@.subrange(from as int, i + 1) == bytes@.subrange(from as int, i as int).push(
            bytes@[i as int],
        ));
        i += 1;
    }
    r
}

/// What is known of a frame once the fields up to `pos` are taken off.
pub open spec fn with_taken(taken: Seq<Seq<u8>>, rest: Option<Seq<Seq<u8>>>) -> Option<
    Seq<Seq<u8>>,
> {
    match rest {
        Some(r) => Some(taken + r),
        None => None,
    }
}

/// The fields of a frame, or nothing if the bytes are not a frame.
pub fn unframe_bytes(bytes: &[u8]) -> (r: Option<Vec<Vec<u8>>>)
    ensures
        match r {
            Some(f) => unframe(bytes@) == Some(byte_fields(f@)),
            None => unframe(bytes@) is None,
        },
{
    let mut out: Vec<Vec<u8>> = Vec::new();
    let mut pos: usize = 0;
    let total: usize = bytes.len();
    assert(bytes@.skip(0) == bytes@);
    assert(byte_fields(out@) == Seq::<Seq<u8>>::empty());
    assert(with_taken(byte_fields(out@), unframe(bytes@)) == unframe(bytes@)) by {
        match unframe(bytes@) {
            Some(r) => {
                assert(Seq::<Seq<u8>>::empty() + r == r);
            },
            None => {},
        }
    }
    while pos < total
        invariant
            pos <= total == bytes@.len(),
            unframe(bytes@) == with_taken(byte_fields(out@), unframe(bytes@.skip(pos as int))),
        decreases total - pos,
    {
        let ghost tail = bytes@.skip(pos as int);
        if total - pos < 8 {
            return None;
        }
        let head: Vec<u8> = copy_range(bytes, pos, pos + 8);
        let n64: u64 = u64_from_le_bytes(head.as_slice());
        assert(tail.take(8) == bytes@.subrange(pos as int, pos + 8));
        let avail: u64 = (total - pos - 8) as u64;
        if avail < n64 {
            return None;
        }
        let n: usize = n64 as usize;
        let field: Vec<u8> = copy_range(bytes, pos + 8, pos + 8 + n);
        proof {
            assert(tail.subrange(8, 8 + n) == bytes@.subrange(pos + 8, pos + 8 + n));
            assert(tail.skip(8 + n) == bytes@.skip(pos + 8 + n));
            let before = byte_fields(out@);
            let rest = unframe(bytes@.skip(pos + 8 + n));
            assert(unframe(tail) == match rest {
                Some(r) => Some(seq![field@] + r),
                None => None,
            });
            match rest {
                Some(r) => {
                    assert(before + (seq![field@] + r) == before.push(field@) + r);
                },
                None => {},
            }
        }
        let ghost before = byte_fields(out@);
        out.push(field);
        assert(byte_fields(out@) == before.push(field@));
        pos = pos + 8 + n;
    }
    proof {
        assert(bytes@.skip(pos as int).len() == 0);
        assert(byte_fields(out@) + Seq::<Seq<u8>>::empty() == byte_fields(out@));
    }
    Some(out)
}

// ---------------------------------------------------------------------------
// Numbers
// ---------------------------------------------------------------------------

/// A number, if the field is the eight bytes of one.
pub open spec fn u64_of_field(f: Seq<u8>) -> Option<u64> {
    if f.len() == 8 {
        Some(spec_u64_from_le_bytes(f))
    } else {
        None
    }
}

pub fn read_u64_field(f: &[u8]) -> (r: Option<u64>)
    ensures
        r == u64_of_field(f@),
{
    if f.len() == 8 {
        Some(u64_from_le_bytes(f))
    } else {
        None
    }
}

/// The field of an optional number: empty, or its eight bytes.
pub open spec fn opt_u64_field(o: Option<u64>) -> Seq<u8> {
    match o {
        Some(x) => spec_u64_to_le_bytes(x),
        None => Seq::empty(),
    }
}

/// An optional number, if the field is the form of one.
pub open spec fn opt_u64_of_field(f: Seq<u8>) -> Option<Option<u64>> {
    if f.len() == 0 {
        Some(None)
    } else if f.len() == 8 {
        Some(Some(spec_u64_from_le_bytes(f)))
    } else {
        None
    }
}

pub fn write_opt_u64_field(o: Option<u64>) -> (r: Vec<u8>)
    ensures
        r@ == opt_u64_field(o),
{
    match o {
        Some(x) => u64_to_le_bytes(x),
        None => Vec::new(),
    }
}

pub fn read_opt_u64_field(f: &[u8]) -> (r: Option<Option<u64>>)
    ensures
        r == opt_u64_of_field(f@),
{
    if f.len() == 0 {
        Some(None)
    } else if f.len() == 8 {
        Some(Some(u64_from_le_bytes(f)))
    } else {
        None
    }
}

/// The field of a list of 32-bit numbers: four bytes each.
pub open spec fn u32s_field(v: Seq<u32>) -> Seq<u8> {
    Seq::new(4 * v.len(), |i: int| spec_u32_to_le_bytes(v[i / 4])[i % 4])
}

/// A list of 32-bit numbers, if the field is the form of one.
pub open spec fn u32s_of_field(f: Seq<u8>) -> Option<Seq<u32>> {
    if f.len() % 4 == 0 {
        Some(Seq::new(f.len() / 4, |i: int| spec_u32_from_le_bytes(f.subrange(4 * i, 4 * i + 4))))
    } else {
        None
    }
}

pub proof fn lemma_u32s_roundtrip(v: Seq<u32>)
    ensures
        u32s_of_field(u32s_field(v)) == Some(v),
{
    let f = u32s_field(v);
    lemma_auto_spec_u32_to_from_le_bytes();
    assert(f.len() == 4 * v.len());
    let back = Seq::new(f.len() / 4, |i: int| spec_u32_from_le_bytes(f.subrange(4 * i, 4 * i + 4)));
    assert(back.len() == v.len());
    assert forall|i: int| 0 <= i < v.len() implies back[i] == v[i] by {
        let w = f.subrange(4 * i, 4 * i + 4);
        let e = spec_u32_to_le_bytes(v[i]);
        assert(e.len() == 4);
        assert forall|k: int| 0 <= k < 4 implies w[k] == e[k] by {
            assert(w[k] == f[4 * i + k]);
            assert((4 * i + k) / 4 == i);
            assert((4 * i + k) % 4 == k);
        }
        assert(w == e);
    }
    assert(back == v);
}

pub fn write_u32s_field(v: &Vec<u32>) -> (r: Vec<u8>)
    ensures
        r@ == u32s_field(v@),
{
    let mut r: Vec<u8> = Vec::new();
    let mut i: usize = 0;
    proof {
        lemma_auto_spec_u32_to_from_le_bytes();
    }
    while i < v.len()
        invariant
            i <= v.len(),
            r@ == u32s_field(v@.take(i as int)),
            forall|x: u32| #[trigger] spec_u32_to_le_bytes(x).len() == 4,
        decreases v.len() - i,
    {
        let mut e: Vec<u8> = u32_to_le_bytes(v[i]);
        let ghost before = r@;
        let ghost ev = e@;
        r.append(&mut e);
        proof {
            let a = v@.take(i as int);
            let b = v@.take(i + 1);
            let want = u32s_field(b);
            assert(r@ == before + ev);
            assert(want.len() == r@.len());
            assert forall|k: int| 0 <= k < want.len() implies want[k] == r@[k] by {
                if k < 4 * i {
                    assert(k / 4 < i);
                    assert(b[k / 4] == a[k / 4]);
                    assert(before[k] == spec_u32_to_le_bytes(a[k / 4])[k % 4]);
                } else {
                    assert(k / 4 == i);
                    assert(k % 4 == k - 4 * i);
                    assert(b[k / 4] == v@[i as int]);
                }
            }
            assert(want == r@);
        }
        i += 1;
    }
    assert(v@.take(v.len() as int) == v@);
    r
}

pub fn read_u32s_field(f: &[u8]) -> (r: Option<Vec<u32>>)
    ensures
        match r {
            Some(v) => u32s_of_field(f@) == Some(v@),
            None => u32s_of_field(f@) is None,
        },
{
    if f.len() % 4 != 0 {
        return None;
    }
    let n: usize = f.len() / 4;
    let mut v: Vec<u32> = Vec::new();
    let mut i: usize = 0;
    while i < n
        invariant
            i <= n,
            n == f@.len() / 4,
            4 * n == f@.len(),
            f@.len() <= usize::MAX,
            v@.len() == i,
            forall|k: int|
                0 <= k < i ==> v@[k] == spec_u32_from_le_bytes(
                    #[trigger] f@.subrange(4 * k, 4 * k + 4),
                ),
        decreases n - i,
    {
        let w: Vec<u8> = copy_range(f, 4 * i, 4 * i + 4);
        let x: u32 = u32_from_le_bytes(w.as_slice());
        v.push(x);
        i += 1;
    }
    proof {
        let want = Seq::new(
            f@.len() / 4,
            |i: int| spec_u32_from_le_bytes(f@.subrange(4 * i, 4 * i + 4)),
        );
        assert(v@ =~= want);
    }
    Some(v)
}

// ---------------------------------------------------------------------------
// Text
// ---------------------------------------------------------------------------

/// Text, if the field is UTF-8.
pub open spec fn text_of_field(f: Seq<u8>) -> Option<Seq<char>> {
    if valid_utf8(f) {
        Some(decode_utf8(f))
    } else {
        None
    }
}

pub proof fn lemma_text_roundtrip(s: Seq<char>)
    ensures
        text_of_field(encode_utf8(s)) == Some(s),
{
    vstd::utf8::encode_utf8_valid_utf8(s);
    vstd::utf8::encode_utf8_decode_utf8(s);
}

/// The string that the bytes spell. Wraps `String::from_utf8`, which
/// succeeds exactly on valid UTF-8 and then holds the decoded characters.
#[verifier::external_body]
pub(crate) fn string_from_utf8(bytes: Vec<u8>) -> (r: Option<String>)
    ensures
        match r {
            Some(s) => valid_utf8(bytes@) && s@ == decode_utf8(bytes@),
            None => !valid_utf8(bytes@),
        },
{
    String::from_utf8(bytes).ok()
}

pub fn read_text_field(f: &[u8]) -> (r: Option<String>)
    ensures
        match r {
            Some(s) => text_of_field(f@) == Some(s@),
            None => text_of_field(f@) is None,
        },
{
    let v: Vec<u8> = copy_range(f, 0, f.len());
    assert(f@.subrange(0, f@.len() as int) == f@);
    string_from_utf8(v)
}

pub fn write_text_field(s: &str) -> (r: Vec<u8>)
    ensures
        r@ == encode_utf8(s@),
{
    let b: &[u8] = s.as_bytes();
    let r = copy_range(b, 0, b.len());
    assert(b@.subrange(0, b@.len() as int) == b@);
    r
}

/// The fields of a list of texts.
pub open spec fn texts_fields(v: Seq<Seq<char>>) -> Seq<Seq<u8>> {
    v.map_values(|s: Seq<char>| encode_utf8(s))
}

/// A list of texts, if every field is UTF-8.
pub open spec fn texts_of_fields(f: Seq<Seq<u8>>) -> Option<Seq<Seq<char>>> {
    if forall|i: int| 0 <= i < f.len() ==> valid_utf8(#[trigger] f[i]) {
        Some(f.map_values(|b: Seq<u8>| decode_utf8(b)))
    } else {
        None
    }
}

pub proof fn lemma_texts_roundtrip(v: Seq<Seq<char>>)
    ensures
        texts_of_fields(texts_fields(v)) == Some(v),
{
    let f = texts_fields(v);
    assert forall|i: int| 0 <= i < f.len() implies valid_utf8(#[trigger] f[i]) by {
        lemma_text_roundtrip(v[i]);
    }
    let back = f.map_values(|b: Seq<u8>| decode_utf8(b));
    assert forall|i: int| 0 <= i < v.len() implies back[i] == v[i] by {
        lemma_text_roundtrip(v[i]);
    }
    assert(back == v);
}

/// The field of a list of texts: the frame of their fields.
pub open spec fn texts_field(v: Seq<Seq<char>>) -> Seq<u8> {
    frame(texts_fields(v))
}

/// A list of texts, if the field is the frame of one.
pub open spec fn texts_of_field(f: Seq<u8>) -> Option<Seq<Seq<char>>> {
    match unframe(f) {
        Some(fields) => texts_of_fields(fields),
        None => None,
    }
}

/// The fields of a list of text pairs: first and second in turn.
pub open spec fn pairs_fields(v: Seq<(Seq<char>, Seq<char>)>) -> Seq<Seq<u8>> {
    Seq::new(
        2 * v.len(),
        |i: int|
            if i % 2 == 0 {
                encode_utf8(v[i / 2].0)
            } else {
                encode_utf8(v[i / 2].1)
            },
    )
}

/// A list of text pairs, if the fields are an even number of UTF-8 texts.
pub open spec fn pairs_of_fields(f: Seq<Seq<u8>>) -> Option<Seq<(Seq<char>, Seq<char>)>> {
    if f.len() % 2 == 0 && forall|i: int| 0 <= i < f.len() ==> valid_utf8(#[trigger] f[i]) {
        Some(Seq::new(f.len() / 2, |i: int| (decode_utf8(f[2 * i]), decode_utf8(f[2 * i + 1]))))
    } else {
        None
    }
}

pub proof fn lemma_pairs_roundtrip(v: Seq<(Seq<char>, Seq<char>)>)
    ensures
        pairs_of_fields(pairs_fields(v)) == Some(v),
{
    let f = pairs_fields(v);
    assert forall|i: int| 0 <= i < f.len() implies valid_utf8(#[trigger] f[i]) by {
        lemma_text_roundtrip(v[i / 2].0);
        lemma_text_roundtrip(v[i / 2].1);
    }
    let back = Seq::new(f.len() / 2, |i: int| (decode_utf8(f[2 * i]), decode_utf8(f[2 * i + 1])));
    assert forall|i: int| 0 <= i < v.len() implies back[i] == v[i] by {
        lemma_text_roundtrip(v[i].0);
        lemma_text_roundtrip(v[i].1);
        assert((2 * i) / 2 == i && (2 * i) % 2 == 0);
        assert((2 * i + 1) / 2 == i && (2 * i + 1) % 2 == 1);
    }
    assert(back == v);
}

/// The field of a list of text pairs: the frame of their fields.
pub open spec fn pairs_field(v: Seq<(Seq<char>, Seq<char>)>) -> Seq<u8> {
    frame(pairs_fields(v))
}

/// A list of text pairs, if the field is the frame of one.
pub open spec fn pairs_of_field(f: Seq<u8>) -> Option<Seq<(Seq<char>, Seq<char>)>> {
    match unframe(f) {
        Some(fields) => pairs_of_fields(fields),
        None => None,
    }
}

/// The field of an optional text: the frame of no field or of one.
pub open spec fn opt_text_field(o: Option<Seq<char>>) -> Seq<u8> {
    match o {
        Some(s) => frame(seq![encode_utf8(s)]),
        None => Seq::empty(),
    }
}

/// An optional text, if the field is the form of one.
pub open spec fn opt_text_of_field(f: Seq<u8>) -> Option<Option<Seq<char>>> {
    match unframe(f) {
        Some(fields) => if fields.len() == 0 {
            Some(None)
        } else if fields.len() == 1 && valid_utf8(fields[0]) {
            Some(Some(decode_utf8(fields[0])))
        } else {
            None
        },
        None => None,
    }
}

/// The length of the frame of a list of fields: eight bytes and its own
/// length for each field.
pub open spec fn frame_len(fields: Seq<Seq<u8>>) -> nat
    decreases fields.len(),
{
    if fields.len() == 0 {
        0
    } else {
        frame_len(fields.drop_last()) + 8 + fields.last().len()
    }
}

pub proof fn lemma_frame_len(fields: Seq<Seq<u8>>)
    ensures
        frame(fields).len() == frame_len(fields),
    decreases fields.len(),
{
    if fields.len() > 0 {
        lemma_frame_len(fields.drop_last());
        lemma_auto_spec_u64_to_from_le_bytes();
        assert(spec_u64_to_le_bytes(fields.last().len() as u64).len() == 8);
    }
}

pub proof fn lemma_frame_len_cons(first: Seq<u8>, rest: Seq<Seq<u8>>)
    ensures
        frame_len(seq![first] + rest) == 8 + first.len() + frame_len(rest),
    decreases rest.len(),
{
    let all = seq![first] + rest;
    if rest.len() == 0 {
        assert(all.drop_last() == Seq::<Seq<u8>>::empty());
        assert(all.last() == first);
        assert(frame_len(all.drop_last()) == 0);
        assert(frame_len(all) == frame_len(all.drop_last()) + 8 + all.last().len());
        assert(frame_len(rest) == 0);
    } else {
        assert(all.drop_last() == seq![first] + rest.drop_last());
        assert(all.last() == rest.last());
        lemma_frame_len_cons(first, rest.drop_last());
        assert(frame_len(all) == frame_len(all.drop_last()) + 8 + all.last().len());
        assert(frame_len(rest) == frame_len(rest.drop_last()) + 8 + rest.last().len());
    }
}

/// A frame is as long as the frame of its fields.
pub proof fn lemma_unframe_len(bytes: Seq<u8>)
    requires
        unframe(bytes) is Some,
    ensures
        frame_len(unframe(bytes)->0) == bytes.len(),
    decreases bytes.len(),
{
    if bytes.len() > 0 {
        let n = spec_u64_from_le_bytes(bytes.take(8)) as int;
        let rest = unframe(bytes.skip(8 + n))->0;
        lemma_unframe_len(bytes.skip(8 + n));
        lemma_frame_len_cons(bytes.subrange(8, 8 + n), rest);
    }
}

/// The texts of a field are written as the fields that they were read
/// from.
pub proof fn lemma_texts_canonical(bytes: Seq<u8>)
    requires
        texts_of_field(bytes) is Some,
    ensures
        texts_fields(texts_of_field(bytes)->0) == unframe(bytes)->0,
{
    let fields = unframe(bytes)->0;
    let texts = texts_of_field(bytes)->0;
    assert forall|i: int| 0 <= i < fields.len() implies texts_fields(texts)[i] == fields[i] by {
        assert(valid_utf8(fields[i]));
        vstd::utf8::decode_utf8_encode_utf8(fields[i]);
    }
    assert(texts_fields(texts) =~= fields);
}

/// A part of a list of texts is written no longer than the list.
pub proof fn lemma_frame_len_filter(v: Seq<Seq<char>>, pred: spec_fn(Seq<char>) -> bool)
    ensures
        frame_len(texts_fields(v.filter(pred))) <= frame_len(texts_fields(v)),
    decreases v.len(),
{
    reveal(Seq::filter);
    if v.len() > 0 {
        let front = v.drop_last();
        lemma_frame_len_filter(front, pred);
        assert(texts_fields(v).drop_last() =~= texts_fields(front));
        assert(texts_fields(v).last() == encode_utf8(v.last()));
        if pred(v.last()) {
            let part = front.filter(pred);
            assert(v.filter(pred) == part.push(v.last()));
            assert(texts_fields(part.push(v.last())).drop_last() =~= texts_fields(part));
            assert(texts_fields(part.push(v.last())).last() == encode_utf8(v.last()));
        }
    } else {
        assert(v.filter(pred) =~= v);
    }
}

/// The field of a part of the texts of a field is no longer than the
/// field.
pub proof fn lemma_texts_shrink(bytes: Seq<u8>, pred: spec_fn(Seq<char>) -> bool)
    requires
        texts_of_field(bytes) is Some,
    ensures
        texts_field(texts_of_field(bytes)->0.filter(pred)).len() <= bytes.len(),
{
    let texts = texts_of_field(bytes)->0;
    lemma_texts_canonical(bytes);
    lemma_unframe_len(bytes);
    lemma_frame_len_filter(texts, pred);
    lemma_frame_len(texts_fields(texts.filter(pred)));
}

} // verus!
