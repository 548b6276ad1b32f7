use vstd::prelude::*;

use crate::entry::Entry;
use crate::entry::EntryView;
use vstd::utf8::char_is_scalar;
use vstd::utf8::char_u32_cast;
use vstd::utf8::is_scalar;

verus! {

// The persisted blob is the entry sequence alone, framed entry by entry:
// one flags byte (bit 0 completed, bit 1 editing, others clear), the
// character count as eight little-endian bytes, then each character of the
// description as its code point in four little-endian bytes. Decoding
// rejects any malformed blob as a whole.

/// A code point as four little-endian bytes.
pub open spec fn enc_u32(u: u32) -> Seq<u8> {
    seq![
        (u & 0xff) as u8,
        ((u >> 8) & 0xff) as u8,
        ((u >> 16) & 0xff) as u8,
        ((u >> 24) & 0xff) as u8,
    ]
}

/// The value of four little-endian bytes.
pub open spec fn dec_u32(b: Seq<u8>) -> u32 {
    (b[0] as u32) | ((b[1] as u32) << 8) | ((b[2] as u32) << 16) | ((b[3] as u32) << 24)
}

/// A length as eight little-endian bytes.
pub open spec fn enc_u64(u: u64) -> Seq<u8> {
    seq![
        (u & 0xff) as u8,
        ((u >> 8) & 0xff) as u8,
        ((u >> 16) & 0xff) as u8,
        ((u >> 24) & 0xff) as u8,
        ((u >> 32) & 0xff) as u8,
        ((u >> 40) & 0xff) as u8,
        ((u >> 48) & 0xff) as u8,
        ((u >> 56) & 0xff) as u8,
    ]
}

/// The value of eight little-endian bytes.
pub open spec fn dec_u64(b: Seq<u8>) -> u64 {
    (b[0] as u64) | ((b[1] as u64) << 8) | ((b[2] as u64) << 16) | ((b[3] as u64) << 24) | ((b[4]
        as u64) << 32) | ((b[5] as u64) << 40) | ((b[6] as u64) << 48) | ((b[7] as u64) << 56)
}

/// The flags byte of an entry: completed in bit 0, editing in bit 1.
pub open spec fn flags_byte(e: EntryView) -> u8 {
    ((if e.completed {
        1int
    } else {
        0int
    }) + (if e.editing {
        2int
    } else {
        0int
    })) as u8
}

/// A character sequence as consecutive four-byte code points.
pub open spec fn enc_chars(cs: Seq<char>) -> Seq<u8>
    decreases cs.len(),
{
    if cs.len() == 0 {
        Seq::empty()
    } else {
        enc_u32(cs[0] as u32) + enc_chars(cs.drop_first())
    }
}

/// Whether every four-byte group of `b` holds a Unicode scalar value.
pub open spec fn chars_ok(b: Seq<u8>) -> bool {
    forall|i: int|
        0 <= i < b.len() / 4 ==> is_scalar(dec_u32(#[trigger] b.subrange(4 * i, 4 * i + 4)))
}

/// The characters held by the four-byte groups of `b`.
pub open spec fn chars_of(b: Seq<u8>) -> Seq<char> {
    Seq::new((b.len() / 4) as nat, |i: int| dec_u32(b.subrange(4 * i, 4 * i + 4)) as char)
}

/// One entry: flags byte, character count, then the characters.
pub open spec fn enc_entry(e: EntryView) -> Seq<u8> {
    seq![flags_byte(e)] + enc_u64(e.description.len() as u64) + enc_chars(e.description)
}

/// The whole blob: the entries one after another.
pub open spec fn enc_entries(s: Seq<EntryView>) -> Seq<u8>
    decreases s.len(),
{
    if s.len() == 0 {
        Seq::empty()
    } else {
        enc_entry(s[0]) + enc_entries(s.drop_first())
    }
}

/// What a blob decodes to: the entry sequence it frames, or nothing if it is
/// malformed anywhere.
pub open spec fn dec_entries(b: Seq<u8>) -> Option<Seq<EntryView>>
    decreases b.len(),
{
    if b.len() == 0 {
        Some(Seq::empty())
    } else if b.len() < 9 {
        None
    } else {
        let flags = b[0];
        let n = dec_u64(b.subrange(1, 9)) as int;
        if flags < 4 && b.len() >= 9 + 4 * n {
            let region = b.subrange(9, 9 + 4 * n);
            if chars_ok(region) {
                match dec_entries(b.skip(9 + 4 * n)) {
                    Some(rest) => Some(
                        seq![
                            (EntryView {
                                description: chars_of(region),
                                completed: flags % 2 == 1,
                                editing: flags >= 2,
                            }),
                        ] + rest,
                    ),
                    None => None,
                }
            } else {
                None
            }
        } else {
            None
        }
    }
}

/// Four little-endian bytes read back give the code point they were made of.
pub proof fn lemma_enc_u32_inverts(u: u32)
    ensures
        enc_u32(u).len() == 4,
        dec_u32(enc_u32(u)) == u,
{
    assert((((u & 0xff) as u8) as u32) | ((((u >> 8) & 0xff) as u8) as u32) << 8 | ((((u >> 16)
        & 0xff) as u8) as u32) << 16 | ((((u >> 24) & 0xff) as u8) as u32) << 24 == u)
        by (bit_vector);
}

/// Eight little-endian bytes read back give the length they were made of.
pub proof fn lemma_enc_u64_inverts(u: u64)
    ensures
        enc_u64(u).len() == 8,
        dec_u64(enc_u64(u)) == u,
{
    assert((((u & 0xff) as u8) as u64) | ((((u >> 8) & 0xff) as u8) as u64) << 8 | ((((u >> 16)
        & 0xff) as u8) as u64) << 16 | ((((u >> 24) & 0xff) as u8) as u64) << 24 | ((((u >> 32)
        & 0xff) as u8) as u64) << 32 | ((((u >> 40) & 0xff) as u8) as u64) << 40 | ((((u >> 48)
        & 0xff) as u8) as u64) << 48 | ((((u >> 56) & 0xff) as u8) as u64) << 56 == u)
        by (bit_vector);
}

/// Encoded characters decode back to themselves.
pub proof fn lemma_enc_chars_props(cs: Seq<char>)
    ensures
        enc_chars(cs).len() == 4 * cs.len(),
        chars_ok(enc_chars(cs)),
        chars_of(enc_chars(cs)) == cs,
    decreases cs.len(),
{
    let b = enc_chars(cs);
    if cs.len() == 0 {
        assert(chars_of(b) =~= cs);
    } else {
        let c = cs[0];
        let rest = cs.drop_first();
        lemma_enc_chars_props(rest);
        let hb = enc_u32(c as u32);
        let rb = enc_chars(rest);
        lemma_enc_u32_inverts(c as u32);
        char_is_scalar(c);
        char_u32_cast(c, c as u32);
        assert(b == hb + rb);
        assert(b.len() == 4 + 4 * rest.len());
        assert(b.subrange(0, 4) =~= hb);
        assert forall|i: int| 1 <= i < b.len() / 4 implies #[trigger] b.subrange(4 * i, 4 * i + 4)
            == rb.subrange(4 * (i - 1), 4 * (i - 1) + 4) by {
            assert(b.subrange(4 * i, 4 * i + 4) =~= rb.subrange(4 * (i - 1), 4 * (i - 1) + 4));
        }
        assert forall|i: int| 0 <= i < b.len() / 4 implies is_scalar(
            dec_u32(#[trigger] b.subrange(4 * i, 4 * i + 4)),
        ) by {
            if i == 0 {
                assert(b.subrange(0, 4) == hb);
            } else {
                assert(is_scalar(dec_u32(rb.subrange(4 * (i - 1), 4 * (i - 1) + 4))));
            }
        }
        assert(chars_of(b) =~= cs) by {
            assert forall|i: int| 0 <= i < cs.len() implies chars_of(b)[i] == cs[i] by {
                if i == 0 {
                    assert(b.subrange(0, 4) == hb);
                } else {
                    assert(b.subrange(4 * i, 4 * i + 4) == rb.subrange(4 * (i - 1), 4 * (i - 1) + 4));
                    assert(chars_of(rb)[i - 1] == rest[i - 1]);
                }
            }
        }
    }
}

/// Appending one character to a sequence appends its four bytes to the
/// encoding.
pub proof fn lemma_enc_chars_push(cs: Seq<char>, c: char)
    ensures
        enc_chars(cs.push(c)) == enc_chars(cs) + enc_u32(c as u32),
    decreases cs.len(),
{
    let t = cs.push(c);
    if cs.len() == 0 {
        assert(t[0] == c);
        assert(t.drop_first() =~= Seq::<char>::empty());
        assert(enc_chars(t) == enc_u32(c as u32) + enc_chars(t.drop_first()));
        assert(enc_chars(cs) == Seq::<u8>::empty());
        assert(enc_chars(t) =~= enc_chars(cs) + enc_u32(c as u32));
    } else {
        assert(t[0] == cs[0]);
        assert(t.drop_first() =~= cs.drop_first().push(c));
        lemma_enc_chars_push(cs.drop_first(), c);
        assert(enc_u32(cs[0] as u32) + (enc_chars(cs.drop_first()) + enc_u32(c as u32)) =~= (
        enc_u32(cs[0] as u32) + enc_chars(cs.drop_first())) + enc_u32(c as u32));
    }
}

/// Appending one entry to a sequence appends its frame to the blob.
pub proof fn lemma_enc_entries_push(s: Seq<EntryView>, e: EntryView)
    ensures
        enc_entries(s.push(e)) == enc_entries(s) + enc_entry(e),
    decreases s.len(),
{
    let t = s.push(e);
    if s.len() == 0 {
        assert(t[0] == e);
        assert(t.drop_first() =~= Seq::<EntryView>::empty());
        assert(enc_entries(t) == enc_entry(e) + enc_entries(t.drop_first()));
        assert(enc_entries(s) == Seq::<u8>::empty());
        assert(enc_entries(t) =~= enc_entries(s) + enc_entry(e));
    } else {
        assert(t[0] == s[0]);
        assert(t.drop_first() =~= s.drop_first().push(e));
        lemma_enc_entries_push(s.drop_first(), e);
        assert(enc_entry(s[0]) + (enc_entries(s.drop_first()) + enc_entry(e)) =~= (enc_entry(s[0])
            + enc_entries(s.drop_first())) + enc_entry(e));
    }
}

/// Round trip: a blob written from any entry sequence reads back as exactly
/// that sequence. (The character counts must fit the eight-byte length
/// field, as every sequence held in memory does.)
pub proof fn lemma_codec_round_trip(s: Seq<EntryView>)
    requires
        forall|i: int| 0 <= i < s.len() ==> (#[trigger] s[i]).description.len() <= u64::MAX,
    ensures
        dec_entries(enc_entries(s)) == Some(s),
    decreases s.len(),
{
    if s.len() == 0 {
        assert(s =~= Seq::<EntryView>::empty());
    } else {
        let e = s[0];
        let rest = s.drop_first();
        assert forall|i: int| 0 <= i < rest.len() implies (#[trigger] rest[i]).description.len()
            <= u64::MAX by {
            assert(rest[i] == s[i + 1]);
        }
        lemma_codec_round_trip(rest);
        let b = enc_entries(s);
        let eb = enc_entry(e);
        let rb = enc_entries(rest);
        let n = e.description.len() as int;
        assert(e.description.len() <= u64::MAX);
        lemma_enc_chars_props(e.description);
        lemma_enc_u64_inverts(n as u64);
        assert(b == eb + rb);
        assert(eb.len() == 9 + 4 * n);
        assert(b[0] == flags_byte(e));
        assert(flags_byte(e) < 4);
        assert(b.subrange(1, 9) =~= enc_u64(n as u64));
        assert(dec_u64(b.subrange(1, 9)) as int == n);
        assert(b.len() >= 9 + 4 * n);
        assert(b.subrange(9, 9 + 4 * n) =~= enc_chars(e.description));
        assert(b.skip(9 + 4 * n) =~= rb);
        let flags = flags_byte(e);
        assert((flags % 2 == 1) == e.completed && (flags >= 2) == e.editing);
        assert((EntryView {
            description: chars_of(b.subrange(9, 9 + 4 * n)),
            completed: flags % 2 == 1,
            editing: flags >= 2,
        }) == e);
        assert(seq![e] + rest =~= s);
    }
}

/// Four bytes rebuild from the code point they spell.
pub proof fn lemma_dec_u32_inverts(b: Seq<u8>)
    requires
        b.len() == 4,
    ensures
        enc_u32(dec_u32(b)) == b,
{
    let b0 = b[0];
    let b1 = b[1];
    let b2 = b[2];
    let b3 = b[3];
    let u = dec_u32(b);
    assert(u == (b0 as u32) | ((b1 as u32) << 8) | ((b2 as u32) << 16) | ((b3 as u32) << 24));
    assert((u & 0xff) as u8 == b0 && ((u >> 8) & 0xff) as u8 == b1 && ((u >> 16) & 0xff) as u8
        == b2 && ((u >> 24) & 0xff) as u8 == b3) by (bit_vector)
        requires
            u == (b0 as u32) | ((b1 as u32) << 8) | ((b2 as u32) << 16) | ((b3 as u32) << 24),
    ;
    assert(enc_u32(dec_u32(b)) =~= b);
}

/// Eight bytes rebuild from the length they spell.
pub proof fn lemma_dec_u64_inverts(b: Seq<u8>)
    requires
        b.len() == 8,
    ensures
        enc_u64(dec_u64(b)) == b,
{
    let b0 = b[0];
    let b1 = b[1];
    let b2 = b[2];
    let b3 = b[3];
    let b4 = b[4];
    let b5 = b[5];
    let b6 = b[6];
    let b7 = b[7];
    let u = dec_u64(b);
    assert(u == (b0 as u64) | ((b1 as u64) << 8) | ((b2 as u64) << 16) | ((b3 as u64) << 24) | ((
    b4 as u64) << 32) | ((b5 as u64) << 40) | ((b6 as u64) << 48) | ((b7 as u64) << 56));
    assert((u & 0xff) as u8 == b0 && ((u >> 8) & 0xff) as u8 == b1 && ((u >> 16) & 0xff) as u8
        == b2 && ((u >> 24) & 0xff) as u8 == b3 && ((u >> 32) & 0xff) as u8 == b4 && ((u >> 40)
        & 0xff) as u8 == b5 && ((u >> 48) & 0xff) as u8 == b6 && ((u >> 56) & 0xff) as u8 == b7)
        by (bit_vector)
        requires
            u == (b0 as u64) | ((b1 as u64) << 8) | ((b2 as u64) << 16) | ((b3 as u64) << 24) | ((
            b4 as u64) << 32) | ((b5 as u64) << 40) | ((b6 as u64) << 48) | ((b7 as u64) << 56),
    ;
    assert(enc_u64(dec_u64(b)) =~= b);
}

/// Well-formed character bytes rebuild from the characters they spell.
pub proof fn lemma_chars_canonical(bb: Seq<u8>)
    requires
        bb.len() % 4 == 0,
        chars_ok(bb),
    ensures
        enc_chars(chars_of(bb)) == bb,
    decreases bb.len(),
{
    let cs = chars_of(bb);
    if bb.len() == 0 {
        assert(cs =~= Seq::<char>::empty());
        assert(enc_chars(cs) =~= bb);
    } else {
        assert(bb.len() >= 4);
        let g0 = bb.subrange(0, 4);
        let tail = bb.skip(4);
        assert(tail.len() % 4 == 0);
        assert forall|t: int| 0 <= t < tail.len() / 4 implies is_scalar(
            dec_u32(#[trigger] tail.subrange(4 * t, 4 * t + 4)),
        ) by {
            assert(tail.subrange(4 * t, 4 * t + 4) =~= bb.subrange(4 * (t + 1), 4 * (t + 1) + 4));
            assert(is_scalar(dec_u32(bb.subrange(4 * (t + 1), 4 * (t + 1) + 4))));
        }
        lemma_chars_canonical(tail);
        let u = dec_u32(g0);
        assert(is_scalar(dec_u32(bb.subrange(4 * 0int, 4 * 0int + 4))));
        assert(g0 == bb.subrange(4 * 0int, 4 * 0int + 4));
        assert(((u as char) as u32) == u);
        lemma_dec_u32_inverts(g0);
        assert(cs[0] == u as char);
        assert(cs.drop_first() =~= chars_of(tail)) by {
            assert forall|t: int| 0 <= t < chars_of(tail).len() implies cs.drop_first()[t]
                == chars_of(tail)[t] by {
                assert(bb.subrange(4 * (t + 1), 4 * (t + 1) + 4) =~= tail.subrange(
                    4 * t,
                    4 * t + 4,
                ));
            }
        }
        assert(enc_chars(cs) == enc_u32(cs[0] as u32) + enc_chars(cs.drop_first()));
        assert(enc_u32(cs[0] as u32) == g0);
        assert(enc_chars(cs) =~= bb);
    }
}

/// The codec is canonical: whatever a blob decodes to writes back as exactly
/// that blob, so saving immediately after a successful load changes nothing.
pub proof fn lemma_codec_canonical(b: Seq<u8>)
    ensures
        match dec_entries(b) {
            Some(s) => enc_entries(s) == b,
            None => true,
        },
    decreases b.len(),
{
    match dec_entries(b) {
        None => {},
        Some(s) => {
            if b.len() == 0 {
                assert(s =~= Seq::<EntryView>::empty());
                assert(enc_entries(s) =~= b);
            } else {
                let flags = b[0];
                let n = dec_u64(b.subrange(1, 9)) as int;
                let region = b.subrange(9, 9 + 4 * n);
                let rest_bytes = b.skip(9 + 4 * n);
                lemma_codec_canonical(rest_bytes);
                let rs = dec_entries(rest_bytes)->Some_0;
                let ev = EntryView {
                    description: chars_of(region),
                    completed: flags % 2 == 1,
                    editing: flags >= 2,
                };
                assert(s == seq![ev] + rs);
                assert(region.len() == 4 * n);
                assert(region.len() % 4 == 0) by (nonlinear_arith)
                    requires
                        region.len() == 4 * n,
                        n >= 0,
                ;
                lemma_chars_canonical(region);
                assert(ev.description.len() == region.len() / 4);
                assert(ev.description.len() == n) by (nonlinear_arith)
                    requires
                        ev.description.len() == (4 * n) / 4,
                        n >= 0,
                ;
                assert(flags_byte(ev) == flags);
                lemma_dec_u64_inverts(b.subrange(1, 9));
                assert(ev.description.len() as u64 == dec_u64(b.subrange(1, 9)));
                assert(enc_u64(ev.description.len() as u64) == b.subrange(1, 9));
                assert(s[0] == ev);
                assert(s.drop_first() =~= rs);
                assert(enc_entries(s) == enc_entry(ev) + enc_entries(rs));
                assert(enc_entry(ev) == seq![flags] + b.subrange(1, 9) + region);
                assert(enc_entries(s) =~= b);
            }
        },
    }
}

/// Relies on char::from_u32: `Some` holding the character with the given
/// code exactly when the code is a Unicode scalar value, `None` otherwise.
pub assume_specification[ char::from_u32 ](i: u32) -> (r: Option<char>)
    ensures
        match r {
            Some(c) => is_scalar(i) && c as u32 == i,
            None => !is_scalar(i),
        },
;

/// Relies on String::push: appends the given character to the string.
pub assume_specification[ String::push ](s: &mut String, ch: char)
    ensures
        final(s)@ == old(s)@.push(ch),
;

/// Appends a code point as four little-endian bytes.
fn push_u32_le(out: &mut Vec<u8>, u: u32)
    ensures
        final(out)@ == old(out)@ + enc_u32(u),
{
    let ghost o0 = out@;
    out.push((u & 0xff) as u8);
    out.push(((u >> 8) & 0xff) as u8);
    out.push(((u >> 16) & 0xff) as u8);
    out.push(((u >> 24) & 0xff) as u8);
    proof {
        assert(out@ =~= o0 + enc_u32(u));
    }
}

/// Appends a length as eight little-endian bytes.
fn push_u64_le(out: &mut Vec<u8>, u: u64)
    ensures
        final(out)@ == old(out)@ + enc_u64(u),
{
    let ghost o0 = out@;
    out.push((u & 0xff) as u8);
    out.push(((u >> 8) & 0xff) as u8);
    out.push(((u >> 16) & 0xff) as u8);
    out.push(((u >> 24) & 0xff) as u8);
    out.push(((u >> 32) & 0xff) as u8);
    out.push(((u >> 40) & 0xff) as u8);
    out.push(((u >> 48) & 0xff) as u8);
    out.push(((u >> 56) & 0xff) as u8);
    proof {
        assert(out@ =~= o0 + enc_u64(u));
    }
}

/// Appends one entry's frame.
fn encode_entry(out: &mut Vec<u8>, e: &Entry)
    ensures
        final(out)@ == old(out)@ + enc_entry(e@),
{
    let ghost o0 = out@;
    let mut fb: u8 = 0;
    if e.completed {
        fb = fb + 1;
    }
    if e.editing {
        fb = fb + 2;
    }
    assert(fb == flags_byte(e@));
    out.push(fb);
    let n = e.description.as_str().unicode_len();
    push_u64_le(out, n as u64);
    let ghost mid = out@;
    let mut i: usize = 0;
    while i < n
        invariant
            i <= n,
            n as nat == e.description@.len(),
            mid == o0 + seq![flags_byte(e@)] + enc_u64(n as u64),
            out@ == mid + enc_chars(e.description@.take(i as int)),
        decreases n - i,
    {
        let c = e.description.as_str().get_char(i);
        proof {
            assert(e.description@.take(i as int + 1) =~= e.description@.take(i as int).push(c));
            lemma_enc_chars_push(e.description@.take(i as int), c);
        }
        push_u32_le(out, c as u32);
        i += 1;
    }
    proof {
        assert(e.description@.take(n as int) =~= e.description@);
        assert(out@ =~= o0 + enc_entry(e@));
    }
}

/// Writes the whole entry collection as one blob.
pub fn encode(entries: &Vec<Entry>) -> (r: Vec<u8>)
    ensures
        r@ == enc_entries(entries.deep_view()),
{
    let ghost s = entries.deep_view();
    let mut out: Vec<u8> = Vec::new();
    let mut j: usize = 0;
    while j < entries.len()
        invariant
            j <= entries.len(),
            s == entries.deep_view(),
            out@ == enc_entries(s.take(j as int)),
        decreases entries.len() - j,
    {
        proof {
            assert(s.take(j as int + 1) =~= s.take(j as int).push(s[j as int]));
            lemma_enc_entries_push(s.take(j as int), s[j as int]);
            assert(s[j as int] == entries@[j as int]@);
        }
        encode_entry(&mut out, &entries[j]);
        j += 1;
    }
    proof {
        assert(s.take(entries.len() as int) =~= s);
    }
    out
}

/// Reads a blob back into the entry collection it frames; `None` on any
/// malformed input.
#[verifier::loop_isolation(false)]
#[verifier::rlimit(60)]
pub fn decode(bytes: &Vec<u8>) -> (r: Option<Vec<Entry>>)
    ensures
        match r {
            Some(v) => dec_entries(bytes@) == Some(v.deep_view()),
            None => dec_entries(bytes@) is None,
        },
{
    let ghost b = bytes@;
    let mut acc: Vec<Entry> = Vec::new();
    let mut pos: usize = 0;
    proof {
        assert(b.skip(0) =~= b);
        assert(acc.deep_view() =~= Seq::<EntryView>::empty());
        match dec_entries(b) {
            Some(rest) => {
                assert(acc.deep_view() + rest =~= rest);
            },
            None => {},
        }
    }
    while pos < bytes.len()
        invariant
            pos <= bytes.len(),
            b == bytes@,
            ({
                let suffix = b.skip(pos as int);
                match dec_entries(suffix) {
                    Some(rest) => dec_entries(b) == Some(acc.deep_view() + rest),
                    None => dec_entries(b) is None,
                }
            }),
        decreases bytes.len() - pos,
    {
        let ghost suffix = b.skip(pos as int);
        assert(suffix.len() == b.len() - pos);
        let flags = bytes[pos];
        assert(flags == suffix[0]);
        if bytes.len() - pos < 9 {
            proof {
                assert(dec_entries(suffix) is None);
            }
            return None;
        }
        proof {
            assert(suffix.subrange(1, 9) =~= seq![
                b[pos as int + 1],
                b[pos as int + 2],
                b[pos as int + 3],
                b[pos as int + 4],
                b[pos as int + 5],
                b[pos as int + 6],
                b[pos as int + 7],
                b[pos as int + 8],
            ]);
        }
        let n64: u64 = (bytes[pos + 1] as u64) | ((bytes[pos + 2] as u64) << 8) | ((bytes[pos + 3]
            as u64) << 16) | ((bytes[pos + 4] as u64) << 24) | ((bytes[pos + 5] as u64) << 32) | ((
        bytes[pos + 6] as u64) << 40) | ((bytes[pos + 7] as u64) << 48) | ((bytes[pos + 8] as u64)
            << 56);
        assert(n64 == dec_u64(suffix.subrange(1, 9)));
        if flags >= 4 {
            proof {
                assert(dec_entries(suffix) is None);
            }
            return None;
        }
        let rem = bytes.len() - pos - 9;
        if n64 > (rem / 4) as u64 {
            proof {
                assert((n64 as int) * 4 > rem as int) by (nonlinear_arith)
                    requires
                        n64 as int > rem as int / 4,
                        rem >= 0,
                ;
                assert(suffix.len() < 9 + 4 * (n64 as int));
                assert(dec_entries(suffix) is None);
            }
            return None;
        }
        let n = n64 as usize;
        proof {
            assert(4 * (n as int) <= rem as int) by (nonlinear_arith)
                requires
                    n as int <= rem as int / 4,
                    rem >= 0,
            ;
        }
        let ghost region = suffix.subrange(9, 9 + 4 * (n as int));
        let mut s = String::new();
        let mut i: usize = 0;
        let mut bad: bool = false;
        while i < n
            invariant
                i <= n,
                b == bytes@,
                pos + 9 + 4 * n <= bytes.len(),
                region == b.skip(pos as int).subrange(9, 9 + 4 * (n as int)),
                region.len() == 4 * n,
                s@ == chars_of(region).take(i as int),
                forall|t: int|
                    0 <= t < i ==> is_scalar(
                        dec_u32(#[trigger] region.subrange(4 * t, 4 * t + 4)),
                    ),
            decreases n - i,
        {
            let off = pos + 9 + 4 * i;
            proof {
                assert(region.subrange(4 * (i as int), 4 * (i as int) + 4) =~= seq![
                    b[off as int],
                    b[off as int + 1],
                    b[off as int + 2],
                    b[off as int + 3],
                ]);
            }
            let u = (bytes[off] as u32) | ((bytes[off + 1] as u32) << 8) | ((bytes[off + 2] as u32)
                << 16) | ((bytes[off + 3] as u32) << 24);
            assert(u == dec_u32(region.subrange(4 * (i as int), 4 * (i as int) + 4)));
            match char::from_u32(u) {
                Some(c) => {
                    proof {
                        char_u32_cast(c, u);
                        assert(chars_of(region)[i as int] == c);
                        assert(chars_of(region).take(i as int + 1) =~= chars_of(region).take(
                            i as int,
                        ).push(c));
                    }
                    s.push(c);
                },
                None => {
                    proof {
                        assert(region.len() / 4 == n as int) by (nonlinear_arith)
                            requires
                                region.len() == 4 * (n as int),
                                n >= 0,
                        ;
                        assert(!is_scalar(dec_u32(region.subrange(
                            4 * (i as int),
                            4 * (i as int) + 4,
                        ))));
                        assert(!chars_ok(region));
                        assert(suffix.len() >= 9 + 4 * (n as int));
                        assert(dec_u64(suffix.subrange(1, 9)) as int == n as int);
                        assert(dec_entries(suffix) is None);
                    }
                    return None;
                },
            }
            i += 1;
        }
        proof {
            assert(chars_ok(region));
            assert(s@ =~= chars_of(region));
        }
        let ghost acc0 = acc.deep_view();
        let e = Entry { description: s, completed: flags % 2 == 1, editing: flags >= 2 };
        let ghost ev = e@;
        proof {
            assert(ev == (EntryView {
                description: chars_of(region),
                completed: flags % 2 == 1,
                editing: flags >= 2,
            }));
        }
        acc.push(e);
        proof {
            assert(acc.deep_view() =~= acc0.push(ev));
        }
        pos = pos + 9 + 4 * n;
        proof {
            let nsuffix = b.skip(pos as int);
            assert(nsuffix =~= suffix.skip(9 + 4 * (n as int)));
            match dec_entries(nsuffix) {
                Some(rest) => {
                    assert(dec_entries(suffix) == Some(seq![ev] + rest));
                    assert(acc0 + (seq![ev] + rest) =~= acc.deep_view() + rest);
                },
                None => {
                    assert(dec_entries(suffix) is None);
                },
            }
        }
    }
    proof {
        assert(b.skip(pos as int) =~= Seq::<u8>::empty());
        assert(acc.deep_view() + Seq::<EntryView>::empty() =~= acc.deep_view());
    }
    Some(acc)
}

} // verus!
