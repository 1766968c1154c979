//! Decoding of appended log chunks into complete lines. Chatlogs are
//! UTF-16 LE; gamelogs are UTF-8. The text of a line without its newline
//! yet is kept in a carry-over buffer for the next chunk, followed by the
//! bytes that do not yet form a complete unit: for a chatlog an odd last
//! byte, for a gamelog a character cut off by the end of the chunk.
//! Invalid UTF-8 in a gamelog does not stop decoding: each byte that starts
//! no well-formed character is replaced by U+FFFD.
use vstd::prelude::*;
use vstd::utf8::*;
use crate::text::{chars_of, string_of};

verus! {

/* UTF-8 */

/// The longest prefix of `b`, of at most `i` bytes, that is valid UTF-8.
pub open spec fn valid_prefix_within(b: Seq<u8>, i: int) -> int
    decreases i,
{
    if i <= 0 {
        0
    } else if valid_utf8(b.subrange(0, i)) {
        i
    } else {
        valid_prefix_within(b, i - 1)
    }
}

/// The length of the longest prefix of `b` that is valid UTF-8.
pub open spec fn valid_up_to(b: Seq<u8>) -> int {
    valid_prefix_within(b, b.len() as int)
}

proof fn lemma_valid_prefix_within(b: Seq<u8>, i: int)
    requires
        i <= b.len(),
    ensures
        0 <= valid_prefix_within(b, i) <= i || (i < 0 && valid_prefix_within(b, i) == 0),
        valid_utf8(b.subrange(0, valid_prefix_within(b, i))),
    decreases i,
{
    if i <= 0 {
        assert(b.subrange(0, 0).len() == 0);
    } else if !valid_utf8(b.subrange(0, i)) {
        lemma_valid_prefix_within(b, i - 1);
    }
}

/// The longest valid prefix is a valid prefix and no longer than `b`.
pub proof fn lemma_valid_up_to(b: Seq<u8>)
    ensures
        0 <= valid_up_to(b) <= b.len(),
        valid_utf8(b.subrange(0, valid_up_to(b))),
        valid_utf8(b) ==> valid_up_to(b) == b.len(),
{
    lemma_valid_prefix_within(b, b.len() as int);
    if valid_utf8(b) {
        assert(b.subrange(0, b.len() as int) == b);
    }
}

/// `core::str::from_utf8`. On valid UTF-8 it gives the decoded text; on
/// other bytes, the error's `valid_up_to`, which the standard library
/// documents as the largest index such that the bytes before it are valid
/// UTF-8.
#[verifier::external_body]
pub(crate) fn str_from_utf8(bytes: &[u8]) -> (r: Result<&str, usize>)
    ensures
        match r {
            Ok(s) => valid_utf8(bytes@) && s@ == decode_utf8(bytes@),
            Err(n) => !valid_utf8(bytes@) && n == valid_up_to(bytes@),
        },
{
    match core::str::from_utf8(bytes) {
        Ok(s) => Ok(s),
        Err(e) => Err(e.valid_up_to()),
    }
}

/// The number of bytes of the character that a byte starts, by its bit
/// pattern; zero for a byte that cannot start one.
pub open spec fn lead_width(b: u8) -> int {
    if is_leading_byte_width_1(b) {
        1
    } else if is_leading_byte_width_2(b) {
        2
    } else if is_leading_byte_width_3(b) {
        3
    } else if is_leading_byte_width_4(b) {
        4
    } else {
        0
    }
}

/// The bytes are a character cut off by their end: a lead byte that
/// announces more bytes than there are, followed only by continuation bytes.
pub open spec fn incomplete_char(r: Seq<u8>) -> bool {
    &&& r.len() > 0
    &&& lead_width(r[0]) >= 2
    &&& r.len() < lead_width(r[0])
    &&& forall|j: int| 1 <= j < r.len() ==> is_continuation_byte(#[trigger] r[j])
}

/// Lossy decoding of the carried-over UTF-8 bytes: each well-formed
/// character is decoded, each byte that starts none is replaced by U+FFFD,
/// and a character cut off by the end of the bytes is left over for the
/// next chunk.
pub open spec fn utf8_step(b: Seq<u8>) -> (Seq<char>, Seq<u8>)
    decreases b.len(),
{
    if b.len() == 0 {
        (Seq::empty(), Seq::empty())
    } else if valid_first_scalar(b) {
        let r = utf8_step(pop_first_scalar(b));
        (seq![decode_first_scalar(b) as char] + r.0, r.1)
    } else if incomplete_char(b) {
        (Seq::empty(), b)
    } else {
        let r = utf8_step(b.drop_first());
        (seq!['\u{fffd}'] + r.0, r.1)
    }
}

/// The lead width of the first byte bounds a well-formed first character.
proof fn lemma_first_scalar_width(x: Seq<u8>)
    requires
        valid_first_scalar(x),
    ensures
        lead_width(x[0]) == length_of_first_scalar(x),
        1 <= length_of_first_scalar(x) <= x.len(),
        pop_first_scalar(x).len() < x.len(),
{
}

/// Whether the first character is well formed, and which it is, depends
/// only on its own bytes.
proof fn lemma_first_scalar_extend(x: Seq<u8>, y: Seq<u8>)
    requires
        x.len() > 0,
        x.len() >= lead_width(x[0]),
    ensures
        valid_first_scalar(x + y) == valid_first_scalar(x),
        valid_first_scalar(x) ==> decode_first_scalar(x + y) == decode_first_scalar(x)
            && length_of_first_scalar(x + y) == length_of_first_scalar(x) && pop_first_scalar(x + y)
            == pop_first_scalar(x) + y,
{
    let z = x + y;
    let w = lead_width(x[0]);
    assert(z[0] == x[0]);
    assert(w >= 2 ==> z[1] == x[1]);
    assert(w >= 3 ==> z[2] == x[2]);
    assert(w >= 4 ==> z[3] == x[3]);
    if valid_first_scalar(x) {
        lemma_first_scalar_width(x);
        let n = length_of_first_scalar(x);
        assert(pop_first_scalar(z) =~= pop_first_scalar(x) + y);
    }
}

/// Valid UTF-8 in front of other bytes decodes as it is.
proof fn lemma_step_after_valid(p: Seq<u8>, q: Seq<u8>)
    requires
        valid_utf8(p),
    ensures
        utf8_step(p + q) == (decode_utf8(p) + utf8_step(q).0, utf8_step(q).1),
    decreases p.len(),
{
    if p.len() == 0 {
        assert(p + q =~= q);
        assert(decode_utf8(p) + utf8_step(q).0 =~= utf8_step(q).0);
    } else {
        assert(valid_first_scalar(p) && valid_utf8(pop_first_scalar(p)));
        lemma_first_scalar_width(p);
        lemma_first_scalar_extend(p, q);
        lemma_step_after_valid(pop_first_scalar(p), q);
        let c = seq![decode_first_scalar(p) as char];
        assert(c + (decode_utf8(pop_first_scalar(p)) + utf8_step(q).0) =~= (c + decode_utf8(
            pop_first_scalar(p),
        )) + utf8_step(q).0);
    }
}

/// Decoding more bytes after a chunk changes nothing of what the chunk
/// decoded: only its leftover is decoded again, with the new bytes.
proof fn lemma_step_concat(x: Seq<u8>, y: Seq<u8>)
    ensures
        utf8_step(x + y) == (
            utf8_step(x).0 + utf8_step(utf8_step(x).1 + y).0,
            utf8_step(utf8_step(x).1 + y).1,
        ),
    decreases x.len(),
{
    let z = x + y;
    if x.len() == 0 {
        assert(z =~= y);
        assert(Seq::<u8>::empty() + y =~= y);
        assert(Seq::<char>::empty() + utf8_step(y).0 =~= utf8_step(y).0);
    } else if valid_first_scalar(x) {
        lemma_first_scalar_width(x);
        lemma_first_scalar_extend(x, y);
        let px = pop_first_scalar(x);
        lemma_step_concat(px, y);
        let c = seq![decode_first_scalar(x) as char];
        assert(c + (utf8_step(px).0 + utf8_step(utf8_step(px).1 + y).0) =~= (c + utf8_step(px).0)
            + utf8_step(utf8_step(px).1 + y).0);
    } else if incomplete_char(x) {
        assert(Seq::<char>::empty() + utf8_step(z).0 =~= utf8_step(z).0);
    } else {
        let w = lead_width(x[0]);
        assert(z[0] == x[0]);
        if x.len() >= w {
            lemma_first_scalar_extend(x, y);
        } else {
            let j = choose|j: int| 1 <= j < x.len() && !is_continuation_byte(#[trigger] x[j]);
            assert(z[j] == x[j]);
            assert(!valid_first_scalar(z));
        }
        assert(!incomplete_char(z)) by {
            if x.len() < w {
                let j = choose|j: int| 1 <= j < x.len() && !is_continuation_byte(#[trigger] x[j]);
                assert(z[j] == x[j]);
            }
        }
        let dx = x.drop_first();
        assert(z.drop_first() =~= dx + y);
        lemma_step_concat(dx, y);
        let c = seq!['\u{fffd}'];
        assert(c + (utf8_step(dx).0 + utf8_step(utf8_step(dx).1 + y).0) =~= (c + utf8_step(dx).0)
            + utf8_step(utf8_step(dx).1 + y).0);
    }
}

/// Whether the bytes are a character cut off by their end.
fn is_incomplete_char(r: &Vec<u8>) -> (b: bool)
    ensures
        b == incomplete_char(r@),
{
    if r.len() == 0 {
        return false;
    }
    let b0 = r[0];
    let w: usize = if b0 <= 0x7f {
        1
    } else if 0xc0 <= b0 && b0 <= 0xdf {
        2
    } else if 0xe0 <= b0 && b0 <= 0xef {
        3
    } else if 0xf0 <= b0 && b0 <= 0xf7 {
        4
    } else {
        0
    };
    assert(w == lead_width(r@[0]));
    if w < 2 || r.len() >= w {
        return false;
    }
    let mut j: usize = 1;
    while j < r.len()
        invariant
            1 <= j <= r@.len(),
            forall|k: int| 1 <= k < j ==> is_continuation_byte(#[trigger] r@[k]),
        decreases r@.len() - j,
    {
        if !(0x80 <= r[j] && r[j] <= 0xbf) {
            return false;
        }
        j += 1;
    }
    true
}

/// The valid text of `bytes`, which the caller knows to be valid UTF-8.
fn chars_of_valid(bytes: &[u8]) -> (text: Vec<char>)
    requires
        valid_utf8(bytes@),
    ensures
        text@ == decode_utf8(bytes@),
{
    match str_from_utf8(bytes) {
        Ok(s) => chars_of(s),
        Err(_) => Vec::new(),
    }
}

fn decode_utf8_partial(partial: &mut Vec<u8>) -> (text: Vec<char>)
    ensures
        (text@, final(partial)@) == utf8_step(old(partial)@),
{
    let ghost orig = partial@;
    let mut rest: Vec<u8> = Vec::new();
    std::mem::swap(&mut rest, partial);
    let mut out: Vec<char> = Vec::new();
    assert(Seq::<char>::empty() + utf8_step(orig).0 =~= utf8_step(orig).0);
    loop
        invariant
            orig == old(partial)@,
            utf8_step(orig) == (out@ + utf8_step(rest@).0, utf8_step(rest@).1),
            partial@.len() == 0,
        decreases rest@.len(),
    {
        proof {
            lemma_valid_up_to(rest@);
        }
        match str_from_utf8(rest.as_slice()) {
            Ok(s) => {
                let ghost before = out@;
                let mut t = chars_of(s);
                out.append(&mut t);
                proof {
                    lemma_step_after_valid(rest@, Seq::<u8>::empty());
                    assert(rest@ + Seq::<u8>::empty() =~= rest@);
                    assert(utf8_step(Seq::<u8>::empty()) == (
                        Seq::<char>::empty(),
                        Seq::<u8>::empty(),
                    ));
                    assert(decode_utf8(rest@) + Seq::<char>::empty() =~= decode_utf8(rest@));
                    assert(out@ =~= before + decode_utf8(rest@));
                }
                return out;
            },
            Err(v) => {
                let ghost whole = rest@;
                let ghost before = out@;
                let mut tail = rest.split_off(v);
                assert(whole =~= rest@ + tail@);
                let mut t = chars_of_valid(rest.as_slice());
                out.append(&mut t);
                proof {
                    lemma_step_after_valid(rest@, tail@);
                    assert(out@ =~= before + decode_utf8(rest@));
                    assert(tail@.len() > 0) by {
                        if tail@.len() == 0 {
                            assert(whole =~= rest@);
                        }
                    }
                    assert(!valid_first_scalar(tail@)) by {
                        if valid_first_scalar(tail@) {
                            assert(tail@ =~= whole.subrange(v as int, whole.len() as int));
                            assert(rest@ =~= whole.subrange(0, v as int));
                            partial_valid_utf8_extend(whole, v as int);
                            lemma_first_scalar_width(tail@);
                            lemma_prefix_within_max(whole, whole.len() as int);
                            let n = length_of_first_scalar(whole.subrange(v as int, whole.len() as int));
                            assert(!valid_utf8(whole.subrange(0, v + n)));
                        }
                    }
                }
                if is_incomplete_char(&tail) {
                    *partial = tail;
                    proof {
                        assert(utf8_step(orig) == (
                            before + (decode_utf8(rest@) + Seq::<char>::empty()),
                            tail@,
                        ));
                        assert(decode_utf8(rest@) + Seq::<char>::empty() =~= decode_utf8(rest@));
                        assert(before + decode_utf8(rest@) =~= out@);
                    }
                    return out;
                }
                let ghost t0 = tail@;
                let ghost o1 = out@;
                tail.remove(0);
                out.push('\u{fffd}');
                proof {
                    assert(tail@ =~= t0.drop_first());
                    assert(o1 + (seq!['\u{fffd}'] + utf8_step(tail@).0) =~= out@ + utf8_step(
                        tail@,
                    ).0);
                }
                rest = tail;
            },
        }
    }
}

/* UTF-16 */

/// A leading (high) surrogate code unit.
pub open spec fn is_high_surrogate(u: u16) -> bool {
    0xD800 <= u <= 0xDBFF
}

/// A trailing (low) surrogate code unit.
pub open spec fn is_low_surrogate(u: u16) -> bool {
    0xDC00 <= u <= 0xDFFF
}

/// The character that a surrogate pair encodes.
pub open spec fn surrogate_pair_char(hi: u16, lo: u16) -> char {
    ((hi - 0xD800) * 0x400 + (lo - 0xDC00) + 0x10000) as char
}

/// UTF-16 decoding that replaces each unpaired surrogate with U+FFFD.
pub open spec fn utf16_decode(u: Seq<u16>) -> Seq<char>
    decreases u.len(),
{
    if u.len() == 0 {
        Seq::empty()
    } else if u.len() >= 2 && is_high_surrogate(u[0]) && is_low_surrogate(u[1]) {
        seq![surrogate_pair_char(u[0], u[1])] + utf16_decode(u.subrange(2, u.len() as int))
    } else if is_high_surrogate(u[0]) || is_low_surrogate(u[0]) {
        seq!['\u{fffd}'] + utf16_decode(u.subrange(1, u.len() as int))
    } else {
        seq![u[0] as char] + utf16_decode(u.subrange(1, u.len() as int))
    }
}

/// The UTF-16 code units of one character.
pub open spec fn utf16_units_of(c: char) -> Seq<u16> {
    if (c as u32) < 0x10000 {
        seq![c as u16]
    } else {
        seq![
            (0xD800 + ((c as u32 - 0x10000) / 0x400)) as u16,
            (0xDC00 + ((c as u32 - 0x10000) % 0x400)) as u16,
        ]
    }
}

/// UTF-16 encoding of a text.
pub open spec fn utf16_encode(s: Seq<char>) -> Seq<u16>
    decreases s.len(),
{
    if s.len() == 0 {
        Seq::empty()
    } else {
        utf16_encode(s.drop_last()) + utf16_units_of(s.last())
    }
}

/// `String::from_utf16_lossy`: decodes UTF-16, replacing each unpaired
/// surrogate with U+FFFD.
#[verifier::external_body]
fn string_from_utf16_lossy(units: &[u16]) -> (s: String)
    ensures
        s@ == utf16_decode(units@),
{
    String::from_utf16_lossy(units)
}

/// `str::encode_utf16`, collected: the UTF-16 code units of `s`.
#[verifier::external_body]
fn encode_utf16(s: &str) -> (units: Vec<u16>)
    ensures
        units@ == utf16_encode(s@),
{
    s.encode_utf16().collect()
}

/// UTF-16 encoding, first character first.
proof fn lemma_utf16_encode_front(s: Seq<char>)
    requires
        s.len() > 0,
    ensures
        utf16_encode(s) == utf16_units_of(s[0]) + utf16_encode(s.drop_first()),
        utf16_encode(s).len() >= s.len(),
    decreases s.len(),
{
    if s.len() == 1 {
        assert(s.drop_last() =~= Seq::<char>::empty());
        assert(s.drop_first() =~= Seq::<char>::empty());
        assert(utf16_units_of(s[0]) + Seq::<u16>::empty() =~= utf16_units_of(s[0]));
    } else {
        lemma_utf16_encode_front(s.drop_last());
        assert(s.drop_last().drop_first() =~= s.drop_first().drop_last());
        assert(s.drop_first().last() == s.last());
        assert(s.drop_last()[0] == s[0]);
        assert(utf16_encode(s) =~= utf16_units_of(s[0]) + utf16_encode(s.drop_first()));
    }
}

/// The encoding of one character decodes back to it, whatever follows.
proof fn lemma_decode_one_char(c: char, rest: Seq<u16>)
    ensures
        utf16_decode(utf16_units_of(c) + rest) == seq![c] + utf16_decode(rest),
{
    let u = utf16_units_of(c) + rest;
    let v = c as u32;
    if v < 0x10000 {
        assert(!(0xD800 <= v <= 0xDFFF));
        assert(u[0] == v as u16);
        assert(u.subrange(1, u.len() as int) =~= rest);
        assert((v as u16) as char == c);
    } else {
        let hi = (0xD800 + ((v - 0x10000) / 0x400)) as u16;
        let lo = (0xDC00 + ((v - 0x10000) % 0x400)) as u16;
        assert(v <= 0x10FFFF);
        assert(u[0] == hi && u[1] == lo);
        assert(is_high_surrogate(hi) && is_low_surrogate(lo));
        assert((hi - 0xD800) * 0x400 + (lo - 0xDC00) + 0x10000 == v);
        assert(surrogate_pair_char(hi, lo) == c);
        assert(u.subrange(2, u.len() as int) =~= rest);
    }
}

/// UTF-16 of a text, followed by other code units, decodes to the text
/// followed by the decoding of those units.
proof fn lemma_decode_after_encoded(r: Seq<char>, x: Seq<u16>)
    ensures
        utf16_decode(utf16_encode(r) + x) == r + utf16_decode(x),
    decreases r.len(),
{
    if r.len() == 0 {
        assert(utf16_encode(r) + x =~= x);
        assert(r + utf16_decode(x) =~= utf16_decode(x));
    } else {
        lemma_utf16_encode_front(r);
        lemma_decode_after_encoded(r.drop_first(), x);
        assert(utf16_encode(r) + x =~= utf16_units_of(r[0]) + (utf16_encode(r.drop_first()) + x));
        lemma_decode_one_char(r[0], utf16_encode(r.drop_first()) + x);
        assert(seq![r[0]] + (r.drop_first() + utf16_decode(x)) =~= r + utf16_decode(x));
    }
}

/// Decoding splits at a point that does not cut a surrogate pair.
proof fn lemma_utf16_decode_concat(u1: Seq<u16>, u2: Seq<u16>)
    requires
        !(u1.len() > 0 && u2.len() > 0 && is_high_surrogate(u1.last()) && is_low_surrogate(u2[0])),
    ensures
        utf16_decode(u1 + u2) == utf16_decode(u1) + utf16_decode(u2),
        u1.len() > 0 ==> utf16_decode(u1).len() > 0,
    decreases u1.len(),
{
    let u = u1 + u2;
    if u1.len() == 0 {
        assert(u =~= u2);
        assert(utf16_decode(u1) + utf16_decode(u2) =~= utf16_decode(u2));
    } else if u1.len() >= 2 && is_high_surrogate(u1[0]) && is_low_surrogate(u1[1]) {
        let t1 = u1.subrange(2, u1.len() as int);
        assert(u[0] == u1[0] && u[1] == u1[1]);
        assert(u.subrange(2, u.len() as int) =~= t1 + u2);
        assert(t1.len() > 0 ==> t1.last() == u1.last());
        lemma_utf16_decode_concat(t1, u2);
        assert(utf16_decode(u) =~= utf16_decode(u1) + utf16_decode(u2));
    } else {
        let t1 = u1.subrange(1, u1.len() as int);
        assert(u[0] == u1[0]);
        if u1.len() == 1 {
            assert(!(u.len() >= 2 && is_high_surrogate(u[0]) && is_low_surrogate(u[1]))) by {
                if u.len() >= 2 {
                    assert(u[1] == u2[0]);
                    assert(u1.last() == u1[0]);
                }
            }
        } else {
            assert(u[1] == u1[1]);
        }
        assert(u.subrange(1, u.len() as int) =~= t1 + u2);
        assert(t1.len() > 0 ==> t1.last() == u1.last());
        lemma_utf16_decode_concat(t1, u2);
        assert(utf16_decode(u) =~= utf16_decode(u1) + utf16_decode(u2));
    }
}

/// The little-endian code units of the first `2 * n` bytes of `b`.
pub open spec fn units_le(b: Seq<u8>, n: int) -> Seq<u16> {
    Seq::new(n as nat, |i: int| (b[2 * i] + 256 * b[2 * i + 1]) as u16)
}

/// The little-endian bytes of code units.
pub open spec fn le_bytes(u: Seq<u16>) -> Seq<u8>
    decreases u.len(),
{
    if u.len() == 0 {
        Seq::empty()
    } else {
        le_bytes(u.drop_last()) + seq![(u.last() % 256) as u8, (u.last() / 256) as u8]
    }
}

/// The little-endian bytes of code units: two per unit, low byte first.
proof fn lemma_le_bytes(u: Seq<u16>)
    ensures
        le_bytes(u).len() == 2 * u.len(),
        forall|i: int|
            0 <= i < u.len() ==> (le_bytes(u)[2 * i] + 256 * le_bytes(u)[2 * i + 1]) as u16
                == #[trigger] u[i],
    decreases u.len(),
{
    if u.len() > 0 {
        lemma_le_bytes(u.drop_last());
        let x = u.last();
        let b = le_bytes(u);
        let b0 = le_bytes(u.drop_last());
        assert forall|i: int| 0 <= i < u.len() implies (b[2 * i] + 256 * b[2 * i + 1]) as u16
            == #[trigger] u[i] by {
            if i < u.len() - 1 {
                assert(b[2 * i] == b0[2 * i] && b[2 * i + 1] == b0[2 * i + 1]);
                assert(u.drop_last()[i] == u[i]);
            } else {
                assert(b[2 * i] == (x % 256) as u8 && b[2 * i + 1] == (x / 256) as u8);
                assert(x % 256 + 256 * (x / 256) == x);
            }
        }
    }
}

/// The units of bytes that start with the bytes of units `u`.
proof fn lemma_units_after_le_bytes(u: Seq<u16>, rest: Seq<u8>, q: int)
    requires
        0 <= q,
        2 * q <= rest.len(),
    ensures
        units_le(le_bytes(u) + rest, u.len() + q) == u + units_le(rest, q),
{
    lemma_le_bytes(u);
    let b = le_bytes(u) + rest;
    assert forall|i: int| 0 <= i < u.len() + q implies #[trigger] units_le(b, u.len() + q)[i] == (u
        + units_le(rest, q))[i] by {
        if i < u.len() {
            assert(b[2 * i] == le_bytes(u)[2 * i] && b[2 * i + 1] == le_bytes(u)[2 * i + 1]);
        } else {
            let j = i - u.len();
            assert(b[2 * i] == rest[2 * j] && b[2 * i + 1] == rest[2 * j + 1]);
        }
    }
    assert(units_le(b, u.len() + q) =~= u + units_le(rest, q));
}

/// `t` without one leading byte-order mark.
pub open spec fn drop_bom(t: Seq<char>) -> Seq<char> {
    if t.len() > 0 && t[0] == '\u{feff}' {
        t.drop_first()
    } else {
        t
    }
}

/// Decoding of the carried-over UTF-16 LE bytes: the text of all whole code
/// units (one leading byte-order mark dropped) and the odd byte, if any.
pub open spec fn utf16_step(buf: Seq<u8>) -> (Seq<char>, Seq<u8>) {
    let usable = buf.len() - buf.len() % 2;
    if usable == 0 {
        (Seq::empty(), buf)
    } else {
        (
            drop_bom(utf16_decode(units_le(buf, usable / 2))),
            buf.subrange(usable, buf.len() as int),
        )
    }
}

fn units_of_le_bytes(b: &Vec<u8>, n: usize) -> (u: Vec<u16>)
    requires
        2 * n <= b.len(),
    ensures
        u@ == units_le(b@, n as int),
{
    let mut u: Vec<u16> = Vec::new();
    let mut i: usize = 0;
    while i < n
        invariant
            2 * n <= b.len(),
            i <= n,
            u@ == units_le(b@, i as int),
        decreases n - i,
    {
        let lo = b[2 * i] as u16;
        let hi = b[2 * i + 1] as u16;
        u.push(lo + 256 * hi);
        assert(u@ =~= units_le(b@, i + 1));
        i += 1;
    }
    u
}

fn drop_bom_vec(t: Vec<char>) -> (r: Vec<char>)
    ensures
        r@ == drop_bom(t@),
{
    if t.len() > 0 && t[0] == '\u{feff}' {
        let ghost t0 = t@;
        let mut t = t;
        t.remove(0);
        assert(t@ =~= drop_bom(t0));
        t
    } else {
        t
    }
}

fn decode_utf16_le_partial(partial: &mut Vec<u8>) -> (text: Vec<char>)
    ensures
        (text@, final(partial)@) == utf16_step(old(partial)@),
{
    let usable = partial.len() - partial.len() % 2;
    if usable == 0 {
        return Vec::new();
    }
    let units = units_of_le_bytes(partial, usable / 2);
    let leftover = partial.split_off(usable);
    *partial = leftover;
    let s = string_from_utf16_lossy(units.as_slice());
    drop_bom_vec(chars_of(s.as_str()))
}

/// The text of a UTF-16 LE header, whole code units only, without a
/// leading byte-order mark.
pub fn decode_utf16_prefix(bytes: &[u8]) -> (s: String)
    ensures
        s@ == utf16_step(bytes@).0,
{
    let mut v: Vec<u8> = Vec::new();
    v.extend_from_slice(bytes);
    assert(v@ =~= bytes@);
    let t = decode_utf16_le_partial(&mut v);
    string_of(&t)
}

/* Lines */

/// The pieces of `s` between newlines.
pub open spec fn split_nl(s: Seq<char>) -> Seq<Seq<char>>
    decreases s.len(),
{
    if s.len() == 0 {
        seq![Seq::empty()]
    } else {
        let p = split_nl(s.drop_last());
        if s.last() == '\n' {
            p.push(Seq::empty())
        } else {
            p.update(p.len() - 1, p.last().push(s.last()))
        }
    }
}

pub proof fn lemma_split_nl_len(s: Seq<char>)
    ensures
        split_nl(s).len() >= 1,
    decreases s.len(),
{
    if s.len() > 0 {
        lemma_split_nl_len(s.drop_last());
    }
}

/// `s` without its trailing carriage returns.
pub open spec fn trim_cr(s: Seq<char>) -> Seq<char>
    decreases s.len(),
{
    if s.len() > 0 && s.last() == '\r' {
        trim_cr(s.drop_last())
    } else {
        s
    }
}

/// The pieces without trailing carriage returns, empty ones left out.
pub open spec fn nonempty_lines(pieces: Seq<Seq<char>>) -> Seq<Seq<char>>
    decreases pieces.len(),
{
    if pieces.len() == 0 {
        Seq::empty()
    } else {
        let r = nonempty_lines(pieces.drop_last());
        let t = trim_cr(pieces.last());
        if t.len() > 0 {
            r.push(t)
        } else {
            r
        }
    }
}

/// The complete lines of `text` and the unterminated remainder. A text
/// that ends with a newline or a carriage return has no remainder.
pub open spec fn complete_lines(text: Seq<char>) -> (Seq<Seq<char>>, Seq<char>) {
    let pieces = split_nl(text);
    if text.len() == 0 {
        (Seq::empty(), Seq::empty())
    } else if text.last() == '\n' || text.last() == '\r' {
        (nonempty_lines(pieces), Seq::empty())
    } else {
        (nonempty_lines(pieces.drop_last()), trim_cr(pieces.last()))
    }
}

/// A text without newline is a single piece.
proof fn lemma_split_no_nl(s: Seq<char>)
    requires
        forall|i: int| 0 <= i < s.len() ==> s[i] != '\n',
    ensures
        split_nl(s) == seq![s],
    decreases s.len(),
{
    if s.len() > 0 {
        lemma_split_no_nl(s.drop_last());
        assert(s.drop_last().push(s.last()) =~= s);
        assert(split_nl(s) =~= seq![s]);
    } else {
        assert(s =~= Seq::<char>::empty());
    }
}

/// The last piece holds no newline; it is empty after a newline, and
/// otherwise ends with the text's last character.
proof fn lemma_split_last(s: Seq<char>)
    ensures
        split_nl(s).len() >= 1,
        forall|i: int| 0 <= i < split_nl(s).last().len() ==> split_nl(s).last()[i] != '\n',
        s.len() > 0 && s.last() == '\n' ==> split_nl(s).last().len() == 0,
        s.len() > 0 && s.last() != '\n' ==> split_nl(s).last().len() > 0 && split_nl(
            s,
        ).last().last() == s.last(),
        s.len() == 0 ==> split_nl(s) == seq![Seq::<char>::empty()],
    decreases s.len(),
{
    if s.len() > 0 {
        lemma_split_last(s.drop_last());
        let p = split_nl(s.drop_last());
        if s.last() != '\n' {
            let l = p.last().push(s.last());
            assert(split_nl(s).last() == l);
            assert forall|i: int| 0 <= i < l.len() implies l[i] != '\n' by {
                if i < p.last().len() {
                    assert(l[i] == p.last()[i]);
                }
            }
        }
    }
}

/// Splitting a concatenation: the pieces of `x` but its last, then the
/// pieces of that last piece followed by `y`.
proof fn lemma_split_concat(x: Seq<char>, y: Seq<char>)
    ensures
        split_nl(x + y) == split_nl(x).drop_last() + split_nl(split_nl(x).last() + y),
    decreases y.len(),
{
    lemma_split_last(x);
    let px = split_nl(x);
    let d = px.drop_last();
    let l = px.last();
    if y.len() == 0 {
        assert(x + y =~= x);
        assert(l + y =~= l);
        lemma_split_no_nl(l);
        assert(px =~= d + seq![l]);
    } else {
        let y1 = y.drop_last();
        let c = y.last();
        lemma_split_concat(x, y1);
        assert((x + y).drop_last() =~= x + y1);
        assert((x + y).last() == c);
        assert((l + y).drop_last() =~= l + y1);
        assert((l + y).last() == c);
        let q = split_nl(l + y1);
        lemma_split_last(l + y1);
        if c == '\n' {
            assert((d + q).push(Seq::<char>::empty()) =~= d + q.push(Seq::<char>::empty()));
        } else {
            assert((d + q).update((d + q).len() - 1, (d + q).last().push(c)) =~= d + q.update(
                q.len() - 1,
                q.last().push(c),
            ));
        }
    }
}

/// Keeping the nonempty lines commutes with concatenation.
proof fn lemma_nonempty_concat(a: Seq<Seq<char>>, b: Seq<Seq<char>>)
    ensures
        nonempty_lines(a + b) == nonempty_lines(a) + nonempty_lines(b),
    decreases b.len(),
{
    if b.len() == 0 {
        assert(a + b =~= a);
        assert(nonempty_lines(a) + nonempty_lines(b) =~= nonempty_lines(a));
    } else {
        lemma_nonempty_concat(a, b.drop_last());
        assert((a + b).drop_last() =~= a + b.drop_last());
        assert((a + b).last() == b.last());
        let t = trim_cr(b.last());
        if t.len() > 0 {
            assert((nonempty_lines(a) + nonempty_lines(b.drop_last())).push(t) =~= nonempty_lines(a)
                + nonempty_lines(b.drop_last()).push(t));
        }
    }
}

/// A text whose last character is not a carriage return is its own
/// `trim_cr`.
proof fn lemma_trim_cr_keeps(s: Seq<char>)
    requires
        s.len() == 0 || s.last() != '\r',
    ensures
        trim_cr(s) == s,
{
}

/// Reading `t1` then `t2` gives the lines and remainder of reading
/// `t1 + t2` at once.
pub open spec fn stitches(t1: Seq<char>, t2: Seq<char>) -> bool {
    let (l1, r1) = complete_lines(t1);
    let (l2, r2) = complete_lines(r1 + t2);
    (l1 + l2, r2) == complete_lines(t1 + t2)
}

proof fn lemma_stitch_after_newline(t1: Seq<char>, t2: Seq<char>)
    requires
        t1.len() > 0,
        t1.last() == '\n',
        t2.len() > 0,
    ensures
        stitches(t1, t2),
{
    let p = split_nl(t1);
    lemma_split_last(t1);
    let d = p.drop_last();
    let l = p.last();
    assert(p =~= d.push(l));
    lemma_split_concat(t1, t2);
    assert((t1 + t2).last() == t2.last());
    assert(Seq::<char>::empty() + t2 =~= t2);
    let s2 = split_nl(t2);
    lemma_split_last(t2);
    assert(l + t2 =~= t2);
    assert(nonempty_lines(p) == nonempty_lines(d));
    if t2.last() == '\n' || t2.last() == '\r' {
        lemma_nonempty_concat(d, s2);
    } else {
        assert((d + s2).drop_last() =~= d + s2.drop_last());
        lemma_nonempty_concat(d, s2.drop_last());
    }
}

/// The pieces of a text that starts with a newline.
proof fn lemma_split_leading_nl(t3: Seq<char>)
    ensures
        split_nl(seq!['\n'] + t3) == seq![Seq::<char>::empty()] + split_nl(t3),
{
    let nl = seq!['\n'];
    assert(nl.drop_last() =~= Seq::<char>::empty());
    lemma_split_last(nl.drop_last());
    assert(nl.last() == '\n');
    assert(split_nl(nl) =~= seq![Seq::<char>::empty(), Seq::<char>::empty()]);
    lemma_split_concat(nl, t3);
    assert(Seq::<char>::empty() + t3 =~= t3);
    assert(split_nl(nl).drop_last() =~= seq![Seq::<char>::empty()]);
}

/// The pieces of a newline-free text `l`, a newline, then `t3`.
proof fn lemma_split_piece_nl(l: Seq<char>, t3: Seq<char>)
    requires
        forall|i: int| 0 <= i < l.len() ==> l[i] != '\n',
    ensures
        split_nl(l + (seq!['\n'] + t3)) == seq![l] + split_nl(t3),
{
    let nl = seq!['\n'];
    assert(l + (nl + t3) =~= (l + nl) + t3);
    lemma_split_no_nl(l);
    assert((l + nl).drop_last() =~= l);
    assert((l + nl).last() == '\n');
    assert(split_nl(l + nl) =~= seq![l, Seq::<char>::empty()]);
    lemma_split_concat(l + nl, t3);
    assert(Seq::<char>::empty() + t3 =~= t3);
    assert(split_nl(l + nl).drop_last() =~= seq![l]);
}

proof fn lemma_stitch_after_cr(t1: Seq<char>, t2: Seq<char>)
    requires
        t1.len() > 0,
        t1.last() == '\r',
        t2.len() > 0,
        t2[0] == '\n',
    ensures
        stitches(t1, t2),
{
    let p = split_nl(t1);
    lemma_split_last(t1);
    let d = p.drop_last();
    let l = p.last();
    assert(p =~= d.push(l));
    lemma_split_concat(t1, t2);
    assert((t1 + t2).last() == t2.last());
    assert(Seq::<char>::empty() + t2 =~= t2);
    let t3 = t2.drop_first();
    let nl = seq!['\n'];
    assert(t2 =~= nl + t3);
    lemma_split_piece_nl(l, t3);
    lemma_split_leading_nl(t3);
    let s2 = split_nl(t2);
    let s3 = split_nl(t3);
    lemma_split_last(t3);
    let e = seq![Seq::<char>::empty()];
    assert(split_nl(t1 + t2) =~= p + s3);
    assert(nonempty_lines(e) =~= Seq::<Seq<char>>::empty()) by {
        assert(e.drop_last() =~= Seq::<Seq<char>>::empty());
        assert(nonempty_lines(e.drop_last()) =~= Seq::<Seq<char>>::empty());
        assert(e.last() == Seq::<char>::empty());
        assert(trim_cr(e.last()).len() == 0);
    }
    if t2.last() == '\n' || t2.last() == '\r' {
        lemma_nonempty_concat(p, s3);
        lemma_nonempty_concat(e, s3);
        assert(Seq::<Seq<char>>::empty() + nonempty_lines(s3) =~= nonempty_lines(s3));
    } else {
        assert(t3.len() > 0 && t3.last() == t2.last());
        assert((p + s3).drop_last() =~= p + s3.drop_last());
        assert(s2.drop_last() =~= e + s3.drop_last());
        lemma_nonempty_concat(p, s3.drop_last());
        lemma_nonempty_concat(e, s3.drop_last());
        assert(Seq::<Seq<char>>::empty() + nonempty_lines(s3.drop_last()) =~= nonempty_lines(
            s3.drop_last(),
        ));
        assert(s2.last() == s3.last());
    }
}

proof fn lemma_stitch_mid_line(t1: Seq<char>, t2: Seq<char>)
    requires
        t1.len() > 0,
        t1.last() != '\n' && t1.last() != '\r',
    ensures
        stitches(t1, t2),
{
    let p = split_nl(t1);
    lemma_split_last(t1);
    let d = p.drop_last();
    let l = p.last();
    assert(p =~= d.push(l));
    lemma_trim_cr_keeps(l);
    if t2.len() == 0 {
        assert(t1 + t2 =~= t1);
        assert(l + t2 =~= l);
        lemma_split_no_nl(l);
        assert(split_nl(l).drop_last() =~= Seq::<Seq<char>>::empty());
        assert(nonempty_lines(d) + Seq::<Seq<char>>::empty() =~= nonempty_lines(d));
    } else {
        lemma_split_concat(t1, t2);
        assert((t1 + t2).last() == t2.last());
        let s = split_nl(l + t2);
        lemma_split_last(l + t2);
        assert((l + t2).last() == t2.last());
        if t2.last() == '\n' || t2.last() == '\r' {
            lemma_nonempty_concat(d, s);
        } else {
            assert((d + s).drop_last() =~= d + s.drop_last());
            lemma_nonempty_concat(d, s.drop_last());
        }
    }
}

/// Reading text in two parts gives what reading it at once gives: the
/// complete lines of the first part, then those of its unterminated
/// remainder followed by the second part, are the complete lines of the
/// whole, with the same remainder. This fails only where the first part
/// ends with a carriage return and the second does not start with a
/// newline: read at once, that carriage return sits inside a line.
pub proof fn law_complete_lines_stitch(t1: Seq<char>, t2: Seq<char>)
    requires
        !(t1.len() > 0 && t1.last() == '\r' && t2.len() > 0 && t2[0] != '\n'),
    ensures
        stitches(t1, t2),
{
    if t1.len() == 0 {
        assert(t1 + t2 =~= t2);
        assert(Seq::<char>::empty() + t2 =~= t2);
        assert(Seq::<Seq<char>>::empty() + complete_lines(t2).0 =~= complete_lines(t2).0);
    } else if t2.len() == 0 && (t1.last() == '\n' || t1.last() == '\r') {
        assert(t1 + t2 =~= t1);
        assert(Seq::<char>::empty() + t2 =~= Seq::<char>::empty());
        assert(complete_lines(t1).0 + Seq::<Seq<char>>::empty() =~= complete_lines(t1).0);
    } else if t1.last() == '\n' {
        lemma_stitch_after_newline(t1, t2);
    } else if t1.last() == '\r' {
        lemma_stitch_after_cr(t1, t2);
    } else {
        lemma_stitch_mid_line(t1, t2);
    }
}

/// The texts of a sequence of strings.
pub open spec fn strings_view(v: Seq<String>) -> Seq<Seq<char>> {
    Seq::new(v.len(), |i: int| v[i]@)
}

fn trim_cr_vec(v: &Vec<char>) -> (r: Vec<char>)
    ensures
        r@ == trim_cr(v@),
{
    let mut b: usize = v.len();
    assert(v@.subrange(0, v.len() as int) == v@);
    while b > 0 && v[b - 1] == '\r'
        invariant
            b <= v.len(),
            trim_cr(v@.subrange(0, b as int)) == trim_cr(v@),
        decreases b,
    {
        assert(v@.subrange(0, b as int).drop_last() == v@.subrange(0, b - 1));
        b -= 1;
    }
    crate::text::slice_of(v, 0, b)
}

/// Splits decoded text into complete lines; the unterminated remainder is
/// returned for re-encoding.
pub fn take_complete_lines(text: &str) -> (r: (Vec<String>, String))
    ensures
        (strings_view(r.0@), r.1@) == complete_lines(text@),
{
    let t = chars_of(text);
    if t.len() == 0 {
        let lines: Vec<String> = Vec::new();
        assert(strings_view(lines@) =~= Seq::<Seq<char>>::empty());
        return (lines, String::new());
    }
    let mut lines: Vec<String> = Vec::new();
    let mut cur: Vec<char> = Vec::new();
    let mut i: usize = 0;
    while i < t.len()
        invariant
            i <= t.len(),
            strings_view(lines@) == nonempty_lines(split_nl(t@.take(i as int)).drop_last()),
            cur@ == split_nl(t@.take(i as int)).last(),
            split_nl(t@.take(i as int)).len() >= 1,
        decreases t.len() - i,
    {
        let ghost pre = t@.take(i as int);
        assert(t@.take(i + 1).drop_last() == pre);
        proof {
            lemma_split_nl_len(pre);
        }
        let c = t[i];
        if c == '\n' {
            let piece = trim_cr_vec(&cur);
            if piece.len() > 0 {
                let ghost old_lines = lines@;
                lines.push(string_of(&piece));
                assert(strings_view(lines@) =~= strings_view(old_lines).push(piece@));
            }
            assert(split_nl(t@.take(i + 1)).drop_last() =~= split_nl(pre));
            cur = Vec::new();
        } else {
            cur.push(c);
            assert(split_nl(t@.take(i + 1)).drop_last() =~= split_nl(pre).drop_last());
        }
        i += 1;
    }
    assert(t@.take(t.len() as int) == t@);
    let last = t[t.len() - 1];
    if last == '\n' || last == '\r' {
        let piece = trim_cr_vec(&cur);
        if piece.len() > 0 {
            let ghost old_lines = lines@;
            lines.push(string_of(&piece));
            assert(strings_view(lines@) =~= strings_view(old_lines).push(piece@));
        }
        proof {
            let p = split_nl(t@);
            assert(p =~= p.drop_last().push(p.last()));
        }
        (lines, String::new())
    } else {
        let rem = trim_cr_vec(&cur);
        (lines, string_of(&rem))
    }
}

/* Chunks */

/// The bytes under which a remainder line waits for the next chunk.
pub open spec fn encode_remainder(is_chatlog: bool, rem: Seq<char>) -> Seq<u8> {
    if is_chatlog {
        le_bytes(utf16_encode(rem))
    } else {
        encode_utf8(rem)
    }
}

/// The complete lines that a chunk yields and the new carry-over buffer,
/// for the carried-over bytes followed by the new bytes `buf`.
pub open spec fn decode_chunk_spec(is_chatlog: bool, buf: Seq<u8>) -> (Seq<Seq<char>>, Seq<u8>) {
    let (text, left) = if is_chatlog {
        utf16_step(buf)
    } else {
        utf8_step(buf)
    };
    let (lines, rem) = complete_lines(text);
    if rem.len() > 0 {
        (lines, encode_remainder(is_chatlog, rem) + left)
    } else {
        (lines, left)
    }
}



/// No prefix longer than the longest valid one, within `n` bytes, is valid.
proof fn lemma_prefix_within_max(b: Seq<u8>, n: int)
    requires
        n <= b.len(),
    ensures
        forall|i: int| valid_prefix_within(b, n) < i <= n ==> !valid_utf8(#[trigger] b.subrange(0, i)),
    decreases n,
{
    if n > 0 && !valid_utf8(b.subrange(0, n)) {
        lemma_prefix_within_max(b, n - 1);
    }
}

/// What a gamelog chunk yields, in terms of one UTF-8 step.
proof fn lemma_utf8_chunk_any(buf: Seq<u8>)
    ensures
        decode_chunk_spec(false, buf) == (
            complete_lines(utf8_step(buf).0).0,
            encode_utf8(complete_lines(utf8_step(buf).0).1) + utf8_step(buf).1,
        ),
{
    let rem = complete_lines(utf8_step(buf).0).1;
    if rem.len() == 0 {
        assert(rem =~= Seq::<char>::empty());
        assert(encode_utf8(rem) + utf8_step(buf).1 =~= utf8_step(buf).1);
    }
}

/// Reading a gamelog in two chunks gives what reading both at once gives:
/// the lines of the first read followed by those of the second, and the
/// same carry-over, wherever the chunks split the bytes, even inside a
/// character, and whatever the bytes are. Stated without the one split
/// where it fails: the text of the first read ends with a carriage return
/// and the text that the second read adds does not start with a newline.
pub proof fn law_utf8_chunks_stitch(buf: Seq<u8>, next: Seq<u8>)
    requires
        !(utf8_step(buf).0.len() > 0 && utf8_step(buf).0.last() == '\r' && utf8_step(
            utf8_step(buf).1 + next,
        ).0.len() > 0 && utf8_step(utf8_step(buf).1 + next).0[0] != '\n'),
    ensures
        ({
            let (l1, p1) = decode_chunk_spec(false, buf);
            let (l2, p2) = decode_chunk_spec(false, p1 + next);
            (l1 + l2, p2) == decode_chunk_spec(false, buf + next)
        }),
{
    let all = buf + next;
    let t1 = utf8_step(buf).0;
    let y = utf8_step(buf).1 + next;
    let t2 = utf8_step(y).0;
    lemma_step_concat(buf, next);
    lemma_utf8_chunk_any(all);
    lemma_utf8_chunk_any(buf);
    let r1 = complete_lines(t1).1;
    let e = encode_utf8(r1);
    encode_utf8_valid_utf8(r1);
    encode_utf8_decode_utf8(r1);
    let p1 = decode_chunk_spec(false, buf).1;
    assert(p1 + next =~= e + y);
    lemma_step_after_valid(e, y);
    lemma_utf8_chunk_any(e + y);
    law_complete_lines_stitch(t1, t2);
}

/// A partial line put in the carry-over buffer decodes back to itself:
/// always for a gamelog, and for a chatlog when it does not start with
/// U+FEFF, which decoding drops as a byte-order mark.
pub proof fn law_remainder_round_trip(is_chatlog: bool, rem: Seq<char>)
    requires
        is_chatlog ==> !(rem.len() > 0 && rem[0] == '\u{feff}'),
    ensures
        (if is_chatlog {
            utf16_step(encode_remainder(true, rem))
        } else {
            utf8_step(encode_remainder(false, rem))
        }) == (rem, Seq::<u8>::empty()),
{
    if is_chatlog {
        let e = utf16_encode(rem);
        let b = le_bytes(e);
        lemma_le_bytes(e);
        lemma_units_after_le_bytes(e, Seq::<u8>::empty(), 0);
        assert(b + Seq::<u8>::empty() =~= b);
        assert(units_le(Seq::<u8>::empty(), 0) =~= Seq::<u16>::empty());
        assert(e + Seq::<u16>::empty() =~= e);
        lemma_decode_after_encoded(rem, Seq::<u16>::empty());
        assert(utf16_decode(Seq::<u16>::empty()) =~= Seq::<char>::empty());
        assert(rem + Seq::<char>::empty() =~= rem);
        if rem.len() > 0 {
            lemma_utf16_encode_front(rem);
        } else {
            assert(e =~= Seq::<u16>::empty());
        }
        assert(b.subrange(b.len() as int, b.len() as int) =~= Seq::<u8>::empty());
    } else {
        let b = encode_utf8(rem);
        encode_utf8_valid_utf8(rem);
        encode_utf8_decode_utf8(rem);
        lemma_step_after_valid(b, Seq::<u8>::empty());
        assert(b + Seq::<u8>::empty() =~= b);
        assert(rem + Seq::<char>::empty() =~= rem);
    }
}

/// The whole little-endian code units of `b`.
pub open spec fn whole_units(b: Seq<u8>) -> Seq<u16> {
    units_le(b, (b.len() / 2) as int)
}

/// What a chatlog chunk of at least one whole code unit leaves: the lines
/// of its text and the UTF-16 of the remainder before the odd byte.
proof fn lemma_utf16_chunk(buf: Seq<u8>)
    requires
        buf.len() >= 2,
    ensures
        decode_chunk_spec(true, buf) == (
            complete_lines(utf16_step(buf).0).0,
            le_bytes(utf16_encode(complete_lines(utf16_step(buf).0).1)) + buf.subrange(
                2 * (buf.len() / 2) as int,
                buf.len() as int,
            ),
        ),
        utf16_step(buf) == (
            drop_bom(utf16_decode(whole_units(buf))),
            buf.subrange(2 * (buf.len() / 2) as int, buf.len() as int),
        ),
{
    let rem = complete_lines(utf16_step(buf).0).1;
    if rem.len() == 0 {
        assert(rem =~= Seq::<char>::empty());
        let left = buf.subrange(2 * (buf.len() / 2) as int, buf.len() as int);
        assert(le_bytes(utf16_encode(rem)) + left =~= left);
    }
}

/// Reading a chatlog in two chunks gives what reading both at once gives:
/// the lines of the first read followed by those of the second, and the
/// same carry-over, wherever the chunks split the bytes, even inside a
/// code unit. Stated without the splits where it fails: the first read
/// ends between the two halves of a surrogate pair; the text that the
/// second read decodes starts with U+FEFF, which it drops as a byte-order
/// mark; or the text of the first read ends with a carriage return and
/// the text after it does not start with a newline.
#[verifier::rlimit(40)]
pub proof fn law_utf16_chunks_stitch(buf: Seq<u8>, next: Seq<u8>)
    requires
        ({
            let m = (buf.len() / 2) as int;
            let u = whole_units(buf + next);
            let t1 = utf16_step(buf).0;
            let r1 = complete_lines(t1).1;
            let t2 = utf16_decode(u.subrange(m, u.len() as int));
            m > 0 ==> {
                &&& !(m < u.len() && is_high_surrogate(u[m - 1]) && is_low_surrogate(u[m]))
                &&& !((r1 + t2).len() > 0 && (r1 + t2)[0] == '\u{feff}')
                &&& !(t1.len() > 0 && t1.last() == '\r' && t2.len() > 0 && t2[0] != '\n')
            }
        }),
    ensures
        ({
            let (l1, p1) = decode_chunk_spec(true, buf);
            let (l2, p2) = decode_chunk_spec(true, p1 + next);
            (l1 + l2, p2) == decode_chunk_spec(true, buf + next)
        }),
{
    let all = buf + next;
    let m = (buf.len() / 2) as int;
    let n = (all.len() / 2) as int;
    let u = whole_units(all);
    if m == 0 {
        assert(utf16_step(buf) == (Seq::<char>::empty(), buf));
        assert(complete_lines(Seq::<char>::empty()) == (
            Seq::<Seq<char>>::empty(),
            Seq::<char>::empty(),
        ));
        let l2 = decode_chunk_spec(true, buf + next).0;
        assert(Seq::<Seq<char>>::empty() + l2 =~= l2);
        return;
    }
    lemma_utf16_chunk(buf);
    let u1 = whole_units(buf);
    assert(u1 =~= u.subrange(0, m));
    let u2 = u.subrange(m, n);
    assert(u =~= u1 + u2);
    let t1 = utf16_step(buf).0;
    let (l1, r1) = complete_lines(t1);
    let t2 = utf16_decode(u2);
    let e = utf16_encode(r1);
    let left = buf.subrange(2 * m, buf.len() as int);
    let p1 = le_bytes(e) + left;
    assert(decode_chunk_spec(true, buf) == (l1, p1));
    let rr = all.subrange(2 * m, all.len() as int);
    assert(left + next =~= rr);
    let x = p1 + next;
    assert(x =~= le_bytes(e) + rr);
    lemma_le_bytes(e);
    let q = n - m;
    assert(x.len() == 2 * e.len() + rr.len());
    assert(x.len() / 2 == e.len() + q);
    lemma_units_after_le_bytes(e, rr, q);
    assert(units_le(rr, q) =~= u2);
    assert(whole_units(x) == e + u2);
    // The whole data at once.
    lemma_utf16_chunk(all);
    lemma_utf16_decode_concat(u1, u2);
    assert(drop_bom(utf16_decode(u)) =~= t1 + t2);
    assert(x.subrange(2 * (x.len() / 2) as int, x.len() as int) =~= all.subrange(2 * n, all.len() as int));
    if x.len() < 2 {
        assert(e.len() == 0);
        if r1.len() > 0 {
            lemma_utf16_encode_front(r1);
        }
        assert(r1 =~= Seq::<char>::empty());
        assert(q == 0);
        assert(u2 =~= Seq::<u16>::empty());
        assert(t1 + t2 =~= t1);
        assert(utf16_step(x) == (Seq::<char>::empty(), x));
        assert(complete_lines(Seq::<char>::empty()) == (
            Seq::<Seq<char>>::empty(),
            Seq::<char>::empty(),
        ));
        assert(l1 + Seq::<Seq<char>>::empty() =~= l1);
        assert(x =~= rr);
        assert(le_bytes(utf16_encode(r1)) =~= Seq::<u8>::empty());
        assert(rr =~= all.subrange(2 * n, all.len() as int));
        assert(le_bytes(utf16_encode(r1)) + rr =~= rr);
    } else {
        lemma_utf16_chunk(x);
        lemma_decode_after_encoded(r1, u2);
        assert(utf16_step(x).0 == r1 + t2);
        law_complete_lines_stitch(t1, t2);
    }
}

fn le_bytes_of(u: &Vec<u16>) -> (b: Vec<u8>)
    ensures
        b@ == le_bytes(u@),
{
    let mut b: Vec<u8> = Vec::new();
    let mut i: usize = 0;
    while i < u.len()
        invariant
            i <= u.len(),
            b@ == le_bytes(u@.take(i as int)),
        decreases u.len() - i,
    {
        assert(u@.take(i + 1).drop_last() == u@.take(i as int));
        b.push((u[i] % 256) as u8);
        b.push((u[i] / 256) as u8);
        i += 1;
    }
    assert(u@.take(u.len() as int) == u@);
    b
}

/// Re-encodes a partial line so it can live in the carry-over buffer.
fn encode_partial(is_chatlog: bool, remainder: &str) -> (b: Vec<u8>)
    ensures
        b@ == encode_remainder(is_chatlog, remainder@),
{
    if is_chatlog {
        let units = encode_utf16(remainder);
        le_bytes_of(&units)
    } else {
        let bytes = remainder.as_bytes();
        let mut v: Vec<u8> = Vec::new();
        v.extend_from_slice(bytes);
        v
    }
}

/// Decodes a newly read chunk, combining the carried-over encoding bytes
/// and partial line of the previous read with `new_data`. Returns the
/// complete lines without their newline; what is left waits in `partial`.
pub fn decode_log_chunk(is_chatlog: bool, partial: &mut Vec<u8>, new_data: &[u8]) -> (lines: Vec<
    String,
>)
    ensures
        (strings_view(lines@), final(partial)@) == decode_chunk_spec(
            is_chatlog,
            old(partial)@ + new_data@,
        ),
{
    partial.extend_from_slice(new_data);
    let ghost buf = partial@;
    assert(buf =~= old(partial)@ + new_data@);
    let text = if is_chatlog {
        decode_utf16_le_partial(partial)
    } else {
        decode_utf8_partial(partial)
    };
    let ts = string_of(&text);
    let (lines, rem) = take_complete_lines(ts.as_str());
    if !rem.as_str().is_empty() {
        let mut leftover: Vec<u8> = Vec::new();
        std::mem::swap(&mut leftover, partial);
        let mut enc = encode_partial(is_chatlog, rem.as_str());
        enc.extend_from_slice(leftover.as_slice());
        *partial = enc;
        assert(partial@ =~= encode_remainder(is_chatlog, rem@) + leftover@);
    }
    lines
}

} // verus!
