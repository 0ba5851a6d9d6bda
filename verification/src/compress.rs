//! Specification of the LZ-family compressed stream format.
//!
//! A compressed blob is a sequence of commands terminated by the byte
//! 0xFF. A command starts with a one-byte header `CCCB_BBBB` (top three
//! bits are the operation, low five bits the count minus one), or, when
//! the top three bits are all set, a two-byte extended header
//! `111C_CCBB BBBB_BBBB` carrying a three-bit operation and a ten-bit
//! count minus one. The operations: direct copy of literal bytes, one-
//! byte fill, two-byte word fill, incrementing fill, and two dictionary
//! copies out of the already-produced output (absolute two-byte index,
//! or one-byte backward distance), each with an inverting variant.
use vstd::prelude::*;

verus! {

/// Failure to decompress a malformed compressed stream.
#[derive(Debug, Clone, Copy, PartialEq, Eq, Structural)]
pub struct Lz5Error;

/// `n` repetitions of one byte.
pub open spec fn repeat_byte(b: u8, n: nat) -> Seq<u8> {
    Seq::new(n, |i: int| b)
}

/// `n` bytes cycling a two-byte word; an odd count truncates the last
/// cycle to its first byte.
pub open spec fn word_fill_seq(b0: u8, b1: u8, n: nat) -> Seq<u8> {
    Seq::new(n, |i: int| if i % 2 == 0 { b0 } else { b1 })
}

/// `n` bytes counting up from `b`, wrapping modulo 256.
pub open spec fn incrementing_seq(b: u8, n: nat) -> Seq<u8> {
    Seq::new(n, |i: int| ((b + i) % 256) as u8)
}

/// The byte a dictionary copy starting at `start` reads at position
/// `i`: the suffix `out[start..]` extended cyclically, so a copy may
/// outrun the end of `out` (a self-overlapping run).
pub open spec fn dict_byte(out: Seq<u8>, start: int, i: int) -> u8
    recommends
        0 <= start < out.len(),
        0 <= i,
{
    out[start + i % (out.len() - start)]
}

/// `n` bytes copied cyclically from `out[start..]`; with `invert` every
/// copied byte is complemented.
pub open spec fn dict_copy_seq(out: Seq<u8>, start: int, n: nat, invert: bool) -> Seq<u8>
    recommends
        0 <= start < out.len(),
{
    Seq::new(n, |i: int| if invert { !dict_byte(out, start, i) } else { dict_byte(out, start, i) })
}

/// Decode the command stream `stream` onto the already-produced output
/// `out`. `None` is a decode error: a truncated stream (no terminator,
/// or fewer payload bytes than a header declares) or a dictionary
/// offset that does not point into the produced output.
pub open spec fn lz5_decode(stream: Seq<u8>, out: Seq<u8>) -> Option<Seq<u8>>
    decreases stream.len(), 1int,
{
    if stream.len() == 0 {
        None
    } else if stream[0] == 0xFF {
        Some(out)
    } else if stream[0] & 0xE0 == 0xE0 {
        if stream.len() < 2 {
            None
        } else {
            lz5_step(
                stream.skip(2),
                out,
                (stream[0] & 0x1C) << 3,
                ((stream[0] & 3) * 256 + stream[1] + 1) as nat,
            )
        }
    } else {
        lz5_step(stream.skip(1), out, stream[0] & 0xE0, ((stream[0] & 0x1F) + 1) as nat)
    }
}

/// Decode one command's payload and recurse on the rest of the stream.
/// `op` is the operation selector, `n` the count (at least 1).
pub open spec fn lz5_step(rest: Seq<u8>, out: Seq<u8>, op: u8, n: nat) -> Option<Seq<u8>>
    decreases rest.len(), 0int,
{
    if n == 0 {
        None
    } else if op == 0x00 {
        if rest.len() < n {
            None
        } else {
            lz5_decode(rest.skip(n as int), out + rest.take(n as int))
        }
    } else if op == 0x20 {
        if rest.len() < 1 {
            None
        } else {
            lz5_decode(rest.skip(1), out + repeat_byte(rest[0], n))
        }
    } else if op == 0x40 {
        if rest.len() < 2 {
            None
        } else {
            lz5_decode(rest.skip(2), out + word_fill_seq(rest[0], rest[1], n))
        }
    } else if op == 0x60 {
        if rest.len() < 1 {
            None
        } else {
            lz5_decode(rest.skip(1), out + incrementing_seq(rest[0], n))
        }
    } else if op == 0x80 || op == 0xA0 {
        if rest.len() < 2 {
            None
        } else {
            let start = rest[0] + rest[1] * 256;
            if start < out.len() {
                lz5_decode(rest.skip(2), out + dict_copy_seq(out, start as int, n, op == 0xA0))
            } else {
                None
            }
        }
    } else if op == 0xC0 || op == 0xE0 {
        if rest.len() < 1 {
            None
        } else {
            let dist = rest[0] as int;
            if 1 <= dist <= out.len() {
                lz5_decode(
                    rest.skip(1),
                    out + dict_copy_seq(out, out.len() - dist, n, op == 0xE0),
                )
            } else {
                None
            }
        }
    } else {
        None
    }
}

/// The one- or two-byte header that encodes operation `op` with count
/// `n`: counts up to 32 fit the one-byte form, larger counts take the
/// extended two-byte form.
pub open spec fn cmd_header(op: u8, n: nat) -> Seq<u8>
    recommends
        1 <= n <= 1024,
{
    if n <= 32 {
        seq![(op + n - 1) as u8]
    } else {
        seq![(0xE0 + op / 8 + (n - 1) / 256) as u8, ((n - 1) % 256) as u8]
    }
}

/// `stream` is a run of whole commands that, decoded onto `out0`,
/// extends the produced output to `out1`: decoding it followed by any
/// continuation equals decoding that continuation from `out1`.
pub open spec fn emits(stream: Seq<u8>, out0: Seq<u8>, out1: Seq<u8>) -> bool {
    forall|rest: Seq<u8>| #[trigger] lz5_decode(stream + rest, out0) == lz5_decode(rest, out1)
}

pub proof fn lemma_emits_empty(out: Seq<u8>)
    ensures
        emits(Seq::<u8>::empty(), out, out),
{
    assert forall|rest: Seq<u8>|
        #[trigger] lz5_decode(Seq::<u8>::empty() + rest, out) == lz5_decode(rest, out) by {
        assert(Seq::<u8>::empty() + rest =~= rest);
    }
}

/// Command runs compose: decoding `a` then `b` extends the output as
/// the two runs do in sequence.
pub proof fn lemma_emits_trans(a: Seq<u8>, b: Seq<u8>, out0: Seq<u8>, out1: Seq<u8>, out2: Seq<u8>)
    requires
        emits(a, out0, out1),
        emits(b, out1, out2),
    ensures
        emits(a + b, out0, out2),
{
    assert forall|rest: Seq<u8>|
        #[trigger] lz5_decode((a + b) + rest, out0) == lz5_decode(rest, out2) by {
        assert((a + b) + rest =~= a + (b + rest));
        assert(lz5_decode(a + (b + rest), out0) == lz5_decode(b + rest, out1));
    }
}

/// One well-formed command — header, then payload — decodes onto `out`
/// by appending exactly the bytes `delta` that its operation produces.
pub proof fn lemma_emits_command(op: u8, n: nat, payload: Seq<u8>, out: Seq<u8>, delta: Seq<u8>)
    requires
        1 <= n <= 1024,
        op == 0x00 || op == 0x20 || op == 0x40 || op == 0x60 || op == 0x80 || op == 0xC0,
        op == 0x00 ==> payload.len() == n && delta == payload,
        op == 0x20 ==> payload.len() == 1 && delta == repeat_byte(payload[0], n),
        op == 0x40 ==> payload.len() == 2 && delta == word_fill_seq(payload[0], payload[1], n),
        op == 0x60 ==> payload.len() == 1 && delta == incrementing_seq(payload[0], n),
        op == 0x80 ==> payload.len() == 2 && payload[0] + payload[1] * 256 < out.len() && delta
            == dict_copy_seq(out, payload[0] + payload[1] * 256, n, false),
        op == 0xC0 ==> payload.len() == 1 && 1 <= payload[0] <= out.len() && delta
            == dict_copy_seq(out, out.len() - payload[0], n, false),
    ensures
        emits(cmd_header(op, n) + payload, out, out + delta),
{
    let enc = cmd_header(op, n) + payload;
    assert forall|rest: Seq<u8>|
        #[trigger] lz5_decode(enc + rest, out) == lz5_decode(rest, out + delta) by {
        let s = enc + rest;
        let tail = payload + rest;
        if n <= 32 {
            let h = (op + n - 1) as u8;
            let d = (n - 1) as u8;
            assert(op + n - 1 < 256);
            assert(h & 0xE0 == op && (h & 0x1F) == d && h != 0xFF && !(h & 0xE0 == 0xE0))
                by (bit_vector)
                requires
                    h == op + d,
                    d < 32,
                    op == 0x00 || op == 0x20 || op == 0x40 || op == 0x60 || op == 0x80 || op
                        == 0xC0,
            ;
            assert(s[0] == h);
            assert(s.skip(1) =~= tail);
            assert(lz5_decode(s, out) == lz5_step(tail, out, op, n));
        } else {
            let d = (n - 1) as nat;
            let h1 = (0xE0 + op / 8 + d / 256) as u8;
            let h2 = (d % 256) as u8;
            let d1 = (d / 256) as u8;
            assert(d1 <= 3 && 0xE0 + op / 8 + d / 256 < 256);
            assert(h1 & 0xE0 == 0xE0 && h1 != 0xFF && (h1 & 0x1C) << 3 == op && h1 & 3 == d1)
                by (bit_vector)
                requires
                    h1 == 0xE0 + op / 8 + d1,
                    d1 <= 3,
                    op == 0x00 || op == 0x20 || op == 0x40 || op == 0x60 || op == 0x80 || op
                        == 0xC0,
            ;
            assert((h1 & 3) * 256 + h2 + 1 == n);
            assert(s[0] == h1 && s[1] == h2);
            assert(s.skip(2) =~= tail);
            assert(lz5_decode(s, out) == lz5_step(tail, out, op, n));
        }
        if op == 0x00 {
            assert(tail.len() >= n);
            assert(tail.take(n as int) =~= payload);
            assert(tail.skip(n as int) =~= rest);
        } else if op == 0x40 || op == 0x80 {
            assert(tail[0] == payload[0] && tail[1] == payload[1]);
            assert(tail.skip(2) =~= rest);
        } else {
            assert(tail[0] == payload[0]);
            assert(tail.skip(1) =~= rest);
        }
        assert(lz5_step(tail, out, op, n) == lz5_decode(rest, out + delta));
    }
}

/// A fill command of any expressible count, short or extended header,
/// decodes to exactly `n` repetitions of its payload byte.
pub proof fn lemma_fill_command_decodes(b: u8, n: nat)
    requires
        1 <= n <= 1024,
    ensures
        lz5_decode(cmd_header(0x20, n) + seq![b] + seq![0xFF], Seq::<u8>::empty()) == Some(
            repeat_byte(b, n),
        ),
{
    lemma_emits_command(0x20, n, seq![b], Seq::<u8>::empty(), repeat_byte(b, n));
    let enc = cmd_header(0x20, n) + seq![b];
    let fin = seq![0xFFu8];
    assert(lz5_decode(enc + fin, Seq::<u8>::empty()) == lz5_decode(
        fin,
        Seq::<u8>::empty() + repeat_byte(b, n),
    ));
    assert(lz5_decode(fin, Seq::<u8>::empty() + repeat_byte(b, n)) == Some(
        Seq::<u8>::empty() + repeat_byte(b, n),
    ));
    assert(Seq::<u8>::empty() + repeat_byte(b, n) =~= repeat_byte(b, n));
    assert(cmd_header(0x20, n) + seq![b] + seq![0xFF] == enc + fin);
}

} // verus!
