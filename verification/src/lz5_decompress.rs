//! Decompression of the LZ-family command stream, proved against the
//! stream specification in `compress`.
use vstd::prelude::*;

use crate::compress::{
    dict_byte, dict_copy_seq, incrementing_seq, lz5_decode, lz5_step, repeat_byte, word_fill_seq,
    Lz5Error,
};

verus! {

/// Copy `n` literal bytes `source[i..i + n]` as they stand.
fn decompress_direct_copy(source: &[u8], i: usize, n: usize) -> (r: Vec<u8>)
    requires
        i + n <= source@.len(),
    ensures
        r@ == source@.subrange(i as int, i as int + n as int),
{
    let len = source.len();
    let mut r: Vec<u8> = Vec::new();
    let mut k: usize = 0;
    while k < n
        invariant
            k <= n,
            i + n <= len,
            len == source@.len(),
            r@ == source@.subrange(i as int, i as int + k as int),
        decreases n - k,
    {
        r.push(source[i + k]);
        proof {
            assert(r@ =~= source@.subrange(i as int, i as int + k as int + 1));
        }
        k = k + 1;
    }
    r
}

/// Repeat one byte `n` times.
fn decompress_byte_fill(b: u8, n: usize) -> (r: Vec<u8>)
    ensures
        r@ == repeat_byte(b, n as nat),
{
    let mut r: Vec<u8> = Vec::new();
    let mut k: usize = 0;
    while k < n
        invariant
            k <= n,
            r@.len() == k,
            forall|j: int| 0 <= j < k ==> r@[j] == b,
        decreases n - k,
    {
        r.push(b);
        k = k + 1;
    }
    proof {
        assert(r@ =~= repeat_byte(b, n as nat));
    }
    r
}

/// Cycle a two-byte word for `n` bytes; an odd count truncates the
/// last cycle to its first byte.
fn decompress_word_fill(b0: u8, b1: u8, n: usize) -> (r: Vec<u8>)
    ensures
        r@ == word_fill_seq(b0, b1, n as nat),
{
    let mut r: Vec<u8> = Vec::new();
    let mut k: usize = 0;
    while k < n
        invariant
            k <= n,
            r@.len() == k,
            forall|j: int| 0 <= j < k ==> r@[j] == (if j % 2 == 0 { b0 } else { b1 }),
        decreases n - k,
    {
        if k % 2 == 0 {
            r.push(b0);
        } else {
            r.push(b1);
        }
        k = k + 1;
    }
    proof {
        assert(r@ =~= word_fill_seq(b0, b1, n as nat));
    }
    r
}

/// Count upward from `b` for `n` bytes, wrapping modulo 256.
fn decompress_incrementing_fill(b: u8, n: usize) -> (r: Vec<u8>)
    requires
        n <= 1024,
    ensures
        r@ == incrementing_seq(b, n as nat),
{
    let mut r: Vec<u8> = Vec::new();
    let mut k: usize = 0;
    while k < n
        invariant
            k <= n <= 1024,
            r@.len() == k,
            forall|j: int| 0 <= j < k ==> r@[j] == ((b + j) % 256) as u8,
        decreases n - k,
    {
        let v: usize = (b as usize + k) % 256;
        r.push(v as u8);
        k = k + 1;
    }
    proof {
        assert(r@ =~= incrementing_seq(b, n as nat));
    }
    r
}

/// Copy `n` bytes from `output[start..]` extended cyclically, so the
/// copy may reach past the end of what is produced so far; with
/// `invert` every byte is complemented.
fn copy_dictionary(output: &Vec<u8>, start: usize, n: usize, invert: bool) -> (r: Vec<u8>)
    requires
        start < output@.len(),
    ensures
        r@ == dict_copy_seq(output@, start as int, n as nat, invert),
{
    let len = output.len();
    let period = len - start;
    let mut r: Vec<u8> = Vec::new();
    let mut k: usize = 0;
    while k < n
        invariant
            k <= n,
            start < len,
            len == output@.len(),
            period == len - start,
            r@.len() == k,
            forall|j: int|
                0 <= j < k ==> r@[j] == (if invert {
                    !dict_byte(output@, start as int, j)
                } else {
                    dict_byte(output@, start as int, j)
                }),
        decreases n - k,
    {
        proof {
            assert(start + k % period < output@.len());
        }
        let b = output[start + k % period];
        if invert {
            r.push(!b);
        } else {
            r.push(b);
        }
        k = k + 1;
    }
    proof {
        assert(r@ =~= dict_copy_seq(output@, start as int, n as nat, invert));
    }
    r
}

/// Decompress a full command stream. Returns the decoded bytes exactly
/// when the stream is well formed, and fails exactly when the
/// specification calls the stream malformed: truncated before the
/// terminator or short of declared payload, or a dictionary offset
/// outside the produced output.
#[verifier::rlimit(60)]
pub fn decompress(source: &[u8]) -> (r: Result<Vec<u8>, Lz5Error>)
    ensures
        match r {
            Ok(v) => lz5_decode(source@, Seq::<u8>::empty()) == Some(v@),
            Err(_) => lz5_decode(source@, Seq::<u8>::empty()) is None,
        },
{
    let mut output: Vec<u8> = Vec::new();
    let mut i: usize = 0;
    proof {
        assert(source@.skip(0) =~= source@);
    }
    loop
        invariant
            i <= source@.len(),
            lz5_decode(source@, Seq::<u8>::empty()) == lz5_decode(source@.skip(i as int), output@),
        decreases source@.len() - i,
    {
        let ghost stream = source@.skip(i as int);
        if i >= source.len() {
            proof {
                assert(stream.len() == 0);
            }
            return Err(Lz5Error);
        }
        let h = source[i];
        proof {
            assert(stream[0] == source@[i as int]);
        }
        if h == 0xFF {
            return Ok(output);
        }
        // Parse the one- or two-byte command header.
        let op: u8;
        let n: usize;
        let j: usize;
        if h & 0xE0 == 0xE0 {
            if i + 1 >= source.len() {
                proof {
                    assert(stream.len() < 2);
                }
                return Err(Lz5Error);
            }
            let h2 = source[i + 1];
            proof {
                assert(stream[1] == source@[i as int + 1]);
            }
            proof {
                assert(h & 3 <= 3) by (bit_vector);
            }
            op = (h & 0x1C) << 3;
            n = (h & 3) as usize * 256 + h2 as usize + 1;
            j = i + 2;
        } else {
            proof {
                assert(h & 0x1F <= 31) by (bit_vector);
            }
            op = h & 0xE0;
            n = (h & 0x1F) as usize + 1;
            j = i + 1;
        }
        let ghost rest = source@.skip(j as int);
        proof {
            assert(stream.skip((j - i) as int) =~= rest);
            assert(lz5_decode(stream, output@) == lz5_step(rest, output@, op, n as nat));
        }
        // Decode the payload for this command.
        let mut delta: Vec<u8>;
        let i2: usize;
        if op == 0x00 {
            if source.len() - j < n {
                proof {
                    assert(rest.len() < n as nat);
                }
                return Err(Lz5Error);
            }
            delta = decompress_direct_copy(source, j, n);
            i2 = j + n;
            proof {
                assert(delta@ =~= rest.take(n as int));
            }
        } else if op == 0x20 {
            if j >= source.len() {
                return Err(Lz5Error);
            }
            delta = decompress_byte_fill(source[j], n);
            i2 = j + 1;
            proof {
                assert(rest[0] == source@[j as int]);
            }
        } else if op == 0x40 {
            if source.len() - j < 2 {
                proof {
                    assert(rest.len() < 2);
                }
                return Err(Lz5Error);
            }
            delta = decompress_word_fill(source[j], source[j + 1], n);
            i2 = j + 2;
            proof {
                assert(rest[0] == source@[j as int] && rest[1] == source@[j as int + 1]);
            }
        } else if op == 0x60 {
            if j >= source.len() {
                return Err(Lz5Error);
            }
            delta = decompress_incrementing_fill(source[j], n);
            i2 = j + 1;
            proof {
                assert(rest[0] == source@[j as int]);
            }
        } else if op == 0x80 || op == 0xA0 {
            if source.len() - j < 2 {
                proof {
                    assert(rest.len() < 2);
                }
                return Err(Lz5Error);
            }
            let offset = source[j] as usize + source[j + 1] as usize * 256;
            proof {
                assert(rest[0] == source@[j as int] && rest[1] == source@[j as int + 1]);
            }
            if offset >= output.len() {
                return Err(Lz5Error);
            }
            delta = copy_dictionary(&output, offset, n, op == 0xA0);
            i2 = j + 2;
        } else {
            // op is 0xC0 or 0xE0: every remaining header value selects
            // a sliding dictionary copy.
            proof {
                assert(op == 0xC0 || op == 0xE0) by (bit_vector)
                    requires
                        op == (h & 0x1C) << 3 || op == h & 0xE0,
                        op != 0x00 && op != 0x20 && op != 0x40 && op != 0x60 && op != 0x80
                            && op != 0xA0,
                        h & 0xE0 != 0xE0 ==> op == h & 0xE0,
                ;
            }
            if j >= source.len() {
                return Err(Lz5Error);
            }
            let dist = source[j] as usize;
            proof {
                assert(rest[0] == source@[j as int]);
            }
            if dist < 1 || dist > output.len() {
                return Err(Lz5Error);
            }
            delta = copy_dictionary(&output, output.len() - dist, n, op == 0xE0);
            i2 = j + 1;
        }
        proof {
            assert(source@.skip(i2 as int) =~= rest.skip((i2 - j) as int));
        }
        output.append(&mut delta);
        i = i2;
    }
}

} // verus!
