//! Greedy single-pass compression into the LZ-family command stream.
//!
//! At each position the encoder measures four candidate runs — byte
//! fill, word fill, incrementing fill, and a dictionary match over the
//! already-encoded prefix — and keeps the strictly longest (earlier
//! kinds win ties). Positions that no candidate beats accumulate into a
//! pending direct-copy run. Every command's count is clamped to 1023.
//!
//! The round-trip law is the postcondition of [`compress`]: decoding
//! the returned stream yields exactly the input bytes.
use vstd::prelude::*;

use crate::compress::{
    cmd_header, dict_byte, dict_copy_seq, emits, incrementing_seq, lemma_emits_command,
    lemma_emits_empty, lemma_emits_trans, lz5_decode, repeat_byte, word_fill_seq,
};
use vstd::slice::slice_subrange;

verus! {

/// Length of the longest run of the first byte repeated, or 0 when
/// that run is too short to pay for a two-byte command.
fn count_byte_fill(source: &[u8]) -> (r: usize)
    requires
        source@.len() >= 1,
    ensures
        r == 0 || (2 < r <= source@.len() && forall|i: int|
            0 <= i < r ==> #[trigger] source@[i] == source@[0]),
        r > 2 ==> r == source@.len() || source@[r as int] != source@[0],
        r == 0 ==> source@.len() <= 2 || source@[1] != source@[0] || source@[2] != source@[0],
{
    let byte = source[0];
    let len = source.len();
    let mut number_of_bytes: usize = 1;
    while number_of_bytes < len && source[number_of_bytes] == byte
        invariant
            1 <= number_of_bytes <= len,
            len == source@.len(),
            byte == source@[0],
            forall|i: int| 0 <= i < number_of_bytes ==> source@[i] == byte,
        decreases len - number_of_bytes,
    {
        number_of_bytes += 1;
    }
    if number_of_bytes > 2 {
        number_of_bytes
    } else {
        0
    }
}

/// Length of the longest run cycling the first two bytes, or 0 when
/// that run is too short to pay for a three-byte command.
fn count_word_fill(source: &[u8]) -> (r: usize)
    requires
        source@.len() >= 1,
    ensures
        r == 0 || (3 < r <= source@.len() && forall|i: int|
            0 <= i < r ==> #[trigger] source@[i] == (if i % 2 == 0 {
                source@[0]
            } else {
                source@[1]
            })),
        r > 3 ==> r == source@.len() || source@[r as int] != (if r % 2 == 0 {
            source@[0]
        } else {
            source@[1]
        }),
        r == 0 ==> source@.len() <= 3 || source@[2] != source@[0] || source@[3] != source@[1],
{
    let len = source.len();
    if len < 2 {
        return 0;
    }
    let b0 = source[0];
    let b1 = source[1];
    let mut number_of_bytes: usize = 2;
    while number_of_bytes < len && (number_of_bytes % 2 == 0 && source[number_of_bytes] == b0
        || number_of_bytes % 2 == 1 && source[number_of_bytes] == b1)
        invariant
            2 <= number_of_bytes <= len,
            len == source@.len(),
            b0 == source@[0],
            b1 == source@[1],
            forall|i: int|
                0 <= i < number_of_bytes ==> source@[i] == (if i % 2 == 0 {
                    b0
                } else {
                    b1
                }),
        decreases len - number_of_bytes,
    {
        number_of_bytes += 1;
    }
    if number_of_bytes > 3 {
        number_of_bytes
    } else {
        0
    }
}

/// Length of the longest run counting up from the first byte modulo
/// 256, or 0 when that run is too short to pay for a two-byte command.
fn count_incrementing_fill(source: &[u8]) -> (r: usize)
    requires
        source@.len() >= 1,
    ensures
        r == 0 || (2 < r <= source@.len() && forall|i: int|
            0 <= i < r ==> #[trigger] source@[i] == ((source@[0] + i) % 256) as u8),
        r > 2 ==> r == source@.len() || source@[r as int] != ((source@[0] + r) % 256) as u8,
        r == 0 ==> source@.len() <= 2 || source@[1] != ((source@[0] + 1) % 256) as u8 || source@[2]
            != ((source@[0] + 2) % 256) as u8,
{
    let byte = source[0];
    let len = source.len();
    let mut number_of_bytes: usize = 1;
    let mut expected: usize = (byte as usize + 1) % 256;
    while number_of_bytes < len && source[number_of_bytes] as usize == expected
        invariant
            1 <= number_of_bytes <= len,
            len == source@.len(),
            byte == source@[0],
            expected == (byte + number_of_bytes) % 256,
            forall|i: int| 0 <= i < number_of_bytes ==> source@[i] == ((byte + i) % 256) as u8,
        decreases len - number_of_bytes,
    {
        number_of_bytes += 1;
        expected = (expected + 1) % 256;
    }
    if number_of_bytes > 2 {
        number_of_bytes
    } else {
        0
    }
}

/// The first `m` bytes of `src` match the cyclic extension of the
/// window suffix starting at `a`.
spec fn cyclic_match_ok(src: Seq<u8>, win: Seq<u8>, a: int, m: int) -> bool {
    forall|i: int| 0 <= i < m ==> #[trigger] src[i] == dict_byte(win, a, i)
}

/// The longest prefix of `source` that matches the cyclic extension of
/// some suffix of the already-encoded `sliding_window` (a match may
/// overlap its own copy), together with the start of that suffix; ties
/// keep the latest start. Returns 0 exactly when every match is too
/// short to pay for a command.
fn count_sliding_dictonary(source: &[u8], sliding_window: &[u8]) -> (r: (usize, usize))
    ensures
        r.0 == 0 || (2 < r.0 <= source@.len() && r.1 < sliding_window@.len() && forall|i: int|
            0 <= i < r.0 ==> #[trigger] source@[i] == dict_byte(sliding_window@, r.1 as int, i)),
        forall|a: int, m: int|
            0 <= a < sliding_window@.len() && 0 <= m <= source@.len() && cyclic_match_ok(
                source@,
                sliding_window@,
                a,
                m,
            ) ==> m <= (if r.0 == 0 {
                2int
            } else {
                r.0 as int
            }),
        r.0 > 2 ==> forall|a: int|
            r.1 < a < sliding_window@.len() ==> !cyclic_match_ok(
                source@,
                sliding_window@,
                a,
                r.0 as int,
            ),
        r.0 == 0 ==> r.1 == 0,
{
    let wlen = sliding_window.len();
    let slen = source.len();
    let mut number_of_bytes: usize = 1;
    let mut window_address: usize = 0;
    let mut address: usize = 0;
    while address < wlen
        invariant
            address <= wlen,
            wlen == sliding_window@.len(),
            slen == source@.len(),
            1 <= number_of_bytes,
            number_of_bytes == 1 && window_address == 0 || (number_of_bytes <= slen
                && window_address < wlen && forall|i: int|
                0 <= i < number_of_bytes ==> source@[i] == dict_byte(
                    sliding_window@,
                    window_address as int,
                    i,
                )),
            forall|a: int, m: int|
                0 <= a < address && 0 <= m <= slen && cyclic_match_ok(
                    source@,
                    sliding_window@,
                    a,
                    m,
                ) ==> m <= number_of_bytes as int,
            number_of_bytes <= slen ==> forall|a: int|
                window_address < a < address ==> !cyclic_match_ok(
                    source@,
                    sliding_window@,
                    a,
                    number_of_bytes as int,
                ),
        decreases wlen - address,
    {
        let period = wlen - address;
        let mut m: usize = 0;
        while m < slen && source[m] == sliding_window[address + m % period]
            invariant
                m <= slen,
                address < wlen,
                wlen == sliding_window@.len(),
                slen == source@.len(),
                period == wlen - address,
                forall|i: int|
                    0 <= i < m ==> source@[i] == dict_byte(sliding_window@, address as int, i),
            decreases slen - m,
        {
            m += 1;
        }
        proof {
            // No longer match starts here: the scan stopped at the end
            // of the source or on a mismatch.
            assert forall|m2: int|
                0 <= m2 <= slen && cyclic_match_ok(
                    source@,
                    sliding_window@,
                    address as int,
                    m2,
                ) implies m2 <= m as int by {
                if m2 > m {
                    assert(source@[m as int] == dict_byte(
                        sliding_window@,
                        address as int,
                        m as int,
                    ));
                }
            }
        }
        if m >= number_of_bytes {
            number_of_bytes = m;
            window_address = address;
        }
        address += 1;
    }
    if number_of_bytes > 2 {
        (number_of_bytes, window_address)
    } else {
        (0, 0)
    }
}

/// Clamp the count to the per-command maximum of 1023 and build the
/// one- or two-byte command header; returns the header bytes and the
/// count actually encoded.
fn create_command_data(command: usize, number_of_bytes: usize) -> (r: (Vec<u8>, usize))
    requires
        command == 0x00 || command == 0x20 || command == 0x40 || command == 0x60 || command == 0x80
            || command == 0xC0,
        number_of_bytes >= 1,
    ensures
        r.1 == if number_of_bytes <= 1023 {
            number_of_bytes as int
        } else {
            1023
        },
        r.0@ == cmd_header(command as u8, r.1 as nat),
{
    let total_number_of_bytes = if number_of_bytes < 1023 {
        number_of_bytes
    } else {
        1023
    };
    let number_of_bytes = total_number_of_bytes - 1;
    let mut compression: Vec<u8> = Vec::new();
    if number_of_bytes > 31 {
        compression.push((0xE0 + command / 8 + number_of_bytes / 256) as u8);
        compression.push((number_of_bytes % 256) as u8);
    } else {
        compression.push((command + number_of_bytes) as u8);
    }
    proof {
        assert(compression@ =~= cmd_header(command as u8, total_number_of_bytes as nat));
    }
    (compression, total_number_of_bytes)
}

/// A direct-copy command carrying `number_of_bytes` literal bytes
/// starting at `start`.
fn compress_direct_copy(source: &[u8], start: usize, number_of_bytes: usize) -> (r: Vec<u8>)
    requires
        1 <= number_of_bytes <= 1023,
        start + number_of_bytes <= source@.len(),
    ensures
        r@ == cmd_header(0x00, number_of_bytes as nat) + source@.subrange(
            start as int,
            start as int + number_of_bytes as int,
        ),
{
    let (mut compression, bytes) = create_command_data(0x00, number_of_bytes);
    let len = source.len();
    let mut k: usize = 0;
    while k < number_of_bytes
        invariant
            k <= number_of_bytes,
            start + number_of_bytes <= len,
            len == source@.len(),
            compression@ == cmd_header(0x00, number_of_bytes as nat) + source@.subrange(
                start as int,
                start as int + k as int,
            ),
        decreases number_of_bytes - k,
    {
        compression.push(source[start + k]);
        proof {
            assert(compression@ =~= cmd_header(0x00, number_of_bytes as nat) + source@.subrange(
                start as int,
                start as int + k as int + 1,
            ));
        }
        k += 1;
    }
    compression
}

/// A byte-fill command repeating `source[start]`.
fn compress_byte_fill(source: &[u8], start: usize, number_of_bytes: usize) -> (r: (Vec<u8>, usize))
    requires
        start < source@.len(),
        number_of_bytes >= 1,
    ensures
        r.1 == if number_of_bytes <= 1023 {
            number_of_bytes as int
        } else {
            1023
        },
        r.0@ == cmd_header(0x20, r.1 as nat) + seq![source@[start as int]],
{
    let (mut compression, bytes) = create_command_data(0x20, number_of_bytes);
    compression.push(source[start]);
    proof {
        assert(compression@ =~= cmd_header(0x20, bytes as nat) + seq![source@[start as int]]);
    }
    (compression, bytes)
}

/// A word-fill command cycling `source[start]` and `source[start + 1]`.
fn compress_word_fill(source: &[u8], start: usize, number_of_bytes: usize) -> (r: (Vec<u8>, usize))
    requires
        start + 1 < source@.len(),
        number_of_bytes >= 1,
    ensures
        r.1 == if number_of_bytes <= 1023 {
            number_of_bytes as int
        } else {
            1023
        },
        r.0@ == cmd_header(0x40, r.1 as nat) + seq![
            source@[start as int],
            source@[start as int + 1],
        ],
{
    let (mut compression, bytes) = create_command_data(0x40, number_of_bytes);
    compression.push(source[start]);
    compression.push(source[start + 1]);
    proof {
        assert(compression@ =~= cmd_header(0x40, bytes as nat) + seq![
            source@[start as int],
            source@[start as int + 1],
        ]);
    }
    (compression, bytes)
}

/// An incrementing-fill command counting up from `source[start]`.
fn compress_incrementing_fill(source: &[u8], start: usize, number_of_bytes: usize) -> (r: (
    Vec<u8>,
    usize,
))
    requires
        start < source@.len(),
        number_of_bytes >= 1,
    ensures
        r.1 == if number_of_bytes <= 1023 {
            number_of_bytes as int
        } else {
            1023
        },
        r.0@ == cmd_header(0x60, r.1 as nat) + seq![source@[start as int]],
{
    let (mut compression, bytes) = create_command_data(0x60, number_of_bytes);
    compression.push(source[start]);
    proof {
        assert(compression@ =~= cmd_header(0x60, bytes as nat) + seq![source@[start as int]]);
    }
    (compression, bytes)
}

/// A dictionary-copy command: the one-byte backward-distance form when
/// the match start is within 255 bytes of the current position, else
/// the two-byte absolute-index form. The inverting variants are decoded
/// but never emitted.
fn compress_offset_dictionary(source_address: usize, window_offset: usize, window_size: usize) -> (r:
    (Vec<u8>, usize))
    requires
        window_offset < source_address,
        window_size >= 1,
        source_address - window_offset <= 0xFF || window_offset <= 0xFFFF,
    ensures
        r.1 == if window_size <= 1023 {
            window_size as int
        } else {
            1023
        },
        source_address - window_offset <= 0xFF ==> r.0@ == cmd_header(0xC0, r.1 as nat) + seq![
            (source_address - window_offset) as u8,
        ],
        source_address - window_offset > 0xFF ==> r.0@ == cmd_header(0x80, r.1 as nat) + seq![
            (window_offset % 256) as u8,
            (window_offset / 256) as u8,
        ],
{
    if source_address - window_offset <= 0xFF {
        let (mut compression, bytes) = create_command_data(0xC0, window_size);
        compression.push((source_address - window_offset) as u8);
        proof {
            assert(compression@ =~= cmd_header(0xC0, bytes as nat) + seq![
                (source_address - window_offset) as u8,
            ]);
        }
        (compression, bytes)
    } else {
        let (mut compression, bytes) = create_command_data(0x80, window_size);
        compression.push((window_offset % 256) as u8);
        compression.push((window_offset / 256) as u8);
        proof {
            assert(compression@ =~= cmd_header(0x80, bytes as nat) + seq![
                (window_offset % 256) as u8,
                (window_offset / 256) as u8,
            ]);
        }
        (compression, bytes)
    }
}

/// Compress `source`. The returned command stream round-trips: decoding
/// it from an empty output yields exactly `source` — for every input,
/// `decompress(compress(b)) == b`.
#[verifier::rlimit(100)]
pub fn compress(source: &[u8]) -> (r: Vec<u8>)
    ensures
        lz5_decode(r@, Seq::<u8>::empty()) == Some(source@),
        r@.len() >= 1,
        r@[r@.len() - 1] == 0xFF,
        r@.len() <= 3 * source@.len() + 1,
        source@.len() == 0 ==> r@ == seq![0xFFu8],
        // A whole-input run of one repeated byte becomes a single
        // byte-fill command — fills win ties with the dictionary
        // because only a strictly longer candidate replaces the
        // running best.
        (2 < source@.len() <= 1023 && (forall|i: int|
            0 <= i < source@.len() ==> #[trigger] source@[i] == source@[0])) ==> r@ == cmd_header(
            0x20,
            source@.len() as nat,
        ) + seq![source@[0], 0xFF],
{
    let len = source.len();
    let mut output: Vec<u8> = Vec::new();
    let mut direct_copy_address: Option<usize> = None;
    let mut address: usize = 0;
    proof {
        lemma_emits_empty(Seq::<u8>::empty());
        assert(source@.take(0) =~= Seq::<u8>::empty());
    }
    while address < len
        invariant
            address <= len,
            len == source@.len(),
            direct_copy_address is None ==> emits(
                output@,
                Seq::<u8>::empty(),
                source@.take(address as int),
            ),
            direct_copy_address matches Some(s) ==> s <= address && address - s <= 1022 && emits(
                output@,
                Seq::<u8>::empty(),
                source@.take(s as int),
            ),
            direct_copy_address is None ==> output@.len() <= 3 * address,
            direct_copy_address matches Some(s) ==> output@.len() <= 3 * s,
            (2 < source@.len() <= 1023 && (forall|i: int|
                0 <= i < source@.len() ==> #[trigger] source@[i] == source@[0])) ==> (address == 0
                && output@ == Seq::<u8>::empty() && direct_copy_address is None) || (address
                == source@.len() && direct_copy_address is None && output@ == cmd_header(
                0x20,
                source@.len() as nat,
            ) + seq![source@[0]]),
        decreases len - address,
    {
        let sub = slice_subrange(source, address, len);
        let window = slice_subrange(source, 0, address);
        let byte_fill_size = count_byte_fill(sub);
        let word_fill_size = count_word_fill(sub);
        let incrementing_fill_size = count_incrementing_fill(sub);
        let (sliding_size_raw, window_address) = count_sliding_dictonary(sub, window);
        // A match that is both beyond the one-byte backward range and
        // beyond the two-byte absolute range cannot be encoded.
        let sliding_size = if sliding_size_raw > 0 && address - window_address > 0xFF
            && window_address > 0xFFFF {
            0
        } else {
            sliding_size_raw
        };

        proof {
            if 2 < source@.len() <= 1023 && (forall|i: int|
                0 <= i < source@.len() ==> #[trigger] source@[i] == source@[0]) {
                // On a whole-input run the byte-fill candidate spans the
                // input and nothing beats it.
                assert(sub@ =~= source@);
                assert(byte_fill_size == source@.len());
                assert(word_fill_size <= source@.len());
                assert(incrementing_fill_size == 0) by {
                    if incrementing_fill_size > 2 {
                        assert(sub@[1] == ((sub@[0] + 1) % 256) as u8);
                    }
                }
                assert(sliding_size_raw == 0);
            }
        }
        let mut command: usize = 0x00;
        let mut bytes_compressed: usize = 1;
        if bytes_compressed < byte_fill_size {
            bytes_compressed = byte_fill_size;
            command = 0x20;
        }
        if bytes_compressed < word_fill_size {
            bytes_compressed = word_fill_size;
            command = 0x40;
        }
        if bytes_compressed < incrementing_fill_size {
            bytes_compressed = incrementing_fill_size;
            command = 0x60;
        }
        if bytes_compressed < sliding_size {
            bytes_compressed = sliding_size;
            command = 0x80;
        }

        if command == 0x00 {
            if direct_copy_address.is_none() {
                direct_copy_address = Some(address);
            }
            address += 1;
            // At the per-command cap the pending run must be flushed.
            if let Some(copy_address) = direct_copy_address {
                if address - copy_address == 1023 {
                    let c = compress_direct_copy(source, copy_address, 1023);
                    proof {
                        let p = copy_address as int;
                        let delta = source@.subrange(p, p + 1023);
                        lemma_emits_command(0x00, 1023nat, delta, source@.take(p), delta);
                        assert(source@.take(p) + delta =~= source@.take(p + 1023));
                        lemma_emits_trans(
                            output@,
                            c@,
                            Seq::<u8>::empty(),
                            source@.take(p),
                            source@.take(p + 1023),
                        );
                    }
                    let mut c = c;
                    output.append(&mut c);
                    direct_copy_address = None;
                }
            }
        } else {
            // Flush any pending direct-copy run before the command.
            if let Some(copy_address) = direct_copy_address {
                let number_of_bytes = address - copy_address;
                if number_of_bytes > 0 {
                    let c = compress_direct_copy(source, copy_address, number_of_bytes);
                    proof {
                        let p = copy_address as int;
                        let k = number_of_bytes as int;
                        let delta = source@.subrange(p, p + k);
                        lemma_emits_command(0x00, k as nat, delta, source@.take(p), delta);
                        assert(source@.take(p) + delta =~= source@.take(p + k));
                        lemma_emits_trans(
                            output@,
                            c@,
                            Seq::<u8>::empty(),
                            source@.take(p),
                            source@.take(p + k),
                        );
                    }
                    let mut c = c;
                    output.append(&mut c);
                }
                direct_copy_address = None;
            }

            let ghost p = address as int;
            let ghost prefix = source@.take(p);
            let compressed_size: usize;
            if command == 0x20 {
                let (c, csize) = compress_byte_fill(source, address, bytes_compressed);
                proof {
                    let k = csize as int;
                    let delta = repeat_byte(source@[p], k as nat);
                    lemma_emits_command(0x20, k as nat, seq![source@[p]], prefix, delta);
                    assert forall|i: int| 0 <= i < k implies #[trigger] delta[i] == source@[p
                        + i] by {
                        assert(sub@[i] == source@[p + i]);
                        assert(sub@[0] == source@[p]);
                        assert(sub@[i] == sub@[0]);
                    }
                    assert(prefix + delta =~= source@.take(p + k));
                    lemma_emits_trans(
                        output@,
                        c@,
                        Seq::<u8>::empty(),
                        prefix,
                        source@.take(p + k),
                    );
                }
                let mut c = c;
                output.append(&mut c);
                compressed_size = csize;
            } else if command == 0x40 {
                let (c, csize) = compress_word_fill(source, address, bytes_compressed);
                proof {
                    let k = csize as int;
                    let delta = word_fill_seq(source@[p], source@[p + 1], k as nat);
                    lemma_emits_command(
                        0x40,
                        k as nat,
                        seq![source@[p], source@[p + 1]],
                        prefix,
                        delta,
                    );
                    assert forall|i: int| 0 <= i < k implies #[trigger] delta[i] == source@[p
                        + i] by {
                        assert(sub@[i] == source@[p + i]);
                        assert(sub@[0] == source@[p] && sub@[1] == source@[p + 1]);
                        assert(sub@[i] == (if i % 2 == 0 {
                            sub@[0]
                        } else {
                            sub@[1]
                        }));
                    }
                    assert(prefix + delta =~= source@.take(p + k));
                    lemma_emits_trans(
                        output@,
                        c@,
                        Seq::<u8>::empty(),
                        prefix,
                        source@.take(p + k),
                    );
                }
                let mut c = c;
                output.append(&mut c);
                compressed_size = csize;
            } else if command == 0x60 {
                let (c, csize) = compress_incrementing_fill(source, address, bytes_compressed);
                proof {
                    let k = csize as int;
                    let delta = incrementing_seq(source@[p], k as nat);
                    lemma_emits_command(0x60, k as nat, seq![source@[p]], prefix, delta);
                    assert forall|i: int| 0 <= i < k implies #[trigger] delta[i] == source@[p
                        + i] by {
                        assert(sub@[i] == source@[p + i]);
                        assert(sub@[0] == source@[p]);
                        assert(sub@[i] == ((sub@[0] + i) % 256) as u8);
                    }
                    assert(prefix + delta =~= source@.take(p + k));
                    lemma_emits_trans(
                        output@,
                        c@,
                        Seq::<u8>::empty(),
                        prefix,
                        source@.take(p + k),
                    );
                }
                let mut c = c;
                output.append(&mut c);
                compressed_size = csize;
            } else {
                let (c, csize) = compress_offset_dictionary(
                    address,
                    window_address,
                    bytes_compressed,
                );
                proof {
                    let k = csize as int;
                    let wa = window_address as int;
                    assert(window@ =~= prefix);
                    let delta = dict_copy_seq(prefix, wa, k as nat, false);
                    assert forall|i: int| 0 <= i < k implies #[trigger] delta[i] == source@[p
                        + i] by {
                        assert(sub@[i] == source@[p + i]);
                        assert(delta[i] == dict_byte(window@, wa, i));
                        assert(sub@[i] == dict_byte(window@, wa, i));
                    }
                    if address - window_address <= 0xFF {
                        let dist = (address - window_address) as u8;
                        assert(prefix.len() - dist as int == wa);
                        lemma_emits_command(0xC0, k as nat, seq![dist], prefix, delta);
                    } else {
                        let lo = (window_address % 256) as u8;
                        let hi = (window_address / 256) as u8;
                        assert(lo + hi * 256 == wa);
                        lemma_emits_command(0x80, k as nat, seq![lo, hi], prefix, delta);
                    }
                    assert(prefix + delta =~= source@.take(p + k));
                    lemma_emits_trans(
                        output@,
                        c@,
                        Seq::<u8>::empty(),
                        prefix,
                        source@.take(p + k),
                    );
                }
                let mut c = c;
                output.append(&mut c);
                compressed_size = csize;
            }
            address += compressed_size;
        }
    }

    // Flush what is left of a pending direct-copy run, then terminate.
    if let Some(copy_address) = direct_copy_address {
        let number_of_bytes = address - copy_address;
        if number_of_bytes > 0 {
            let c = compress_direct_copy(source, copy_address, number_of_bytes);
            proof {
                let p = copy_address as int;
                let k = number_of_bytes as int;
                let delta = source@.subrange(p, p + k);
                lemma_emits_command(0x00, k as nat, delta, source@.take(p), delta);
                assert(source@.take(p) + delta =~= source@.take(p + k));
                lemma_emits_trans(
                    output@,
                    c@,
                    Seq::<u8>::empty(),
                    source@.take(p),
                    source@.take(p + k),
                );
            }
            let mut c = c;
            output.append(&mut c);
        }
    }
    let ghost body = output@;
    output.push(0xFF);
    proof {
        assert(source@.take(len as int) =~= source@);
        assert(lz5_decode(body + seq![0xFFu8], Seq::<u8>::empty()) == lz5_decode(
            seq![0xFFu8],
            source@,
        ));
        assert(lz5_decode(seq![0xFFu8], source@) == Some(source@));
        assert(output@ =~= body + seq![0xFFu8]);
        if source@.len() == 0 {
            assert(output@ =~= seq![0xFFu8]);
        }
        if 2 < source@.len() <= 1023 && (forall|i: int|
            0 <= i < source@.len() ==> #[trigger] source@[i] == source@[0]) {
            assert(output@ =~= cmd_header(0x20, source@.len() as nat) + seq![source@[0], 0xFF]);
        }
    }
    output
}

} // verus!
