//! Classic byte-stuffing codec.
//!
//! The encoded form is a concatenation of blocks: one code byte followed by
//! data bytes. A code byte `c` in `0x01..=0xFE` closes a block because the
//! next source byte was a zero (or the source ended); the decoder copies the
//! `c - 1` data bytes and synthesizes one zero after them. The code byte
//! `0xFF` marks a forced split: the block accumulated the maximum 254 data
//! bytes without seeing a zero, and the decoder synthesizes nothing after it.
//! The decoder unconditionally drops the single final byte it produced: it is
//! always the last block's synthesized boundary zero, never real data,
//! because the final emitted code is never `0xFF`.

use vstd::prelude::*;

use crate::CorruptError;

verus! {

/// Encoding of `block ++ rest`, where `block` holds the data bytes already
/// accumulated for the block currently open (at most 253 of them) and `rest`
/// is the input not yet consumed. Always emits at least one block.
pub open spec fn encode_blocks(rest: Seq<u8>, block: Seq<u8>) -> Seq<u8>
    decreases rest.len(),
{
    if rest.len() == 0 {
        // Input exhausted: close the open block as a single-zero block.
        seq![(block.len() + 1) as u8] + block
    } else if rest[0] == 0 {
        // Zero byte: close the open block, then start a fresh one.
        seq![(block.len() + 1) as u8] + block + encode_blocks(rest.skip(1), Seq::empty())
    } else if block.len() == 253 {
        // The byte fills the block to 254 data bytes: forced split.
        seq![0xFFu8] + block.push(rest[0]) + encode_blocks(rest.skip(1), Seq::empty())
    } else {
        encode_blocks(rest.skip(1), block.push(rest[0]))
    }
}

/// The encoded form of `src`: empty for empty input, otherwise the block
/// concatenation starting from an empty open block.
pub open spec fn spec_encode(src: Seq<u8>) -> Seq<u8> {
    if src.len() == 0 {
        Seq::empty()
    } else {
        encode_blocks(src, Seq::empty())
    }
}

/// Left-to-right block scan of `src`, before the final-byte trim. `None`
/// exactly when some code byte declares a block that would read past the end
/// of the input.
pub open spec fn decode_blocks(src: Seq<u8>) -> Option<Seq<u8>>
    decreases src.len(),
{
    if src.len() == 0 {
        Some(Seq::empty())
    } else {
        let code = src[0];
        if code as int > src.len() {
            None
        } else {
            let data_len: int = if code == 0 {
                0
            } else {
                code as int - 1
            };
            let data = src.subrange(1, 1 + data_len);
            match decode_blocks(src.skip(1 + data_len)) {
                None => None,
                Some(rest) => if code == 0xFF {
                    Some(data + rest)
                } else {
                    Some(data + seq![0u8] + rest)
                },
            }
        }
    }
}

/// The decoded form of `src`: the block scan, with the single trailing
/// synthesized zero dropped whenever anything was produced.
pub open spec fn spec_decode(src: Seq<u8>) -> Option<Seq<u8>> {
    match decode_blocks(src) {
        None => None,
        Some(d) => if d.len() == 0 {
            Some(d)
        } else {
            Some(d.drop_last())
        },
    }
}

/// An encoding always holds at least the open block's code byte and data.
proof fn lemma_encode_blocks_len_lower(rest: Seq<u8>, block: Seq<u8>)
    ensures
        encode_blocks(rest, block).len() >= 1 + block.len(),
    decreases rest.len(),
{
    if rest.len() == 0 {
    } else if rest[0] == 0 {
        lemma_encode_blocks_len_lower(rest.skip(1), Seq::empty());
    } else if block.len() == 253 {
        lemma_encode_blocks_len_lower(rest.skip(1), Seq::empty());
    } else {
        lemma_encode_blocks_len_lower(rest.skip(1), block.push(rest[0]));
    }
}

/// No byte of an encoding is zero: code bytes lie in `0x01..=0xFF`, and data
/// bytes are copied only from nonzero input positions.
proof fn lemma_encode_blocks_no_zeros(rest: Seq<u8>, block: Seq<u8>)
    requires
        block.len() <= 253,
        forall|j: int| 0 <= j < block.len() ==> block[j] != 0,
    ensures
        forall|j: int|
            0 <= j < encode_blocks(rest, block).len() ==> encode_blocks(rest, block)[j] != 0,
    decreases rest.len(),
{
    let e = encode_blocks(rest, block);
    assert((block.len() + 1) as u8 as int == block.len() + 1);
    if rest.len() == 0 {
        assert forall|j: int| 0 <= j < e.len() implies e[j] != 0 by {
            if j == 0 {
                assert(e[0] == (block.len() + 1) as u8);
            } else {
                assert(e[j] == block[j - 1]);
            }
        }
    } else if rest[0] == 0 {
        lemma_encode_blocks_no_zeros(rest.skip(1), Seq::empty());
        let tail = encode_blocks(rest.skip(1), Seq::empty());
        assert forall|j: int| 0 <= j < e.len() implies e[j] != 0 by {
            if j == 0 {
                assert(e[0] == (block.len() + 1) as u8);
            } else if j < 1 + block.len() {
                assert(e[j] == block[j - 1]);
            } else {
                assert(e[j] == tail[j - 1 - block.len()]);
            }
        }
    } else if block.len() == 253 {
        lemma_encode_blocks_no_zeros(rest.skip(1), Seq::empty());
        let tail = encode_blocks(rest.skip(1), Seq::empty());
        assert forall|j: int| 0 <= j < e.len() implies e[j] != 0 by {
            if j == 0 {
                assert(e[0] == 0xFFu8);
            } else if j < 255 {
                assert(e[j] == block.push(rest[0])[j - 1]);
            } else {
                assert(e[j] == tail[j - 255]);
            }
        }
    } else {
        lemma_encode_blocks_no_zeros(rest.skip(1), block.push(rest[0]));
        let e2 = encode_blocks(rest.skip(1), block.push(rest[0]));
        assert(e == e2);
        assert forall|j: int| 0 <= j < e.len() implies e[j] != 0 by {
            assert(e2[j] != 0);
        }
    }
}

/// Size bound on an encoding: one code byte per up-to-254 data bytes, plus
/// the code byte of the block that is still open.
proof fn lemma_encode_blocks_len_upper(rest: Seq<u8>, block: Seq<u8>)
    requires
        block.len() <= 253,
    ensures
        encode_blocks(rest, block).len() <= 1 + block.len() + rest.len() + (block.len()
            + rest.len() + 253) / 254,
    decreases rest.len(),
{
    if rest.len() == 0 {
    } else if rest[0] == 0 {
        lemma_encode_blocks_len_upper(rest.skip(1), Seq::empty());
    } else if block.len() == 253 {
        lemma_encode_blocks_len_upper(rest.skip(1), Seq::empty());
    } else {
        lemma_encode_blocks_len_upper(rest.skip(1), block.push(rest[0]));
    }
}

/// Decoding a block concatenation recovers the open block's data, the
/// remaining input, and one trailing synthesized zero.
proof fn lemma_decode_encode_blocks(rest: Seq<u8>, block: Seq<u8>)
    requires
        block.len() <= 253,
    ensures
        decode_blocks(encode_blocks(rest, block)) == Some(block + rest + seq![0u8]),
    decreases rest.len(),
{
    let e = encode_blocks(rest, block);
    if rest.len() == 0 {
        let code = (block.len() + 1) as u8;
        assert(code as int == block.len() + 1);
        assert(e[0] == code);
        assert(e.len() == block.len() + 1);
        assert(e.subrange(1, 1 + block.len() as int) =~= block);
        assert(e.skip(1 + block.len() as int) =~= Seq::<u8>::empty());
        assert(decode_blocks(Seq::<u8>::empty()) == Some(Seq::<u8>::empty()));
        assert(decode_blocks(e) == Some(block + seq![0u8] + Seq::<u8>::empty()));
        assert(block + seq![0u8] + Seq::<u8>::empty() =~= block + rest + seq![0u8]);
    } else if rest[0] == 0 {
        lemma_decode_encode_blocks(rest.skip(1), Seq::empty());
        lemma_encode_blocks_len_lower(rest.skip(1), Seq::empty());
        let tail = encode_blocks(rest.skip(1), Seq::empty());
        let code = (block.len() + 1) as u8;
        assert(code as int == block.len() + 1);
        assert(e[0] == code);
        assert(e.len() == 1 + block.len() + tail.len());
        assert(e.subrange(1, 1 + block.len() as int) =~= block);
        assert(e.skip(1 + block.len() as int) =~= tail);
        let tail_dec = Seq::<u8>::empty() + rest.skip(1) + seq![0u8];
        assert(decode_blocks(tail) == Some(tail_dec));
        assert(decode_blocks(e) == Some(block + seq![0u8] + tail_dec));
        assert(block + seq![0u8] + tail_dec =~= block + rest + seq![0u8]);
    } else if block.len() == 253 {
        lemma_decode_encode_blocks(rest.skip(1), Seq::empty());
        lemma_encode_blocks_len_lower(rest.skip(1), Seq::empty());
        let tail = encode_blocks(rest.skip(1), Seq::empty());
        let data = block.push(rest[0]);
        assert(e[0] == 0xFFu8);
        assert(e.len() == 255 + tail.len());
        assert(e.subrange(1, 255) =~= data);
        assert(e.skip(255) =~= tail);
        let tail_dec = Seq::<u8>::empty() + rest.skip(1) + seq![0u8];
        assert(decode_blocks(tail) == Some(tail_dec));
        assert(decode_blocks(e) == Some(data + tail_dec));
        assert(data + tail_dec =~= block + rest + seq![0u8]);
    } else {
        lemma_decode_encode_blocks(rest.skip(1), block.push(rest[0]));
        assert(block.push(rest[0]) + rest.skip(1) + seq![0u8] =~= block + rest + seq![0u8]);
    }
}

/// Round-trip law: for every byte sequence, decoding the encoding gives the
/// original sequence back.
pub proof fn lemma_round_trip(s: Seq<u8>)
    ensures
        spec_decode(spec_encode(s)) == Some(s),
{
    if s.len() == 0 {
    } else {
        lemma_decode_encode_blocks(s, Seq::empty());
        let d = Seq::<u8>::empty() + s + seq![0u8];
        assert(d.len() == s.len() + 1);
        assert(d.drop_last() =~= s);
    }
}

/// Zero-freedom law: for every byte sequence, the encoding contains no zero
/// byte.
pub proof fn lemma_encode_zero_free(s: Seq<u8>)
    ensures
        forall|j: int| 0 <= j < spec_encode(s).len() ==> spec_encode(s)[j] != 0,
{
    if s.len() != 0 {
        lemma_encode_blocks_no_zeros(s, Seq::empty());
    }
}

/// Size-bound law: the encoding is at most one byte per input byte, plus one
/// code byte per started run of 254, plus one.
pub proof fn lemma_encode_len(s: Seq<u8>)
    ensures
        spec_encode(s).len() <= s.len() + (s.len() + 253) / 254 + 1,
{
    if s.len() != 0 {
        lemma_encode_blocks_len_upper(s, Seq::empty());
    }
}

/// The classic codec. Both operations are associated functions; the struct
/// itself carries no state.
pub struct Encoder {}

impl Encoder {
    /// Rewrite `src` into a buffer that contains no zero byte. Total: every
    /// input is accepted, and empty input yields empty output.
    pub fn encode(src: &[u8]) -> (dst: Vec<u8>)
        ensures
            dst@ == spec_encode(src@),
            dst@.len() == 0 <==> src@.len() == 0,
            forall|j: int| 0 <= j < dst@.len() ==> dst@[j] != 0,
            dst@.len() <= src@.len() + (src@.len() + 253) / 254 + 1,
    {
        let mut dst: Vec<u8> = Vec::new();

        if src.len() == 0 {
            return dst;
        }

        // Reserve the first code byte slot; it is patched through `ptr` once
        // the open block's final length is known.
        dst.push(0);

        let mut ptr: usize = 0;
        let mut code: u8 = 1;
        let mut i: usize = 0;

        proof {
            assert(src@.skip(0) =~= src@);
            assert(dst@.take(0) =~= Seq::<u8>::empty());
            assert(dst@.skip(1) =~= Seq::<u8>::empty());
        }

        while i < src.len()
            invariant
                src@.len() > 0,
                i <= src@.len(),
                (ptr as int) < dst@.len(),
                dst@.len() == ptr + code,
                1 <= code <= 254,
                encode_blocks(src@, Seq::empty()) == dst@.take(ptr as int) + encode_blocks(
                    src@.skip(i as int),
                    dst@.skip(ptr as int + 1),
                ),
            decreases src@.len() - i,
        {
            let ghost pre = dst@;
            let ghost block = pre.skip(ptr as int + 1);
            proof {
                assert(src@.skip(i as int)[0] == src@[i as int]);
                assert(src@.skip(i as int).skip(1) =~= src@.skip(i as int + 1));
            }
            let ghost old_ptr = ptr as int;
            let b = src[i];
            if b == 0 {
                // Close the open block: its code is one more than its data
                // count, then a fresh block starts.
                proof {
                    assert((block.len() + 1) as u8 == code);
                }
                dst.set(ptr, code);
                let ghost patched = dst@;
                ptr = dst.len();
                dst.push(0);
                code = 1;
                proof {
                    assert(dst@.take(ptr as int) =~= patched);
                    assert(patched =~= pre.take(old_ptr) + seq![(block.len() + 1) as u8] + block);
                    assert(dst@.skip(ptr as int + 1) =~= Seq::<u8>::empty());
                    assert(pre.take(old_ptr) + (seq![(block.len() + 1) as u8] + block
                        + encode_blocks(src@.skip(i as int + 1), Seq::empty())) =~= dst@.take(
                        ptr as int,
                    ) + encode_blocks(src@.skip(i as int + 1), Seq::empty()));
                }
            } else {
                dst.push(b);
                code = code + 1;
                if code == 0xFF {
                    // Forced split: the block reached 254 data bytes.
                    proof {
                        assert(block.len() == 253);
                        assert(dst@.skip(ptr as int + 1) =~= block.push(b));
                    }
                    dst.set(ptr, code);
                    let ghost patched = dst@;
                    ptr = dst.len();
                    dst.push(0);
                    code = 1;
                    proof {
                        assert(dst@.take(ptr as int) =~= patched);
                        assert(patched =~= pre.take(old_ptr) + seq![0xFFu8] + block.push(b));
                        assert(dst@.skip(ptr as int + 1) =~= Seq::<u8>::empty());
                        assert(pre.take(old_ptr) + (seq![0xFFu8] + block.push(b) + encode_blocks(
                            src@.skip(i as int + 1),
                            Seq::empty(),
                        )) =~= dst@.take(ptr as int) + encode_blocks(
                            src@.skip(i as int + 1),
                            Seq::empty(),
                        ));
                    }
                } else {
                    proof {
                        assert(block.len() < 253);
                        assert(dst@.take(ptr as int) =~= pre.take(ptr as int));
                        assert(dst@.skip(ptr as int + 1) =~= block.push(b));
                    }
                }
            }
            i = i + 1;
        }

        proof {
            assert(src@.skip(i as int) =~= Seq::<u8>::empty());
        }
        let ghost pre = dst@;
        let ghost block = pre.skip(ptr as int + 1);
        proof {
            assert((block.len() + 1) as u8 == code);
        }
        dst.set(ptr, code);
        proof {
            assert(dst@ =~= pre.take(ptr as int) + (seq![(block.len() + 1) as u8] + block));
            lemma_encode_zero_free(src@);
            lemma_encode_len(src@);
            lemma_encode_blocks_len_lower(src@, Seq::empty());
        }

        dst
    }

    /// Decode `src`, accepting arbitrary input. Returns the decoded buffer,
    /// or `CorruptError` exactly when some code byte declares a block that
    /// would read past the end of `src`.
    pub fn decode(src: &[u8]) -> (res: Result<Vec<u8>, CorruptError>)
        ensures
            match res {
                Ok(dst) => spec_decode(src@) == Some(dst@),
                Err(_) => spec_decode(src@) is None,
            },
    {
        let mut dst: Vec<u8> = Vec::new();
        let mut ptr: usize = 0;

        proof {
            assert(src@.skip(0) =~= src@);
        }

        while ptr < src.len()
            invariant
                ptr <= src@.len(),
                match decode_blocks(src@.skip(ptr as int)) {
                    None => decode_blocks(src@) is None,
                    Some(rest) => decode_blocks(src@) == Some(dst@ + rest),
                },
            decreases src@.len() - ptr,
        {
            let ghost suffix = src@.skip(ptr as int);
            proof {
                assert(suffix[0] == src@[ptr as int]);
            }
            let code = src[ptr];
            if code as usize > src.len() - ptr {
                return Err(CorruptError {});
            }
            let data_len: usize = if code == 0 {
                0
            } else {
                (code - 1) as usize
            };
            let ghost pre = dst@;
            let mut k: usize = 0;
            while k < data_len
                invariant
                    k <= data_len,
                    ptr as int + 1 + data_len as int <= src@.len(),
                    src@.len() <= usize::MAX,
                    dst@ == pre + src@.subrange(ptr as int + 1, ptr as int + 1 + k as int),
                decreases data_len - k,
            {
                proof {
                    assert(pre + src@.subrange(ptr as int + 1, ptr as int + 1 + k as int + 1) =~= (
                    pre + src@.subrange(ptr as int + 1, ptr as int + 1 + k as int)).push(
                        src@[ptr as int + 1 + k as int],
                    ));
                }
                dst.push(src[ptr + 1 + k]);
                k = k + 1;
            }
            let ghost data = src@.subrange(ptr as int + 1, ptr as int + 1 + data_len as int);
            if code < 0xFF {
                dst.push(0);
            }
            ptr = ptr + 1 + data_len;
            proof {
                assert(suffix.subrange(1, 1 + data_len as int) =~= data);
                assert(suffix.skip(1 + data_len as int) =~= src@.skip(ptr as int));
                if code == 0xFF {
                    assert(dst@ =~= pre + data);
                    match decode_blocks(src@.skip(ptr as int)) {
                        None => {},
                        Some(rest) => {
                            assert(pre + (data + rest) =~= dst@ + rest);
                        },
                    }
                } else {
                    assert(dst@ =~= pre + data + seq![0u8]);
                    match decode_blocks(src@.skip(ptr as int)) {
                        None => {},
                        Some(rest) => {
                            assert(pre + (data + seq![0u8] + rest) =~= dst@ + rest);
                        },
                    }
                }
            }
        }

        proof {
            assert(src@.skip(ptr as int) =~= Seq::<u8>::empty());
            assert(dst@ + Seq::<u8>::empty() =~= dst@);
        }

        if dst.len() == 0 {
            return Ok(dst);
        }

        let ghost full = dst@;
        let _ = dst.pop();
        proof {
            assert(dst@ =~= full.drop_last());
        }
        Ok(dst)
    }
}

} // verus!
