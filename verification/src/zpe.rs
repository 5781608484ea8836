//! Zero-pair-elimination byte-stuffing codec.
//!
//! Same block shape as the classic codec, but the code byte's high bits carry
//! a second signal that lets a block absorb an immediately following run of
//! exactly two zero bytes. A code byte `c` means:
//!
//! - `0x01..=0xDF`: `c - 1` data bytes, then one synthesized zero;
//! - `0xE0`: 223 data bytes, forced split, nothing synthesized;
//! - `0xE1..=0xFF`: `(c - 0xE0) - 1` data bytes (the block length sits in the
//!   low five bits), then two synthesized zeros.
//!
//! On a zero byte while the open block is still pair-eligible (fewer than 30
//! data bytes), the encoder defers closing and inspects the next input byte:
//! a second zero confirms the pair; a nonzero byte falls back to an ordinary
//! single-zero close, the byte opening the next block. If the input ends
//! while a zero is still deferred, the block closes as if a pair had been
//! confirmed: this is sound only together with the decoder's unconditional
//! trim of the single final produced byte.

use vstd::prelude::*;

use crate::CorruptError;

verus! {

/// Encoding of `block ++ rest` (plus one already-seen zero when `pending`
/// holds), where `block` holds the data bytes accumulated for the block
/// currently open and `rest` is the input not yet consumed. `pending` marks
/// the lookahead state: a zero byte has closed the open block, but whether it
/// closes as a single zero or as a pair depends on the next input byte.
pub open spec fn encode_blocks(rest: Seq<u8>, block: Seq<u8>, pending: bool) -> Seq<u8>
    decreases rest.len(), (if pending {
        1int
    } else {
        0int
    }),
{
    if pending {
        if rest.len() == 0 {
            // Input ended with the zero still deferred: close as a pair
            // anyway; the decoder's final-byte trim removes the surplus zero.
            seq![(0xE0 + block.len() + 1) as u8] + block
        } else if rest[0] == 0 {
            // Pair confirmed.
            seq![(0xE0 + block.len() + 1) as u8] + block + encode_blocks(
                rest.skip(1),
                Seq::empty(),
                false,
            )
        } else {
            // No pair: ordinary single-zero close; the nonzero byte becomes
            // the first data byte of the next block.
            seq![(block.len() + 1) as u8] + block + encode_blocks(rest, Seq::empty(), false)
        }
    } else if rest.len() == 0 {
        seq![(block.len() + 1) as u8] + block
    } else if rest[0] == 0 {
        if block.len() < 30 {
            // Pair-eligible: defer the close and look ahead.
            encode_blocks(rest.skip(1), block, true)
        } else {
            seq![(block.len() + 1) as u8] + block + encode_blocks(rest.skip(1), Seq::empty(), false)
        }
    } else if block.len() == 222 {
        // The byte fills the block to 223 data bytes: forced split.
        seq![0xE0u8] + block.push(rest[0]) + encode_blocks(rest.skip(1), Seq::empty(), false)
    } else {
        encode_blocks(rest.skip(1), block.push(rest[0]), false)
    }
}

/// The encoded form of `src`: empty for empty input, otherwise the block
/// concatenation starting from an empty open block with no deferred zero.
pub open spec fn spec_encode(src: Seq<u8>) -> Seq<u8> {
    if src.len() == 0 {
        Seq::empty()
    } else {
        encode_blocks(src, Seq::empty(), false)
    }
}

/// Left-to-right block scan of `src`, before the final-byte trim. `None`
/// exactly when some code byte declares a block that would read past the end
/// of the input.
pub open spec fn decode_blocks(src: Seq<u8>) -> Option<Seq<u8>>
    decreases src.len(),
{
    if src.len() == 0 {
        Some(Seq::empty())
    } else {
        let code = src[0];
        let len_field: int = if code > 0xE0 {
            code as int - 0xE0
        } else {
            code as int
        };
        if len_field > src.len() {
            None
        } else {
            let data_len: int = if len_field == 0 {
                0
            } else {
                len_field - 1
            };
            let data = src.subrange(1, 1 + data_len);
            match decode_blocks(src.skip(1 + data_len)) {
                None => None,
                Some(rest) => if code <= 0xDF {
                    Some(data + seq![0u8] + rest)
                } else if code == 0xE0 {
                    Some(data + rest)
                } else {
                    Some(data + seq![0u8, 0u8] + rest)
                },
            }
        }
    }
}

/// The decoded form of `src`: the block scan, with the single trailing
/// synthesized zero dropped whenever anything was produced.
pub open spec fn spec_decode(src: Seq<u8>) -> Option<Seq<u8>> {
    match decode_blocks(src) {
        None => None,
        Some(d) => if d.len() == 0 {
            Some(d)
        } else {
            Some(d.drop_last())
        },
    }
}

/// An encoding always holds at least the open block's code byte and data.
proof fn lemma_encode_blocks_len_lower(rest: Seq<u8>, block: Seq<u8>, pending: bool)
    ensures
        encode_blocks(rest, block, pending).len() >= 1 + block.len(),
    decreases rest.len(), (if pending {
        1int
    } else {
        0int
    }),
{
    if pending {
        if rest.len() == 0 {
        } else if rest[0] == 0 {
            lemma_encode_blocks_len_lower(rest.skip(1), Seq::empty(), false);
        } else {
            lemma_encode_blocks_len_lower(rest, Seq::empty(), false);
        }
    } else if rest.len() == 0 {
    } else if rest[0] == 0 {
        if block.len() < 30 {
            lemma_encode_blocks_len_lower(rest.skip(1), block, true);
        } else {
            lemma_encode_blocks_len_lower(rest.skip(1), Seq::empty(), false);
        }
    } else if block.len() == 222 {
        lemma_encode_blocks_len_lower(rest.skip(1), Seq::empty(), false);
    } else {
        lemma_encode_blocks_len_lower(rest.skip(1), block.push(rest[0]), false);
    }
}

/// No byte of an encoding is zero: code bytes lie in `0x01..=0xFE`, and data
/// bytes are copied only from nonzero input positions.
proof fn lemma_encode_blocks_no_zeros(rest: Seq<u8>, block: Seq<u8>, pending: bool)
    requires
        !pending ==> block.len() <= 222,
        pending ==> block.len() <= 29,
        forall|j: int| 0 <= j < block.len() ==> block[j] != 0,
    ensures
        forall|j: int|
            0 <= j < encode_blocks(rest, block, pending).len() ==> encode_blocks(
                rest,
                block,
                pending,
            )[j] != 0,
    decreases rest.len(), (if pending {
        1int
    } else {
        0int
    }),
{
    let e = encode_blocks(rest, block, pending);
    assert((block.len() + 1) as u8 as int == block.len() + 1);
    if pending {
        assert((0xE0 + block.len() + 1) as u8 as int == 0xE0 + block.len() + 1);
        if rest.len() == 0 {
            assert forall|j: int| 0 <= j < e.len() implies e[j] != 0 by {
                if j == 0 {
                    assert(e[0] == (0xE0 + block.len() + 1) as u8);
                } else {
                    assert(e[j] == block[j - 1]);
                }
            }
        } else if rest[0] == 0 {
            lemma_encode_blocks_no_zeros(rest.skip(1), Seq::empty(), false);
            let tail = encode_blocks(rest.skip(1), Seq::empty(), false);
            assert forall|j: int| 0 <= j < e.len() implies e[j] != 0 by {
                if j == 0 {
                    assert(e[0] == (0xE0 + block.len() + 1) as u8);
                } else if j < 1 + block.len() {
                    assert(e[j] == block[j - 1]);
                } else {
                    assert(e[j] == tail[j - 1 - block.len()]);
                }
            }
        } else {
            lemma_encode_blocks_no_zeros(rest, Seq::empty(), false);
            let tail = encode_blocks(rest, Seq::empty(), false);
            assert forall|j: int| 0 <= j < e.len() implies e[j] != 0 by {
                if j == 0 {
                    assert(e[0] == (block.len() + 1) as u8);
                } else if j < 1 + block.len() {
                    assert(e[j] == block[j - 1]);
                } else {
                    assert(e[j] == tail[j - 1 - block.len()]);
                }
            }
        }
    } else if rest.len() == 0 {
        assert forall|j: int| 0 <= j < e.len() implies e[j] != 0 by {
            if j == 0 {
                assert(e[0] == (block.len() + 1) as u8);
            } else {
                assert(e[j] == block[j - 1]);
            }
        }
    } else if rest[0] == 0 {
        if block.len() < 30 {
            lemma_encode_blocks_no_zeros(rest.skip(1), block, true);
            let e2 = encode_blocks(rest.skip(1), block, true);
            assert(e == e2);
            assert forall|j: int| 0 <= j < e.len() implies e[j] != 0 by {
                assert(e2[j] != 0);
            }
        } else {
            lemma_encode_blocks_no_zeros(rest.skip(1), Seq::empty(), false);
            let tail = encode_blocks(rest.skip(1), Seq::empty(), false);
            assert forall|j: int| 0 <= j < e.len() implies e[j] != 0 by {
                if j == 0 {
                    assert(e[0] == (block.len() + 1) as u8);
                } else if j < 1 + block.len() {
                    assert(e[j] == block[j - 1]);
                } else {
                    assert(e[j] == tail[j - 1 - block.len()]);
                }
            }
        }
    } else if block.len() == 222 {
        lemma_encode_blocks_no_zeros(rest.skip(1), Seq::empty(), false);
        let tail = encode_blocks(rest.skip(1), Seq::empty(), false);
        assert forall|j: int| 0 <= j < e.len() implies e[j] != 0 by {
            if j == 0 {
                assert(e[0] == 0xE0u8);
            } else if j < 224 {
                assert(e[j] == block.push(rest[0])[j - 1]);
            } else {
                assert(e[j] == tail[j - 224]);
            }
        }
    } else {
        lemma_encode_blocks_no_zeros(rest.skip(1), block.push(rest[0]), false);
        let e2 = encode_blocks(rest.skip(1), block.push(rest[0]), false);
        assert(e == e2);
        assert forall|j: int| 0 <= j < e.len() implies e[j] != 0 by {
            assert(e2[j] != 0);
        }
    }
}

/// Decoding a block concatenation recovers the open block's data, the
/// deferred zero when one is pending, the remaining input, and one trailing
/// synthesized zero.
proof fn lemma_decode_encode_blocks(rest: Seq<u8>, block: Seq<u8>, pending: bool)
    requires
        !pending ==> block.len() <= 222,
        pending ==> block.len() <= 29,
    ensures
        decode_blocks(encode_blocks(rest, block, pending)) == Some(
            if pending {
                block + seq![0u8] + rest + seq![0u8]
            } else {
                block + rest + seq![0u8]
            },
        ),
    decreases rest.len(), (if pending {
        1int
    } else {
        0int
    }),
{
    let e = encode_blocks(rest, block, pending);
    assert((block.len() + 1) as u8 as int == block.len() + 1);
    if pending {
        let code = (0xE0 + block.len() + 1) as u8;
        assert(code as int == 0xE0 + block.len() + 1);
        if rest.len() == 0 {
            assert(e[0] == code);
            assert(e.len() == block.len() + 1);
            assert(e.subrange(1, 1 + block.len() as int) =~= block);
            assert(e.skip(1 + block.len() as int) =~= Seq::<u8>::empty());
            assert(decode_blocks(Seq::<u8>::empty()) == Some(Seq::<u8>::empty()));
            assert(decode_blocks(e) == Some(block + seq![0u8, 0u8] + Seq::<u8>::empty()));
            assert(block + seq![0u8, 0u8] + Seq::<u8>::empty() =~= block + seq![0u8] + rest
                + seq![0u8]);
        } else if rest[0] == 0 {
            lemma_decode_encode_blocks(rest.skip(1), Seq::empty(), false);
            lemma_encode_blocks_len_lower(rest.skip(1), Seq::empty(), false);
            let tail = encode_blocks(rest.skip(1), Seq::empty(), false);
            assert(e[0] == code);
            assert(e.len() == 1 + block.len() + tail.len());
            assert(e.subrange(1, 1 + block.len() as int) =~= block);
            assert(e.skip(1 + block.len() as int) =~= tail);
            let tail_dec = Seq::<u8>::empty() + rest.skip(1) + seq![0u8];
            assert(decode_blocks(tail) == Some(tail_dec));
            assert(decode_blocks(e) == Some(block + seq![0u8, 0u8] + tail_dec));
            assert(block + seq![0u8, 0u8] + tail_dec =~= block + seq![0u8] + rest + seq![0u8]);
        } else {
            lemma_decode_encode_blocks(rest, Seq::empty(), false);
            lemma_encode_blocks_len_lower(rest, Seq::empty(), false);
            let tail = encode_blocks(rest, Seq::empty(), false);
            let scode = (block.len() + 1) as u8;
            assert(e[0] == scode);
            assert(e.len() == 1 + block.len() + tail.len());
            assert(e.subrange(1, 1 + block.len() as int) =~= block);
            assert(e.skip(1 + block.len() as int) =~= tail);
            let tail_dec = Seq::<u8>::empty() + rest + seq![0u8];
            assert(decode_blocks(tail) == Some(tail_dec));
            assert(decode_blocks(e) == Some(block + seq![0u8] + tail_dec));
            assert(block + seq![0u8] + tail_dec =~= block + seq![0u8] + rest + seq![0u8]);
        }
    } else if rest.len() == 0 {
        let code = (block.len() + 1) as u8;
        assert(e[0] == code);
        assert(e.len() == block.len() + 1);
        assert(e.subrange(1, 1 + block.len() as int) =~= block);
        assert(e.skip(1 + block.len() as int) =~= Seq::<u8>::empty());
        assert(decode_blocks(Seq::<u8>::empty()) == Some(Seq::<u8>::empty()));
        assert(decode_blocks(e) == Some(block + seq![0u8] + Seq::<u8>::empty()));
        assert(block + seq![0u8] + Seq::<u8>::empty() =~= block + rest + seq![0u8]);
    } else if rest[0] == 0 {
        if block.len() < 30 {
            lemma_decode_encode_blocks(rest.skip(1), block, true);
            assert(block + seq![0u8] + rest.skip(1) + seq![0u8] =~= block + rest + seq![0u8]);
        } else {
            lemma_decode_encode_blocks(rest.skip(1), Seq::empty(), false);
            lemma_encode_blocks_len_lower(rest.skip(1), Seq::empty(), false);
            let tail = encode_blocks(rest.skip(1), Seq::empty(), false);
            let code = (block.len() + 1) as u8;
            assert(e[0] == code);
            assert(e.len() == 1 + block.len() + tail.len());
            assert(e.subrange(1, 1 + block.len() as int) =~= block);
            assert(e.skip(1 + block.len() as int) =~= tail);
            let tail_dec = Seq::<u8>::empty() + rest.skip(1) + seq![0u8];
            assert(decode_blocks(tail) == Some(tail_dec));
            assert(decode_blocks(e) == Some(block + seq![0u8] + tail_dec));
            assert(block + seq![0u8] + tail_dec =~= block + rest + seq![0u8]);
        }
    } else if block.len() == 222 {
        lemma_decode_encode_blocks(rest.skip(1), Seq::empty(), false);
        lemma_encode_blocks_len_lower(rest.skip(1), Seq::empty(), false);
        let tail = encode_blocks(rest.skip(1), Seq::empty(), false);
        let data = block.push(rest[0]);
        assert(e[0] == 0xE0u8);
        assert(e.len() == 224 + tail.len());
        assert(e.subrange(1, 224) =~= data);
        assert(e.skip(224) =~= tail);
        let tail_dec = Seq::<u8>::empty() + rest.skip(1) + seq![0u8];
        assert(decode_blocks(tail) == Some(tail_dec));
        assert(decode_blocks(e) == Some(data + tail_dec));
        assert(data + tail_dec =~= block + rest + seq![0u8]);
    } else {
        lemma_decode_encode_blocks(rest.skip(1), block.push(rest[0]), false);
        assert(block.push(rest[0]) + rest.skip(1) + seq![0u8] =~= block + rest + seq![0u8]);
    }
}

/// Round-trip law: for every byte sequence, decoding the encoding gives the
/// original sequence back.
pub proof fn lemma_round_trip(s: Seq<u8>)
    ensures
        spec_decode(spec_encode(s)) == Some(s),
{
    if s.len() == 0 {
    } else {
        lemma_decode_encode_blocks(s, Seq::empty(), false);
        let d = Seq::<u8>::empty() + s + seq![0u8];
        assert(d.len() == s.len() + 1);
        assert(d.drop_last() =~= s);
    }
}

/// Zero-freedom law: for every byte sequence, the encoding contains no zero
/// byte.
pub proof fn lemma_encode_zero_free(s: Seq<u8>)
    ensures
        forall|j: int| 0 <= j < spec_encode(s).len() ==> spec_encode(s)[j] != 0,
{
    if s.len() != 0 {
        lemma_encode_blocks_no_zeros(s, Seq::empty(), false);
    }
}

/// The zero-pair-elimination codec. Both operations are associated
/// functions; the struct itself carries no state.
pub struct ZPE {}

impl ZPE {
    /// Rewrite `src` into a buffer that contains no zero byte, folding runs
    /// of exactly two consecutive zeros into the closing code byte. Total:
    /// every input is accepted, and empty input yields empty output.
    pub fn encode(src: &[u8]) -> (dst: Vec<u8>)
        ensures
            dst@ == spec_encode(src@),
            dst@.len() == 0 <==> src@.len() == 0,
            forall|j: int| 0 <= j < dst@.len() ==> dst@[j] != 0,
    {
        let mut dst: Vec<u8> = Vec::new();

        if src.len() == 0 {
            return dst;
        }

        // Reserve the first code byte slot; it is patched through `ptr` once
        // the open block's closing code is known.
        dst.push(0);

        let mut ptr: usize = 0;
        let mut code: u8 = 1;
        let mut want_pair: bool = false;
        let mut i: usize = 0;

        proof {
            assert(src@.skip(0) =~= src@);
            assert(dst@.take(0) =~= Seq::<u8>::empty());
            assert(dst@.skip(1) =~= Seq::<u8>::empty());
        }

        while i < src.len()
            invariant
                src@.len() > 0,
                i <= src@.len(),
                (ptr as int) < dst@.len(),
                dst@.len() == ptr + code,
                1 <= code,
                want_pair ==> code <= 30,
                !want_pair ==> code <= 223,
                encode_blocks(src@, Seq::empty(), false) == dst@.take(ptr as int) + encode_blocks(
                    src@.skip(i as int),
                    dst@.skip(ptr as int + 1),
                    want_pair,
                ),
            decreases src@.len() - i,
        {
            let ghost pre = dst@;
            let ghost block = pre.skip(ptr as int + 1);
            let ghost old_ptr = ptr as int;
            proof {
                assert(src@.skip(i as int)[0] == src@[i as int]);
                assert(src@.skip(i as int).skip(1) =~= src@.skip(i as int + 1));
            }
            let b = src[i];
            if want_pair {
                want_pair = false;
                if b == 0 {
                    // Pair confirmed: close with the pair signal in the high
                    // bits, then start a fresh block.
                    proof {
                        assert((0xE0 + block.len() + 1) as u8 == 0xE0 + code);
                    }
                    code = 0xE0 + code;
                    dst.set(ptr, code);
                    let ghost patched = dst@;
                    ptr = dst.len();
                    dst.push(0);
                    code = 1;
                    proof {
                        assert(dst@.take(ptr as int) =~= patched);
                        assert(patched =~= pre.take(old_ptr) + seq![(0xE0 + block.len() + 1) as u8]
                            + block);
                        assert(dst@.skip(ptr as int + 1) =~= Seq::<u8>::empty());
                        assert(pre.take(old_ptr) + (seq![(0xE0 + block.len() + 1) as u8] + block
                            + encode_blocks(src@.skip(i as int + 1), Seq::empty(), false))
                            =~= dst@.take(ptr as int) + encode_blocks(
                            src@.skip(i as int + 1),
                            Seq::empty(),
                            false,
                        ));
                    }
                } else {
                    // No pair: ordinary single-zero close, and the nonzero
                    // byte opens the next block as its first data byte.
                    proof {
                        assert((block.len() + 1) as u8 == code);
                    }
                    dst.set(ptr, code);
                    let ghost patched = dst@;
                    ptr = dst.len();
                    dst.push(0);
                    code = 1;
                    dst.push(b);
                    code = 2;
                    proof {
                        assert(dst@.take(ptr as int) =~= patched);
                        assert(patched =~= pre.take(old_ptr) + seq![(block.len() + 1) as u8]
                            + block);
                        assert(dst@.skip(ptr as int + 1) =~= seq![b]);
                        assert(encode_blocks(src@.skip(i as int), Seq::empty(), false)
                            == encode_blocks(src@.skip(i as int + 1), Seq::empty().push(b), false));
                        assert(Seq::empty().push(b) =~= seq![b]);
                        assert(pre.take(old_ptr) + (seq![(block.len() + 1) as u8] + block
                            + encode_blocks(src@.skip(i as int + 1), seq![b], false)) =~= dst@.take(
                            ptr as int,
                        ) + encode_blocks(src@.skip(i as int + 1), seq![b], false));
                    }
                }
            } else if b == 0 {
                if code < 31 {
                    // Pair-eligible: defer the close and look ahead.
                    want_pair = true;
                } else {
                    // Too long for the pair signal: ordinary close.
                    proof {
                        assert((block.len() + 1) as u8 == code);
                    }
                    dst.set(ptr, code);
                    let ghost patched = dst@;
                    ptr = dst.len();
                    dst.push(0);
                    code = 1;
                    proof {
                        assert(dst@.take(ptr as int) =~= patched);
                        assert(patched =~= pre.take(old_ptr) + seq![(block.len() + 1) as u8]
                            + block);
                        assert(dst@.skip(ptr as int + 1) =~= Seq::<u8>::empty());
                        assert(pre.take(old_ptr) + (seq![(block.len() + 1) as u8] + block
                            + encode_blocks(src@.skip(i as int + 1), Seq::empty(), false))
                            =~= dst@.take(ptr as int) + encode_blocks(
                            src@.skip(i as int + 1),
                            Seq::empty(),
                            false,
                        ));
                    }
                }
            } else {
                dst.push(b);
                code = code + 1;
                if code == 0xE0 {
                    // Forced split: the block reached 223 data bytes.
                    proof {
                        assert(block.len() == 222);
                        assert(dst@.skip(ptr as int + 1) =~= block.push(b));
                    }
                    dst.set(ptr, code);
                    let ghost patched = dst@;
                    ptr = dst.len();
                    dst.push(0);
                    code = 1;
                    proof {
                        assert(dst@.take(ptr as int) =~= patched);
                        assert(patched =~= pre.take(old_ptr) + seq![0xE0u8] + block.push(b));
                        assert(dst@.skip(ptr as int + 1) =~= Seq::<u8>::empty());
                        assert(pre.take(old_ptr) + (seq![0xE0u8] + block.push(b) + encode_blocks(
                            src@.skip(i as int + 1),
                            Seq::empty(),
                            false,
                        )) =~= dst@.take(ptr as int) + encode_blocks(
                            src@.skip(i as int + 1),
                            Seq::empty(),
                            false,
                        ));
                    }
                } else {
                    proof {
                        assert(block.len() < 222);
                        assert(dst@.take(ptr as int) =~= pre.take(ptr as int));
                        assert(dst@.skip(ptr as int + 1) =~= block.push(b));
                    }
                }
            }
            i = i + 1;
        }

        proof {
            assert(src@.skip(i as int) =~= Seq::<u8>::empty());
        }
        let ghost pre = dst@;
        let ghost block = pre.skip(ptr as int + 1);
        if want_pair {
            proof {
                assert((0xE0 + block.len() + 1) as u8 == 0xE0 + code);
            }
            code = 0xE0 + code;
            dst.set(ptr, code);
            proof {
                assert(dst@ =~= pre.take(ptr as int) + (seq![(0xE0 + block.len() + 1) as u8]
                    + block));
            }
        } else {
            proof {
                assert((block.len() + 1) as u8 == code);
            }
            dst.set(ptr, code);
            proof {
                assert(dst@ =~= pre.take(ptr as int) + (seq![(block.len() + 1) as u8] + block));
            }
        }
        proof {
            assert(dst@ == spec_encode(src@));
            lemma_encode_zero_free(src@);
            lemma_encode_blocks_len_lower(src@, Seq::empty(), false);
            assert forall|j: int| 0 <= j < dst@.len() implies dst@[j] != 0 by {
                assert(spec_encode(src@)[j] != 0);
            }
        }

        dst
    }

    /// Decode `src`, accepting arbitrary input. Returns the decoded buffer,
    /// or `CorruptError` exactly when some code byte declares a block that
    /// would read past the end of `src`.
    pub fn decode(src: &[u8]) -> (res: Result<Vec<u8>, CorruptError>)
        ensures
            match res {
                Ok(dst) => spec_decode(src@) == Some(dst@),
                Err(_) => spec_decode(src@) is None,
            },
    {
        let mut dst: Vec<u8> = Vec::new();
        let mut ptr: usize = 0;

        proof {
            assert(src@.skip(0) =~= src@);
        }

        while ptr < src.len()
            invariant
                ptr <= src@.len(),
                match decode_blocks(src@.skip(ptr as int)) {
                    None => decode_blocks(src@) is None,
                    Some(rest) => decode_blocks(src@) == Some(dst@ + rest),
                },
            decreases src@.len() - ptr,
        {
            let ghost suffix = src@.skip(ptr as int);
            proof {
                assert(suffix[0] == src@[ptr as int]);
            }
            let code = src[ptr];
            // For a pair code the block length sits in the low five bits:
            // for `code` in 0xE1..=0xFF that value is exactly `code - 0xE0`.
            let len_field: usize = if code > 0xE0 {
                (code - 0xE0) as usize
            } else {
                code as usize
            };
            if len_field > src.len() - ptr {
                return Err(CorruptError {});
            }
            let data_len: usize = if len_field == 0 {
                0
            } else {
                len_field - 1
            };
            let ghost pre = dst@;
            let mut k: usize = 0;
            while k < data_len
                invariant
                    k <= data_len,
                    ptr as int + 1 + data_len as int <= src@.len(),
                    src@.len() <= usize::MAX,
                    dst@ == pre + src@.subrange(ptr as int + 1, ptr as int + 1 + k as int),
                decreases data_len - k,
            {
                proof {
                    assert(pre + src@.subrange(ptr as int + 1, ptr as int + 1 + k as int + 1) =~= (
                    pre + src@.subrange(ptr as int + 1, ptr as int + 1 + k as int)).push(
                        src@[ptr as int + 1 + k as int],
                    ));
                }
                dst.push(src[ptr + 1 + k]);
                k = k + 1;
            }
            let ghost data = src@.subrange(ptr as int + 1, ptr as int + 1 + data_len as int);
            if code <= 0xDF {
                dst.push(0);
            } else if code == 0xE0 {
                // Forced-split block: nothing synthesized.
            } else {
                dst.push(0);
                dst.push(0);
            }
            ptr = ptr + 1 + data_len;
            proof {
                assert(suffix.subrange(1, 1 + data_len as int) =~= data);
                assert(suffix.skip(1 + data_len as int) =~= src@.skip(ptr as int));
                if code <= 0xDF {
                    assert(dst@ =~= pre + data + seq![0u8]);
                    match decode_blocks(src@.skip(ptr as int)) {
                        None => {},
                        Some(rest) => {
                            assert(pre + (data + seq![0u8] + rest) =~= dst@ + rest);
                        },
                    }
                } else if code == 0xE0 {
                    assert(dst@ =~= pre + data);
                    match decode_blocks(src@.skip(ptr as int)) {
                        None => {},
                        Some(rest) => {
                            assert(pre + (data + rest) =~= dst@ + rest);
                        },
                    }
                } else {
                    assert(dst@ =~= pre + data + seq![0u8, 0u8]);
                    match decode_blocks(src@.skip(ptr as int)) {
                        None => {},
                        Some(rest) => {
                            assert(pre + (data + seq![0u8, 0u8] + rest) =~= dst@ + rest);
                        },
                    }
                }
            }
        }

        proof {
            assert(src@.skip(ptr as int) =~= Seq::<u8>::empty());
            assert(dst@ + Seq::<u8>::empty() =~= dst@);
        }

        if dst.len() == 0 {
            return Ok(dst);
        }

        let ghost full = dst@;
        let _ = dst.pop();
        proof {
            assert(dst@ =~= full.drop_last());
        }
        Ok(dst)
    }
}

} // verus!
