//! Byte-stuffing framing codecs.
//!
//! Both codecs rewrite an arbitrary byte buffer into an equivalent buffer
//! that contains no zero byte, so that a transport can use `0x00` as an
//! unambiguous frame delimiter. [`Encoder`] is the classic scheme;
//! [`ZPE`] is a size-optimized variant that folds runs of exactly two
//! consecutive zero bytes into the code byte of the preceding block.

use vstd::prelude::*;

pub mod classic;
pub mod zpe;

pub use classic::Encoder;
pub use zpe::ZPE;

verus! {

/// Error returned by `decode` when a code byte declares a block whose
/// length would read past the end of the input buffer.
#[derive(Debug, Clone, Copy)]
pub struct CorruptError {}

} // verus!
