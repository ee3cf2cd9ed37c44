//! The size of a PNG image, read from the start of its file: the eight-byte
//! signature, then the `IHDR` chunk, whose data begins with the width and the
//! height as big-endian 32-bit integers.
use vstd::prelude::*;

verus! {

/// The number of leading bytes of a file that the header takes.
pub const PNG_HEADER_LEN: usize = 24;

/// The PNG signature, byte `k`.
pub open spec fn signature_byte(k: int) -> u8 {
    if k == 0 {
        0x89
    } else if k == 1 {
        0x50
    } else if k == 2 {
        0x4e
    } else if k == 3 {
        0x47
    } else if k == 4 {
        0x0d
    } else if k == 5 {
        0x0a
    } else if k == 6 {
        0x1a
    } else {
        0x0a
    }
}

/// The type of the `IHDR` chunk, byte `k`.
pub open spec fn ihdr_byte(k: int) -> u8 {
    if k == 0 {
        0x49
    } else if k == 1 {
        0x48
    } else if k == 2 {
        0x44
    } else {
        0x52
    }
}

/// The big-endian 32-bit integer at `at`.
pub open spec fn be_u32(bytes: Seq<u8>, at: int) -> int {
    bytes[at] * 0x100_0000 + bytes[at + 1] * 0x1_0000 + bytes[at + 2] * 0x100 + bytes[at + 3]
}

/// The bytes start with the PNG signature, followed by the length and the type of
/// an `IHDR` chunk of 13 bytes.
pub open spec fn is_png_header(bytes: Seq<u8>) -> bool {
    &&& bytes.len() >= PNG_HEADER_LEN
    &&& forall|k: int| 0 <= k < 8 ==> #[trigger] bytes[k] == signature_byte(k)
    &&& be_u32(bytes, 8) == 13
    &&& forall|k: int| 0 <= k < 4 ==> #[trigger] bytes[12 + k] == ihdr_byte(k)
}

/// The size of a PNG image in pixels.
#[derive(Clone, Copy, Debug, PartialEq, Eq, Structural)]
pub struct Metadata {
    pub width: u32,
    pub height: u32,
}

impl Metadata {
    /// The size that the header at the start of `bytes` gives, or `None` when the
    /// bytes do not start with a PNG header.
    pub fn try_read(bytes: &[u8]) -> (r: Option<Metadata>)
        ensures
            r is Some <==> is_png_header(bytes@),
            r matches Some(m) ==> m.width == be_u32(bytes@, 16) && m.height == be_u32(bytes@, 20),
    {
        if bytes.len() < PNG_HEADER_LEN {
            return None;
        }
        let signature: [u8; 8] = [0x89, 0x50, 0x4e, 0x47, 0x0d, 0x0a, 0x1a, 0x0a];
        let ihdr: [u8; 4] = [0x49, 0x48, 0x44, 0x52];
        let mut k: usize = 0;
        while k < 8
            invariant
                bytes@.len() >= PNG_HEADER_LEN,
                0 <= k <= 8,
                forall|j: int| 0 <= j < 8 ==> #[trigger] signature@[j] == signature_byte(j),
                forall|j: int| 0 <= j < k ==> #[trigger] bytes@[j] == signature_byte(j),
            decreases 8 - k,
        {
            if bytes[k] != signature[k] {
                return None;
            }
            k = k + 1;
        }
        if read_be_u32(bytes, 8) != 13 {
            return None;
        }
        let mut k: usize = 0;
        while k < 4
            invariant
                bytes@.len() >= PNG_HEADER_LEN,
                0 <= k <= 4,
                forall|j: int| 0 <= j < 4 ==> #[trigger] ihdr@[j] == ihdr_byte(j),
                forall|j: int| 0 <= j < k ==> #[trigger] bytes@[12 + j] == ihdr_byte(j),
            decreases 4 - k,
        {
            if bytes[12 + k] != ihdr[k] {
                return None;
            }
            k = k + 1;
        }
        Some(Metadata { width: read_be_u32(bytes, 16), height: read_be_u32(bytes, 20) })
    }
}

/// The big-endian 32-bit integer at `at`.
fn read_be_u32(bytes: &[u8], at: usize) -> (r: u32)
    requires
        at + 4 <= bytes@.len(),
    ensures
        r == be_u32(bytes@, at as int),
{
    let (b0, b1, b2, b3) = (bytes[at] as u32, bytes[at + 1] as u32, bytes[at + 2] as u32, bytes[at + 3] as u32);
    assert((b0 << 24) | (b1 << 16) | (b2 << 8) | b3 == b0 * 0x100_0000 + b1 * 0x1_0000 + b2 * 0x100 + b3) by (bit_vector)
        requires
            b0 < 256,
            b1 < 256,
            b2 < 256,
            b3 < 256,
    ;
    (b0 << 24) | (b1 << 16) | (b2 << 8) | b3
}

} // verus!
