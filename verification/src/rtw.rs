//! RTW, a deliberately simple binary format for named tensors.
//!
//! Layout (little-endian):
//!   magic:  6 bytes  `RTWv1\0`
//!   count:  u32      number of tensors
//!   per tensor:
//!     name_len: u32
//!     name:     name_len bytes (utf-8)
//!     ndim:     u32
//!     dims:     ndim x u64
//!     data:     product(dims) x f32, here as 32-bit patterns
use vstd::prelude::*;
use vstd::utf8::{decode_utf8, encode_utf8, valid_utf8};

use crate::shape::{fits, product};

verus! {

/// Why bytes are not an RTW file.
#[derive(Debug, Clone, Copy, PartialEq, Eq, Structural)]
pub enum RtwError {
    /// The bytes end before the layout does.
    Truncated,
    /// The first bytes are not the magic.
    BadMagic,
    /// A name is not UTF-8.
    NonUtf8Name,
    /// The sizes or strides of an empty tensor leave the range of `usize`.
    ShapeOverflow,
}

impl RtwError {
    /// The error in words.
    pub open spec fn text(self) -> Seq<char> {
        match self {
            RtwError::Truncated => "truncated RTW file"@,
            RtwError::BadMagic => "bad RTW magic"@,
            RtwError::NonUtf8Name => "non-utf8 tensor name"@,
            RtwError::ShapeOverflow => "tensor shape too large"@,
        }
    }

    /// The error in words.
    pub fn message(&self) -> (m: &'static str)
        ensures
            m@ == self.text(),
    {
        match self {
            RtwError::Truncated => "truncated RTW file",
            RtwError::BadMagic => "bad RTW magic",
            RtwError::NonUtf8Name => "non-utf8 tensor name",
            RtwError::ShapeOverflow => "tensor shape too large",
        }
    }
}

/// One tensor of a file: its name, its dimensions, and its elements as bit
/// patterns.
#[verifier::ext_equal]
pub struct Entry {
    pub name: Seq<char>,
    pub dims: Seq<u64>,
    pub bits: Seq<u32>,
}

/// The bytes that every file starts with.
pub open spec fn magic() -> Seq<u8> {
    seq![0x52u8, 0x54, 0x57, 0x76, 0x31, 0]
}

/// The little-endian `u32` at a place.
pub open spec fn u32_at(buf: Seq<u8>, pos: int) -> u32 {
    (buf[pos] + 0x100 * buf[pos + 1] + 0x1_0000 * buf[pos + 2] + 0x100_0000 * buf[pos + 3]) as u32
}

/// The little-endian `u64` at a place.
pub open spec fn u64_at(buf: Seq<u8>, pos: int) -> u64 {
    (u32_at(buf, pos) + 0x1_0000_0000 * u32_at(buf, pos + 4)) as u64
}

/// The `n` little-endian `u64` values at a place.
pub open spec fn dims_at(buf: Seq<u8>, pos: int, n: nat) -> Seq<u64> {
    Seq::new(n, |i: int| u64_at(buf, pos + 8 * i))
}

/// The `n` little-endian `u32` values at a place.
pub open spec fn bits_at(buf: Seq<u8>, pos: int, n: nat) -> Seq<u32> {
    Seq::new(n, |i: int| u32_at(buf, pos + 4 * i))
}

/// Dimensions as a shape.
pub open spec fn shape_of(dims: Seq<u64>) -> Seq<usize> {
    dims.map_values(|d: u64| d as usize)
}

/// The entry at a place and the place after it.
pub open spec fn entry_at(buf: Seq<u8>, pos: int) -> Result<(Entry, int), RtwError> {
    let name_pos = pos + 4;
    let ndim_pos = name_pos + u32_at(buf, pos);
    let dims_pos = ndim_pos + 4;
    let ndim = u32_at(buf, ndim_pos) as nat;
    let data_pos = dims_pos + 8 * ndim;
    let name = buf.subrange(name_pos, ndim_pos);
    let dims = dims_at(buf, dims_pos, ndim);
    let numel = product(shape_of(dims));
    let end = data_pos + 4 * numel;
    if name_pos > buf.len() || ndim_pos > buf.len() {
        Err(RtwError::Truncated)
    } else if !valid_utf8(name) {
        Err(RtwError::NonUtf8Name)
    } else if dims_pos > buf.len() || data_pos > buf.len() || end > buf.len() {
        Err(RtwError::Truncated)
    } else if !fits(shape_of(dims)) {
        Err(RtwError::ShapeOverflow)
    } else {
        Ok((Entry { name: decode_utf8(name), dims, bits: bits_at(buf, data_pos, numel) }, end))
    }
}

/// The next `count` entries from a place on, and the place after them.
pub open spec fn entries_at(buf: Seq<u8>, pos: int, count: nat) -> Result<
    (Seq<Entry>, int),
    RtwError,
>
    decreases count,
{
    if count == 0 {
        Ok((Seq::empty(), pos))
    } else {
        match entry_at(buf, pos) {
            Err(e) => Err(e),
            Ok((entry, next)) => match entries_at(buf, next, (count - 1) as nat) {
                Err(e) => Err(e),
                Ok((rest, end)) => Ok((seq![entry] + rest, end)),
            },
        }
    }
}

/// The entries of a file and the place after them; what follows is not read.
pub open spec fn file_entries(buf: Seq<u8>) -> Result<(Seq<Entry>, int), RtwError> {
    if buf.len() < 6 {
        Err(RtwError::Truncated)
    } else if buf.take(6) != magic() {
        Err(RtwError::BadMagic)
    } else if buf.len() < 10 {
        Err(RtwError::Truncated)
    } else {
        entries_at(buf, 10, u32_at(buf, 6) as nat)
    }
}

/// The bytes of a little-endian `u32`.
pub open spec fn u32_bytes(n: u32) -> Seq<u8> {
    seq![
        (n % 0x100) as u8,
        (n / 0x100 % 0x100) as u8,
        (n / 0x1_0000 % 0x100) as u8,
        (n / 0x100_0000) as u8,
    ]
}

/// The bytes of a little-endian `u64`.
pub open spec fn u64_bytes(n: u64) -> Seq<u8> {
    u32_bytes((n % 0x1_0000_0000) as u32) + u32_bytes((n / 0x1_0000_0000) as u32)
}

/// The bytes of little-endian `u64` values.
pub open spec fn dims_bytes(dims: Seq<u64>) -> Seq<u8>
    decreases dims.len(),
{
    if dims.len() == 0 {
        Seq::empty()
    } else {
        dims_bytes(dims.drop_last()) + u64_bytes(dims.last())
    }
}

/// The bytes of little-endian `u32` values.
pub open spec fn bits_bytes(bits: Seq<u32>) -> Seq<u8>
    decreases bits.len(),
{
    if bits.len() == 0 {
        Seq::empty()
    } else {
        bits_bytes(bits.drop_last()) + u32_bytes(bits.last())
    }
}

/// The layout of an entry.
pub open spec fn entry_bytes(entry: Entry) -> Seq<u8> {
    let name = encode_utf8(entry.name);
    u32_bytes(name.len() as u32) + name + u32_bytes(entry.dims.len() as u32) + dims_bytes(
        entry.dims,
    ) + bits_bytes(entry.bits)
}

/// The layout of entries, one after another.
pub open spec fn entries_bytes(entries: Seq<Entry>) -> Seq<u8>
    decreases entries.len(),
{
    if entries.len() == 0 {
        Seq::empty()
    } else {
        entry_bytes(entries[0]) + entries_bytes(entries.skip(1))
    }
}

/// The layout of a file.
pub open spec fn file_bytes(entries: Seq<Entry>) -> Seq<u8> {
    magic() + u32_bytes(entries.len() as u32) + entries_bytes(entries)
}

/// An entry that a file can hold: its lengths fit their fields and its
/// elements fill its shape.
pub open spec fn encodable(entry: Entry) -> bool {
    &&& encode_utf8(entry.name).len() <= u32::MAX
    &&& entry.dims.len() <= u32::MAX
    &&& fits(shape_of(entry.dims))
    &&& entry.bits.len() == product(shape_of(entry.dims))
}

/// Entries that a file can hold.
pub open spec fn all_encodable(entries: Seq<Entry>) -> bool {
    &&& entries.len() <= u32::MAX
    &&& forall|i: int| 0 <= i < entries.len() ==> encodable(#[trigger] entries[i])
}

/// The little-endian `u32` at a place.
pub fn read_u32(buf: &[u8], pos: usize) -> (n: u32)
    requires
        pos + 4 <= buf@.len(),
    ensures
        n == u32_at(buf@, pos as int),
{
    assert(buf@.len() == buf.len());
    buf[pos] as u32 + 0x100 * (buf[pos + 1] as u32) + 0x1_0000 * (buf[pos + 2] as u32) + 0x100_0000
        * (buf[pos + 3] as u32)
}

/// The little-endian `u64` at a place.
pub fn read_u64(buf: &[u8], pos: usize) -> (n: u64)
    requires
        pos + 8 <= buf@.len(),
    ensures
        n == u64_at(buf@, pos as int),
{
    assert(buf@.len() == buf.len());
    read_u32(buf, pos) as u64 + 0x1_0000_0000 * (read_u32(buf, pos + 4) as u64)
}

} // verus!
