//! What the RTW format promises: files read back as written, and a file cut
//! short is noticed.
use vstd::prelude::*;
use vstd::utf8::{decode_utf8_encode_utf8, encode_utf8_decode_utf8, encode_utf8_valid_utf8};
use vstd::utf8::encode_utf8;

use crate::rtw::{
    all_encodable, bits_at, bits_bytes, dims_at, dims_bytes, encodable, entries_at, entries_bytes,
    entry_at, entry_bytes, file_bytes, file_entries, magic, u32_at, u32_bytes, u64_at, u64_bytes,
};
use crate::rtw::{Entry, RtwError};

verus! {

/// A `u32` is read from its bytes.
proof fn lemma_u32_read(buf: Seq<u8>, pos: int, n: u32)
    requires
        0 <= pos,
        pos + 4 <= buf.len(),
        buf.subrange(pos, pos + 4) == u32_bytes(n),
    ensures
        u32_at(buf, pos) == n,
{
    let b = buf.subrange(pos, pos + 4);
    assert(b[0] == buf[pos] && b[1] == buf[pos + 1] && b[2] == buf[pos + 2] && b[3] == buf[pos
        + 3]);
    let s = u32_bytes(n);
    assert(s[0] == (n % 0x100) as u8 && s[1] == (n / 0x100 % 0x100) as u8 && s[2] == (n / 0x1_0000
        % 0x100) as u8 && s[3] == (n / 0x100_0000) as u8);
}

/// The bytes of a `u32` are those that it was read from.
proof fn lemma_u32_written(buf: Seq<u8>, pos: int)
    requires
        0 <= pos,
        pos + 4 <= buf.len(),
    ensures
        u32_bytes(u32_at(buf, pos)) == buf.subrange(pos, pos + 4),
{
    let n = u32_at(buf, pos);
    let b0 = buf[pos] as int;
    let b1 = buf[pos + 1] as int;
    let b2 = buf[pos + 2] as int;
    let b3 = buf[pos + 3] as int;
    assert(n == b0 + 0x100 * b1 + 0x1_0000 * b2 + 0x100_0000 * b3);
    assert(n % 0x100 == b0);
    assert(n / 0x100 == b1 + 0x100 * b2 + 0x1_0000 * b3);
    assert(n / 0x100 % 0x100 == b1);
    assert(n / 0x1_0000 == b2 + 0x100 * b3);
    assert(n / 0x1_0000 % 0x100 == b2);
    assert(n / 0x100_0000 == b3);
    assert(u32_bytes(n) =~= buf.subrange(pos, pos + 4));
}

/// A `u64` is read from its bytes.
proof fn lemma_u64_read(buf: Seq<u8>, pos: int, n: u64)
    requires
        0 <= pos,
        pos + 8 <= buf.len(),
        buf.subrange(pos, pos + 8) == u64_bytes(n),
    ensures
        u64_at(buf, pos) == n,
{
    let low = (n % 0x1_0000_0000) as u32;
    let high = (n / 0x1_0000_0000) as u32;
    let b = buf.subrange(pos, pos + 8);
    assert(b.subrange(0, 4) =~= u32_bytes(low));
    assert(b.subrange(4, 8) =~= u32_bytes(high));
    assert(buf.subrange(pos, pos + 4) =~= b.subrange(0, 4));
    assert(buf.subrange(pos + 4, pos + 8) =~= b.subrange(4, 8));
    lemma_u32_read(buf, pos, low);
    lemma_u32_read(buf, pos + 4, high);
}

/// The bytes of a `u64` are those that it was read from.
proof fn lemma_u64_written(buf: Seq<u8>, pos: int)
    requires
        0 <= pos,
        pos + 8 <= buf.len(),
    ensures
        u64_bytes(u64_at(buf, pos)) == buf.subrange(pos, pos + 8),
{
    let n = u64_at(buf, pos);
    let low = u32_at(buf, pos);
    let high = u32_at(buf, pos + 4);
    assert(n == low + 0x1_0000_0000 * high);
    assert(n % 0x1_0000_0000 == low);
    assert(n / 0x1_0000_0000 == high);
    lemma_u32_written(buf, pos);
    lemma_u32_written(buf, pos + 4);
    assert(u64_bytes(n) =~= buf.subrange(pos, pos + 8));
}

proof fn lemma_dims_len(dims: Seq<u64>)
    ensures
        dims_bytes(dims).len() == 8 * dims.len(),
    decreases dims.len(),
{
    if dims.len() > 0 {
        lemma_dims_len(dims.drop_last());
    }
}

proof fn lemma_bits_len(bits: Seq<u32>)
    ensures
        bits_bytes(bits).len() == 4 * bits.len(),
    decreases bits.len(),
{
    if bits.len() > 0 {
        lemma_bits_len(bits.drop_last());
    }
}

/// Dimensions are read from their bytes.
proof fn lemma_dims_read(buf: Seq<u8>, pos: int, dims: Seq<u64>)
    requires
        0 <= pos,
        pos + 8 * dims.len() <= buf.len(),
        buf.subrange(pos, pos + 8 * dims.len()) == dims_bytes(dims),
    ensures
        dims_at(buf, pos, dims.len()) == dims,
    decreases dims.len(),
{
    if dims.len() > 0 {
        let rest = dims.drop_last();
        let n = rest.len() as int;
        lemma_dims_len(rest);
        let whole = buf.subrange(pos, pos + 8 * dims.len());
        assert(whole.subrange(0, 8 * n) =~= dims_bytes(rest));
        assert(buf.subrange(pos, pos + 8 * n) =~= whole.subrange(0, 8 * n));
        lemma_dims_read(buf, pos, rest);
        assert(whole.subrange(8 * n, 8 * n + 8) =~= u64_bytes(dims.last()));
        assert(buf.subrange(pos + 8 * n, pos + 8 * n + 8) =~= whole.subrange(8 * n, 8 * n + 8));
        lemma_u64_read(buf, pos + 8 * n, dims.last());
        assert forall|i: int| 0 <= i < dims.len() implies dims_at(buf, pos, dims.len())[i]
            == dims[i] by {
            if i < n {
                assert(dims_at(buf, pos, rest.len())[i] == rest[i]);
            }
        }
    }
    assert(dims_at(buf, pos, dims.len()) =~= dims);
}

/// Bit patterns are read from their bytes.
proof fn lemma_bits_read(buf: Seq<u8>, pos: int, bits: Seq<u32>)
    requires
        0 <= pos,
        pos + 4 * bits.len() <= buf.len(),
        buf.subrange(pos, pos + 4 * bits.len()) == bits_bytes(bits),
    ensures
        bits_at(buf, pos, bits.len()) == bits,
    decreases bits.len(),
{
    if bits.len() > 0 {
        let rest = bits.drop_last();
        let n = rest.len() as int;
        lemma_bits_len(rest);
        let whole = buf.subrange(pos, pos + 4 * bits.len());
        assert(whole.subrange(0, 4 * n) =~= bits_bytes(rest));
        assert(buf.subrange(pos, pos + 4 * n) =~= whole.subrange(0, 4 * n));
        lemma_bits_read(buf, pos, rest);
        assert(whole.subrange(4 * n, 4 * n + 4) =~= u32_bytes(bits.last()));
        assert(buf.subrange(pos + 4 * n, pos + 4 * n + 4) =~= whole.subrange(4 * n, 4 * n + 4));
        lemma_u32_read(buf, pos + 4 * n, bits.last());
        assert forall|i: int| 0 <= i < bits.len() implies bits_at(buf, pos, bits.len())[i]
            == bits[i] by {
            if i < n {
                assert(bits_at(buf, pos, rest.len())[i] == rest[i]);
            }
        }
    }
    assert(bits_at(buf, pos, bits.len()) =~= bits);
}

/// The bytes of dimensions are those that they were read from.
proof fn lemma_dims_written(buf: Seq<u8>, pos: int, n: nat)
    requires
        0 <= pos,
        pos + 8 * n <= buf.len(),
    ensures
        dims_bytes(dims_at(buf, pos, n)) == buf.subrange(pos, pos + 8 * n),
    decreases n,
{
    let dims = dims_at(buf, pos, n);
    if n > 0 {
        let m = (n - 1) as nat;
        lemma_dims_written(buf, pos, m);
        assert(dims.drop_last() =~= dims_at(buf, pos, m));
        lemma_u64_written(buf, pos + 8 * m);
        assert(dims.last() == u64_at(buf, pos + 8 * m));
    }
    assert(dims_bytes(dims) =~= buf.subrange(pos, pos + 8 * n));
}

/// The bytes of bit patterns are those that they were read from.
proof fn lemma_bits_written(buf: Seq<u8>, pos: int, n: nat)
    requires
        0 <= pos,
        pos + 4 * n <= buf.len(),
    ensures
        bits_bytes(bits_at(buf, pos, n)) == buf.subrange(pos, pos + 4 * n),
    decreases n,
{
    let bits = bits_at(buf, pos, n);
    if n > 0 {
        let m = (n - 1) as nat;
        lemma_bits_written(buf, pos, m);
        assert(bits.drop_last() =~= bits_at(buf, pos, m));
        lemma_u32_written(buf, pos + 4 * m);
        assert(bits.last() == u32_at(buf, pos + 4 * m));
    }
    assert(bits_bytes(bits) =~= buf.subrange(pos, pos + 4 * n));
}

/// Where the five parts of a byte string stand in it.
proof fn lemma_five_parts(p: Seq<u8>, q: Seq<u8>, r: Seq<u8>, s: Seq<u8>, t: Seq<u8>)
    ensures
        ({
            let whole = p + q + r + s + t;
            let a = p.len() as int;
            let b = a + q.len();
            let c = b + r.len();
            let d = c + s.len();
            let e = d + t.len();
            &&& whole.len() == e
            &&& whole.subrange(0, a) == p
            &&& whole.subrange(a, b) == q
            &&& whole.subrange(b, c) == r
            &&& whole.subrange(c, d) == s
            &&& whole.subrange(d, e) == t
        }),
{
    let whole = p + q + r + s + t;
    let a = p.len() as int;
    let b = a + q.len();
    let c = b + r.len();
    let d = c + s.len();
    let e = d + t.len();
    assert(whole.subrange(0, a) =~= p);
    assert(whole.subrange(a, b) =~= q);
    assert(whole.subrange(b, c) =~= r);
    assert(whole.subrange(c, d) =~= s);
    assert(whole.subrange(d, e) =~= t);
}

/// A part of a part of a byte string.
proof fn lemma_part_of_part(buf: Seq<u8>, pos: int, n: int, from: int, to: int)
    requires
        0 <= pos,
        0 <= from <= to <= n,
        pos + n <= buf.len(),
    ensures
        buf.subrange(pos, pos + n).subrange(from, to) == buf.subrange(pos + from, pos + to),
{
    assert(buf.subrange(pos, pos + n).subrange(from, to) =~= buf.subrange(pos + from, pos + to));
}

/// An entry is read from its layout, wherever that stands.
proof fn lemma_entry_read(buf: Seq<u8>, pos: int, entry: Entry)
    requires
        encodable(entry),
        0 <= pos,
        pos + entry_bytes(entry).len() <= buf.len(),
        buf.subrange(pos, pos + entry_bytes(entry).len()) == entry_bytes(entry),
    ensures
        entry_at(buf, pos) == Ok::<(Entry, int), RtwError>(
            (entry, pos + entry_bytes(entry).len()),
        ),
{
    let bytes = entry_bytes(entry);
    let name = encode_utf8(entry.name);
    let ndim = entry.dims.len();
    lemma_dims_len(entry.dims);
    lemma_bits_len(entry.bits);
    let a = 4 + name.len() as int;
    let b = a + 4;
    let c = b + 8 * ndim;
    let d = c + 4 * entry.bits.len();
    lemma_five_parts(
        u32_bytes(name.len() as u32),
        name,
        u32_bytes(ndim as u32),
        dims_bytes(entry.dims),
        bits_bytes(entry.bits),
    );
    assert(bytes.len() == d);
    lemma_part_of_part(buf, pos, d, 0, 4);
    lemma_part_of_part(buf, pos, d, 4, a);
    lemma_part_of_part(buf, pos, d, a, b);
    lemma_part_of_part(buf, pos, d, b, c);
    lemma_part_of_part(buf, pos, d, c, d);
    lemma_u32_read(buf, pos, name.len() as u32);
    lemma_u32_read(buf, pos + a, ndim as u32);
    lemma_dims_read(buf, pos + b, entry.dims);
    lemma_bits_read(buf, pos + c, entry.bits);
    encode_utf8_valid_utf8(entry.name);
    encode_utf8_decode_utf8(entry.name);
}

/// What is read as an entry has the layout of that entry.
proof fn lemma_entry_written(buf: Seq<u8>, pos: int)
    requires
        0 <= pos <= buf.len(),
        entry_at(buf, pos) is Ok,
    ensures
        ({
            let (entry, end) = entry_at(buf, pos)->Ok_0;
            &&& encodable(entry)
            &&& pos + 8 <= end <= buf.len()
            &&& entry_bytes(entry) == buf.subrange(pos, end)
        }),
{
    let (entry, end) = entry_at(buf, pos)->Ok_0;
    let a = pos + 4 + u32_at(buf, pos);
    let b = a + 4;
    let ndim = u32_at(buf, a) as nat;
    let c = b + 8 * ndim;
    let name = buf.subrange(pos + 4, a);
    decode_utf8_encode_utf8(name);
    assert(encode_utf8(entry.name) == name);
    lemma_u32_written(buf, pos);
    lemma_u32_written(buf, a);
    lemma_dims_written(buf, b, ndim);
    lemma_bits_written(buf, c, entry.bits.len());
    assert(end == c + 4 * entry.bits.len());
    assert(entry_bytes(entry) =~= buf.subrange(pos, pos + 4) + buf.subrange(pos + 4, a)
        + buf.subrange(a, b) + buf.subrange(b, c) + buf.subrange(c, end));
    assert(entry_bytes(entry) =~= buf.subrange(pos, end));
}

/// Reading an entry depends on the bytes of the entry alone.
proof fn lemma_entry_local(buf: Seq<u8>, other: Seq<u8>, pos: int)
    requires
        0 <= pos <= buf.len(),
        entry_at(buf, pos) is Ok,
        entry_at(buf, pos)->Ok_0.1 <= other.len(),
        other.take(entry_at(buf, pos)->Ok_0.1) == buf.take(entry_at(buf, pos)->Ok_0.1),
    ensures
        entry_at(other, pos) == entry_at(buf, pos),
{
    let (entry, end) = entry_at(buf, pos)->Ok_0;
    lemma_entry_written(buf, pos);
    assert(other.subrange(pos, end) =~= other.take(end).subrange(pos, end));
    assert(buf.subrange(pos, end) =~= buf.take(end).subrange(pos, end));
    lemma_entry_read(other, pos, entry);
}

/// A buffer that ends inside an entry is truncated.
proof fn lemma_entry_cut(buf: Seq<u8>, pos: int, k: int)
    requires
        0 <= pos <= k <= buf.len(),
        entry_at(buf, pos) is Ok,
        k < entry_at(buf, pos)->Ok_0.1,
    ensures
        entry_at(buf.take(k), pos) == Err::<(Entry, int), RtwError>(RtwError::Truncated),
{
    let cut = buf.take(k);
    let (entry, end) = entry_at(buf, pos)->Ok_0;
    let a = pos + 4 + u32_at(buf, pos);
    let b = a + 4;
    let ndim = u32_at(buf, a) as nat;
    let c = b + 8 * ndim;
    if pos + 4 <= k {
        assert(u32_at(cut, pos) == u32_at(buf, pos));
        if a <= k {
            assert(cut.subrange(pos + 4, a) =~= buf.subrange(pos + 4, a));
            if b <= k {
                assert(u32_at(cut, a) == u32_at(buf, a));
                if c <= k {
                    assert(dims_at(cut, b, ndim) =~= dims_at(buf, b, ndim));
                }
            }
        }
    }
}

proof fn lemma_entries_read(buf: Seq<u8>, pos: int, entries: Seq<Entry>)
    requires
        forall|i: int| 0 <= i < entries.len() ==> encodable(#[trigger] entries[i]),
        0 <= pos,
        pos + entries_bytes(entries).len() <= buf.len(),
        buf.subrange(pos, pos + entries_bytes(entries).len()) == entries_bytes(entries),
    ensures
        entries_at(buf, pos, entries.len()) == Ok::<(Seq<Entry>, int), RtwError>(
            (entries, pos + entries_bytes(entries).len()),
        ),
    decreases entries.len(),
{
    if entries.len() == 0 {
        assert(entries =~= Seq::<Entry>::empty());
    } else {
        let first = entry_bytes(entries[0]);
        let rest = entries.skip(1);
        let whole = buf.subrange(pos, pos + entries_bytes(entries).len());
        let n = first.len() as int;
        assert(whole.subrange(0, n) =~= first);
        assert(buf.subrange(pos, pos + n) =~= whole.subrange(0, n));
        lemma_entry_read(buf, pos, entries[0]);
        let m = entries_bytes(rest).len() as int;
        assert(whole.subrange(n, n + m) =~= entries_bytes(rest));
        assert(buf.subrange(pos + n, pos + n + m) =~= whole.subrange(n, n + m));
        assert forall|i: int| 0 <= i < rest.len() implies encodable(#[trigger] rest[i]) by {
            assert(rest[i] == entries[i + 1]);
        }
        lemma_entries_read(buf, pos + n, rest);
        assert(seq![entries[0]] + rest =~= entries);
    }
}

/// Neighbouring parts of a byte string make one part.
proof fn lemma_joined_parts(buf: Seq<u8>, a: int, b: int, c: int)
    requires
        0 <= a <= b <= c <= buf.len(),
    ensures
        buf.subrange(a, b) + buf.subrange(b, c) == buf.subrange(a, c),
{
    assert(buf.subrange(a, b) + buf.subrange(b, c) =~= buf.subrange(a, c));
}

proof fn lemma_entries_written(buf: Seq<u8>, pos: int, count: nat)
    requires
        0 <= pos <= buf.len(),
        entries_at(buf, pos, count) is Ok,
    ensures
        ({
            let (entries, end) = entries_at(buf, pos, count)->Ok_0;
            &&& entries.len() == count
            &&& forall|i: int| 0 <= i < entries.len() ==> encodable(#[trigger] entries[i])
            &&& pos <= end <= buf.len()
            &&& entries_bytes(entries) == buf.subrange(pos, end)
        }),
    decreases count,
{
    let (entries, end) = entries_at(buf, pos, count)->Ok_0;
    if count == 0 {
        assert(entries_bytes(entries) =~= buf.subrange(pos, end));
    } else {
        let (entry, next) = entry_at(buf, pos)->Ok_0;
        lemma_entry_written(buf, pos);
        let (rest, last) = entries_at(buf, next, (count - 1) as nat)->Ok_0;
        lemma_entries_written(buf, next, (count - 1) as nat);
        assert(entries == seq![entry] + rest);
        assert(entries.skip(1) =~= rest);
        assert(entries[0] == entry);
        lemma_joined_parts(buf, pos, next, end);
    }
}

/// A buffer that ends before the last of its entries does is truncated.
proof fn lemma_entries_cut(buf: Seq<u8>, pos: int, count: nat, k: int)
    requires
        0 <= pos <= k <= buf.len(),
        entries_at(buf, pos, count) is Ok,
        k < entries_at(buf, pos, count)->Ok_0.1,
    ensures
        entries_at(buf.take(k), pos, count) == Err::<(Seq<Entry>, int), RtwError>(
            RtwError::Truncated,
        ),
    decreases count,
{
    if count > 0 {
        let next = entry_at(buf, pos)->Ok_0.1;
        if k < next {
            lemma_entry_cut(buf, pos, k);
        } else {
            assert(buf.take(k).take(next) =~= buf.take(next));
            lemma_entry_written(buf, pos);
            lemma_entry_local(buf, buf.take(k), pos);
            lemma_entries_cut(buf, next, (count - 1) as nat, k);
        }
    }
}

/// What was written reads back: the layout of entries, whatever follows it,
/// reads as those entries.
pub proof fn written_file_reads_back(entries: Seq<Entry>, trailing: Seq<u8>)
    requires
        all_encodable(entries),
    ensures
        file_entries(file_bytes(entries) + trailing) == Ok::<(Seq<Entry>, int), RtwError>(
            (entries, file_bytes(entries).len() as int),
        ),
{
    let file = file_bytes(entries);
    let buf = file + trailing;
    let body = entries_bytes(entries);
    assert(file.len() == 10 + body.len());
    assert(buf.take(6) =~= magic());
    assert(buf.subrange(6, 10) =~= u32_bytes(entries.len() as u32));
    lemma_u32_read(buf, 6, entries.len() as u32);
    assert(buf.subrange(10, (10 + body.len()) as int) =~= body);
    lemma_entries_read(buf, 10, entries);
}

/// What reads as entries starts with the layout of those entries, and a file
/// can hold them.
pub proof fn read_file_was_written(buf: Seq<u8>)
    requires
        file_entries(buf) is Ok,
    ensures
        ({
            let (entries, end) = file_entries(buf)->Ok_0;
            &&& all_encodable(entries)
            &&& 0 <= end <= buf.len()
            &&& file_bytes(entries) == buf.take(end)
        }),
{
    let (entries, end) = file_entries(buf)->Ok_0;
    let count = u32_at(buf, 6);
    lemma_entries_written(buf, 10, count as nat);
    lemma_u32_written(buf, 6);
    assert(file_bytes(entries) =~= buf.take(6) + buf.subrange(6, 10) + buf.subrange(10, end));
    assert(file_bytes(entries) =~= buf.take(end));
}

/// Two lists of entries with the same layout are the same.
pub proof fn layout_is_unambiguous(a: Seq<Entry>, b: Seq<Entry>)
    requires
        all_encodable(a),
        all_encodable(b),
        file_bytes(a) == file_bytes(b),
    ensures
        a == b,
{
    written_file_reads_back(a, Seq::empty());
    written_file_reads_back(b, Seq::empty());
}

/// A file that is cut short anywhere is refused as truncated.
pub proof fn cut_file_is_truncated(entries: Seq<Entry>, k: int)
    requires
        all_encodable(entries),
        0 <= k < file_bytes(entries).len(),
    ensures
        file_entries(file_bytes(entries).take(k)) == Err::<(Seq<Entry>, int), RtwError>(
            RtwError::Truncated,
        ),
{
    let buf = file_bytes(entries);
    let cut = buf.take(k);
    written_file_reads_back(entries, Seq::empty());
    assert(buf + Seq::<u8>::empty() =~= buf);
    if k >= 6 {
        assert(cut.take(6) =~= buf.take(6));
        if k >= 10 {
            assert(u32_at(cut, 6) == u32_at(buf, 6));
            lemma_entries_cut(buf, 10, u32_at(buf, 6) as nat, k);
        }
    }
}

/// Bytes after a file are not read.
pub proof fn trailing_bytes_are_ignored(buf: Seq<u8>, trailing: Seq<u8>)
    requires
        file_entries(buf) is Ok,
    ensures
        file_entries(buf + trailing) == file_entries(buf),
{
    let (entries, end) = file_entries(buf)->Ok_0;
    read_file_was_written(buf);
    lemma_cut_and_join(buf, end, trailing);
    written_file_reads_back(entries, buf.skip(end) + trailing);
}

proof fn lemma_cut_and_join(buf: Seq<u8>, end: int, trailing: Seq<u8>)
    requires
        0 <= end <= buf.len(),
    ensures
        buf.take(end).len() == end,
        buf.take(end) + (buf.skip(end) + trailing) == buf + trailing,
{
    assert(buf.take(end) + (buf.skip(end) + trailing) =~= buf + trailing);
}

} // verus!
