//! Reading named tensors from RTW bytes.
use vstd::hash_map::StringHashMap;
use vstd::prelude::*;
use vstd::utf8::{encode_utf8, valid_utf8};
use vstd::utf8::{encode_utf8_decode_utf8, encode_utf8_valid_utf8};

use crate::rtw::{bits_at, dims_at, entries_at, entry_at, file_entries, magic, shape_of};
use crate::rtw::{read_u32, read_u64, Entry, RtwError};
use crate::scalar::from_bits_gives;
use crate::scalar::Scalar;
use crate::shape::{checked_product, checked_strides};
use crate::shape::{lemma_positive_countable, lemma_product_zero};
use crate::tensor::{Tensor, TensorView};

verus! {

/// Tensors by name.
pub type Weights<S> = StringHashMap<Tensor<S>>;

/// `t` is the tensor of an entry.
pub open spec fn entry_gives<S: Scalar>(entry: Entry, t: TensorView<S>) -> bool {
    &&& t.wf()
    &&& t.shape == shape_of(entry.dims)
    &&& t.data.len() == entry.bits.len()
    &&& forall|i: int|
        0 <= i < t.data.len() ==> from_bits_gives(entry.bits[i], #[trigger] t.data[i])
}

/// No later entry has the name of entry `i`.
pub open spec fn is_last_of_name(entries: Seq<Entry>, i: int) -> bool {
    forall|j: int| i < j < entries.len() ==> (#[trigger] entries[j]).name != entries[i].name
}

/// Some entry has the name.
pub open spec fn named(entries: Seq<Entry>, name: Seq<char>) -> bool {
    exists|i: int| 0 <= i < entries.len() && (#[trigger] entries[i]).name == name
}

/// Where no later entry has the name of entry `i`, the name leads to its tensor.
pub open spec fn last_counts<S: Scalar>(
    entries: Seq<Entry>,
    m: Map<Seq<char>, Tensor<S>>,
    i: int,
) -> bool {
    is_last_of_name(entries, i) ==> entry_gives(entries[i], m[entries[i].name]@)
}

/// `m` holds a tensor for each name among the entries: that of the last entry
/// with the name.
pub open spec fn tensors_give<S: Scalar>(
    entries: Seq<Entry>,
    m: Map<Seq<char>, Tensor<S>>,
) -> bool {
    &&& forall|name: Seq<char>| #[trigger] m.contains_key(name) <==> named(entries, name)
    &&& forall|i: int| 0 <= i < entries.len() ==> #[trigger] last_counts(entries, m, i)
}

/// [`String::from_utf8`]: the characters that the bytes encode, or `None`
/// where the bytes are not UTF-8.
#[verifier::external_body]
fn utf8_string(bytes: Vec<u8>) -> (s: Option<String>)
    ensures
        match s {
            Some(text) => encode_utf8(text@) == bytes@,
            None => !valid_utf8(bytes@),
        },
{
    String::from_utf8(bytes).ok()
}

/// The name, the tensor and the end of the entry at a place.
fn parse_entry<S: Scalar>(buf: &[u8], pos: usize) -> (r: Result<(String, Tensor<S>, usize), RtwError>)
    requires
        pos <= buf@.len(),
    ensures
        match entry_at(buf@, pos as int) {
            Ok((entry, end)) => r matches Ok((name, t, next)) && name@ == entry.name
                && entry_gives(entry, t@) && next == end && next <= buf@.len(),
            Err(e) => r matches Err(f) && f == e,
        },
{
    let len: usize = buf.len();
    if len - pos < 4 {
        return Err(RtwError::Truncated);
    }
    let name_len: usize = read_u32(buf, pos) as usize;
    let name_pos: usize = pos + 4;
    if name_len > len - name_pos {
        return Err(RtwError::Truncated);
    }
    let ndim_pos: usize = name_pos + name_len;
    let ghost name_bytes = buf@.subrange(name_pos as int, ndim_pos as int);
    let mut bytes: Vec<u8> = Vec::with_capacity(name_len);
    let mut i: usize = 0;
    while i < name_len
        invariant
            i <= name_len,
            ndim_pos == name_pos + name_len,
            ndim_pos <= buf@.len(),
            bytes@ == buf@.subrange(name_pos as int, name_pos + i),
        decreases name_len - i,
    {
        bytes.push(buf[name_pos + i]);
        i = i + 1;
        assert(bytes@ =~= buf@.subrange(name_pos as int, name_pos + i));
    }
    let name: String = match utf8_string(bytes) {
        Some(s) => s,
        None => {
            return Err(RtwError::NonUtf8Name);
        },
    };
    proof {
        encode_utf8_valid_utf8(name@);
        encode_utf8_decode_utf8(name@);
    }
    if len - ndim_pos < 4 {
        return Err(RtwError::Truncated);
    }
    let ndim: usize = read_u32(buf, ndim_pos) as usize;
    let dims_pos: usize = ndim_pos + 4;
    if ndim > (len - dims_pos) / 8 {
        return Err(RtwError::Truncated);
    }
    let ghost dims = dims_at(buf@, dims_pos as int, ndim as nat);
    let mut shape: Vec<usize> = Vec::with_capacity(ndim);
    let mut empty: bool = false;
    let mut i: usize = 0;
    while i < ndim
        invariant
            i <= ndim,
            dims_pos + 8 * ndim <= len,
            len == buf@.len(),
            dims == dims_at(buf@, dims_pos as int, ndim as nat),
            shape@.len() == i,
            forall|j: int| 0 <= j < i ==> #[trigger] shape@[j] == shape_of(dims)[j],
            empty <==> exists|j: int| 0 <= j < i && shape@[j] == 0,
        decreases ndim - i,
    {
        let d: usize = read_u64(buf, dims_pos + 8 * i) as usize;
        if d == 0 {
            empty = true;
        }
        let ghost before = shape@;
        shape.push(d);
        proof {
            assert(shape@[i as int] == d);
            assert(forall|j: int| 0 <= j < i ==> shape@[j] == before[j]);
        }
        i = i + 1;
    }
    assert(shape@ =~= shape_of(dims));
    let data_pos: usize = dims_pos + 8 * ndim;
    let numel: usize = match checked_product(shape.as_slice()) {
        Some(n) => n,
        None => {
            if empty {
                proof {
                    lemma_product_zero(shape@);
                }
                return Err(RtwError::ShapeOverflow);
            }
            proof {
                lemma_positive_countable(shape@);
                assert(len == buf@.len());
            }
            return Err(RtwError::Truncated);
        },
    };
    if numel > (len - data_pos) / 4 {
        return Err(RtwError::Truncated);
    }
    let strides: Vec<usize> = match checked_strides(shape.as_slice()) {
        Some(s) => s,
        None => {
            return Err(RtwError::ShapeOverflow);
        },
    };
    let ghost bits = bits_at(buf@, data_pos as int, numel as nat);
    let mut data: Vec<S> = Vec::with_capacity(numel);
    let mut i: usize = 0;
    while i < numel
        invariant
            i <= numel,
            data_pos + 4 * numel <= len,
            len == buf@.len(),
            bits == bits_at(buf@, data_pos as int, numel as nat),
            data@.len() == i,
            forall|j: int| 0 <= j < i ==> from_bits_gives(bits[j], #[trigger] data@[j]),
        decreases numel - i,
    {
        let b: u32 = read_u32(buf, data_pos + 4 * i);
        assert(b == bits[i as int]);
        data.push(S::from_bits(b));
        i = i + 1;
    }
    let t = Tensor { data, shape, strides };
    Ok((name, t, data_pos + 4 * numel))
}

/// The tensors of an RTW file, by name.
pub fn parse_rtw<S: Scalar>(buf: &[u8]) -> (r: Result<Weights<S>, RtwError>)
    ensures
        match file_entries(buf@) {
            Ok((entries, _)) => r matches Ok(m) && tensors_give(entries, m@),
            Err(e) => r matches Err(f) && f == e,
        },
{
    if buf.len() < 6 {
        return Err(RtwError::Truncated);
    }
    let good: bool = buf[0] == 0x52 && buf[1] == 0x54 && buf[2] == 0x57 && buf[3] == 0x76 && buf[4]
        == 0x31 && buf[5] == 0;
    assert(good == (buf@.take(6) == magic())) by {
        if good {
            assert(buf@.take(6) =~= magic());
        } else {
            let front = buf@.take(6);
            assert(front[0] == buf@[0] && front[1] == buf@[1] && front[2] == buf@[2] && front[3]
                == buf@[3] && front[4] == buf@[4] && front[5] == buf@[5]);
        }
    }
    if !good {
        return Err(RtwError::BadMagic);
    }
    if buf.len() < 10 {
        return Err(RtwError::Truncated);
    }
    let count: u32 = read_u32(buf, 6);
    let mut out: Weights<S> = StringHashMap::new();
    let mut pos: usize = 10;
    let mut left: u32 = count;
    let ghost mut done: Seq<Entry> = Seq::empty();
    proof {
        match entries_at(buf@, 10, count as nat) {
            Ok((rest, end)) => {
                assert(done + rest =~= rest);
            },
            Err(e) => {},
        }
    }
    while left > 0
        invariant
            pos <= buf@.len(),
            file_entries(buf@) == entries_at(buf@, 10, count as nat),
            tensors_give(done, out@),
            match entries_at(buf@, pos as int, left as nat) {
                Ok((rest, end)) => entries_at(buf@, 10, count as nat) == Ok::<
                    (Seq<Entry>, int),
                    RtwError,
                >((done + rest, end)),
                Err(e) => entries_at(buf@, 10, count as nat) == Err::<
                    (Seq<Entry>, int),
                    RtwError,
                >(e),
            },
        decreases left,
    {
        match parse_entry(buf, pos) {
            Err(e) => {
                return Err(e);
            },
            Ok(found) => {
                let (name, t, next) = found;
                let ghost entry = entry_at(buf@, pos as int)->Ok_0.0;
                let ghost before = out@;
                let ghost tensor = t;
                out.insert(name, t);
                proof {
                    lemma_tensors_push(done, before, entry, tensor);
                    match entries_at(buf@, next as int, (left - 1) as nat) {
                        Ok((rest, end)) => {
                            assert(done + (seq![entry] + rest) =~= done.push(entry) + rest);
                        },
                        Err(e) => {},
                    }
                    done = done.push(entry);
                }
                pos = next;
            },
        }
        left = left - 1;
    }
    assert(done + Seq::<Entry>::empty() =~= done);
    Ok(out)
}

proof fn lemma_tensors_push<S: Scalar>(
    done: Seq<Entry>,
    m: Map<Seq<char>, Tensor<S>>,
    entry: Entry,
    t: Tensor<S>,
)
    requires
        tensors_give(done, m),
        entry_gives(entry, t@),
    ensures
        tensors_give(done.push(entry), m.insert(entry.name, t)),
{
    let all = done.push(entry);
    let after = m.insert(entry.name, t);
    assert forall|name: Seq<char>| #[trigger] after.contains_key(name) <==> named(all, name) by {
        if named(all, name) {
            let i = choose|i: int| 0 <= i < all.len() && (#[trigger] all[i]).name == name;
            if i < done.len() {
                assert(done[i].name == name);
                assert(m.contains_key(name));
            }
        }
        if name == entry.name {
            assert(all[done.len() as int].name == name);
        } else if m.contains_key(name) {
            let i = choose|i: int| 0 <= i < done.len() && (#[trigger] done[i]).name == name;
            assert(all[i].name == name);
        }
    }
    assert forall|i: int| 0 <= i < all.len() implies #[trigger] last_counts(all, after, i) by {
        if i < done.len() && is_last_of_name(all, i) {
            assert(all[done.len() as int].name != all[i].name);
            assert forall|j: int| i < j < done.len() implies (#[trigger] done[j]).name
                != done[i].name by {
                assert(all[j].name != all[i].name);
            }
            assert(last_counts(done, m, i));
        }
    }
}

} // verus!
