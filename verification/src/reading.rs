//! Where the parts of an RTW file stand among its bytes, and what shapes come
//! to: byte by byte and factor by factor.
use vstd::prelude::*;
use vstd::utf8::{decode_utf8_encode_utf8, encode_utf8, valid_utf8};

use crate::alike::{alike, lemma_alike};
use crate::rtw::{
    all_encodable, dims_at, encodable, entries_at, entry_at, file_bytes, file_entries, magic,
    shape_of, u32_at, u64_at,
};
use crate::rtw::{Entry, RtwError};
use crate::rtw_laws::written_file_reads_back;
use crate::scalar::{from_bits_gives, respects, Scalar};
use crate::shape::{fits, product, row_major};
use crate::structure::distinct_names_are_all_kept;
use crate::tensor::{Tensor, TensorView};
use crate::weights::{is_last_of_name, last_counts, named, tensors_give};

verus! {

// ---------- shapes ----------

/// The element count of a shape is the product of its dimensions.
pub proof fn count_is_product_of_dimensions(shape: Seq<usize>)
    ensures
        product(shape) == shape.fold_left(1int, |n: int, d: usize| n * d),
    decreases shape.len(),
{
    if shape.len() > 0 {
        count_is_product_of_dimensions(shape.drop_last());
    }
}

/// The stride of a dimension is the product of the dimensions after it.
pub proof fn stride_is_product_of_later_dimensions(
    shape: Seq<usize>,
    strides: Seq<usize>,
    i: int,
)
    requires
        row_major(shape, strides),
        0 <= i < shape.len(),
    ensures
        strides.len() == shape.len(),
        strides[i] == shape.skip(i + 1).fold_left(1int, |n: int, d: usize| n * d),
{
    count_is_product_of_dimensions(shape.skip(i + 1));
    assert(strides[i] == product(shape.skip(i + 1)));
}

/// A shape fits where the products of its first dimensions, and those of its
/// last ones but for the first, are `usize` values.
pub proof fn fitting_is_a_matter_of_products(shape: Seq<usize>)
    ensures
        fits(shape) <==> {
            &&& forall|i: int|
                0 <= i <= shape.len() ==> (#[trigger] shape.take(i)).fold_left(
                    1int,
                    |n: int, d: usize| n * d,
                ) <= usize::MAX
            &&& forall|i: int|
                1 <= i <= shape.len() ==> (#[trigger] shape.skip(i)).fold_left(
                    1int,
                    |n: int, d: usize| n * d,
                ) <= usize::MAX
        },
{
    let f = |n: int, d: usize| n * d;
    assert forall|i: int| #![trigger shape.take(i)] product(shape.take(i)) == shape.take(
        i,
    ).fold_left(1int, f) by {
        count_is_product_of_dimensions(shape.take(i));
    }
    assert forall|i: int| #![trigger shape.skip(i)] product(shape.skip(i)) == shape.skip(
        i,
    ).fold_left(1int, f) by {
        count_is_product_of_dimensions(shape.skip(i));
    }
    if fits(shape) {
        assert forall|i: int| 0 <= i <= shape.len() implies (#[trigger] shape.take(i)).fold_left(
            1int,
            f,
        ) <= usize::MAX by {
            assert(product(shape.take(i)) <= usize::MAX);
        }
        assert forall|i: int| 1 <= i <= shape.len() implies (#[trigger] shape.skip(i)).fold_left(
            1int,
            f,
        ) <= usize::MAX by {
            assert(product(shape.skip(i)) <= usize::MAX);
        }
    }
}

// ---------- bytes ----------

/// Numbers are written with their low bytes first.
pub proof fn low_bytes_come_first(buf: Seq<u8>, pos: int)
    ensures
        u32_at(buf, pos) == buf[pos] + 0x100 * buf[pos + 1] + 0x1_0000 * buf[pos + 2] + 0x100_0000
            * buf[pos + 3],
        u64_at(buf, pos) == buf[pos] + 0x100 * buf[pos + 1] + 0x1_0000 * buf[pos + 2] + 0x100_0000
            * buf[pos + 3] + 0x1_0000_0000 * buf[pos + 4] + 0x100_0000_0000 * buf[pos + 5]
            + 0x1_0000_0000_0000 * buf[pos + 6] + 0x100_0000_0000_0000 * buf[pos + 7],
{
}

proof fn lemma_count(dims: Seq<u64>)
    ensures
        product(shape_of(dims)) == dims.fold_left(1int, |n: int, d: u64| n * (d as usize)),
    decreases dims.len(),
{
    if dims.len() > 0 {
        lemma_count(dims.drop_last());
        assert(shape_of(dims).drop_last() =~= shape_of(dims.drop_last()));
    }
}

/// An entry stands in the bytes from its place on: the length of the name, the
/// name, the number of dimensions, each dimension in eight bytes, and each
/// element in four, as many as the product of the dimensions.
pub proof fn entry_stands_in_bytes(buf: Seq<u8>, pos: int)
    requires
        0 <= pos,
        entry_at(buf, pos) is Ok,
    ensures
        ({
            let (entry, end) = entry_at(buf, pos)->Ok_0;
            let low4 = |p: int|
                buf[p] + 0x100 * buf[p + 1] + 0x1_0000 * buf[p + 2] + 0x100_0000 * buf[p + 3];
            let name_end = pos + 4 + low4(pos);
            let dims = name_end + 4;
            let data = dims + 8 * low4(name_end);
            &&& name_end <= buf.len()
            &&& encode_utf8(entry.name) == buf.subrange(pos + 4, name_end)
            &&& data <= buf.len()
            &&& entry.dims.len() == low4(name_end)
            &&& forall|i: int|
                0 <= i < entry.dims.len() ==> #[trigger] entry.dims[i] == low4(dims + 8 * i)
                    + 0x1_0000_0000 * low4(dims + 8 * i + 4)
            &&& entry.bits.len() == entry.dims.fold_left(1int, |n: int, d: u64| n * (d as usize))
            &&& forall|k: int|
                0 <= k < entry.bits.len() ==> #[trigger] entry.bits[k] == low4(data + 4 * k)
            &&& end == data + 4 * entry.bits.len()
            &&& end <= buf.len()
        }),
{
    let (entry, end) = entry_at(buf, pos)->Ok_0;
    let name_end = pos + 4 + u32_at(buf, pos);
    low_bytes_come_first(buf, pos);
    low_bytes_come_first(buf, name_end);
    decode_utf8_encode_utf8(buf.subrange(pos + 4, name_end));
    lemma_count(entry.dims);
    let dims = name_end + 4;
    let data = dims + 8 * u32_at(buf, name_end);
    assert forall|i: int| 0 <= i < entry.dims.len() implies #[trigger] entry.dims[i] == u32_at(
        buf,
        dims + 8 * i,
    ) + 0x1_0000_0000 * u32_at(buf, dims + 8 * i + 4) by {
        low_bytes_come_first(buf, dims + 8 * i);
        low_bytes_come_first(buf, dims + 8 * i + 4);
    }
    assert forall|k: int| 0 <= k < entry.bits.len() implies #[trigger] entry.bits[k] == u32_at(
        buf,
        data + 4 * k,
    ) by {
        low_bytes_come_first(buf, data + 4 * k);
    }
}

/// Why an entry is refused: the bytes end before it does, its name is not
/// UTF-8, or it is empty and its sizes or strides are too large. An entry that
/// the bytes hold whole, with a name in UTF-8 and a shape that fits, is read.
pub proof fn entries_are_refused_for_a_reason(buf: Seq<u8>, pos: int)
    requires
        0 <= pos,
    ensures
        ({
            let low4 = |p: int|
                buf[p] + 0x100 * buf[p + 1] + 0x1_0000 * buf[p + 2] + 0x100_0000 * buf[p + 3];
            let name_end = pos + 4 + low4(pos);
            let has_name = pos + 4 <= buf.len() && name_end <= buf.len();
            let good_name = valid_utf8(buf.subrange(pos + 4, name_end));
            let ndim = low4(name_end);
            let data = name_end + 4 + 8 * ndim;
            let shape = Seq::new(
                ndim as nat,
                |i: int|
                    (low4(name_end + 4 + 8 * i) + 0x1_0000_0000 * low4(
                        name_end + 4 + 8 * i + 4,
                    )) as u64 as usize,
            );
            let has_data = name_end + 4 <= buf.len() && data <= buf.len() && data + 4
                * shape.fold_left(1int, |n: int, d: usize| n * d) <= buf.len();
            let r = entry_at(buf, pos);
            &&& r is Ok <==> has_name && good_name && has_data && fits(shape)
            &&& r matches Err(e) ==> e == if !has_name {
                RtwError::Truncated
            } else if !good_name {
                RtwError::NonUtf8Name
            } else if !has_data {
                RtwError::Truncated
            } else {
                RtwError::ShapeOverflow
            }
        }),
{
    let name_end = pos + 4 + u32_at(buf, pos);
    low_bytes_come_first(buf, pos);
    low_bytes_come_first(buf, name_end);
    let ndim = u32_at(buf, name_end) as nat;
    let dims = dims_at(buf, name_end + 4, ndim);
    let low4 = |p: int|
        buf[p] + 0x100 * buf[p + 1] + 0x1_0000 * buf[p + 2] + 0x100_0000 * buf[p + 3];
    let shape = Seq::new(
        ndim,
        |i: int|
            (low4(name_end + 4 + 8 * i) + 0x1_0000_0000 * low4(
                name_end + 4 + 8 * i + 4,
            )) as u64 as usize,
    );
    assert forall|i: int| 0 <= i < ndim implies shape[i] == #[trigger] shape_of(dims)[i] by {
        low_bytes_come_first(buf, name_end + 4 + 8 * i);
        low_bytes_come_first(buf, name_end + 4 + 8 * i + 4);
    }
    assert(shape =~= shape_of(dims));
    count_is_product_of_dimensions(shape);
}

proof fn lemma_places(buf: Seq<u8>, pos: int, count: nat) -> (places: Seq<int>)
    requires
        0 <= pos,
        entries_at(buf, pos, count) is Ok,
    ensures
        entries_at(buf, pos, count)->Ok_0.0.len() == count,
        places.len() == count + 1,
        places[0] == pos,
        places.last() == entries_at(buf, pos, count)->Ok_0.1,
        forall|i: int| 0 <= i <= count ==> 0 <= #[trigger] places[i],
        forall|i: int|
            0 <= i < count ==> #[trigger] entry_at(buf, places[i]) == Ok::<(Entry, int), RtwError>(
                (entries_at(buf, pos, count)->Ok_0.0[i], places[i + 1]),
            ),
    decreases count,
{
    if count == 0 {
        seq![pos]
    } else {
        let (entry, next) = entry_at(buf, pos)->Ok_0;
        let rest_count = (count - 1) as nat;
        entry_stands_in_bytes(buf, pos);
        let rest = lemma_places(buf, next, rest_count);
        let places = seq![pos] + rest;
        let found = entries_at(buf, next, rest_count)->Ok_0.0;
        let all = entries_at(buf, pos, count)->Ok_0.0;
        assert(all =~= seq![entry] + found);
        assert forall|i: int| 0 <= i < count implies #[trigger] entry_at(buf, places[i]) == Ok::<
            (Entry, int),
            RtwError,
        >((all[i], places[i + 1])) by {
            if i > 0 {
                assert(places[i] == rest[i - 1]);
                assert(entry_at(buf, rest[i - 1]) == Ok::<(Entry, int), RtwError>(
                    (found[i - 1], rest[(i - 1) + 1]),
                ));
                assert(all[i] == found[i - 1]);
            }
        }
        assert forall|i: int| 0 <= i <= count implies 0 <= #[trigger] places[i] by {
            if i > 0 {
                assert(places[i] == rest[i - 1]);
            }
        }
        places
    }
}

/// A file is read from its first byte on: six bytes of magic, the number of
/// entries, and the entries one after another without gaps.
pub proof fn file_stands_in_bytes(buf: Seq<u8>) -> (places: Seq<int>)
    requires
        file_entries(buf) is Ok,
    ensures
        buf.len() >= 10,
        buf[0] == 0x52 && buf[1] == 0x54 && buf[2] == 0x57 && buf[3] == 0x76 && buf[4] == 0x31
            && buf[5] == 0,
        ({
            let (entries, end) = file_entries(buf)->Ok_0;
            &&& entries.len() == buf[6] + 0x100 * buf[7] + 0x1_0000 * buf[8] + 0x100_0000 * buf[9]
            &&& places.len() == entries.len() + 1
            &&& places[0] == 10
            &&& places.last() == end
            &&& forall|i: int| 0 <= i < places.len() ==> 0 <= #[trigger] places[i]
            &&& forall|i: int|
                0 <= i < entries.len() ==> #[trigger] entry_at(buf, places[i]) == Ok::<
                    (Entry, int),
                    RtwError,
                >((entries[i], places[i + 1]))
        }),
{
    let front = buf.take(6);
    assert(front[0] == buf[0] && front[1] == buf[1] && front[2] == buf[2] && front[3] == buf[3]
        && front[4] == buf[4] && front[5] == buf[5]);
    low_bytes_come_first(buf, 6);
    lemma_places(buf, 10, u32_at(buf, 6) as nat)
}

/// A file is refused before its entries are looked at only where it is shorter
/// than magic and count or does not start with the magic. Otherwise it is
/// refused for the first of its entries that is: those before it stand from
/// place 10 on, without gaps.
pub proof fn files_are_refused_for_a_reason(buf: Seq<u8>) -> (places: Seq<int>)
    ensures
        ({
            let has_magic = buf.len() >= 6 && buf[0] == 0x52 && buf[1] == 0x54 && buf[2] == 0x57
                && buf[3] == 0x76 && buf[4] == 0x31 && buf[5] == 0;
            &&& file_entries(buf) == Err::<(Seq<Entry>, int), RtwError>(RtwError::BadMagic) <==> {
                &&& buf.len() >= 6
                &&& !has_magic
            }
            &&& buf.len() < 6 || (has_magic && buf.len() < 10) ==> file_entries(buf) == Err::<
                (Seq<Entry>, int),
                RtwError,
            >(RtwError::Truncated)
            &&& has_magic && buf.len() >= 10 && file_entries(buf) is Err ==> {
                &&& 1 <= places.len() <= buf[6] + 0x100 * buf[7] + 0x1_0000 * buf[8] + 0x100_0000
                    * buf[9]
                &&& places[0] == 10
                &&& forall|i: int|
                    0 <= i < places.len() - 1 ==> #[trigger] leads_on(buf, places[i], places[i + 1])
                &&& entry_at(buf, places.last()) is Err
                &&& entry_at(buf, places.last())->Err_0 == file_entries(buf)->Err_0
            }
        }),
{
    let front = buf.take(6);
    if buf.len() >= 6 {
        assert(front[0] == buf[0] && front[1] == buf[1] && front[2] == buf[2] && front[3] == buf[3]
            && front[4] == buf[4] && front[5] == buf[5]);
        if buf[0] == 0x52 && buf[1] == 0x54 && buf[2] == 0x57 && buf[3] == 0x76 && buf[4] == 0x31
            && buf[5] == 0 {
            assert(front =~= magic());
            if buf.len() >= 10 && file_entries(buf) is Err {
                low_bytes_come_first(buf, 6);
                lemma_first_refusal(buf, 10, u32_at(buf, 6) as nat)
            } else {
                Seq::empty()
            }
        } else {
            Seq::empty()
        }
    } else {
        Seq::empty()
    }
}

/// An entry stands at a place and ends at another.
pub open spec fn leads_on(buf: Seq<u8>, pos: int, next: int) -> bool {
    entry_at(buf, pos) matches Ok((_, end)) && end == next
}

proof fn lemma_first_refusal(buf: Seq<u8>, pos: int, count: nat) -> (places: Seq<int>)
    requires
        0 <= pos,
        entries_at(buf, pos, count) is Err,
    ensures
        1 <= places.len() <= count,
        places[0] == pos,
        forall|i: int|
            0 <= i < places.len() - 1 ==> #[trigger] leads_on(buf, places[i], places[i + 1]),
        entry_at(buf, places.last()) is Err,
        entry_at(buf, places.last())->Err_0 == entries_at(buf, pos, count)->Err_0,
        entries_at(buf, pos, count)->Err_0 != RtwError::BadMagic,
    decreases count,
{
    match entry_at(buf, pos) {
        Err(e) => seq![pos],
        Ok((entry, next)) => {
            entry_stands_in_bytes(buf, pos);
            let rest = lemma_first_refusal(buf, next, (count - 1) as nat);
            let places = seq![pos] + rest;
            assert forall|i: int| 0 <= i < places.len() - 1 implies #[trigger] leads_on(
                buf,
                places[i],
                places[i + 1],
            ) by {
                if i > 0 {
                    let k = i - 1;
                    assert(leads_on(buf, rest[k], rest[k + 1]));
                }
            }
            assert(places.last() == rest.last());
            places
        },
    }
}

// ---------- tensors ----------

/// The name of an entry leads to the tensor of the last entry with that name;
/// element `k` of it is what the four bytes at place `4 k` of its data encode,
/// for every `k` up to the product of its dimensions.
pub proof fn element_is_what_its_bytes_encode<S: Scalar>(
    buf: Seq<u8>,
    m: Map<Seq<char>, Tensor<S>>,
    i: int,
    k: int,
) -> (place: int)
    requires
        file_entries(buf) is Ok,
        tensors_give(file_entries(buf)->Ok_0.0, m),
        0 <= i < file_entries(buf)->Ok_0.0.len(),
        forall|j: int|
            i < j < file_entries(buf)->Ok_0.0.len() ==> (#[trigger] file_entries(
                buf,
            )->Ok_0.0[j]).name != file_entries(buf)->Ok_0.0[i].name,
        0 <= k < file_entries(buf)->Ok_0.0[i].dims.fold_left(
            1int,
            |n: int, d: u64| n * (d as usize),
        ),
    ensures
        ({
            let entry = file_entries(buf)->Ok_0.0[i];
            let t = m[entry.name];
            let low4 = |p: int|
                buf[p] + 0x100 * buf[p + 1] + 0x1_0000 * buf[p + 2] + 0x100_0000 * buf[p + 3];
            let name_end = place + 4 + low4(place);
            let data = name_end + 4 + 8 * low4(name_end);
            &&& 10 <= place
            &&& encode_utf8(entry.name) == buf.subrange(place + 4, name_end)
            &&& m.contains_key(entry.name)
            &&& t.shape@.len() == entry.dims.len()
            &&& entry.dims.len() == low4(name_end)
            &&& forall|j: int|
                0 <= j < entry.dims.len() ==> #[trigger] t.shape@[j] == entry.dims[j] as usize
            &&& t.data@.len() == entry.dims.fold_left(1int, |n: int, d: u64| n * (d as usize))
            &&& data + 4 * k + 4 <= buf.len()
            &&& call_ensures(S::from_bits, (low4(data + 4 * k) as u32,), t.data@[k])
        }),
{
    let (entries, end) = file_entries(buf)->Ok_0;
    let entry = entries[i];
    let places = file_stands_in_bytes(buf);
    let place = places[i];
    assert(entry_at(buf, places[i]) == Ok::<(Entry, int), RtwError>((entry, places[i + 1])));
    entry_stands_in_bytes(buf, place);
    lemma_places_grow(buf, places, entries, i);
    assert(is_last_of_name(entries, i));
    assert(last_counts(entries, m, i));
    assert(named(entries, entry.name));
    assert(m.contains_key(entry.name));
    let t = m[entry.name]@;
    assert(from_bits_gives(entry.bits[k], t.data[k]));
    place
}

proof fn lemma_places_grow(buf: Seq<u8>, places: Seq<int>, entries: Seq<Entry>, i: int)
    requires
        places.len() == entries.len() + 1,
        places[0] == 10,
        forall|j: int| 0 <= j < places.len() ==> 0 <= #[trigger] places[j],
        forall|j: int|
            0 <= j < entries.len() ==> #[trigger] entry_at(buf, places[j]) == Ok::<
                (Entry, int),
                RtwError,
            >((entries[j], places[j + 1])),
        0 <= i < places.len(),
    ensures
        10 <= places[i],
    decreases i,
{
    if i > 0 {
        lemma_places_grow(buf, places, entries, i - 1);
        assert(entry_at(buf, places[i - 1]) == Ok::<(Entry, int), RtwError>(
            (entries[i - 1], places[(i - 1) + 1]),
        ));
        entry_stands_in_bytes(buf, places[i - 1]);
    }
}

/// The names in a map are those of the entries, and each leads to a tensor of
/// the shape that the last entry with the name has.
pub proof fn names_lead_to_tensors_of_their_shape<S: Scalar>(
    entries: Seq<Entry>,
    m: Map<Seq<char>, Tensor<S>>,
    name: Seq<char>,
) -> (last: int)
    requires
        tensors_give(entries, m),
    ensures
        m.contains_key(name) <==> exists|i: int|
            0 <= i < entries.len() && (#[trigger] entries[i]).name == name,
        m.contains_key(name) ==> {
            &&& 0 <= last < entries.len()
            &&& entries[last].name == name
            &&& forall|j: int| last < j < entries.len() ==> (#[trigger] entries[j]).name != name
            &&& m[name]@.shape == entries[last].dims.map_values(|d: u64| d as usize)
            &&& row_major(m[name]@.shape, m[name]@.strides)
            &&& m[name]@.data.len() == entries[last].bits.len()
            &&& forall|k: int|
                0 <= k < entries[last].bits.len() ==> call_ensures(
                    S::from_bits,
                    (entries[last].bits[k],),
                    #[trigger] m[name]@.data[k],
                )
        },
{
    if m.contains_key(name) {
        assert(named(entries, name));
        let i = choose|i: int| 0 <= i < entries.len() && (#[trigger] entries[i]).name == name;
        let last = lemma_last_of_name(entries, name, i, entries.len() as int);
        assert(is_last_of_name(entries, last));
        assert(last_counts(entries, m, last));
        let t = m[name]@;
        assert forall|k: int| 0 <= k < entries[last].bits.len() implies call_ensures(
            S::from_bits,
            (entries[last].bits[k],),
            #[trigger] t.data[k],
        ) by {
            assert(from_bits_gives(entries[last].bits[k], t.data[k]));
        }
        last
    } else {
        0
    }
}

proof fn lemma_last_of_name(entries: Seq<Entry>, name: Seq<char>, i: int, n: int) -> (last: int)
    requires
        0 <= i < n <= entries.len(),
        entries[i].name == name,
    ensures
        0 <= last < n,
        entries[last].name == name,
        forall|j: int| last < j < n ==> (#[trigger] entries[j]).name != name,
    decreases n,
{
    if entries[n - 1].name == name {
        n - 1
    } else {
        lemma_last_of_name(entries, name, i, n - 1)
    }
}

/// Written tensors are read back: where the elements of `t` come from the bit
/// patterns of an entry, place by place, and the entry was written under a name
/// of its own, the name leads to a tensor that agrees with `t`.
pub proof fn written_tensors_are_read_back<S: Scalar>(
    eq: spec_fn(S, S) -> bool,
    entries: Seq<Entry>,
    trailing: Seq<u8>,
    m: Map<Seq<char>, Tensor<S>>,
    i: int,
    t: TensorView<S>,
)
    requires
        respects(eq),
        all_encodable(entries),
        forall|a: int, b: int|
            0 <= a < b < entries.len() ==> (#[trigger] entries[a]).name != (
            #[trigger] entries[b]).name,
        0 <= i < entries.len(),
        t.shape.len() == entries[i].dims.len(),
        forall|j: int|
            0 <= j < t.shape.len() ==> #[trigger] t.shape[j] == entries[i].dims[j] as usize,
        row_major(t.shape, t.strides),
        t.data.len() == entries[i].bits.len(),
        forall|k: int|
            0 <= k < t.data.len() ==> call_ensures(
                S::from_bits,
                (entries[i].bits[k],),
                #[trigger] t.data[k],
            ),
        file_entries(file_bytes(entries) + trailing) matches Ok((found, _)) ==> tensors_give(
            found,
            m,
        ),
    ensures
        m.contains_key(entries[i].name),
        alike(eq, m[entries[i].name]@, t),
{
    written_file_reads_back(entries, trailing);
    distinct_names_are_all_kept(entries, m, i);
    let r = m[entries[i].name]@;
    assert(t.shape =~= shape_of(entries[i].dims));
    assert forall|k: int| 0 <= k < r.data.len() implies eq(#[trigger] r.data[k], t.data[k]) by {
        assert(from_bits_gives(entries[i].bits[k], r.data[k]));
        assert(from_bits_gives(entries[i].bits[k], t.data[k]));
    }
    lemma_alike(eq, r, t);
}

/// Which entries a file can hold is a matter of sizes alone.
pub proof fn writing_is_a_matter_of_sizes(entries: Seq<Entry>)
    ensures
        all_encodable(entries) <==> {
            &&& entries.len() <= u32::MAX
            &&& forall|i: int|
                0 <= i < entries.len() ==> {
                    let entry = #[trigger] entries[i];
                    let shape = entry.dims.map_values(|d: u64| d as usize);
                    &&& encode_utf8(entry.name).len() <= u32::MAX
                    &&& entry.dims.len() <= u32::MAX
                    &&& fits(shape)
                    &&& entry.bits.len() == shape.fold_left(1int, |n: int, d: usize| n * d)
                }
        },
{
    assert forall|i: int| 0 <= i < entries.len() implies product(
        shape_of((#[trigger] entries[i]).dims),
    ) == entries[i].dims.map_values(|d: u64| d as usize).fold_left(
        1int,
        |n: int, d: usize| n * d,
    ) by {
        count_is_product_of_dimensions(shape_of(entries[i].dims));
    }
    if entries.len() <= u32::MAX && forall|i: int|
        0 <= i < entries.len() ==> {
            let entry = #[trigger] entries[i];
            let shape = entry.dims.map_values(|d: u64| d as usize);
            &&& encode_utf8(entry.name).len() <= u32::MAX
            &&& entry.dims.len() <= u32::MAX
            &&& fits(shape)
            &&& entry.bits.len() == shape.fold_left(1int, |n: int, d: usize| n * d)
        } {
        assert forall|i: int| 0 <= i < entries.len() implies encodable(
            #[trigger] entries[i],
        ) by {
            assert(entries[i].dims.map_values(|d: u64| d as usize) == shape_of(entries[i].dims));
        }
    }
    if all_encodable(entries) {
        assert forall|i: int| 0 <= i < entries.len() implies ({
            let entry = #[trigger] entries[i];
            let shape = entry.dims.map_values(|d: u64| d as usize);
            &&& encode_utf8(entry.name).len() <= u32::MAX
            &&& entry.dims.len() <= u32::MAX
            &&& fits(shape)
            &&& entry.bits.len() == shape.fold_left(1int, |n: int, d: usize| n * d)
        }) by {
            assert(encodable(entries[i]));
            assert(entries[i].dims.map_values(|d: u64| d as usize) == shape_of(entries[i].dims));
        }
    }
}

} // verus!
