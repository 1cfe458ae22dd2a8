use vstd::prelude::*;
use crate::header::{body_start, record_size_ok, HEADER_OVERHEAD};

verus! {

/// A record access outside the array.
#[derive(Clone, Copy, Debug, PartialEq, Eq, Structural)]
pub enum AccessError {
    IndexOutOfBounds,
}

/// A whole file image whose body is made of whole records.
pub open spec fn image_wf(record_size: nat, image: Seq<u8>) -> bool {
    image.len() >= body_start(record_size) && (image.len() - body_start(record_size)) % (
    record_size as int) == 0
}

/// Number of whole records after the header and padding of `image_len` bytes.
pub open spec fn count_of(record_size: nat, image_len: nat) -> nat {
    ((image_len - body_start(record_size)) / (record_size as int)) as nat
}

/// Byte offset of record `index`.
pub open spec fn record_offset(record_size: nat, index: int) -> int {
    body_start(record_size) + index * record_size
}

/// The records that a file image holds, in order.
pub open spec fn records(record_size: nat, image: Seq<u8>) -> Seq<Seq<u8>> {
    Seq::new(
        count_of(record_size, image.len()),
        |i: int|
            image.subrange(
                record_offset(record_size, i),
                record_offset(record_size, i) + record_size,
            ),
    )
}

/// `image` with the record at `index` replaced by `value`.
pub open spec fn write_record(record_size: nat, image: Seq<u8>, index: int, value: Seq<u8>) -> Seq<
    u8,
> {
    let off = record_offset(record_size, index);
    image.subrange(0, off) + value + image.subrange(off + record_size, image.len() as int)
}

/// File length that holds the first `n` records of an image of `image_len` bytes
/// (all of them when there are `n` or fewer).
pub open spec fn truncated_len(record_size: nat, image_len: nat, n: nat) -> nat {
    if n < count_of(record_size, image_len) {
        (body_start(record_size) + n * record_size) as nat
    } else {
        image_len
    }
}

proof fn lemma_offset_bounds(record_size: nat, image_len: nat, index: int)
    requires
        0 < record_size,
        image_len >= body_start(record_size),
        0 <= index < count_of(record_size, image_len),
    ensures
        body_start(record_size) <= record_offset(record_size, index),
        record_offset(record_size, index) + record_size <= image_len,
{
    let b = body_start(record_size) as int;
    let rs = record_size as int;
    let n = count_of(record_size, image_len) as int;
    assert(n * rs <= image_len - b) by (nonlinear_arith)
        requires
            n == (image_len - b) / rs,
            rs > 0,
            image_len - b >= 0,
    ;
    assert(index * rs + rs <= n * rs) by (nonlinear_arith)
        requires
            0 <= index < n,
            rs > 0,
    ;
    assert(0 <= index * rs) by (nonlinear_arith)
        requires
            0 <= index,
            rs > 0,
    ;
}

/// Number of records in a file of `file_len` bytes.
pub fn record_count(record_size: usize, file_len: u64) -> (r: u64)
    requires
        record_size_ok(record_size as nat),
        file_len >= body_start(record_size as nat),
    ensures
        r == count_of(record_size as nat, file_len as nat),
{
    let size = HEADER_OVERHEAD + record_size;
    let start = size as u64 + crate::header::padding_for(size) as u64;
    (file_len - start) / (record_size as u64)
}

/// Byte offset of the first record.
pub fn records_start(record_size: usize) -> (r: usize)
    requires
        record_size_ok(record_size as nat),
    ensures
        r == body_start(record_size as nat),
{
    let size = HEADER_OVERHEAD + record_size;
    size + crate::header::padding_for(size) as usize
}


proof fn lemma_records_after_write(record_size: nat, image: Seq<u8>, index: int, value: Seq<u8>)
    requires
        0 < record_size,
        image.len() >= body_start(record_size),
        0 <= index < count_of(record_size, image.len()),
        value.len() == record_size,
    ensures
        write_record(record_size, image, index, value).len() == image.len(),
        records(record_size, write_record(record_size, image, index, value)) == records(
            record_size,
            image,
        ).update(index, value),
{
    let w = write_record(record_size, image, index, value);
    let rs = record_size as int;
    lemma_offset_bounds(record_size, image.len(), index);
    let off = record_offset(record_size, index);
    assert(w.len() == image.len());
    assert forall|i: int| 0 <= i < count_of(record_size, image.len()) implies #[trigger] records(
        record_size,
        w,
    )[i] == records(record_size, image).update(index, value)[i] by {
        lemma_offset_bounds(record_size, image.len(), i);
        let oi = record_offset(record_size, i);
        if i < index {
            assert(i * rs + rs <= index * rs) by (nonlinear_arith)
                requires
                    i < index,
                    rs > 0,
            ;
            assert(w.subrange(oi, oi + rs) =~= image.subrange(oi, oi + rs));
        } else if i > index {
            assert(index * rs + rs <= i * rs) by (nonlinear_arith)
                requires
                    index < i,
                    rs > 0,
            ;
            assert(w.subrange(oi, oi + rs) =~= image.subrange(oi, oi + rs));
        } else {
            assert(w.subrange(oi, oi + rs) =~= value);
        }
    }
    assert(records(record_size, w) =~= records(record_size, image).update(index, value));
}

proof fn lemma_records_of_prefix(record_size: nat, image: Seq<u8>, prefix_len: nat)
    requires
        0 < record_size,
        body_start(record_size) <= prefix_len <= image.len(),
        (prefix_len - body_start(record_size)) % (record_size as int) == 0,
    ensures
        records(record_size, image.subrange(0, prefix_len as int)) == records(
            record_size,
            image,
        ).take(count_of(record_size, prefix_len) as int),
        count_of(record_size, prefix_len) <= count_of(record_size, image.len()),
{
    let p = image.subrange(0, prefix_len as int);
    let rs = record_size as int;
    let b = body_start(record_size) as int;
    let k = count_of(record_size, prefix_len) as int;
    assert(k <= count_of(record_size, image.len())) by (nonlinear_arith)
        requires
            k == (prefix_len - b) / rs,
            count_of(record_size, image.len()) == (image.len() - b) / rs,
            prefix_len <= image.len(),
            prefix_len >= b,
            rs > 0,
    ;
    assert forall|i: int| 0 <= i < k implies #[trigger] records(record_size, p)[i] == records(
        record_size,
        image,
    )[i] by {
        lemma_offset_bounds(record_size, prefix_len, i);
        let oi = record_offset(record_size, i);
        assert(p.subrange(oi, oi + rs) =~= image.subrange(oi, oi + rs));
    }
    assert(records(record_size, p) =~= records(record_size, image).take(k));
}

/// Copies record `index` out of a file image.
pub fn get_record(record_size: usize, image: &[u8], index: usize) -> (r: Result<
    Vec<u8>,
    AccessError,
>)
    requires
        record_size_ok(record_size as nat),
        image@.len() >= body_start(record_size as nat),
    ensures
        match r {
            Ok(v) => index < count_of(record_size as nat, image@.len()) && v@ == records(
                record_size as nat,
                image@,
            )[index as int],
            Err(e) => index >= count_of(record_size as nat, image@.len()) && e
                == AccessError::IndexOutOfBounds,
        },
{
    let start = records_start(record_size);
    let count = (image.len() - start) / record_size;
    if index >= count {
        return Err(AccessError::IndexOutOfBounds);
    }
    proof {
        lemma_offset_bounds(record_size as nat, image@.len(), index as int);
    }
    let off = start + index * record_size;
    let mut out: Vec<u8> = Vec::new();
    let mut k: usize = 0;
    while k < record_size
        invariant
            k <= record_size,
            off + record_size <= image@.len(),
            image@.len() <= usize::MAX,
            off == record_offset(record_size as nat, index as int),
            out@ == image@.subrange(off as int, off + k),
        decreases record_size - k,
    {
        out.push(image[off + k]);
        k += 1;
        assert(out@ =~= image@.subrange(off as int, off + k));
    }
    Ok(out)
}

/// Overwrites record `index` of a file image with `value`.
pub fn set_record(record_size: usize, image: &mut [u8], index: usize, value: &[u8]) -> (r: Result<
    (),
    AccessError,
>)
    requires
        record_size_ok(record_size as nat),
        old(image)@.len() >= body_start(record_size as nat),
        value@.len() == record_size,
    ensures
        match r {
            Ok(_) => index < count_of(record_size as nat, old(image)@.len()) && final(image)@
                == write_record(record_size as nat, old(image)@, index as int, value@)
                && records(record_size as nat, final(image)@) == records(
                record_size as nat,
                old(image)@,
            ).update(index as int, value@),
            Err(e) => index >= count_of(record_size as nat, old(image)@.len()) && final(image)@
                == old(image)@ && e == AccessError::IndexOutOfBounds,
        },
{
    let start = records_start(record_size);
    let count = (image.len() - start) / record_size;
    if index >= count {
        return Err(AccessError::IndexOutOfBounds);
    }
    proof {
        lemma_offset_bounds(record_size as nat, image@.len(), index as int);
        lemma_records_after_write(record_size as nat, image@, index as int, value@);
    }
    let ghost before = image@;
    let off = start + index * record_size;
    let mut k: usize = 0;
    while k < record_size
        invariant
            k <= record_size,
            value@.len() == record_size,
            off + record_size <= before.len(),
            before.len() <= usize::MAX,
            off == record_offset(record_size as nat, index as int),
            image@.len() == before.len(),
            forall|j: int| 0 <= j < off ==> image@[j] == before[j],
            forall|j: int| off + record_size <= j < before.len() ==> image@[j] == before[j],
            forall|j: int| off + k <= j < off + record_size ==> image@[j] == before[j],
            forall|j: int| off <= j < off + k ==> image@[j] == value@[j - off],
        decreases record_size - k,
    {
        image[off + k] = value[k];
        k += 1;
    }
    assert(image@ =~= write_record(record_size as nat, before, index as int, value@));
    Ok(())
}

proof fn lemma_wf_count(record_size: nat, image_len: nat)
    requires
        0 < record_size,
        image_len >= body_start(record_size),
        (image_len - body_start(record_size)) % (record_size as int) == 0,
    ensures
        body_start(record_size) + count_of(record_size, image_len) * record_size == image_len,
{
    let b = body_start(record_size) as int;
    let rs = record_size as int;
    let d = image_len - b;
    assert(d == (d / rs) * rs) by (nonlinear_arith)
        requires
            d % rs == 0,
            rs > 0,
            d >= 0,
    ;
}

/// Appending a record to a file image adds it at the end and keeps the others.
pub proof fn lemma_append_keeps_records(record_size: nat, image: Seq<u8>, value: Seq<u8>)
    requires
        0 < record_size,
        image_wf(record_size, image),
        value.len() == record_size,
    ensures
        image_wf(record_size, image + value),
        records(record_size, image + value) == records(record_size, image).push(value),
{
    let n = count_of(record_size, image.len());
    let grown = image + value;
    let rs = record_size as int;
    let b = body_start(record_size) as int;
    lemma_wf_count(record_size, image.len());
    assert(grown.len() - b == (n + 1) * rs) by (nonlinear_arith)
        requires
            b + n * rs == image.len(),
            grown.len() == image.len() + rs,
    ;
    assert((grown.len() - b) % rs == 0 && (grown.len() - b) / rs == n + 1) by (nonlinear_arith)
        requires
            grown.len() - b == (n + 1) * rs,
            rs > 0,
            n >= 0,
    ;
    assert forall|i: int| 0 <= i < n + 1 implies #[trigger] records(record_size, grown)[i]
        == records(record_size, image).push(value)[i] by {
        lemma_offset_bounds(record_size, grown.len(), i);
        let oi = record_offset(record_size, i);
        if i < n {
            lemma_offset_bounds(record_size, image.len(), i);
            assert(grown.subrange(oi, oi + rs) =~= image.subrange(oi, oi + rs));
        } else {
            assert(oi == image.len());
            assert(grown.subrange(oi, oi + rs) =~= value);
        }
    }
    assert(records(record_size, grown) =~= records(record_size, image).push(value));
}

/// Cutting a file image to the length that `truncated_len` gives keeps the
/// first `n` records, or all of them when there are no more than `n`.
pub proof fn lemma_truncate_keeps_prefix(record_size: nat, image: Seq<u8>, n: nat)
    requires
        0 < record_size,
        image_wf(record_size, image),
    ensures
        image_wf(
            record_size,
            image.subrange(0, truncated_len(record_size, image.len(), n) as int),
        ),
        records(
            record_size,
            image.subrange(0, truncated_len(record_size, image.len(), n) as int),
        ) == if n < records(record_size, image).len() {
            records(record_size, image).take(n as int)
        } else {
            records(record_size, image)
        },
{
    let c = count_of(record_size, image.len());
    let rs = record_size as int;
    let b = body_start(record_size) as int;
    lemma_wf_count(record_size, image.len());
    if n < c {
        let t = b + n * rs;
        assert(t <= image.len() && (t - b) % rs == 0 && (t - b) / rs == n) by (nonlinear_arith)
            requires
                t == b + n * rs,
                b + c * rs == image.len(),
                n < c,
                rs > 0,
        ;
        lemma_records_of_prefix(record_size, image, t as nat);
    } else {
        assert(image.subrange(0, image.len() as int) =~= image);
    }
}

/// New file length when one record is appended, if it fits in memory.
pub fn grown_len(record_size: usize, image_len: usize) -> (r: Option<usize>)
    ensures
        r == if image_len + record_size <= usize::MAX {
            Some((image_len + record_size) as usize)
        } else {
            None::<usize>
        },
{
    image_len.checked_add(record_size)
}

/// File length after keeping only the first `n` records.
pub fn truncate_target(record_size: usize, image_len: usize, n: usize) -> (r: usize)
    requires
        record_size_ok(record_size as nat),
        image_len >= body_start(record_size as nat),
    ensures
        r == truncated_len(record_size as nat, image_len as nat, n as nat),
{
    let start = records_start(record_size);
    let count = (image_len - start) / record_size;
    if n < count {
        proof {
            lemma_offset_bounds(record_size as nat, image_len as nat, n as int);
        }
        start + n * record_size
    } else {
        image_len
    }
}

/// Fills the last record slot of an image just grown by one record.
pub fn store_appended(record_size: usize, image: &mut [u8], value: &[u8])
    requires
        record_size_ok(record_size as nat),
        image_wf(record_size as nat, old(image)@),
        old(image)@.len() >= body_start(record_size as nat) + record_size,
        value@.len() == record_size,
    ensures
        final(image)@ == old(image)@.subrange(0, old(image)@.len() - record_size) + value@,
        records(record_size as nat, final(image)@) == records(
            record_size as nat,
            old(image)@.subrange(0, old(image)@.len() - record_size),
        ).push(value@),
{
    let ghost before = image@;
    let ghost rs = record_size as int;
    let ghost b = body_start(record_size as nat) as int;
    let start = records_start(record_size);
    let count = (image.len() - start) / record_size;
    proof {
        lemma_wf_count(record_size as nat, before.len());
        let c = count as int;
        assert(c >= 1 && b + (c - 1) * rs + rs == before.len()) by (nonlinear_arith)
            requires
                b + c * rs == before.len(),
                before.len() >= b + rs,
                rs > 0,
        ;
    }
    let outcome = set_record(record_size, image, count - 1, value);
    proof {
        assert(outcome is Ok);
        let head = before.subrange(0, before.len() - rs);
        assert(image@ =~= head + value@);
        let c = count as int;
        assert((head.len() - b) % rs == 0) by (nonlinear_arith)
            requires
                head.len() == b + (c - 1) * rs,
                c >= 1,
                rs > 0,
        ;
        lemma_append_keeps_records(record_size as nat, head, value@);
    }
}

/// One change made to an array through its handle.
pub ghost enum Edit {
    Overwrite(nat, Seq<u8>),
    Append(Seq<u8>),
    Truncate(nat),
}

/// What an edit does to the list of records, as a growable vector would.
pub open spec fn apply_edit(v: Seq<Seq<u8>>, e: Edit) -> Seq<Seq<u8>> {
    match e {
        Edit::Overwrite(i, x) => if i < v.len() {
            v.update(i as int, x)
        } else {
            v
        },
        Edit::Append(x) => v.push(x),
        Edit::Truncate(n) => if n < v.len() {
            v.take(n as int)
        } else {
            v
        },
    }
}

pub open spec fn apply_edits(v: Seq<Seq<u8>>, es: Seq<Edit>) -> Seq<Seq<u8>>
    decreases es.len(),
{
    if es.len() == 0 {
        v
    } else {
        apply_edit(apply_edits(v, es.drop_last()), es.last())
    }
}

/// How the file image changes under an edit: what `set_record`,
/// `store_appended` after a one-record growth, and a cut to `truncate_target` do.
pub open spec fn image_step(record_size: nat, before: Seq<u8>, e: Edit, after: Seq<u8>) -> bool {
    match e {
        Edit::Overwrite(i, x) => x.len() == record_size && after == if i < count_of(
            record_size,
            before.len(),
        ) {
            write_record(record_size, before, i as int, x)
        } else {
            before
        },
        Edit::Append(x) => x.len() == record_size && after == before + x,
        Edit::Truncate(n) => after == before.subrange(
            0,
            truncated_len(record_size, before.len(), n) as int,
        ),
    }
}

/// Growing and shrinking keep the data: after any sequence of edits, the
/// records of the file are those of a vector that went through the same
/// edits. Record `i` is the last value set or appended there, and the length
/// is the number of live records.
pub proof fn lemma_edits_keep_data(record_size: nat, images: Seq<Seq<u8>>, edits: Seq<Edit>)
    requires
        0 < record_size,
        images.len() == edits.len() + 1,
        image_wf(record_size, images[0]),
        forall|k: int|
            0 <= k < edits.len() ==> image_step(record_size, images[k], edits[k], images[k + 1]),
    ensures
        image_wf(record_size, images.last()),
        records(record_size, images.last()) == apply_edits(records(record_size, images[0]), edits),
    decreases edits.len(),
{
    if edits.len() > 0 {
        let k = edits.len() - 1;
        let earlier = images.drop_last();
        assert forall|j: int| 0 <= j < edits.drop_last().len() implies image_step(
            record_size,
            earlier[j],
            edits.drop_last()[j],
            earlier[j + 1],
        ) by {
            assert(image_step(record_size, images[j], edits[j], images[j + 1]));
        }
        lemma_edits_keep_data(record_size, earlier, edits.drop_last());
        let before = images[k];
        let after = images[k + 1];
        assert(earlier.last() == before);
        assert(image_step(record_size, before, edits[k], after));
        match edits[k] {
            Edit::Overwrite(i, x) => {
                if i < count_of(record_size, before.len()) {
                    lemma_records_after_write(record_size, before, i as int, x);
                    lemma_wf_count(record_size, before.len());
                }
            },
            Edit::Append(x) => {
                lemma_append_keeps_records(record_size, before, x);
            },
            Edit::Truncate(n) => {
                lemma_truncate_keeps_prefix(record_size, before, n);
            },
        }
    }
}

} // verus!
