use vstd::prelude::*;

verus! {

/// Number of `(begin, end)` field pairs in a layout descriptor
/// `[start, step, count, _, b0, e0, b1, e1, ...]`; a trailing odd word is ignored.
pub open spec fn field_count(d: Seq<u32>) -> int {
    d.len() / 2 - 2
}

/// Byte range of field `f` in record `i`.
pub open spec fn span_of(d: Seq<u32>, i: int, f: int) -> (int, int) {
    let row = d[0] + d[1] * i;
    (row + d[4 + 2 * f], row + d[5 + 2 * f])
}

pub open spec fn span_fits(d: Seq<u32>, buf_len: int, i: int, f: int) -> bool {
    span_of(d, i, f).0 <= span_of(d, i, f).1 <= buf_len
}

/// Every field of every record lies inside a buffer of `buf_len` bytes.
pub open spec fn layout_fits(d: Seq<u32>, buf_len: int) -> bool {
    d.len() >= 4 && forall|i: int, f: int|
        0 <= i < d[2] && 0 <= f < field_count(d) ==> #[trigger] span_fits(d, buf_len, i, f)
}

/// The byte range of each field of each record, record by record; `None` when
/// the descriptor is shorter than its four header words or a range falls
/// outside the buffer.
pub fn field_spans(buf_len: usize, descriptor: &Vec<u32>) -> (r: Option<Vec<Vec<(usize, usize)>>>)
    ensures
        r is Some <==> layout_fits(descriptor@, buf_len as int),
        r matches Some(rows) ==> rows@.len() == descriptor@[2] && forall|i: int|
            0 <= i < rows@.len() ==> #[trigger] rows@[i]@.len() == field_count(descriptor@)
                && forall|f: int|
                0 <= f < field_count(descriptor@) ==> (#[trigger] rows@[i]@[f]).0 == span_of(
                    descriptor@,
                    i,
                    f,
                ).0 && rows@[i]@[f].1 == span_of(descriptor@, i, f).1,
{
    let ghost d = descriptor@;
    let n = descriptor.len();
    assert(d.len() <= usize::MAX);
    if n < 4 {
        return None;
    }
    let start = descriptor[0] as u128;
    let step = descriptor[1] as u128;
    let count = descriptor[2];
    let nf: usize = descriptor.len() / 2 - 2;
    let mut rows: Vec<Vec<(usize, usize)>> = Vec::new();
    let mut i: u32 = 0;
    while i < count
        invariant
            d == descriptor@,
            d.len() >= 4,
            d.len() <= usize::MAX,
            start == d[0],
            step == d[1],
            count == d[2],
            nf == field_count(d),
            i <= count,
            rows@.len() == i,
            forall|i2: int, f: int|
                0 <= i2 < i && 0 <= f < nf ==> #[trigger] span_fits(d, buf_len as int, i2, f),
            forall|i2: int|
                0 <= i2 < i ==> #[trigger] rows@[i2]@.len() == nf && forall|f: int|
                    0 <= f < nf ==> (#[trigger] rows@[i2]@[f]).0 == span_of(d, i2, f).0
                        && rows@[i2]@[f].1 == span_of(d, i2, f).1,
        decreases count - i,
    {
        assert(step * (i as u128) <= 0xffff_ffff * 0xffff_ffffu128) by (nonlinear_arith)
            requires
                step <= 0xffff_ffff,
                i <= 0xffff_ffff,
        ;
        let row: u128 = start + step * (i as u128);
        assert(row <= 0xffff_ffff + 0xffff_ffff * 0xffff_ffffu128);
        let mut spans: Vec<(usize, usize)> = Vec::new();
        let mut f: usize = 0;
        while f < nf
            invariant
                d == descriptor@,
                d.len() >= 4,
                nf == field_count(d),
                row == d[0] + d[1] * (i as int),
                row <= 0xffff_ffff + 0xffff_ffff * 0xffff_ffffu128,
                d.len() <= usize::MAX,
                i < count,
                count == d[2],
                rows@.len() == i,
                forall|i2: int, f: int|
                    0 <= i2 < i && 0 <= f < nf ==> #[trigger] span_fits(d, buf_len as int, i2, f),
                forall|i2: int|
                    0 <= i2 < i ==> #[trigger] rows@[i2]@.len() == nf && forall|f: int|
                        0 <= f < nf ==> (#[trigger] rows@[i2]@[f]).0 == span_of(d, i2, f).0
                            && rows@[i2]@[f].1 == span_of(d, i2, f).1,
                f <= nf,
                spans@.len() == f,
                forall|f2: int| 0 <= f2 < f ==> #[trigger] span_fits(d, buf_len as int, i as int, f2),
                forall|f2: int|
                    0 <= f2 < f ==> (#[trigger] spans@[f2]).0 == span_of(d, i as int, f2).0
                        && spans@[f2].1 == span_of(d, i as int, f2).1,
            decreases nf - f,
        {
            let b = row + descriptor[4 + 2 * f] as u128;
            let e = row + descriptor[5 + 2 * f] as u128;
            if b > e || e > buf_len as u128 {
                assert(!span_fits(d, buf_len as int, i as int, f as int));
                return None;
            }
            spans.push((b as usize, e as usize));
            f = f + 1;
        }
        proof {
            assert forall|i2: int, f2: int|
                0 <= i2 < i + 1 && 0 <= f2 < nf implies #[trigger] span_fits(
                d,
                buf_len as int,
                i2,
                f2,
            ) by {
                if i2 < i {
                } else {
                    assert(span_fits(d, buf_len as int, i as int, f2));
                }
            }
        }
        rows.push(spans);
        proof {
            assert(rows@[i as int]@ == spans@);
        }
        i = i + 1;
    }
    assert forall|i2: int| 0 <= i2 < rows@.len() implies #[trigger] rows@[i2]@.len() == field_count(
        d,
    ) && forall|f: int|
        0 <= f < field_count(d) ==> (#[trigger] rows@[i2]@[f]).0 == span_of(d, i2, f).0
            && rows@[i2]@[f].1 == span_of(d, i2, f).1 by {
        assert(rows@[i2]@.len() == nf);
    }
    Some(rows)
}

/// Position of the first byte of `buf[begin..end]` that is not a space.
pub fn first_non_pad(buf: &Vec<u8>, begin: usize, end: usize) -> (r: Option<usize>)
    requires
        begin <= end <= buf@.len(),
    ensures
        r matches Some(k) ==> begin <= k < end && buf@[k as int] != 32u8 && forall|j: int|
            begin <= j < k ==> buf@[j] == 32u8,
        r is None ==> forall|j: int| begin <= j < end ==> buf@[j] == 32u8,
{
    let mut k: usize = begin;
    while k < end
        invariant
            begin <= k <= end <= buf@.len(),
            forall|j: int| begin <= j < k ==> buf@[j] == 32u8,
        decreases end - k,
    {
        if buf[k] != 32u8 {
            return Some(k);
        }
        k = k + 1;
    }
    None
}

} // verus!
