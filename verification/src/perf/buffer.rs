//! The buffers that streams carry: `Bytes` of the crate `bytes`.

use bytes::Bytes;
use vstd::prelude::*;

verus! {

/// The buffer type `bytes::Bytes`, of which only the contents matter here.
#[verifier::external_type_specification]
#[verifier::external_body]
pub struct ExBytes(Bytes);

/// The bytes that a buffer holds, in order.
pub uninterp spec fn contents(buffer: Bytes) -> Seq<u8>;

/// `Bytes::copy_from_slice` gives a buffer that holds what the slice holds.
pub assume_specification[ Bytes::copy_from_slice ](data: &[u8]) -> (buffer: Bytes)
    ensures
        contents(buffer) == data@,
;

/// `Bytes::len` gives the number of bytes that the buffer holds.
pub assume_specification[ Bytes::len ](buffer: &Bytes) -> (len: usize)
    ensures
        len == contents(*buffer).len(),
;

/// `Bytes::slice`, called with a range that starts at the beginning, gives a buffer that holds the
/// first `len` bytes. It panics on a range that ends past the buffer.
#[verifier::external_body]
pub(crate) fn prefix(buffer: &Bytes, len: usize) -> (first: Bytes)
    requires
        len <= contents(*buffer).len(),
    ensures
        contents(first) == contents(*buffer).take(len as int),
{
    buffer.slice(..len)
}

/// `Bytes::as_ref` gives the bytes that the buffer holds as a slice.
#[verifier::external_body]
pub(crate) fn as_slice(buffer: &Bytes) -> (data: &[u8])
    ensures
        data@ == contents(*buffer),
{
    buffer.as_ref()
}

/// The number of bytes that these buffers hold together.
pub open spec fn total(buffers: Seq<Bytes>) -> nat
    decreases buffers.len(),
{
    if buffers.len() == 0 {
        0
    } else {
        total(buffers.drop_last()) + contents(buffers.last()).len()
    }
}

proof fn lemma_total_grows(buffers: Seq<Bytes>, i: int, j: int)
    requires
        0 <= i <= j <= buffers.len(),
    ensures
        total(buffers.take(i)) <= total(buffers.take(j)),
    decreases j,
{
    if i < j {
        lemma_total_grows(buffers, i, j - 1);
        assert(buffers.take(j).drop_last() =~= buffers.take(j - 1));
    }
}

/// The number of bytes in the first `size` of `buffers`, or `None` if no `usize` can hold it.
pub fn total_len(buffers: &[Bytes], size: usize) -> (sum: Option<usize>)
    requires
        size <= buffers@.len(),
    ensures
        sum == if total(buffers@.take(size as int)) <= usize::MAX {
            Some(total(buffers@.take(size as int)) as usize)
        } else {
            None
        },
{
    let mut sum: usize = 0;
    let mut i: usize = 0;
    while i < size
        invariant
            i <= size <= buffers@.len(),
            sum == total(buffers@.take(i as int)),
        decreases size - i,
    {
        assert(buffers@.take(i + 1).drop_last() =~= buffers@.take(i as int));
        match sum.checked_add(buffers[i].len()) {
            Some(more) => {
                sum = more;
            },
            None => {
                proof {
                    lemma_total_grows(buffers@, i + 1, size as int);
                }
                return None;
            },
        }
        i += 1;
    }
    Some(sum)
}

/// One buffer more adds its length, however many came before it. When a sum is too large, so is
/// the sum with one buffer more. `one` is the sum of the first `size` buffers, `other` that of one
/// more.
pub proof fn law_each_buffer_adds_its_length(
    buffers: &[Bytes],
    size: usize,
    one: Option<usize>,
    more: usize,
    other: Option<usize>,
)
    requires
        call_ensures(total_len, (buffers, size), one),
        more == size + 1,
        more <= buffers@.len(),
        call_requires(total_len, (buffers, more)) ==> call_ensures(
            total_len,
            (buffers, more),
            other,
        ),
    ensures
        call_requires(total_len, (buffers, size)),
        call_requires(total_len, (buffers, more)),
        match one {
            Some(sum) => if sum + contents(buffers@[size as int]).len() <= usize::MAX {
                other matches Some(larger) && larger == sum + contents(
                    buffers@[size as int],
                ).len()
            } else {
                other is None
            },
            None => other is None,
        },
{
    assert(buffers@.take(more as int).drop_last() =~= buffers@.take(size as int));
}

/// No buffers hold nothing, whatever comes behind them.
pub proof fn law_no_buffers_hold_nothing(buffers: &[Bytes], sum: Option<usize>)
    requires
        call_ensures(total_len, (buffers, 0), sum),
    ensures
        call_requires(total_len, (buffers, 0)),
        sum == Some(0usize),
{
}

} // verus!
