//! The bytes that fill requests and responses, and how they are cut into chunks.

use crate::perf::buffer::{contents, prefix};
use bytes::Bytes;
use vstd::prelude::*;

verus! {

/// The most bytes that are handed to a stream at once.
pub const CHUNK_LEN: u64 = 1024 * 1024;

/// The byte that everything past a header is made of.
pub const FILL: u8 = 42;

/// `len` bytes of filling.
pub open spec fn filling(len: nat) -> Seq<u8> {
    Seq::new(len, |i: int| FILL)
}

/// The length of the next chunk when `remaining` bytes are left to send.
pub open spec fn chunk_len(remaining: nat) -> nat {
    if remaining < CHUNK_LEN {
        remaining
    } else {
        CHUNK_LEN as nat
    }
}

/// The lengths of the chunks that `len` bytes are sent in.
pub open spec fn chunks(len: nat) -> Seq<nat>
    decreases len,
{
    if len == 0 {
        Seq::empty()
    } else {
        seq![chunk_len(len)] + chunks((len - chunk_len(len)) as nat)
    }
}

/// The sum of `lens`.
pub open spec fn sum(lens: Seq<nat>) -> nat
    decreases lens.len(),
{
    if lens.len() == 0 {
        0
    } else {
        lens.first() + sum(lens.drop_first())
    }
}

/// A full chunk of filling, out of which all chunks are cut without a copy.
pub struct Data {
    block: Bytes,
}

impl Data {
    /// The bytes of the block.
    pub closed spec fn bytes(self) -> Seq<u8> {
        contents(self.block)
    }

    #[verifier::type_invariant]
    spec fn is_filling(self) -> bool {
        self.bytes() == filling(CHUNK_LEN as nat)
    }

    /// Makes the block.
    pub fn new() -> (data: Data)
        ensures
            data.bytes() == filling(CHUNK_LEN as nat),
    {
        let mut bytes: Vec<u8> = Vec::with_capacity(CHUNK_LEN as usize);
        let mut i: u64 = 0;
        while i < CHUNK_LEN
            invariant
                i <= CHUNK_LEN,
                bytes@ == filling(i as nat),
            decreases CHUNK_LEN - i,
        {
            bytes.push(FILL);
            i += 1;
            assert(bytes@ =~= filling(i as nat));
        }
        Data { block: Bytes::copy_from_slice(bytes.as_slice()) }
    }

    /// The next chunk when `remaining` bytes are left to send.
    pub fn next_chunk(&self, remaining: u64) -> (chunk: Bytes)
        ensures
            contents(chunk) == filling(chunk_len(remaining as nat)),
    {
        proof {
            use_type_invariant(self);
        }
        let len: u64 = if remaining < CHUNK_LEN {
            remaining
        } else {
            CHUNK_LEN
        };
        let chunk = prefix(&self.block, len as usize);
        assert(contents(chunk) =~= filling(chunk_len(remaining as nat)));
        chunk
    }
}

/// `one` and then `other` bytes of filling are filling again.
pub(crate) proof fn lemma_filling_joins(one: nat, other: nat)
    ensures
        filling(one) + filling(other) == filling(one + other),
{
    assert(filling(one) + filling(other) =~= filling(one + other));
}

/// The chunks add up to what is to be sent, whatever that is. There are no more of them than
/// needed, none is empty, and all but the last are full.
pub proof fn law_chunks_add_up(len: nat)
    ensures
        sum(chunks(len)) == len,
        chunks(len).len() == (len + CHUNK_LEN - 1) / CHUNK_LEN as int,
        forall|i: int|
            0 <= i < chunks(len).len() ==> 0 < #[trigger] chunks(len)[i] <= CHUNK_LEN && (i
                < chunks(len).len() - 1 ==> chunks(len)[i] == CHUNK_LEN),
    decreases len,
{
    if len > 0 {
        let rest = (len - chunk_len(len)) as nat;
        law_chunks_add_up(rest);
        assert(chunks(len).drop_first() =~= chunks(rest));
        assert forall|i: int| 0 <= i < chunks(len).len() implies 0 < #[trigger] chunks(len)[i]
            <= CHUNK_LEN && (i < chunks(len).len() - 1 ==> chunks(len)[i] == CHUNK_LEN) by {
            if i > 0 {
                assert(chunks(len)[i] == chunks(rest)[i - 1]);
            }
        }
    }
}

/// A chunk holds as much as is left, up to a full block, and nothing but filling.
pub proof fn law_chunks_are_filling(data: Data, remaining: u64, chunk: Bytes)
    requires
        call_ensures(Data::next_chunk, (&data, remaining), chunk),
    ensures
        call_requires(Data::next_chunk, (&data, remaining)),
        remaining <= 1048576 ==> contents(chunk).len() == remaining,
        remaining > 1048576 ==> contents(chunk).len() == 1048576,
        forall|i: int| 0 <= i < contents(chunk).len() ==> #[trigger] contents(chunk)[i] == 42,
{
}

/// Every block is full, and of nothing but filling.
pub proof fn law_blocks_are_full(data: Data)
    requires
        call_ensures(Data::new, (), data),
    ensures
        call_requires(Data::new, ()),
        data.bytes().len() == 1048576,
        forall|i: int| 0 <= i < data.bytes().len() ==> #[trigger] data.bytes()[i] == 42,
{
}

} // verus!
