//! The eight bytes that start a request.

use crate::perf::buffer::{as_slice, contents};
use bytes::Bytes;
use vstd::prelude::*;

verus! {

/// The length of the header of a request.
pub const HEADER_LEN: usize = 8;

/// The number that bytes spell in big-endian order.
pub open spec fn big_endian(bytes: Seq<u8>) -> nat
    decreases bytes.len(),
{
    if bytes.len() == 0 {
        0
    } else {
        big_endian(bytes.drop_last()) * 256 + bytes.last() as nat
    }
}

/// The last `len` bytes of `value`, in big-endian order.
pub open spec fn spelled(value: nat, len: nat) -> Seq<u8>
    decreases len,
{
    if len == 0 {
        Seq::empty()
    } else {
        spelled(value / 256, (len - 1) as nat).push((value % 256) as u8)
    }
}

/// The header of a request for `download` bytes.
pub open spec fn header(download: u64) -> Seq<u8> {
    spelled(download as nat, HEADER_LEN as nat)
}

/// How many numbers `len` bytes can spell.
spec fn capacity(len: nat) -> nat
    decreases len,
{
    if len == 0 {
        1
    } else {
        256 * capacity((len - 1) as nat)
    }
}

proof fn lemma_header_capacity()
    ensures
        capacity(HEADER_LEN as nat) == u64::MAX + 1,
{
    reveal_with_fuel(capacity, 9);
}

proof fn lemma_capacity_grows(i: nat, j: nat)
    requires
        i <= j,
    ensures
        capacity(i) <= capacity(j),
    decreases j,
{
    if i < j {
        lemma_capacity_grows(i, (j - 1) as nat);
    }
}

proof fn lemma_below_capacity(bytes: Seq<u8>)
    ensures
        big_endian(bytes) < capacity(bytes.len()),
    decreases bytes.len(),
{
    if bytes.len() > 0 {
        lemma_below_capacity(bytes.drop_last());
    }
}

/// The last `len` bytes of `value`, in big-endian order.
fn spell(value: u64, len: usize) -> (bytes: Vec<u8>)
    ensures
        bytes@ == spelled(value as nat, len as nat),
    decreases len,
{
    if len == 0 {
        Vec::new()
    } else {
        let mut bytes = spell(value / 256, len - 1);
        bytes.push((value % 256) as u8);
        bytes
    }
}

/// The header of a request for `download` bytes.
pub fn request_header(download: u64) -> (buffer: Bytes)
    ensures
        contents(buffer) == header(download),
{
    let bytes = spell(download, HEADER_LEN);
    Bytes::copy_from_slice(bytes.as_slice())
}

/// The number of bytes that a request with this header asks for.
pub fn requested_bytes(buffer: &Bytes) -> (download: u64)
    requires
        contents(*buffer).len() == HEADER_LEN,
    ensures
        download == big_endian(contents(*buffer)),
{
    let bytes = as_slice(buffer);
    let mut value: u64 = 0;
    let mut i: usize = 0;
    while i < HEADER_LEN
        invariant
            i <= HEADER_LEN,
            bytes@.len() == HEADER_LEN,
            value == big_endian(bytes@.take(i as int)),
        decreases HEADER_LEN - i,
    {
        proof {
            let upto = bytes@.take(i + 1);
            assert(upto.drop_last() =~= bytes@.take(i as int));
            lemma_below_capacity(upto);
            lemma_capacity_grows(upto.len(), HEADER_LEN as nat);
            lemma_header_capacity();
        }
        value = value * 256 + bytes[i] as u64;
        i += 1;
    }
    assert(bytes@.take(HEADER_LEN as int) =~= bytes@);
    value
}

proof fn lemma_spelling_is_read_back(value: nat, len: nat)
    requires
        value < capacity(len),
    ensures
        spelled(value, len).len() == len,
        big_endian(spelled(value, len)) == value,
    decreases len,
{
    if len > 0 {
        let front = spelled(value / 256, (len - 1) as nat);
        lemma_spelling_is_read_back(value / 256, (len - 1) as nat);
        assert(spelled(value, len).drop_last() =~= front);
    }
}

proof fn lemma_reading_is_spelled_back(bytes: Seq<u8>)
    ensures
        spelled(big_endian(bytes), bytes.len()) == bytes,
    decreases bytes.len(),
{
    if bytes.len() > 0 {
        lemma_reading_is_spelled_back(bytes.drop_last());
        assert(bytes =~= bytes.drop_last().push(bytes.last()));
    } else {
        assert(bytes =~= Seq::<u8>::empty());
    }
}

/// What is read out of a header is what was written into it, whatever the request.
pub proof fn law_headers_are_read_back(download: u64)
    ensures
        header(download).len() == HEADER_LEN,
        big_endian(header(download)) == download,
{
    lemma_header_capacity();
    lemma_spelling_is_read_back(download as nat, HEADER_LEN as nat);
}

/// Any eight bytes are the header of the request that is read out of them.
pub proof fn law_any_eight_bytes_are_a_header(bytes: Seq<u8>)
    requires
        bytes.len() == HEADER_LEN,
    ensures
        big_endian(bytes) <= u64::MAX,
        header(big_endian(bytes) as u64) == bytes,
{
    lemma_below_capacity(bytes);
    lemma_header_capacity();
    lemma_reading_is_spelled_back(bytes);
}

proof fn lemma_places(bytes: Seq<u8>)
    requires
        bytes.len() == 8,
    ensures
        big_endian(bytes) == bytes[0] * 72057594037927936 + bytes[1] * 281474976710656 + bytes[2]
            * 1099511627776 + bytes[3] * 4294967296 + bytes[4] * 16777216 + bytes[5] * 65536
            + bytes[6] * 256 + bytes[7],
{
    reveal_with_fuel(big_endian, 9);
}

/// Every header is eight bytes, whatever it asks for. Each byte counts 256 times as much as the one
/// behind it, and together they are the number of bytes that is asked for.
pub proof fn law_headers_spell_what_they_ask_for(download: u64, buffer: Bytes)
    requires
        call_ensures(request_header, (download,), buffer),
    ensures
        call_requires(request_header, (download,)),
        contents(buffer).len() == 8,
        ({
            let bytes = contents(buffer);
            download == bytes[0] * 72057594037927936 + bytes[1] * 281474976710656 + bytes[2]
                * 1099511627776 + bytes[3] * 4294967296 + bytes[4] * 16777216 + bytes[5] * 65536
                + bytes[6] * 256 + bytes[7]
        }),
{
    law_headers_are_read_back(download);
    lemma_places(contents(buffer));
}

/// Any eight bytes can be read as a header. Each byte counts 256 times as much as the one behind
/// it, and together they are the number of bytes that is asked for.
pub proof fn law_headers_ask_for_what_they_spell(buffer: Bytes, download: u64)
    requires
        contents(buffer).len() == 8,
        call_requires(requested_bytes, (&buffer,)) ==> call_ensures(
            requested_bytes,
            (&buffer,),
            download,
        ),
    ensures
        call_requires(requested_bytes, (&buffer,)),
        ({
            let bytes = contents(buffer);
            download == bytes[0] * 72057594037927936 + bytes[1] * 281474976710656 + bytes[2]
                * 1099511627776 + bytes[3] * 4294967296 + bytes[4] * 16777216 + bytes[5] * 65536
                + bytes[6] * 256 + bytes[7]
        }),
{
    lemma_places(contents(buffer));
}

/// A server that gets the bytes of a header reads the number that the client asked for, whatever it
/// is.
pub proof fn law_servers_read_what_clients_ask_for(
    download: u64,
    sent: Bytes,
    received: Bytes,
    read: u64,
)
    requires
        call_ensures(request_header, (download,), sent),
        contents(received) == contents(sent),
        call_requires(requested_bytes, (&received,)) ==> call_ensures(
            requested_bytes,
            (&received,),
            read,
        ),
    ensures
        call_requires(request_header, (download,)),
        call_requires(requested_bytes, (&received,)),
        read == download,
{
    law_headers_spell_what_they_ask_for(download, sent);
    law_headers_ask_for_what_they_spell(received, read);
}

} // verus!
