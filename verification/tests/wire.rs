use netbench_core::perf::data::Data;
use netbench_core::perf::wire::{request_header, requested_bytes};

#[test]
fn header_is_big_endian() {
    let header = request_header(0x0102030405060708);
    assert_eq!(&header[..], &[1, 2, 3, 4, 5, 6, 7, 8]);
    assert_eq!(&header[..], &0x0102030405060708u64.to_be_bytes());
}

#[test]
fn header_is_read_back() {
    for download in [0, 1, 255, 256, 1 << 40, u64::MAX - 1, u64::MAX] {
        assert_eq!(requested_bytes(&request_header(download)), download);
    }
}

#[test]
fn chunks_are_filling() {
    let data = Data::new();
    assert_eq!(&data.next_chunk(3)[..], &[42, 42, 42]);
    assert_eq!(data.next_chunk(0).len(), 0);
    assert_eq!(data.next_chunk(1024 * 1024).len(), 1024 * 1024);
    assert_eq!(data.next_chunk(u64::MAX).len(), 1024 * 1024);
}
