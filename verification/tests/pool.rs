use lodestone::allocator::pool::Pool;
use lodestone::LodestoneError;

#[test]
#[should_panic(expected = "malloc_inner")]
fn test_oom() {
    let buf: Vec<u8> = vec![0; 0x2000];
    let mut p = Pool::new(buf);
    match p.malloc(&[42; 0x2000][..]) {
        Ok(_) => {}
        Err(LodestoneError::OutOfMemory) => panic!("malloc_inner"),
        Err(e) => panic!("{:?}", e),
    }
}

#[test]
fn test_printing_empty() {
    let buf: Vec<u8> = vec![0; 0x2000];
    let p = Pool::new(buf);
    assert_eq!(
        "Pool { buffer_size: 8192, \
            metadata: Metadata { lowest_known_free_index: 0, next_id_tag: AtomicUsize(2) }, \
            blocks: [\
            _B { start: 0, capacity: 4048, next: 4096, prev: 18446744073709551615, is_free: true }\
            ] }",
        format!("{}", p.debug_string())
    );
}

#[test]
fn test_small_alloc_free() {
    let buf: Vec<u8> = vec![0; 0x4000];
    let mut p = Pool::new(buf);
    let data = [0x1, 0x2, 0x3, 0x4];

    let arc_ts1 = p.malloc(&data[..]).unwrap();

    assert_eq!(
        "Pool { buffer_size: 16384, \
            metadata: Metadata { lowest_known_free_index: 56, next_id_tag: AtomicUsize(3) }, \
            blocks: [\
                _B { start: 0, capacity: 8, next: 56, prev: 18446744073709551615, is_free: false }, \
                _B { start: 56, capacity: 12184, next: 12288, prev: 0, is_free: true }\
            ] }",
        format!("{}", p.debug_string())
    );

    assert_eq!([0x1, 0x2, 0x3, 0x4], arc_ts1.deref(&p)[0..4]);

    let arc_ts2 = p.malloc(&data[..]).unwrap();
    assert_eq!(
        "Pool { buffer_size: 16384, \
            metadata: Metadata { lowest_known_free_index: 112, next_id_tag: AtomicUsize(4) }, \
            blocks: [\
                _B { start: 0, capacity: 8, next: 56, prev: 18446744073709551615, is_free: false }, \
                _B { start: 56, capacity: 8, next: 112, prev: 0, is_free: false }, \
                _B { start: 112, capacity: 12128, next: 12288, prev: 56, is_free: true }\
            ] }",
        format!("{}", p.debug_string())
    );

    p.free(&arc_ts1);

    assert_eq!(
        "Pool { buffer_size: 16384, \
            metadata: Metadata { lowest_known_free_index: 0, next_id_tag: AtomicUsize(4) }, \
            blocks: [\
                _B { start: 0, capacity: 8, next: 56, prev: 18446744073709551615, is_free: true }, \
                _B { start: 56, capacity: 8, next: 112, prev: 0, is_free: false }, \
                _B { start: 112, capacity: 12128, next: 12288, prev: 56, is_free: true }\
            ] }",
        format!("{}", p.debug_string())
    );

    p.free(&arc_ts2);

    assert_eq!(
        "Pool { buffer_size: 16384, \
            metadata: Metadata { lowest_known_free_index: 0, next_id_tag: AtomicUsize(4) }, \
            blocks: [\
                _B { start: 0, capacity: 12240, next: 12288, prev: 18446744073709551615, is_free: true }\
            ] }",
        format!("{}", p.debug_string())
    );
}

#[test]
fn test_large_alloc() {
    let buf: Vec<u8> = vec![0; 0x4000];
    let mut p = Pool::new(buf);

    // Take up > 1 page
    let _arc_ts1 = p.malloc(&[42u8; 0x2000][..]).unwrap();

    assert_eq!(
        "Pool { buffer_size: 16384, \
            metadata: Metadata { lowest_known_free_index: 8240, next_id_tag: AtomicUsize(3) }, \
            blocks: [\
                _B { start: 0, capacity: 8192, next: 8240, prev: 18446744073709551615, is_free: false }, \
                _B { start: 8240, capacity: 4000, next: 12288, prev: 0, is_free: true }\
            ] }",
        format!("{}", p.debug_string())
    );
}
