use presto_pasta::buf::{Pool, BUF_SIZE, FRAME, HEADROOM};

#[test]
fn alloc_free_roundtrip() {
    let mut p = Pool::new(2);
    let a = p.alloc_buf().unwrap();
    let b = p.alloc_buf().unwrap();
    assert_ne!(a, b);
    assert!(p.alloc_buf().is_none());
    p.free(a);
    assert_eq!(p.alloc_buf(), Some(a));
}

#[test]
fn empty_pool_has_no_buffer() {
    let mut p = Pool::new(0);
    assert_eq!(p.alloc_buf(), None);
}

#[test]
fn buffers_do_not_overlap() {
    let mut p = Pool::new(3);
    p.get_mut(1)[0] = 7;
    p.get_mut(1)[BUF_SIZE - 1] = 8;
    assert_eq!(p.get(0), &[0u8; BUF_SIZE][..]);
    assert_eq!(p.get(2), &[0u8; BUF_SIZE][..]);
    assert_eq!(p.get(1)[0], 7);
    assert_eq!(p.get(1)[BUF_SIZE - 1], 8);
    assert_eq!(p.get(1).len(), HEADROOM + FRAME);
}

#[test]
fn last_freed_is_next_allocated() {
    let mut p = Pool::new(4);
    let ids: Vec<u32> = (0..4).map(|_| p.alloc_buf().unwrap()).collect();
    p.free(ids[1]);
    p.free(ids[3]);
    assert_eq!(p.alloc_buf(), Some(ids[3]));
    assert_eq!(p.alloc_buf(), Some(ids[1]));
    assert_eq!(p.alloc_buf(), None);
}
