use fluke::bufpool::BufPool;
use fluke::roll::RollMut;

#[test]
fn put_keep_and_filled() {
    let mut pool = BufPool::new_empty(16, 4);
    let mut r = RollMut::allocate(&mut pool).unwrap();
    assert_eq!(r.len(), 0);
    assert_eq!(r.cap(), 16);
    r.put(&mut pool, b"GET / HT").unwrap();
    r.put(&mut pool, b"TP/1.1").unwrap();
    assert_eq!(r.len(), 14);
    let f = r.filled(&mut pool);
    assert_eq!(f.bytes(&pool), b"GET / HTTP/1.1".to_vec());
    f.release(&mut pool);
    r.keep(&pool, 6);
    assert_eq!(r.len(), 8);
    assert_eq!(r.cap(), 2);
    assert_eq!(pool.num_free().unwrap(), 3);
    // Does not fit in the rest of the slab: moves to a fresh one.
    r.put(&mut pool, b"\r\n\r\n").unwrap();
    assert_eq!(r.len(), 12);
    assert_eq!(r.cap(), 4);
    assert_eq!(pool.num_free().unwrap(), 3);
    let f = r.filled(&mut pool);
    assert_eq!(f.bytes(&pool), b"HTTP/1.1\r\n\r\n".to_vec());
    f.release(&mut pool);
    r.release(&mut pool);
    assert_eq!(pool.num_free().unwrap(), 4);
}

#[test]
fn moving_fails_when_the_pool_is_exhausted() {
    let mut pool = BufPool::new_empty(8, 1);
    let mut r = RollMut::allocate(&mut pool).unwrap();
    r.put(&mut pool, b"abcdef").unwrap();
    r.keep(&pool, 4);
    assert!(r.put(&mut pool, b"wxyz").is_err());
    assert_eq!(r.len(), 2);
    let f = r.filled(&mut pool);
    assert_eq!(f.bytes(&pool), b"ef".to_vec());
    f.release(&mut pool);
    r.release(&mut pool);
    assert!(RollMut::allocate(&mut pool).is_ok());
}
