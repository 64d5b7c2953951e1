use fluke::bufpool::{Buf, BufMut, BufPool, Error, BUF_SIZE, NUM_BUF};
use std::rc::Rc;

#[allow(dead_code)]
enum BufOrBox {
    Buf(Buf),
    Box((Rc<Box<[u8]>>, u32, u32)),
}

#[allow(dead_code)]
enum Chunk {
    Buf(Buf),
    Box(Box<[u8]>),
    Static(&'static [u8]),
}

fn default_pool() -> BufPool {
    BufPool::new_empty(BUF_SIZE, NUM_BUF)
}

#[test]
fn size_test() {
    assert_eq!(8, std::mem::size_of::<BufMut>());
    assert_eq!(8, std::mem::size_of::<Buf>());
    assert_eq!(16, std::mem::size_of::<Box<[u8]>>());

    assert_eq!(16, std::mem::size_of::<&[u8]>());

    assert_eq!(16, std::mem::size_of::<BufOrBox>());

    assert_eq!(24, std::mem::size_of::<Chunk>());
}

#[test]
fn freeze_test() {
    let mut pool = default_pool();
    let total_bufs = pool.num_free().unwrap();
    let mut bm = BufMut::allocate(&mut pool).unwrap();

    assert_eq!(total_bufs - 1, pool.num_free().unwrap());
    assert_eq!(bm.len(), 4096);

    bm.write_at(&mut pool, 0, b"hello world");
    assert_eq!(&bm.bytes(&pool)[..11], b"hello world");

    let b = bm.freeze();
    assert_eq!(&b.bytes(&pool)[..11], b"hello world");
    assert_eq!(total_bufs - 1, pool.num_free().unwrap());

    let b2 = b.clone(&mut pool);
    assert_eq!(&b.bytes(&pool)[..11], b"hello world");
    assert_eq!(total_bufs - 1, pool.num_free().unwrap());

    b.release(&mut pool);
    assert_eq!(total_bufs - 1, pool.num_free().unwrap());

    b2.release(&mut pool);
    assert_eq!(total_bufs, pool.num_free().unwrap());
}

#[test]
fn split_test() {
    let mut pool = default_pool();
    let total_bufs = pool.num_free().unwrap();
    let mut bm = BufMut::allocate(&mut pool).unwrap();

    bm.write_at(&mut pool, 0, b"yellowjacket");
    let (a, b) = bm.split_at(&mut pool, 6);

    assert_eq!(total_bufs - 1, pool.num_free().unwrap());
    assert_eq!(&a.bytes(&pool)[..], b"yellow");
    assert_eq!(&b.bytes(&pool)[..6], b"jacket");

    a.release(&mut pool);
    b.release(&mut pool);
}

#[test]
fn fresh_pool_has_every_slab_free() {
    let mut pool = BufPool::new_empty(64, 8);
    assert_eq!(pool.num_free().unwrap(), 8);
}

#[test]
fn clone_split_freeze_then_release_all_frees_everything() {
    let mut pool = BufPool::new_empty(64, 4);
    let a = pool.allocate().unwrap();
    let b = BufMut::allocate(&mut pool).unwrap();
    let (a1, a2) = a.split_at(&mut pool, 10);
    let f = a1.freeze();
    let f2 = f.clone(&mut pool);
    let s = b.freeze_slice(&mut pool, 3..9);
    assert_eq!(s.len(), 6);
    assert_eq!(pool.num_free().unwrap(), 2);
    f.release(&mut pool);
    f2.release(&mut pool);
    assert_eq!(pool.num_free().unwrap(), 2);
    a2.release(&mut pool);
    assert_eq!(pool.num_free().unwrap(), 3);
    s.release(&mut pool);
    assert_eq!(pool.num_free().unwrap(), 3);
    b.release(&mut pool);
    assert_eq!(pool.num_free().unwrap(), 4);
}

#[test]
fn split_lengths_and_contents() {
    let mut pool = BufPool::new_empty(16, 2);
    let mut m = pool.allocate().unwrap();
    m.write_at(&mut pool, 0, b"0123456789abcdef");
    let whole = m.bytes(&pool);
    let (l, r) = m.split_at(&mut pool, 5);
    assert_eq!(l.len(), 5);
    assert_eq!(r.len(), 11);
    let mut joined = l.bytes(&pool);
    joined.extend_from_slice(&r.bytes(&pool));
    assert_eq!(joined, whole);
    let (e, full) = r.freeze().split_at(&mut pool, 0);
    assert!(e.is_empty());
    assert_eq!(full.len(), 11);
    l.release(&mut pool);
    e.release(&mut pool);
    assert_eq!(pool.num_free().unwrap(), 1);
    full.release(&mut pool);
    assert_eq!(pool.num_free().unwrap(), 2);
}

#[test]
fn exhausting_the_pool_fails_with_out_of_memory() {
    let mut pool = BufPool::new_empty(32, 4);
    let mut held = Vec::new();
    for i in 0..4u8 {
        let mut m = pool.allocate().unwrap();
        m.write_at(&mut pool, 0, &[i; 32]);
        held.push(m);
    }
    assert!(matches!(pool.allocate(), Err(Error::OutOfMemory)));
    for (i, m) in held.iter().enumerate() {
        assert_eq!(m.bytes(&pool), vec![i as u8; 32]);
    }
    let first = held.remove(0);
    first.release(&mut pool);
    let again = pool.allocate().unwrap();
    assert_eq!(again.len(), 32);
}

#[test]
fn skip_and_slice_narrow_the_window() {
    let mut pool = BufPool::new_empty(16, 1);
    let mut m = pool.allocate().unwrap();
    m.write_at(&mut pool, 0, b"abcdefghijklmnop");
    m.skip(4);
    assert_eq!(m.len(), 12);
    assert_eq!(m.bytes(&pool), b"efghijklmnop".to_vec());
    m.write_at(&mut pool, 2, b"XY");
    let b = m.freeze().slice(1..5);
    assert_eq!(b.bytes(&pool), b"fXYi".to_vec());
    b.release(&mut pool);
    assert_eq!(pool.num_free().unwrap(), 1);
}
