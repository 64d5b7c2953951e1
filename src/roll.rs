//! A roll buffer: bytes accumulated in a pool slab for a parser to consume
//! from the front. When what is appended does not fit in the rest of the
//! slab, the unconsumed bytes move to a fresh slab.
use crate::bufpool::{alloc_spec, lemma_write_then_read, Buf, BufMut, BufPool, Error, PoolView, Window, MAX_REFS};
use vstd::prelude::*;

verus! {

/// A mutable view whose first `filled` bytes hold data; the rest is room.
pub struct RollMut {
    buf: BufMut,
    filled: usize,
}

/// The window a roll buffer writes in, and how much of it holds data.
pub struct RollView {
    pub window: Window,
    pub filled: nat,
}

impl View for RollMut {
    type V = RollView;

    closed spec fn view(&self) -> RollView {
        RollView { window: self.buf@, filled: self.filled as nat }
    }
}

impl RollView {
    /// The roll buffer is usable with `pool`.
    pub open spec fn valid(self, pool: PoolView) -> bool {
        &&& pool.wf()
        &&& pool.holds(self.window)
        &&& self.filled <= self.window.len
        &&& self.window.off + self.filled >= pool.frozen[self.window.slab as int]
    }

    /// The bytes the roll buffer holds.
    pub open spec fn contents(self, pool: PoolView) -> Seq<u8> {
        pool.window_bytes(self.window).subrange(0, self.filled as int)
    }
}

impl RollMut {
    /// An empty roll buffer on a fresh slab.
    pub fn allocate(pool: &mut BufPool) -> (r: Result<RollMut, Error>)
        requires
            old(pool)@.wf(),
        ensures
            match r {
                Ok(roll) => {
                    &&& roll@.valid(final(pool)@)
                    &&& roll@.filled == 0
                    &&& roll@.window.len == old(pool)@.buf_size
                    &&& ({
                        let base = old(pool)@.started(final(pool)@.bytes);
                        &&& base.free.len() > 0
                        &&& roll@.window == Window { slab: base.free[0] as nat, off: 0, len: base.buf_size }
                        &&& final(pool)@ == base.after_alloc()
                    })
                },
                Err(e) => alloc_spec(old(pool)@, final(pool)@, Err(e)),
            },
    {
        match pool.allocate() {
            Ok(buf) => {
                let r = RollMut { buf, filled: 0 };
                Ok(r)
            },
            Err(e) => Err(e),
        }
    }

    /// How many bytes it holds.
    pub fn len(&self) -> (r: usize)
        ensures
            r == self@.filled,
    {
        self.filled
    }

    /// How many bytes can be appended without moving.
    pub fn cap(&self) -> (r: usize)
        requires
            self@.filled <= self@.window.len,
        ensures
            r == self@.window.len - self@.filled,
    {
        self.buf.len() - self.filled
    }

    /// A shared view on the bytes held, with a reference of its own.
    pub fn filled(&self, pool: &mut BufPool) -> (r: Buf)
        requires
            self@.valid(old(pool)@),
            old(pool)@.refs[self@.window.slab as int] < MAX_REFS,
        ensures
            final(pool)@ == old(pool)@.acquired(self@.window.slab).frozen_to(
                self@.window.slab,
                self@.window.off + self@.filled,
            ),
            final(pool)@.wf(),
            self@.valid(final(pool)@),
            final(pool)@.window_bytes(r@) == self@.contents(old(pool)@),
            final(pool)@.holds(r@),
    {
        let r = self.buf.freeze_slice(pool, 0..self.filled);
        proof {
            crate::bufpool::lemma_window_in_bounds(old(pool)@, self@.window);
            assert(pool@.window_bytes(r@) =~= self@.contents(old(pool)@));
        }
        r
    }

    /// Drops the first `n` bytes held.
    pub fn keep(&mut self, pool: &BufPool, n: usize)
        requires
            old(self)@.valid(pool@),
            n <= old(self)@.filled,
        ensures
            final(self)@.valid(pool@),
            final(self)@.contents(pool@) == old(self)@.contents(pool@).subrange(n as int, old(self)@.filled as int),
            final(self)@.window.slab == old(self)@.window.slab,
    {
        self.buf.skip(n);
        self.filled = self.filled - n;
        proof {
            crate::bufpool::lemma_window_in_bounds(pool@, old(self)@.window);
            assert(self@.contents(pool@) =~= old(self)@.contents(pool@).subrange(n as int, old(self)@.filled as int));
        }
    }

    /// Appends `src`. When the rest of the slab is too small, the bytes held
    /// move to a fresh slab first and the old one is released; that move can
    /// fail as an allocation does, and then nothing changes.
    pub fn put(&mut self, pool: &mut BufPool, src: &[u8]) -> (r: Result<(), Error>)
        requires
            old(self)@.valid(old(pool)@),
            old(self)@.filled + src@.len() <= old(pool)@.buf_size,
        ensures
            final(pool)@.wf(),
            r is Ok ==> final(self)@.valid(final(pool)@) && final(self)@.contents(final(pool)@) == old(self)@.contents(old(pool)@) + src@,
            r is Err ==> final(self)@ == old(self)@ && final(pool)@ == old(pool)@,
            r is Err <==> old(self)@.filled + src@.len() > old(self)@.window.len && old(pool)@.free.len() == 0,
            r matches Err(e) ==> e is OutOfMemory,
    {
        if src.len() > self.buf.len() - self.filled {
            let ghost pre = pool@;
            let ghost w0 = self@.window;
            proof {
                crate::bufpool::lemma_window_in_bounds(pre, w0);
            }
            let held = crate::hpack::slice_subrange(self.buf.bytes(pool).as_slice(), 0, self.filled);
            let mut fresh = match pool.allocate() {
                Ok(b) => b,
                Err(e) => {
                    return Err(e);
                },
            };
            let ghost allocated = pool@;
            let ghost w1 = fresh@;
            proof {
                assert(pre.started(allocated.bytes) == pre);
                assert(pre.free.contains(w1.slab as u32));
                assert(w1.slab != w0.slab);
                assert(allocated.holds(w0));
                lemma_write_then_read(allocated, w1, 0, held@);
            }
            fresh.write_at(pool, 0, held.as_slice());
            let ghost copied = pool@;
            proof {
                lemma_write_then_read(copied, w1, held@.len() as int, src@);
            }
            fresh.write_at(pool, self.filled, src);
            let ghost appended = pool@;
            proof {
                crate::bufpool::lemma_window_in_bounds(appended, w1);
                crate::bufpool::lemma_window_in_bounds(copied, w1);
                assert(appended.window_bytes(w1).subrange(0, (held@.len() + src@.len()) as int) =~= held@ + src@) by {
                    assert(appended.window_bytes(w1).subrange(0, held@.len() as int) == copied.window_bytes(w1).subrange(0, held@.len() as int));
                    assert(copied.window_bytes(w1).subrange(0, held@.len() as int) == held@);
                }
                assert(appended.holds(w0));
            }
            std::mem::swap(&mut self.buf, &mut fresh);
            fresh.release(pool);
            self.filled = self.filled + src.len();
            proof {
                let released = pool@;
                assert(released.holds(w1));
                assert(released.bytes == appended.bytes);
                assert(self@.contents(released) =~= old(self)@.contents(pre) + src@);
            }
            return Ok(());
        }
        let at = self.filled;
        let ghost pre = pool@;
        proof {
            lemma_write_then_read(pre, self@.window, at as int, src@);
        }
        self.buf.write_at(pool, at, src);
        self.filled = at + src.len();
        proof {
            let w = self@.window;
            let post = pool@;
            crate::bufpool::lemma_window_in_bounds(post, w);
            crate::bufpool::lemma_window_in_bounds(pre, w);
            assert(post.window_bytes(w).subrange(0, self.filled as int) =~= pre.window_bytes(w).subrange(0, at as int) + src@) by {
                assert(post.window_bytes(w).subrange(0, at as int) == pre.window_bytes(w).subrange(0, at as int));
                assert(post.window_bytes(w).subrange(at as int, at + src@.len()) == src@);
            }
        }
        Ok(())
    }

    /// Gives the slab reference back.
    pub fn release(self, pool: &mut BufPool)
        requires
            self@.valid(old(pool)@),
        ensures
            final(pool)@ == old(pool)@.released(self@.window.slab),
            final(pool)@.wf(),
    {
        self.buf.release(pool)
    }
}

} // verus!
