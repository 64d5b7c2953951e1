//! A pool of fixed-size slabs carved out of one anonymous mapping, handed out
//! as reference-counted mutable (`BufMut`) and shared (`Buf`) views.
//!
//! The pool is an explicit context object: every operation that changes a
//! reference count takes it by `&mut`. A view never outlives its slab as long
//! as each view is given back through `release`.
use crate::slab_memory::{map_anon, mapped_bytes, read_mapped, write_mapped};
use std::collections::VecDeque;
use std::marker::PhantomData;
use std::rc::Rc;
use std::ops::Range;
use vstd::prelude::*;
use vstd::multiset::Multiset;
use vstd::set_lib::{lemma_int_range, set_int_range};

verus! {

/// Size of one slab, in bytes.
pub const BUF_SIZE: u16 = 4096;

/// Number of slabs in a default pool.
pub const NUM_BUF: u32 = 64 * 1024;

/// Largest reference count a slab can carry.
pub const MAX_REFS: i16 = 32767;

/// Why a slab could not be handed out.
#[derive(Debug)]
pub enum Error {
    /// The backing mapping could not be made.
    Mmap(std::io::Error),
    /// Every slab is in use.
    OutOfMemory,
}

/// A window `[off, off + len)` on slab number `slab`.
pub struct Window {
    pub slab: nat,
    pub off: nat,
    pub len: nat,
}

/// What a pool holds, as the contracts see it.
pub struct PoolView {
    pub buf_size: nat,
    pub num_buf: nat,
    /// Whether the mapping has been made.
    pub ready: bool,
    /// The whole mapping, slab after slab.
    pub bytes: Seq<u8>,
    /// Slabs that are free, in the order they will be handed out.
    pub free: Seq<u32>,
    /// Reference count of each slab.
    pub refs: Seq<int>,
    /// For each slab, the offset below which its bytes are read-only: a
    /// shared view made by `freeze_slice` may show them while a mutable view
    /// on the same slab is alive.
    pub frozen: Seq<nat>,
}

impl PoolView {
    pub open spec fn wf(self) -> bool {
        &&& self.buf_size * self.num_buf <= usize::MAX
        &&& self.buf_size <= u16::MAX
        &&& self.num_buf <= u32::MAX
        &&& self.ready ==> {
            &&& self.bytes.len() == self.buf_size * self.num_buf
            &&& self.refs.len() == self.num_buf
            &&& self.free.no_duplicates()
            &&& forall|k: int| 0 <= k < self.free.len() ==> (#[trigger] self.free[k] as nat) < self.num_buf
            &&& forall|i: int| 0 <= i < self.num_buf ==> 0 <= #[trigger] self.refs[i] <= MAX_REFS
            &&& forall|i: int|
                0 <= i < self.num_buf ==> (#[trigger] self.refs[i] == 0 <==> self.free.contains(i as u32))
            &&& self.frozen.len() == self.num_buf
            &&& forall|i: int| 0 <= i < self.num_buf ==> #[trigger] self.frozen[i] <= self.buf_size
        }
        &&& !self.ready ==> {
            &&& self.bytes.len() == 0
            &&& self.free.len() == 0
            &&& self.refs.len() == 0
            &&& self.frozen.len() == 0
        }
    }

    /// The pool once its mapping is made and holds `bytes`: every slab free,
    /// in index order, and no references. A pool that is ready stays as it is.
    pub open spec fn started(self, bytes: Seq<u8>) -> PoolView {
        if self.ready {
            self
        } else {
            PoolView {
                ready: true,
                bytes,
                free: Seq::new(self.num_buf, |i: int| i as u32),
                refs: Seq::new(self.num_buf, |i: int| 0int),
                frozen: Seq::new(self.num_buf, |i: int| 0nat),
                ..self
            }
        }
    }

    /// `w` is a live window of this pool.
    pub open spec fn holds(self, w: Window) -> bool {
        &&& self.ready
        &&& w.slab < self.num_buf
        &&& self.refs[w.slab as int] >= 1
        &&& w.off + w.len <= self.buf_size
    }

    /// Position in the mapping where window `w` starts.
    pub open spec fn start_of(self, w: Window) -> int {
        (w.slab * self.buf_size + w.off) as int
    }

    /// The bytes that window `w` shows.
    pub open spec fn window_bytes(self, w: Window) -> Seq<u8> {
        self.bytes.subrange(self.start_of(w), self.start_of(w) + w.len)
    }

    /// One more reference to `slab`.
    pub open spec fn acquired(self, slab: nat) -> PoolView {
        PoolView { refs: self.refs.update(slab as int, self.refs[slab as int] + 1), ..self }
    }

    /// One reference fewer to `slab`; the slab goes to the back of the free
    /// list when that was the last one.
    pub open spec fn released(self, slab: nat) -> PoolView {
        PoolView {
            refs: self.refs.update(slab as int, self.refs[slab as int] - 1),
            free: if self.refs[slab as int] == 1 {
                self.free.push(slab as u32)
            } else {
                self.free
            },
            ..self
        }
    }

    /// The front free slab handed out with one reference.
    /// Nothing of the slab handed out is frozen any more.
    pub open spec fn after_alloc(self) -> PoolView {
        PoolView {
            free: self.free.drop_first(),
            frozen: self.frozen.update(self.free[0] as int, 0),
            ..self.acquired(self.free[0] as nat)
        }
    }

    /// The bytes of `slab` below `end` made read-only (as well as those that
    /// were already).
    pub open spec fn frozen_to(self, slab: nat, end: nat) -> PoolView {
        PoolView {
            frozen: self.frozen.update(
                slab as int,
                if self.frozen[slab as int] < end {
                    end
                } else {
                    self.frozen[slab as int]
                },
            ),
            ..self
        }
    }

    /// Every reference is one of the views in `live`, which holds the slab of
    /// each view still alive, once per view.
    pub open spec fn accounts_for(self, live: Multiset<nat>) -> bool {
        &&& forall|i: int| 0 <= i < self.num_buf ==> #[trigger] self.refs[i] == live.count(i as nat)
        &&& forall|s: nat| #[trigger] live.count(s) > 0 ==> s < self.num_buf
    }

    /// The pool after `k` allocations in a row, each of which succeeded.
    pub open spec fn allocs(self, k: nat) -> PoolView
        decreases k,
    {
        if k == 0 {
            self
        } else {
            self.allocs((k - 1) as nat).after_alloc()
        }
    }

    /// The mapping with `data` written at position `start`.
    pub open spec fn written(self, start: int, data: Seq<u8>) -> PoolView {
        PoolView {
            bytes: self.bytes.subrange(0, start) + data + self.bytes.subrange(
                start + data.len(),
                self.bytes.len() as int,
            ),
            ..self
        }
    }
}

/// What an allocation from a pool that was `pre` leaves: `post`, and `r`.
pub open spec fn alloc_spec(pre: PoolView, post: PoolView, r: Result<BufMut, Error>) -> bool {
    let base = pre.started(post.bytes);
    &&& post.wf()
    &&& match r {
        Ok(b) => {
            &&& base.free.len() > 0
            &&& b@ == Window { slab: base.free[0] as nat, off: 0, len: base.buf_size }
            &&& post == base.after_alloc()
            &&& post.holds(b@)
            &&& base.refs[b@.slab as int] == 0
        },
        Err(Error::OutOfMemory) => {
            &&& base.free.len() == 0
            &&& post == base
        },
        Err(Error::Mmap(_)) => {
            &&& !pre.ready
            &&& post == pre
        },
    }
}

/// A fixed number of equal slabs, mapped on first use.
pub struct BufPool {
    buf_size: u16,
    num_buf: u32,
    map: Option<memmap2::MmapMut>,
    free: VecDeque<u32>,
    ref_counts: Vec<i16>,
    frozen: Ghost<Seq<nat>>,
    /// Keeps the pool on the thread that made it.
    _not_send: PhantomData<Rc<()>>,
}

impl View for BufPool {
    type V = PoolView;

    closed spec fn view(&self) -> PoolView {
        PoolView {
            buf_size: self.buf_size as nat,
            num_buf: self.num_buf as nat,
            ready: self.map is Some,
            bytes: match self.map {
                Some(m) => mapped_bytes(m),
                None => Seq::empty(),
            },
            free: self.free@,
            refs: self.ref_counts@.map_values(|r: i16| r as int),
            frozen: self.frozen@,
        }
    }
}

impl BufPool {
    /// A pool of `num_buf` slabs of `buf_size` bytes; nothing is mapped yet.
    pub fn new_empty(buf_size: u16, num_buf: u32) -> (r: BufPool)
        requires
            buf_size * num_buf <= usize::MAX,
        ensures
            r@.wf(),
            !r@.ready,
            r@.buf_size == buf_size,
            r@.num_buf == num_buf,
    {
        BufPool {
            buf_size,
            num_buf,
            map: None,
            free: VecDeque::new(),
            ref_counts: Vec::new(),
            frozen: Ghost(Seq::empty()),
            _not_send: PhantomData,
        }
    }

    /// Makes the mapping on first use: every slab free, in index order.
    fn ensure_mapped(&mut self) -> (r: Result<(), Error>)
        requires
            old(self)@.wf(),
        ensures
            final(self)@.wf(),
            match r {
                Ok(()) => final(self)@.ready && final(self)@ == old(self)@.started(
                    final(self)@.bytes,
                ),
                Err(e) => e is Mmap && !old(self)@.ready && final(self)@ == old(self)@,
            },
    {
        if self.map.is_some() {
            return Ok(());
        }
        proof {
            let (n, b) = (self.num_buf as int, self.buf_size as int);
            assert(n * b == b * n) by (nonlinear_arith);
        }
        let len = self.num_buf as usize * self.buf_size as usize;
        let map = match map_anon(len) {
            Ok(m) => m,
            Err(e) => {
                return Err(Error::Mmap(e));
            },
        };
        let mut free: VecDeque<u32> = VecDeque::with_capacity(self.num_buf as usize);
        let mut ref_counts: Vec<i16> = Vec::with_capacity(self.num_buf as usize);
        let mut i: u32 = 0;
        while i < self.num_buf
            invariant
                i <= self.num_buf,
                free@ == Seq::new(i as nat, |k: int| k as u32),
                ref_counts@ == Seq::new(i as nat, |k: int| 0i16),
            decreases self.num_buf - i,
        {
            free.push_back(i);
            ref_counts.push(0);
            i = i + 1;
            assert(free@ =~= Seq::new(i as nat, |k: int| k as u32));
            assert(ref_counts@ =~= Seq::new(i as nat, |k: int| 0i16));
        }
        self.map = Some(map);
        self.free = free;
        self.ref_counts = ref_counts;
        self.frozen = Ghost(Seq::new(self.num_buf as nat, |k: int| 0nat));
        proof {
            let v = self@;
            let n = self.num_buf as nat;
            assert(v.refs =~= Seq::new(n, |k: int| 0int));
            assert(v.free =~= Seq::new(n, |k: int| k as u32));
            assert(v.frozen =~= Seq::new(n, |k: int| 0nat));
            assert forall|k: int, l: int| 0 <= k < l < v.free.len() implies v.free[k] != v.free[l] by {}
            assert forall|k: int| 0 <= k < n implies #[trigger] v.refs[k] == 0 <==> v.free.contains(
                k as u32,
            ) by {
                assert(v.free[k] == k as u32);
            }
        }
        Ok(())
    }

    /// Hands out the front free slab, whole, as a mutable view with one
    /// reference; fails with `OutOfMemory` when no slab is free. Maps the
    /// pool first if that was not done yet.
    pub fn allocate(&mut self) -> (r: Result<BufMut, Error>)
        requires
            old(self)@.wf(),
        ensures
            alloc_spec(old(self)@, final(self)@, r),
    {
        if let Err(e) = self.ensure_mapped() {
            return Err(e);
        }
        let ghost base = self@;
        match self.free.pop_front() {
            Some(index) => {
                proof {
                    assert(base.free[0] == index);
                    assert(base.free.contains(index));
                }
                let c = self.ref_counts[index as usize];
                assert(base.refs[index as int] == c as int);
                self.ref_counts.set(index as usize, c + 1);
                self.frozen = Ghost(self.frozen@.update(index as int, 0nat));
                proof {
                    assert(self@.refs =~= base.after_alloc().refs);
                    lemma_after_alloc_wf(base);
                    assert((index as nat) < base.num_buf);
                }
                Ok(BufMut { index, off: 0, len: self.buf_size, _not_send: PhantomData })
            },
            None => Err(Error::OutOfMemory),
        }
    }

    /// How many slabs are free. Maps the pool first if that was not done yet.
    pub fn num_free(&mut self) -> (r: Result<usize, Error>)
        requires
            old(self)@.wf(),
        ensures
            final(self)@.wf(),
            match r {
                Ok(n) => {
                    &&& final(self)@ == old(self)@.started(final(self)@.bytes)
                    &&& final(self)@.ready
                    &&& n == final(self)@.free.len()
                },
                Err(e) => e is Mmap && !old(self)@.ready && final(self)@ == old(self)@,
            },
    {
        if let Err(e) = self.ensure_mapped() {
            return Err(e);
        }
        Ok(self.free.len())
    }

    /// One more reference to slab `index`.
    fn inc(&mut self, index: u32)
        requires
            old(self)@.wf(),
            old(self)@.ready,
            index < old(self)@.num_buf,
            1 <= old(self)@.refs[index as int] < MAX_REFS,
        ensures
            final(self)@ == old(self)@.acquired(index as nat),
            final(self)@.wf(),
    {
        let ghost pre = self@;
        let c = self.ref_counts[index as usize];
        assert(pre.refs[index as int] == c as int);
        self.ref_counts.set(index as usize, c + 1);
        proof {
            assert(self@.refs =~= pre.acquired(index as nat).refs);
            lemma_acquired_wf(pre, index as nat);
        }
    }

    /// One reference fewer to slab `index`; the slab goes back to the free
    /// list when that was the last one.
    fn dec(&mut self, index: u32)
        requires
            old(self)@.wf(),
            old(self)@.ready,
            index < old(self)@.num_buf,
            old(self)@.refs[index as int] >= 1,
        ensures
            final(self)@ == old(self)@.released(index as nat),
            final(self)@.wf(),
    {
        let ghost pre = self@;
        let c = self.ref_counts[index as usize];
        assert(pre.refs[index as int] == c as int);
        self.ref_counts.set(index as usize, c - 1);
        if c == 1 {
            self.free.push_back(index);
        }
        proof {
            assert(self@.refs =~= pre.released(index as nat).refs);
            lemma_released_wf(pre, index as nat);
        }
    }

    /// Copies out the bytes that window `w` shows.
    fn read_window(&self, index: u32, off: u16, len: u16) -> (r: Vec<u8>)
        requires
            self@.wf(),
            self@.holds(Window { slab: index as nat, off: off as nat, len: len as nat }),
        ensures
            r@ == self@.window_bytes(Window { slab: index as nat, off: off as nat, len: len as nat }),
    {
        let ghost w = Window { slab: index as nat, off: off as nat, len: len as nat };
        proof {
            lemma_window_in_bounds(self@, w);
        }
        let start = index as usize * self.buf_size as usize + off as usize;
        match &self.map {
            Some(m) => read_mapped(m, start, len as usize),
            None => Vec::new(),
        }
    }

    /// Writes `src` into window `w`, starting `at` bytes into it.
    fn write_window(&mut self, index: u32, off: u16, len: u16, at: usize, src: &[u8])
        requires
            old(self)@.wf(),
            old(self)@.holds(Window { slab: index as nat, off: off as nat, len: len as nat }),
            at + src@.len() <= len,
            off + at >= old(self)@.frozen[index as int],
        ensures
            final(self)@ == old(self)@.written(
                old(self)@.start_of(Window { slab: index as nat, off: off as nat, len: len as nat })
                    + at,
                src@,
            ),
            final(self)@.wf(),
    {
        let ghost w = Window { slab: index as nat, off: off as nat, len: len as nat };
        proof {
            lemma_window_in_bounds(self@, w);
        }
        let start = index as usize * self.buf_size as usize + off as usize + at;
        match &mut self.map {
            Some(m) => write_mapped(m, start, src),
            None => {},
        }
    }
}

/// A live window lies inside the mapping.
pub proof fn lemma_window_in_bounds(pv: PoolView, w: Window)
    requires
        pv.wf(),
        pv.holds(w),
    ensures
        0 <= w.slab * pv.buf_size,
        pv.start_of(w) + w.len <= pv.bytes.len(),
        pv.bytes.len() <= usize::MAX,
{
    assert(w.slab * pv.buf_size + pv.buf_size <= pv.num_buf * pv.buf_size) by (nonlinear_arith)
        requires
            w.slab < pv.num_buf,
    ;
    assert(pv.num_buf * pv.buf_size == pv.buf_size * pv.num_buf) by (nonlinear_arith);
}

/// Taking one more reference to a held slab keeps the pool well formed.
pub proof fn lemma_acquired_wf(pv: PoolView, slab: nat)
    requires
        pv.wf(),
        pv.ready,
        slab < pv.num_buf,
        1 <= pv.refs[slab as int] < MAX_REFS,
    ensures
        pv.acquired(slab).wf(),
{
    let post = pv.acquired(slab);
    assert forall|i: int| 0 <= i < post.num_buf implies (#[trigger] post.refs[i] == 0 <==> post.free.contains(i as u32)) by {
        if i != slab {
            assert(post.refs[i] == pv.refs[i]);
        }
    }
}

/// Giving back one reference keeps the pool well formed.
pub proof fn lemma_released_wf(pv: PoolView, slab: nat)
    requires
        pv.wf(),
        pv.ready,
        slab < pv.num_buf,
        pv.refs[slab as int] >= 1,
    ensures
        pv.released(slab).wf(),
{
    let post = pv.released(slab);
    assert(!pv.free.contains(slab as u32));
    assert forall|i: int| 0 <= i < post.num_buf implies (#[trigger] post.refs[i] == 0 <==> post.free.contains(i as u32)) by {
        if i != slab {
            assert(post.refs[i] == pv.refs[i]);
            if pv.refs[slab as int] == 1 {
                if post.free.contains(i as u32) {
                    let k = choose|k: int| 0 <= k < post.free.len() && post.free[k] == i as u32;
                    assert(k < pv.free.len());
                    assert(pv.free[k] == i as u32);
                }
                if pv.free.contains(i as u32) {
                    let k = choose|k: int| 0 <= k < pv.free.len() && pv.free[k] == i as u32;
                    assert(post.free[k] == i as u32);
                }
            }
        } else if pv.refs[slab as int] == 1 {
            assert(post.free[post.free.len() - 1] == slab as u32);
        }
    }
    if pv.refs[slab as int] == 1 {
        assert forall|k: int, l: int| 0 <= k < l < post.free.len() implies post.free[k] != post.free[l] by {
            if l == post.free.len() - 1 {
                assert(pv.free[k] != slab as u32);
            }
        }
        assert forall|k: int| 0 <= k < post.free.len() implies (#[trigger] post.free[k] as nat) < post.num_buf by {
            if k < pv.free.len() {
                assert(post.free[k] == pv.free[k]);
            }
        }
    }
}

/// Handing out the front free slab keeps the pool well formed.
pub proof fn lemma_after_alloc_wf(pv: PoolView)
    requires
        pv.wf(),
        pv.ready,
        pv.free.len() > 0,
    ensures
        pv.after_alloc().wf(),
        pv.after_alloc().refs[pv.free[0] as int] == 1,
{
    let s = pv.free[0];
    let post = pv.after_alloc();
    assert(pv.free.contains(s));
    assert(pv.refs[s as int] == 0);
    assert forall|i: int| 0 <= i < post.num_buf implies (#[trigger] post.refs[i] == 0 <==> post.free.contains(i as u32)) by {
        if i == s as int {
            if post.free.contains(i as u32) {
                let k = choose|k: int| 0 <= k < post.free.len() && post.free[k] == i as u32;
                assert(pv.free[k + 1] == pv.free[0]);
            }
        } else {
            if pv.free.contains(i as u32) {
                let k = choose|k: int| 0 <= k < pv.free.len() && pv.free[k] == i as u32;
                assert(k != 0);
                assert(post.free[k - 1] == i as u32);
            }
            if post.free.contains(i as u32) {
                let k = choose|k: int| 0 <= k < post.free.len() && post.free[k] == i as u32;
                assert(pv.free[k + 1] == i as u32);
            }
        }
    }
    assert forall|k: int, l: int| 0 <= k < l < post.free.len() implies post.free[k] != post.free[l] by {
        assert(post.free[k] == pv.free[k + 1]);
        assert(post.free[l] == pv.free[l + 1]);
    }
    assert forall|k: int| 0 <= k < post.free.len() implies (#[trigger] post.free[k] as nat) < post.num_buf by {
        assert(post.free[k] == pv.free[k + 1]);
    }
}

/// A mutable view: the only handle on its window, which it may write.
pub struct BufMut {
    index: u32,
    off: u16,
    len: u16,
    /// Keeps views on the thread whose pool they belong to.
    _not_send: PhantomData<Rc<()>>,
}

impl View for BufMut {
    type V = Window;

    closed spec fn view(&self) -> Window {
        Window { slab: self.index as nat, off: self.off as nat, len: self.len as nat }
    }
}

impl BufMut {
    #[verifier::type_invariant]
    spec fn fits(&self) -> bool {
        self.off + self.len <= u16::MAX
    }

    /// Takes a slab from `pool`, as `BufPool::allocate` does.
    pub fn allocate(pool: &mut BufPool) -> (r: Result<BufMut, Error>)
        requires
            old(pool)@.wf(),
        ensures
            alloc_spec(old(pool)@, final(pool)@, r),
    {
        pool.allocate()
    }

    pub fn len(&self) -> (r: usize)
        ensures
            r == self@.len,
    {
        self.len as usize
    }

    pub fn is_empty(&self) -> (r: bool)
        ensures
            r == (self@.len == 0),
    {
        self.len == 0
    }

    /// Turns this view read-only. The reference count does not change, but
    /// the shared view can be cloned.
    pub fn freeze(self) -> (r: Buf)
        ensures
            r@ == self@,
    {
        proof {
            use_type_invariant(&self);
        }
        Buf { index: self.index, off: self.off, len: self.len, _not_send: PhantomData }
    }

    /// A shared view on part of this window, with a reference of its own.
    /// From then on the bytes of the slab up to the end of that part are
    /// read-only: no mutable view may write them while the shared one lives.
    pub fn freeze_slice(&self, pool: &mut BufPool, range: Range<usize>) -> (r: Buf)
        requires
            old(pool)@.wf(),
            old(pool)@.holds(self@),
            old(pool)@.refs[self@.slab as int] < MAX_REFS,
            range.start <= range.end <= self@.len,
        ensures
            r@ == (Window {
                slab: self@.slab,
                off: (self@.off + range.start) as nat,
                len: (range.end - range.start) as nat,
            }),
            final(pool)@ == old(pool)@.acquired(self@.slab).frozen_to(self@.slab, (self@.off + range.end) as nat),
            final(pool)@.wf(),
    {
        proof {
            use_type_invariant(self);
        }
        pool.inc(self.index);
        let ghost slab = self@.slab;
        let ghost end: nat = (self@.off + range.end) as nat;
        pool.frozen = Ghost(pool.frozen@.update(
            slab as int,
            if pool.frozen@[slab as int] < end {
                end
            } else {
                pool.frozen@[slab as int]
            },
        ));
        proof {
            assert forall|i: int| 0 <= i < pool@.num_buf implies #[trigger] pool@.frozen[i] <= pool@.buf_size by {
                if i == slab as int {
                    assert(old(pool)@.frozen[i] <= old(pool)@.buf_size);
                }
            }
        }
        Buf {
            index: self.index,
            off: self.off + range.start as u16,
            len: (range.end - range.start) as u16,
            _not_send: PhantomData,
        }
    }

    /// Splits this view in two at `at`; both parts can be written to.
    pub fn split_at(self, pool: &mut BufPool, at: usize) -> (r: (BufMut, BufMut))
        requires
            old(pool)@.wf(),
            old(pool)@.holds(self@),
            old(pool)@.refs[self@.slab as int] < MAX_REFS,
            at <= self@.len,
        ensures
            r.0@ == (Window { slab: self@.slab, off: self@.off, len: at as nat }),
            r.1@ == (Window {
                slab: self@.slab,
                off: (self@.off + at) as nat,
                len: (self@.len - at) as nat,
            }),
            final(pool)@ == old(pool)@.acquired(self@.slab),
            final(pool)@.wf(),
            final(pool)@.holds(r.0@),
            final(pool)@.holds(r.1@),
            final(pool)@.window_bytes(r.0@) == old(pool)@.window_bytes(self@).subrange(0, at as int),
            final(pool)@.window_bytes(r.1@) == old(pool)@.window_bytes(self@).subrange(
                at as int,
                self@.len as int,
            ),
    {
        proof {
            lemma_split_views(old(pool)@, self@, at as nat);
            lemma_window_in_bounds(old(pool)@, self@);
            let post = old(pool)@.acquired(self@.slab);
            let w = self@;
            assert(post.window_bytes(Window { slab: w.slab, off: w.off, len: at as nat })
                =~= old(pool)@.window_bytes(w).subrange(0, at as int));
            assert(post.window_bytes(Window { slab: w.slab, off: (w.off + at) as nat, len: (w.len - at) as nat })
                =~= old(pool)@.window_bytes(w).subrange(at as int, w.len as int));
        }
        proof {
            use_type_invariant(&self);
        }
        pool.inc(self.index);
        let left = BufMut { index: self.index, off: self.off, len: at as u16, _not_send: PhantomData };
        let right = BufMut { index: self.index, off: self.off + at as u16, len: self.len - at as u16, _not_send: PhantomData };
        (left, right)
    }

    /// Drops the first `n` bytes of the window.
    pub fn skip(&mut self, n: usize)
        requires
            n <= old(self)@.len,
        ensures
            final(self)@ == (Window {
                slab: old(self)@.slab,
                off: (old(self)@.off + n) as nat,
                len: (old(self)@.len - n) as nat,
            }),
    {
        proof {
            use_type_invariant(&*self);
        }
        *self = BufMut { index: self.index, off: self.off + n as u16, len: self.len - n as u16, _not_send: PhantomData };
    }

    /// The bytes this view shows.
    pub fn bytes(&self, pool: &BufPool) -> (r: Vec<u8>)
        requires
            pool@.wf(),
            pool@.holds(self@),
        ensures
            r@ == pool@.window_bytes(self@),
    {
        pool.read_window(self.index, self.off, self.len)
    }

    /// Writes `src` into this view, starting `at` bytes into it. Only bytes
    /// past the slab's frozen part can be written.
    pub fn write_at(&mut self, pool: &mut BufPool, at: usize, src: &[u8])
        requires
            old(pool)@.wf(),
            old(pool)@.holds(old(self)@),
            at + src@.len() <= old(self)@.len,
            old(self)@.off + at >= old(pool)@.frozen[old(self)@.slab as int],
        ensures
            final(self)@ == old(self)@,
            final(pool)@ == old(pool)@.written(old(pool)@.start_of(old(self)@) + at, src@),
            final(pool)@.wf(),
    {
        pool.write_window(self.index, self.off, self.len, at, src)
    }

    /// Gives the reference back; the slab is free again when it was the last.
    pub fn release(self, pool: &mut BufPool)
        requires
            old(pool)@.wf(),
            old(pool)@.holds(self@),
        ensures
            final(pool)@ == old(pool)@.released(self@.slab),
            final(pool)@.wf(),
    {
        pool.dec(self.index)
    }
}

/// A read-only view. Can be cloned, never written to.
pub struct Buf {
    index: u32,
    off: u16,
    len: u16,
    /// Keeps views on the thread whose pool they belong to.
    _not_send: PhantomData<Rc<()>>,
}

impl View for Buf {
    type V = Window;

    closed spec fn view(&self) -> Window {
        Window { slab: self.index as nat, off: self.off as nat, len: self.len as nat }
    }
}

impl Buf {
    #[verifier::type_invariant]
    spec fn fits(&self) -> bool {
        self.off + self.len <= u16::MAX
    }

    pub fn len(&self) -> (r: usize)
        ensures
            r == self@.len,
    {
        self.len as usize
    }

    pub fn is_empty(&self) -> (r: bool)
        ensures
            r == (self@.len == 0),
    {
        self.len == 0
    }

    /// Narrows this view to `range`, keeping its reference.
    pub fn slice(self, range: Range<usize>) -> (r: Buf)
        requires
            range.start <= range.end <= self@.len,
        ensures
            r@ == (Window {
                slab: self@.slab,
                off: (self@.off + range.start) as nat,
                len: (range.end - range.start) as nat,
            }),
    {
        proof {
            use_type_invariant(&self);
        }
        Buf {
            index: self.index,
            off: self.off + range.start as u16,
            len: (range.end - range.start) as u16,
            _not_send: PhantomData,
        }
    }

    /// Splits this view in two at `at`.
    pub fn split_at(self, pool: &mut BufPool, at: usize) -> (r: (Buf, Buf))
        requires
            old(pool)@.wf(),
            old(pool)@.holds(self@),
            old(pool)@.refs[self@.slab as int] < MAX_REFS,
            at <= self@.len,
        ensures
            r.0@ == (Window { slab: self@.slab, off: self@.off, len: at as nat }),
            r.1@ == (Window {
                slab: self@.slab,
                off: (self@.off + at) as nat,
                len: (self@.len - at) as nat,
            }),
            final(pool)@ == old(pool)@.acquired(self@.slab),
            final(pool)@.wf(),
            final(pool)@.holds(r.0@),
            final(pool)@.holds(r.1@),
            final(pool)@.window_bytes(r.0@) == old(pool)@.window_bytes(self@).subrange(0, at as int),
            final(pool)@.window_bytes(r.1@) == old(pool)@.window_bytes(self@).subrange(
                at as int,
                self@.len as int,
            ),
    {
        proof {
            lemma_split_views(old(pool)@, self@, at as nat);
            lemma_window_in_bounds(old(pool)@, self@);
            let post = old(pool)@.acquired(self@.slab);
            let w = self@;
            assert(post.window_bytes(Window { slab: w.slab, off: w.off, len: at as nat })
                =~= old(pool)@.window_bytes(w).subrange(0, at as int));
            assert(post.window_bytes(Window { slab: w.slab, off: (w.off + at) as nat, len: (w.len - at) as nat })
                =~= old(pool)@.window_bytes(w).subrange(at as int, w.len as int));
        }
        proof {
            use_type_invariant(&self);
        }
        pool.inc(self.index);
        let left = Buf { index: self.index, off: self.off, len: at as u16, _not_send: PhantomData };
        let right = Buf { index: self.index, off: self.off + at as u16, len: self.len - at as u16, _not_send: PhantomData };
        (left, right)
    }

    /// A second view on the same window, with a reference of its own.
    pub fn clone(&self, pool: &mut BufPool) -> (r: Buf)
        requires
            old(pool)@.wf(),
            old(pool)@.holds(self@),
            old(pool)@.refs[self@.slab as int] < MAX_REFS,
        ensures
            r@ == self@,
            final(pool)@ == old(pool)@.acquired(self@.slab),
            final(pool)@.wf(),
    {
        proof {
            use_type_invariant(self);
        }
        pool.inc(self.index);
        Buf { index: self.index, off: self.off, len: self.len, _not_send: PhantomData }
    }

    /// The bytes this view shows.
    pub fn bytes(&self, pool: &BufPool) -> (r: Vec<u8>)
        requires
            pool@.wf(),
            pool@.holds(self@),
        ensures
            r@ == pool@.window_bytes(self@),
    {
        pool.read_window(self.index, self.off, self.len)
    }

    /// Gives the reference back; the slab is free again when it was the last.
    pub fn release(self, pool: &mut BufPool)
        requires
            old(pool)@.wf(),
            old(pool)@.holds(self@),
        ensures
            final(pool)@ == old(pool)@.released(self@.slab),
            final(pool)@.wf(),
    {
        pool.dec(self.index)
    }
}

} // verus!

verus! {

/// A slab is free exactly when no view on it is alive.
pub proof fn lemma_slab_free_iff_no_views(pv: PoolView, live: Multiset<nat>, slab: nat)
    requires
        pv.wf(),
        pv.ready,
        pv.accounts_for(live),
        slab < pv.num_buf,
    ensures
        pv.free.contains(slab as u32) <==> live.count(slab) == 0,
{
    assert(pv.refs[slab as int] == live.count(slab));
}

/// A successful allocation adds one view on the slab it hands out.
pub proof fn lemma_alloc_accounts(pv: PoolView, live: Multiset<nat>)
    requires
        pv.wf(),
        pv.ready,
        pv.free.len() > 0,
        pv.accounts_for(live),
    ensures
        pv.after_alloc().accounts_for(live.insert(pv.free[0] as nat)),
{
    lemma_acquire_accounts(pv, live, pv.free[0] as nat);
}

/// Cloning, splitting or freezing a slice adds one view on its slab.
pub proof fn lemma_acquire_accounts(pv: PoolView, live: Multiset<nat>, slab: nat)
    requires
        pv.wf(),
        pv.ready,
        slab < pv.num_buf,
        pv.accounts_for(live),
    ensures
        pv.acquired(slab).accounts_for(live.insert(slab)),
{
    let post = pv.acquired(slab);
    let l2 = live.insert(slab);
    assert forall|i: int| 0 <= i < post.num_buf implies #[trigger] post.refs[i] == l2.count(i as nat) by {
        assert(pv.refs[i] == live.count(i as nat));
    }
    assert forall|s: nat| #[trigger] l2.count(s) > 0 implies s < post.num_buf by {
        if s != slab {
            assert(live.count(s) > 0);
        }
    }
}

/// Releasing a view removes it from the live ones.
pub proof fn lemma_release_accounts(pv: PoolView, live: Multiset<nat>, slab: nat)
    requires
        pv.wf(),
        pv.ready,
        pv.accounts_for(live),
        live.count(slab) > 0,
    ensures
        pv.released(slab).accounts_for(live.remove(slab)),
{
    let post = pv.released(slab);
    let l2 = live.remove(slab);
    assert forall|i: int| 0 <= i < post.num_buf implies #[trigger] post.refs[i] == l2.count(i as nat) by {
        assert(pv.refs[i] == live.count(i as nat));
    }
    assert forall|s: nat| #[trigger] l2.count(s) > 0 implies s < post.num_buf by {
        assert(live.count(s) > 0);
    }
}

/// Once every view has been released, every slab is free again.
pub proof fn lemma_all_released_all_free(pv: PoolView, live: Multiset<nat>)
    requires
        pv.wf(),
        pv.ready,
        pv.accounts_for(live),
        live.len() == 0,
    ensures
        pv.free.len() == pv.num_buf,
{
    let n = pv.num_buf as int;
    let s = pv.free.map_values(|x: u32| x as int);
    assert forall|i: int| 0 <= i < n implies #[trigger] pv.refs[i] == 0 && pv.free.contains(i as u32) by {
        assert(live.count(i as nat) == 0);
        assert(pv.refs[i] == 0);
    }
    assert forall|k: int, l: int| 0 <= k < l < s.len() implies s[k] != s[l] by {
        assert(pv.free[k] != pv.free[l]);
    }
    assert(s.no_duplicates());
    assert(s.to_set() =~= set_int_range(0, n)) by {
        assert forall|x: int| s.to_set().contains(x) implies set_int_range(0, n).contains(x) by {
            let k = choose|k: int| 0 <= k < s.len() && s[k] == x;
            assert(pv.free[k] < n);
        }
        assert forall|x: int| set_int_range(0, n).contains(x) implies s.to_set().contains(x) by {
            assert(pv.refs[x] == 0);
            assert(pv.free.contains(x as u32));
            let k = choose|k: int| 0 <= k < pv.free.len() && pv.free[k] == x as u32;
            assert(s[k] == x);
        }
    }
    s.unique_seq_to_set();
    lemma_int_range(0, n);
}

/// `k` allocations in a row take the first `k` free slabs, in order, each
/// with one more reference.
pub proof fn lemma_allocs(pv: PoolView, k: nat)
    requires
        pv.wf(),
        pv.ready,
        k <= pv.free.len(),
    ensures
        pv.allocs(k).wf(),
        pv.allocs(k).ready,
        pv.allocs(k).num_buf == pv.num_buf,
        pv.allocs(k).buf_size == pv.buf_size,
        pv.allocs(k).bytes == pv.bytes,
        pv.allocs(k).free == pv.free.subrange(k as int, pv.free.len() as int),
        forall|j: int| 0 <= j < k ==> #[trigger] pv.allocs(k).refs[pv.free[j] as int] == pv.refs[pv.free[j] as int] + 1,
        forall|i: int| 0 <= i < pv.num_buf && !pv.free.subrange(0, k as int).contains(i as u32) ==> #[trigger] pv.allocs(k).refs[i] == pv.refs[i],
    decreases k,
{
    if k > 0 {
        let k1 = (k - 1) as nat;
        lemma_allocs(pv, k1);
        let prev = pv.allocs(k1);
        let post = pv.allocs(k);
        assert(post == prev.after_alloc());
        assert(prev.free[0] == pv.free[k1 as int]);
        lemma_after_alloc_wf(prev);
        assert(post.free =~= pv.free.subrange(k as int, pv.free.len() as int));
        let s = pv.free[k1 as int];
        assert(post.ready && post.refs.len() == pv.num_buf && prev.refs.len() == pv.num_buf);
        assert(post.refs == prev.refs.update(s as int, prev.refs[s as int] + 1));
        assert forall|j: int| 0 <= j < k implies #[trigger] post.refs[pv.free[j] as int]
            == pv.refs[pv.free[j] as int] + 1 by {
            assert((pv.free[j] as nat) < pv.num_buf);
            if j < k1 {
                assert(pv.free[j] != s);
                assert(prev.refs[pv.free[j] as int] == pv.refs[pv.free[j] as int] + 1);
            } else {
                assert(!pv.free.subrange(0, k1 as int).contains(s)) by {
                    if pv.free.subrange(0, k1 as int).contains(s) {
                        let l = choose|l: int| 0 <= l < k1 && pv.free.subrange(0, k1 as int)[l] == s;
                        assert(pv.free[l] == s);
                    }
                }
                assert(prev.refs[s as int] == pv.refs[s as int]);
            }
        }
        assert forall|i: int|
            0 <= i < pv.num_buf && !pv.free.subrange(0, k as int).contains(
                i as u32,
            ) implies #[trigger] post.refs[i] == pv.refs[i] by {
            assert(pv.free.subrange(0, k as int)[k1 as int] == s);
            assert((i as u32) as int == i);
            assert(i != s as int);
            if pv.free.subrange(0, k1 as int).contains(i as u32) {
                let j = choose|j: int| 0 <= j < k1 && pv.free.subrange(0, k1 as int)[j] == i as u32;
                assert(pv.free.subrange(0, k as int)[j] == i as u32);
            }
            assert(prev.refs[i] == pv.refs[i]);
        }
    }
}

/// From a pool with no live view, `num_buf` allocations in a row all
/// succeed, on `num_buf` distinct slabs that each stay held, and leave no slab
/// free: one more fails with `OutOfMemory`.
pub proof fn lemma_exhausting_allocs(pv: PoolView)
    requires
        pv.wf(),
        pv.ready,
        pv.accounts_for(Multiset::empty()),
    ensures
        pv.free.len() == pv.num_buf,
        pv.allocs(pv.num_buf).wf(),
        pv.allocs(pv.num_buf).free.len() == 0,
        forall|j: int| 0 <= j < pv.num_buf ==> pv.allocs(pv.num_buf).holds(
            Window { slab: #[trigger] pv.free[j] as nat, off: 0, len: pv.buf_size },
        ),
        forall|j: int, l: int| 0 <= j < l < pv.num_buf ==> pv.free[j] != pv.free[l],
{
    lemma_all_released_all_free(pv, Multiset::empty());
    lemma_allocs(pv, pv.num_buf);
    let post = pv.allocs(pv.num_buf);
    assert forall|j: int| 0 <= j < pv.num_buf implies post.holds(
        Window { slab: #[trigger] pv.free[j] as nat, off: 0, len: pv.buf_size },
    ) by {
        assert((pv.free[j] as nat) < pv.num_buf);
        assert(post.refs[pv.free[j] as int] == pv.refs[pv.free[j] as int] + 1);
        assert(pv.refs[pv.free[j] as int] >= 0);
    }
}

/// Bytes written into a mutable view read back from it, and so from the
/// shared view that freezing it gives; the pool stays well formed and the view
/// stays live.
pub proof fn lemma_write_then_read(pv: PoolView, w: Window, at: int, data: Seq<u8>)
    requires
        0 <= at,
        pv.wf(),
        pv.holds(w),
        at + data.len() <= w.len,
    ensures
        pv.written(pv.start_of(w) + at, data).wf(),
        pv.written(pv.start_of(w) + at, data).holds(w),
        pv.written(pv.start_of(w) + at, data).window_bytes(w).subrange(at, at + data.len())
            == data,
        pv.written(pv.start_of(w) + at, data).window_bytes(w).subrange(0, at)
            == pv.window_bytes(w).subrange(0, at),
        pv.written(pv.start_of(w) + at, data).window_bytes(w).subrange(
            at + data.len(),
            w.len as int,
        ) == pv.window_bytes(w).subrange(at + data.len(), w.len as int),
{
    lemma_window_in_bounds(pv, w);
    let post = pv.written(pv.start_of(w) + at, data);
    assert(post.bytes.len() == pv.bytes.len());
    assert(post.window_bytes(w).subrange(at, at + data.len()) =~= data);
    assert(post.window_bytes(w).subrange(0, at) =~= pv.window_bytes(w).subrange(0, at));
    assert(post.window_bytes(w).subrange(at + data.len(), w.len as int) =~= pv.window_bytes(
        w,
    ).subrange(at + data.len(), w.len as int));
}

/// A write into a mutable view never changes what a shared view shows that
/// lies in the frozen part of its slab, nor what any view on another slab
/// shows.
pub proof fn lemma_write_keeps_frozen_views(pv: PoolView, w: Window, at: int, data: Seq<u8>, v: Window)
    requires
        pv.wf(),
        pv.holds(w),
        pv.holds(v),
        0 <= at,
        at + data.len() <= w.len,
        w.off + at >= pv.frozen[w.slab as int],
        v.slab != w.slab || v.off + v.len <= pv.frozen[w.slab as int],
    ensures
        pv.written(pv.start_of(w) + at, data).window_bytes(v) == pv.window_bytes(v),
{
    lemma_window_in_bounds(pv, w);
    lemma_window_in_bounds(pv, v);
    let start = pv.start_of(w) + at;
    let post = pv.written(start, data);
    if v.slab != w.slab {
        if v.slab < w.slab {
            assert(v.slab * pv.buf_size + pv.buf_size <= w.slab * pv.buf_size) by (nonlinear_arith)
                requires
                    v.slab < w.slab,
            ;
        } else {
            assert(w.slab * pv.buf_size + pv.buf_size <= v.slab * pv.buf_size) by (nonlinear_arith)
                requires
                    w.slab < v.slab,
            ;
        }
    }
    assert forall|j: int| 0 <= j < v.len implies post.window_bytes(v)[j] == pv.window_bytes(v)[j] by {
        let k = pv.start_of(v) + j;
        assert(k < start || k >= start + data.len());
    }
    assert(post.window_bytes(v) =~= pv.window_bytes(v));
}

/// Splitting a view at `k` gives views of lengths `k` and `len - k` that are
/// both live afterwards and together show what the view showed.
pub proof fn lemma_split_views(pv: PoolView, w: Window, k: nat)
    requires
        pv.wf(),
        pv.holds(w),
        pv.refs[w.slab as int] < MAX_REFS,
        k <= w.len,
    ensures
        ({
            let left = Window { slab: w.slab, off: w.off, len: k };
            let right = Window { slab: w.slab, off: w.off + k, len: (w.len - k) as nat };
            let post = pv.acquired(w.slab);
            &&& post.wf()
            &&& post.holds(left)
            &&& post.holds(right)
            &&& post.window_bytes(left) + post.window_bytes(right) == pv.window_bytes(w)
        }),
{
    lemma_acquired_wf(pv, w.slab);
    lemma_window_in_bounds(pv, w);
    let left = Window { slab: w.slab, off: w.off, len: k };
    let right = Window { slab: w.slab, off: w.off + k, len: (w.len - k) as nat };
    assert(pv.acquired(w.slab).window_bytes(left) + pv.acquired(w.slab).window_bytes(right)
        =~= pv.window_bytes(w));
}

} // verus!
