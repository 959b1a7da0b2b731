//! Arenas. `TypedArena` stores values of one type and hands out handles to
//! them; `Arena` is a bump allocator over byte chunks that grow
//! geometrically.
use vstd::prelude::*;
use vstd::std_specs::cmp::PartialEqSpec;

verus! {

/// The size of the first chunk an arena allocates.
pub const PAGE: usize = 4096;

/// Chunks stop doubling once they reach this size.
pub const HUGE_PAGE: usize = 2097152;

/// A block handed out by an `Arena`: `len` bytes starting `offset` bytes
/// into chunk number `chunk`.
#[derive(Clone, Copy, PartialEq, Eq, Debug, Structural)]
pub struct Allocation {
    pub chunk: usize,
    pub offset: usize,
    pub len: usize,
}

/// The number of bytes to skip from `p` to reach a multiple of `align`.
pub open spec fn align_gap(p: nat, align: nat) -> nat
    recommends
        align > 0,
{
    (((align as int) - (p as int) % (align as int)) % (align as int)) as nat
}

/// The capacity of the chunk an arena adds when it runs out of room for
/// `additional` bytes: the first chunk is a page, later ones double the last
/// until they reach a huge page.
pub open spec fn grown_capacity(caps: Seq<nat>, additional: nat) -> nat {
    let new_cap: nat = if caps.len() == 0 {
        PAGE as nat
    } else if caps.last() < (HUGE_PAGE / 2) as nat {
        caps.last() * 2
    } else {
        HUGE_PAGE as nat
    };
    if additional > new_cap {
        additional
    } else {
        new_cap
    }
}

/// The abstract state of an arena: the capacity of each chunk, and the free
/// room `ptr..end` in the last one.
pub struct ArenaModel {
    pub caps: Seq<nat>,
    pub ptr: nat,
    pub end: nat,
}

/// Where `allocate(size, align)` places its block and the arena state after
/// it: the next aligned position in the last chunk when the block fits
/// there, otherwise the start of a new chunk.
pub open spec fn allocate_spec(m: ArenaModel, size: nat, align: nat) -> (ArenaModel, Allocation) {
    let p = m.ptr + align_gap(m.ptr, align);
    if m.caps.len() > 0 && p < m.end && m.end - p >= size {
        (
            ArenaModel { caps: m.caps, ptr: p + size, end: m.end },
            Allocation { chunk: (m.caps.len() - 1) as usize, offset: p as usize, len: size as usize },
        )
    } else {
        let cap = grown_capacity(m.caps, size);
        (
            ArenaModel { caps: m.caps.push(cap), ptr: size, end: cap },
            Allocation { chunk: m.caps.len() as usize, offset: 0, len: size as usize },
        )
    }
}

/// A block lies inside the chunks of an arena.
pub open spec fn block_in(caps: Seq<nat>, a: Allocation) -> bool {
    a.chunk < caps.len() && a.offset + a.len <= caps[a.chunk as int]
}

/// Two blocks share no byte.
pub open spec fn disjoint(a: Allocation, b: Allocation) -> bool {
    a.chunk != b.chunk || a.offset + a.len <= b.offset || b.offset + b.len <= a.offset
}

/// The bytes of a block.
pub open spec fn read_spec(bytes: Seq<Seq<u8>>, a: Allocation) -> Seq<u8> {
    bytes[a.chunk as int].subrange(a.offset as int, a.offset + a.len)
}

/// The chunks after `data` is copied into a block.
pub open spec fn write_spec(bytes: Seq<Seq<u8>>, a: Allocation, data: Seq<u8>) -> Seq<Seq<u8>> {
    let c = bytes[a.chunk as int];
    bytes.update(a.chunk as int, c.subrange(0, a.offset as int) + data + c.subrange(a.offset + a.len, c.len() as int))
}

/// A bump allocator over byte chunks. Blocks are never freed one by one;
/// when the last chunk has no room, a bigger one is added.
pub struct Arena {
    chunks: Vec<Vec<u8>>,
    ptr: usize,
    end: usize,
}

impl Arena {
    /// The chunk capacities and the free room of the last chunk.
    pub closed spec fn model(&self) -> ArenaModel {
        ArenaModel {
            caps: Seq::new(self.chunks@.len(), |i: int| self.chunks@[i]@.len()),
            ptr: self.ptr as nat,
            end: self.end as nat,
        }
    }

    /// The bytes of each chunk.
    pub closed spec fn bytes(&self) -> Seq<Seq<u8>> {
        Seq::new(self.chunks@.len(), |i: int| self.chunks@[i]@)
    }

    /// The chunk capacities are the lengths of the chunks' bytes.
    pub proof fn lemma_caps_are_lengths(&self)
        ensures
            self.model().caps.len() == self.bytes().len(),
            forall|i: int| 0 <= i < self.bytes().len() ==> self.model().caps[i] == #[trigger] self.bytes()[i].len(),
    {
    }

    /// The free room lies within the last chunk (or is empty before the
    /// first chunk exists).
    pub closed spec fn wf(&self) -> bool {
        &&& self.ptr <= self.end
        &&& self.chunks@.len() == 0 ==> self.end == 0
        &&& self.chunks@.len() > 0 ==> self.end == self.chunks@.last()@.len()
    }

    pub fn new() -> (r: Self)
        ensures
            r.wf(),
            r.model().caps.len() == 0,
            r.model().ptr == 0,
            r.model().end == 0,
    {
        Arena { chunks: Vec::new(), ptr: 0, end: 0 }
    }

    /// Adds a chunk with room for at least `additional` bytes.
    fn grow(&mut self, additional: usize)
        requires
            old(self).wf(),
        ensures
            final(self).wf(),
            final(self).model().caps == old(self).model().caps.push(
                grown_capacity(old(self).model().caps, additional as nat),
            ),
            final(self).model().ptr == 0,
            final(self).model().end == grown_capacity(old(self).model().caps, additional as nat),
            final(self).bytes().take(old(self).bytes().len() as int) == old(self).bytes(),
    {
        let n = self.chunks.len();
        let new_cap: usize = if n == 0 {
            PAGE
        } else {
            let last = self.chunks[n - 1].len();
            if last < HUGE_PAGE / 2 {
                last * 2
            } else {
                HUGE_PAGE
            }
        };
        let capacity = if additional > new_cap { additional } else { new_cap };
        let mut chunk: Vec<u8> = Vec::new();
        while chunk.len() < capacity
            invariant
                chunk@.len() <= capacity,
            decreases capacity - chunk@.len(),
        {
            chunk.push(0);
        }
        self.chunks.push(chunk);
        self.ptr = 0;
        self.end = capacity;
        proof {
            assert(self.model().caps =~= old(self).model().caps.push(capacity as nat));
            assert(self.bytes().take(old(self).bytes().len() as int) =~= old(self).bytes());
        }
    }

    /// Hands out `size` bytes at a position that is a multiple of `align`
    /// within its chunk. Blocks handed out before are never touched.
    pub fn allocate(&mut self, size: usize, align: usize) -> (r: Allocation)
        requires
            old(self).wf(),
            align > 0,
        ensures
            final(self).wf(),
            (final(self).model(), r) == allocate_spec(old(self).model(), size as nat, align as nat),
            block_in(final(self).model().caps, r),
            r.offset % align == 0,
            r.len == size,
            final(self).bytes().take(old(self).bytes().len() as int) == old(self).bytes(),
    {
        let ptr0 = self.ptr;
        let rem = ptr0 % align;
        let gap = if rem == 0 { 0 } else { align - rem };
        proof {
            if rem == 0 {
                vstd::arithmetic::div_mod::lemma_mod_self_0(align as int);
            } else {
                vstd::arithmetic::div_mod::lemma_small_mod((align - rem) as nat, align as nat);
            }
            assert(gap == align_gap(self.ptr as nat, align as nat));
        }
        if self.chunks.len() > 0 && gap < self.end - ptr0 && self.end - ptr0 - gap >= size {
            let p = ptr0 + gap;
            self.ptr = p + size;
            proof {
                assert(p % align == 0) by (nonlinear_arith)
                    requires
                        p == ptr0 + gap,
                        rem == ptr0 % align,
                        gap == if rem == 0 { 0 } else { align - rem },
                        align > 0;
                assert(self.bytes() =~= old(self).bytes());
                assert(self.model().caps =~= old(self).model().caps);
            }
            Allocation { chunk: self.chunks.len() - 1, offset: p, len: size }
        } else {
            self.grow(size);
            self.ptr = size;
            proof {
                assert(self.model().caps.last() >= size);
                vstd::arithmetic::div_mod::lemma_small_mod(0, align as nat);
            }
            Allocation { chunk: self.chunks.len() - 1, offset: 0, len: size }
        }
    }

    /// Copies `data` into a block.
    pub fn write(&mut self, a: Allocation, data: &[u8])
        requires
            block_in(old(self).model().caps, a),
            data@.len() == a.len,
        ensures
            final(self).model() == old(self).model(),
            final(self).wf() == old(self).wf(),
            final(self).bytes() == write_spec(old(self).bytes(), a, data@),
    {
        let mut chunk: Vec<u8> = Vec::new();
        std::mem::swap(&mut chunk, &mut self.chunks[a.chunk]);
        let ghost before = chunk@;
        let clen = chunk.len();
        let mut i: usize = 0;
        while i < a.len
            invariant
                before.len() == chunk@.len(),
                clen == chunk@.len(),
                a.offset + a.len <= before.len(),
                data@.len() == a.len,
                i <= a.len,
                forall|k: int| 0 <= k < a.offset ==> chunk@[k] == before[k],
                forall|k: int| a.offset + a.len <= k < before.len() ==> chunk@[k] == before[k],
                forall|k: int| 0 <= k < i ==> chunk@[a.offset + k] == data@[k],
                forall|k: int| a.offset + i <= k < a.offset + a.len ==> chunk@[k] == before[k],
            decreases a.len - i,
        {
            chunk.set(a.offset + i, data[i]);
            i += 1;
        }
        std::mem::swap(&mut chunk, &mut self.chunks[a.chunk]);
        proof {
            let expect = before.subrange(0, a.offset as int) + data@
                + before.subrange(a.offset + a.len, before.len() as int);
            assert(self.chunks@[a.chunk as int]@ =~= expect);
            assert(self.bytes() =~= old(self).bytes().update(a.chunk as int, expect));
            assert(self.model().caps =~= old(self).model().caps);
        }
    }

    /// The bytes of a block.
    pub fn read(&self, a: Allocation) -> (r: Vec<u8>)
        requires
            block_in(self.model().caps, a),
        ensures
            r@ == read_spec(self.bytes(), a),
    {
        let chunk = &self.chunks[a.chunk];
        let clen = chunk.len();
        let mut out: Vec<u8> = Vec::new();
        let mut i: usize = 0;
        while i < a.len
            invariant
                a.offset + a.len <= chunk@.len(),
                clen == chunk@.len(),
                i <= a.len,
                out@ == chunk@.subrange(a.offset as int, a.offset + i),
            decreases a.len - i,
        {
            out.push(chunk[a.offset + i]);
            i += 1;
            proof {
                assert(out@ =~= chunk@.subrange(a.offset as int, a.offset + i));
            }
        }
        out
    }
}


/// The block `allocate` hands out lies in the arena after the call, never
/// before the free room it started from, and the free room then begins right
/// after it: so it shares no byte with any block handed out earlier.
pub proof fn law_allocate_fresh(m: ArenaModel, size: nat, align: nat)
    requires
        align > 0,
        m.ptr <= m.end,
        m.caps.len() > 0 ==> m.end == m.caps.last(),
        m.end <= usize::MAX,
        size <= usize::MAX,
        m.caps.len() < usize::MAX,
    ensures
        ({
            let (m2, r) = allocate_spec(m, size, align);
            &&& block_in(m2.caps, r)
            &&& (r.offset as int) % (align as int) == 0
            &&& (r.chunk == m.caps.len() - 1 && r.offset >= m.ptr) || r.chunk == m.caps.len()
            &&& r.chunk == m2.caps.len() - 1
            &&& m2.ptr == r.offset + r.len
            &&& m2.ptr <= m2.end
            &&& m2.end == m2.caps.last()
            &&& m2.caps.take(m.caps.len() as int) == m.caps
        }),
{
    let (m2, r) = allocate_spec(m, size, align);
    let p = m.ptr + align_gap(m.ptr, align);
    if m.caps.len() > 0 && p < m.end && m.end - p >= size {
        assert((p as int) % (align as int) == 0) by (nonlinear_arith)
            requires
                p == m.ptr + (((align as int) - (m.ptr as int) % (align as int)) % (align as int)),
                align > 0;
    } else {
        assert(m2.caps.take(m.caps.len() as int) =~= m.caps);
    }
}

/// Two blocks handed out one after the other never overlap.
pub proof fn law_consecutive_blocks_disjoint(m: ArenaModel, s1: nat, a1: nat, s2: nat, a2: nat)
    requires
        a1 > 0,
        a2 > 0,
        m.ptr <= m.end,
        m.caps.len() > 0 ==> m.end == m.caps.last(),
        m.end <= usize::MAX,
        s1 <= usize::MAX,
        s2 <= usize::MAX,
        m.caps.len() + 1 < usize::MAX,
    ensures
        disjoint(allocate_spec(m, s1, a1).1, allocate_spec(allocate_spec(m, s1, a1).0, s2, a2).1),
{
    law_allocate_fresh(m, s1, a1);
    law_allocate_fresh(allocate_spec(m, s1, a1).0, s2, a2);
}

/// Reading a block gives back what was last written to it.
pub proof fn law_read_after_write(bytes: Seq<Seq<u8>>, a: Allocation, data: Seq<u8>)
    requires
        a.chunk < bytes.len(),
        a.offset + a.len <= bytes[a.chunk as int].len(),
        data.len() == a.len,
    ensures
        read_spec(write_spec(bytes, a, data), a) == data,
{
    assert(read_spec(write_spec(bytes, a, data), a) =~= data);
}

/// Writing a block leaves every block disjoint from it unchanged.
pub proof fn law_write_keeps_disjoint(bytes: Seq<Seq<u8>>, a: Allocation, data: Seq<u8>, b: Allocation)
    requires
        a.chunk < bytes.len(),
        a.offset + a.len <= bytes[a.chunk as int].len(),
        b.chunk < bytes.len(),
        b.offset + b.len <= bytes[b.chunk as int].len(),
        data.len() == a.len,
        disjoint(a, b),
    ensures
        read_spec(write_spec(bytes, a, data), b) == read_spec(bytes, b),
{
    assert(read_spec(write_spec(bytes, a, data), b) =~= read_spec(bytes, b));
}

/// A handle to a value stored in a `TypedArena`: its position there.
#[derive(Clone, Copy, PartialEq, Eq, Debug, Hash, Structural)]
pub struct Handle {
    pub index: usize,
}

/// Stores values of type `T`; values are never removed or moved.
pub struct TypedArena<T> {
    items: Vec<T>,
}

impl<T> TypedArena<T> {
    /// The stored values, in order of allocation.
    pub closed spec fn items(&self) -> Seq<T> {
        self.items@
    }

    pub fn new() -> (r: Self)
        ensures
            r.items() == Seq::<T>::empty(),
    {
        TypedArena { items: Vec::new() }
    }

    /// Stores `item` and returns its handle.
    pub fn alloc_value(&mut self, item: T) -> (h: Handle)
        ensures
            final(self).items() == old(self).items().push(item),
            h.index == old(self).items().len(),
    {
        let index = self.items.len();
        self.items.push(item);
        Handle { index }
    }

    /// The value a handle refers to.
    pub fn get(&self, h: Handle) -> (r: &T)
        requires
            h.index < self.items().len(),
        ensures
            *r == self.items()[h.index as int],
    {
        &self.items[h.index]
    }

    /// The number of stored values.
    pub fn len(&self) -> (r: usize)
        ensures
            r == self.items().len(),
    {
        self.items.len()
    }
}

/// Stores each distinct value once in an arena: interning a value equal to
/// one interned before gives back the earlier handle. Values the arena held
/// before it was handed over are kept but never matched.
pub struct InternedArena<T> {
    arena: TypedArena<T>,
    base: usize,
}

/// No two values are equal under `T`'s equality.
pub open spec fn all_distinct_values<T: PartialEq>(s: Seq<T>) -> bool {
    forall|i: int, j: int| 0 <= i < s.len() && 0 <= j < s.len() && i != j ==> !s[i].eq_spec(&s[j])
}

/// `T`'s equality is symmetric.
pub open spec fn eq_symmetric<T: PartialEq>() -> bool {
    forall|a: T, b: T| a.eq_spec(&b) ==> b.eq_spec(&a)
}

/// Some interned value, at `base` or after, equals `item`.
pub open spec fn holds_equal<T: PartialEq>(s: Seq<T>, base: int, item: T) -> bool {
    exists|k: int| base <= k < s.len() && s[k].eq_spec(&item)
}

impl<T> InternedArena<T> {
    /// Every value in the arena, by handle.
    pub closed spec fn values(&self) -> Seq<T> {
        self.arena.items()
    }

    /// The handle of the first value this interner stored itself.
    pub closed spec fn base(&self) -> nat {
        self.base as nat
    }

    /// Takes over `arena`; its present values are never matched.
    pub fn new(arena: TypedArena<T>) -> (r: Self)
        ensures
            r.values() == arena.items(),
            r.base() == arena.items().len(),
    {
        let base = arena.len();
        InternedArena { arena, base }
    }

    /// The value behind a handle.
    pub fn get(&self, h: Handle) -> (r: &T)
        requires
            h.index < self.values().len(),
        ensures
            *r == self.values()[h.index as int],
    {
        self.arena.get(h)
    }

    /// The number of values in the arena.
    pub fn len(&self) -> (r: usize)
        ensures
            r == self.values().len(),
    {
        self.arena.len()
    }
}

impl<T: PartialEq> InternedArena<T> {
    /// No interned value is stored twice.
    pub open spec fn wf(&self) -> bool {
        &&& self.base() <= self.values().len()
        &&& all_distinct_values(self.values().subrange(self.base() as int, self.values().len() as int))
    }

    /// Interns `item`: if an interned value equals it, the first such handle
    /// comes back and nothing changes; otherwise `item` is stored at the end.
    /// Which of the two happens is stated where `==` on `T` obeys its
    /// specification.
    pub fn intern(&mut self, item: T) -> (h: Handle)
        ensures
            final(self).base() == old(self).base(),
            final(self).values() == old(self).values() || final(self).values() == old(self).values().push(item),
            h.index < final(self).values().len(),
            T::obeys_eq_spec() && holds_equal(old(self).values(), old(self).base() as int, item) ==> {
                &&& final(self).values() == old(self).values()
                &&& old(self).base() <= h.index < old(self).values().len()
                &&& old(self).values()[h.index as int].eq_spec(&item)
                &&& forall|j: int| old(self).base() <= j < h.index ==> !old(self).values()[j].eq_spec(&item)
            },
            T::obeys_eq_spec() && !holds_equal(old(self).values(), old(self).base() as int, item) ==> {
                &&& final(self).values() == old(self).values().push(item)
                &&& h.index == old(self).values().len()
            },
            T::obeys_eq_spec() && old(self).wf() && eq_symmetric::<T>() ==> final(self).wf(),
    {
        let n = self.arena.len();
        let mut i: usize = self.base;
        while i < n
            invariant
                n == self.values().len(),
                i >= self.base,
                self.values() == old(self).values(),
                self.base == old(self).base,
                T::obeys_eq_spec() ==> forall|k: int| self.base <= k < i ==> !self.values()[k].eq_spec(&item),
            decreases n - i,
        {
            let found = self.arena.get(Handle { index: i }) == &item;
            if found {
                return Handle { index: i };
            }
            i += 1;
        }
        proof {
            if T::obeys_eq_spec() && holds_equal(old(self).values(), old(self).base() as int, item) {
                let k = choose|k: int| self.base <= k < n && self.values()[k].eq_spec(&item);
                assert(!self.values()[k].eq_spec(&item));
            }
        }
        let h = self.arena.alloc_value(item);
        proof {
            let b = self.base as int;
            let olds = old(self).values().subrange(b, n as int);
            let news = self.values().subrange(b, n + 1);
            if T::obeys_eq_spec() && old(self).wf() && eq_symmetric::<T>() {
                assert forall|x: int, y: int|
                    0 <= x < news.len() && 0 <= y < news.len() && x != y
                    implies !news[x].eq_spec(&news[y]) by {
                    if x + b < n && y + b < n {
                        assert(news[x] == olds[x]);
                        assert(news[y] == olds[y]);
                    } else if y + b == n {
                        assert(news[y] == item);
                        assert(news[x] == self.values()[x + b]);
                    } else {
                        assert(news[x] == item);
                        assert(news[y] == self.values()[y + b]);
                        assert(!self.values()[y + b].eq_spec(&item));
                    }
                }
            }
        }
        h
    }
}

} // verus!
