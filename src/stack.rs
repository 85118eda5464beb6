use crate::buffer::{
    aligned_bytes_alignment, aligned_bytes_contents, bytes_as_slice, bytes_extend, bytes_len,
    bytes_new, bytes_resize, bytes_set, bytes_truncate, is_power_of_two, max_region_len, AlignedBytes,
};
use crate::element::Element;
use core::marker::PhantomData;
use vstd::layout::{align_of, layout_for_type_is_valid, size_of};
use vstd::arithmetic::div_mod::{lemma_fundamental_div_mod, lemma_mod_multiples_basic};
use vstd::prelude::*;

verus! {

/// The smallest multiple of `k` that is at least `len`.
pub open spec fn pad_to(len: nat, k: nat) -> nat
    recommends
        k > 0,
{
    if len % k == 0 {
        len
    } else {
        (len + (k - len % k)) as nat
    }
}

/// The values of type `T` stored one after the other in `bytes`, from byte
/// `base` to the last whole element.
pub open spec fn elements_of<T: Element>(bytes: Seq<u8>, base: nat) -> Seq<T> {
    Seq::new(
        ((bytes.len() - base) / (size_of::<T>() as int)) as nat,
        |i: int| T::decode(bytes.subrange(base + i * size_of::<T>(), base + (i + 1) * size_of::<T>())),
    )
}

/// Appending the encoding of `v` after whole elements appends `v` to the
/// elements.
proof fn lemma_elements_push<T: Element>(bytes: Seq<u8>, base: nat, v: T)
    requires
        size_of::<T>() > 0,
        base <= bytes.len(),
        (bytes.len() - base) % (size_of::<T>() as int) == 0,
    ensures
        elements_of::<T>(bytes + T::encode(v), base) == elements_of::<T>(bytes, base).push(v),
{
    T::lemma_encoding(v);
    let s = size_of::<T>() as int;
    let m = bytes.len() - base;
    let n = m / s;
    let nb = bytes + T::encode(v);
    assert(m == n * s && (m + s) / s == n + 1) by (nonlinear_arith)
        requires
            s > 0,
            m >= 0,
            m % s == 0,
            n == m / s,
    ;
    let old_elems = elements_of::<T>(bytes, base);
    let new_elems = elements_of::<T>(nb, base);
    assert(new_elems.len() == n + 1);
    assert forall|i: int| 0 <= i < n + 1 implies new_elems[i] == old_elems.push(v)[i] by {
        assert(i * s + s == (i + 1) * s) by (nonlinear_arith);
        if i < n {
            assert((i + 1) * s <= n * s) by (nonlinear_arith)
                requires
                    i + 1 <= n,
                    s > 0,
            ;
            assert(0 <= i * s) by (nonlinear_arith)
                requires
                    0 <= i,
                    s > 0,
            ;
            assert(nb.subrange(base + i * s, base + (i + 1) * s) =~= bytes.subrange(
                base + i * s,
                base + (i + 1) * s,
            ));
        } else {
            assert(nb.subrange(base + i * s, base + (i + 1) * s) =~= T::encode(v));
        }
    }
    assert(new_elems =~= old_elems.push(v));
}

/// The element at index `i` lies within the bytes, at `base + i * size`.
proof fn lemma_element_bounds<T: Element>(bytes: Seq<u8>, base: nat, i: int)
    requires
        size_of::<T>() > 0,
        base <= bytes.len(),
        0 <= i < elements_of::<T>(bytes, base).len(),
    ensures
        0 <= i * size_of::<T>(),
        base + (i + 1) * size_of::<T>() <= bytes.len(),
        (i + 1) * size_of::<T>() == i * size_of::<T>() + size_of::<T>(),
{
    let s = size_of::<T>() as int;
    let m = bytes.len() - base;
    assert((i + 1) * s <= m && 0 <= i * s && (i + 1) * s == i * s + s) by (nonlinear_arith)
        requires
            s > 0,
            m >= 0,
            0 <= i < m / s,
    ;
}

/// The bytes that stand for `vals`, one element after another.
pub open spec fn encode_all<T: Element>(vals: Seq<T>) -> Seq<u8>
    decreases vals.len(),
{
    if vals.len() == 0 {
        Seq::empty()
    } else {
        encode_all(vals.drop_last()) + T::encode(vals.last())
    }
}

/// Values appended one by one after the end of the bytes read back as exactly
/// those values, in order.
pub proof fn lemma_appended_elements<T: Element>(bytes: Seq<u8>, vals: Seq<T>)
    ensures
        elements_of::<T>(bytes + encode_all(vals), bytes.len()) == vals,
        (bytes + encode_all(vals)).len() == bytes.len() + vals.len() * size_of::<T>(),
    decreases vals.len(),
{
    T::lemma_size();
    let s = size_of::<T>() as int;
    if vals.len() == 0 {
        assert(bytes + encode_all(vals) =~= bytes);
        assert(elements_of::<T>(bytes, bytes.len()) =~= vals);
    } else {
        let init = vals.drop_last();
        lemma_appended_elements::<T>(bytes, init);
        let prev = bytes + encode_all(init);
        assert((prev.len() - bytes.len()) % s == 0) by (nonlinear_arith)
            requires
                prev.len() - bytes.len() == init.len() * s,
                s > 0,
        ;
        lemma_elements_push::<T>(prev, bytes.len(), vals.last());
        T::lemma_encoding(vals.last());
        assert(bytes + encode_all(vals) =~= prev + T::encode(vals.last()));
        assert(init.push(vals.last()) =~= vals);
        assert(init.len() * s + s == vals.len() * s) by (nonlinear_arith)
            requires
                init.len() + 1 == vals.len(),
        ;
    }
}

/// The elements from `base` on depend only on the bytes from `base` on: bytes
/// below `base` may be anything.
pub proof fn lemma_elements_from_base<T: Element>(a: Seq<u8>, b: Seq<u8>, base: nat)
    requires
        base <= a.len(),
        a.len() == b.len(),
        a.subrange(base as int, a.len() as int) == b.subrange(base as int, b.len() as int),
    ensures
        elements_of::<T>(a, base) == elements_of::<T>(b, base),
{
    T::lemma_size();
    let ea = elements_of::<T>(a, base);
    let eb = elements_of::<T>(b, base);
    assert forall|i: int| 0 <= i < ea.len() implies ea[i] == eb[i] by {
        lemma_element_bounds::<T>(a, base, i);
        let lo = base + i * size_of::<T>();
        let hi = base + (i + 1) * size_of::<T>();
        assert(a.subrange(lo, hi) =~= a.subrange(base as int, a.len() as int).subrange(
            lo - base,
            hi - base,
        ));
        assert(b.subrange(lo, hi) =~= b.subrange(base as int, b.len() as int).subrange(
            lo - base,
            hi - base,
        ));
    }
    assert(ea =~= eb);
}

/// The memory behind a second stack: one growable byte buffer whose start is
/// aligned to `A` bytes.
pub struct StackMemory<const A: usize> {
    buf: AlignedBytes,
}

impl<const A: usize> View for StackMemory<A> {
    type V = Seq<u8>;

    /// The bytes in use, from the start of the buffer to its tail.
    closed spec fn view(&self) -> Seq<u8> {
        aligned_bytes_contents(self.buf)
    }
}

impl<const A: usize> StackMemory<A> {
    /// The alignment of the buffer's start address.
    pub closed spec fn alignment(&self) -> nat {
        aligned_bytes_alignment(self.buf)
    }

    /// The buffer's start is aligned to `A`, which is small enough for any
    /// allocation the region may ask for.
    pub open spec fn wf(&self) -> bool {
        &&& self.alignment() == A as nat
        &&& A as nat <= max_region_len()
    }

    /// Creates an empty second stack.
    pub fn new() -> (r: Self)
        requires
            is_power_of_two(A as nat),
            A as nat <= max_region_len(),
        ensures
            r@ == Seq::<u8>::empty(),
            r.wf(),
    {
        StackMemory { buf: bytes_new(A) }
    }

    /// The number of bytes in use.
    pub fn len(&self) -> (r: usize)
        ensures
            r as nat == self@.len(),
    {
        bytes_len(&self.buf)
    }

    /// A handle for carving sequences out of this memory.
    pub fn stack(&mut self) -> (r: Stack<'_, A>)
        ensures
            *r.memory() == *old(self),
            *final(self) == *final(r.memory()),
    {
        Stack(self)
    }
}

/// A handle that carves typed sequences at the tail of a `StackMemory`.
pub struct Stack<'a, const A: usize>(&'a mut StackMemory<A>);

impl<'a, const A: usize> Stack<'a, A> {
    /// The memory this handle borrows.
    pub closed spec fn memory(self) -> &'a mut StackMemory<A> {
        self.0
    }

    /// Once a handle is done with, the memory it borrows holds what it holds
    /// at that point.
    pub proof fn lemma_resolved(self)
        requires
            has_resolved(self),
        ensures
            *final(self.memory()) == *self.memory(),
    {
    }

    /// Carves an empty sequence of `T` at the tail, aligned for `T`, hands it to
    /// `f`, then discards what `f` appended and the padding, and returns what
    /// `f` returned. When `f` hands the memory back with the bytes below the
    /// sequence's base as they were (all that a sequence lets it do), the
    /// memory ends exactly as it began.
    pub fn with_vec<T: Element, U, F: FnOnce(StackVec<'_, T, A>) -> U>(&mut self, f: F) -> (r: U)
        requires
            A as nat % align_of::<T>() == 0,
            old(self).memory().wf(),
            pad_to(old(self).memory()@.len(), align_of::<T>()) <= max_region_len(),
            forall|v: StackVec<T, A>| #[trigger]
                v.carved_from(old(self).memory()@) ==> f.requires((v,)),
            forall|v: StackVec<T, A>, u: U| #[trigger]
                f.ensures((v,), u) ==> {
                    &&& final(v.region())@.len() >= v.base()
                    &&& final(v.region())@.subrange(0, v.base() as int) == v.region()@.subrange(
                        0,
                        v.base() as int,
                    )
                    &&& final(v.region()).alignment() == v.region().alignment()
                },
        ensures
            *final(final(self).memory()) == *final(old(self).memory()),
            final(self).memory()@ == old(self).memory()@,
            final(self).memory().wf(),
            exists|v: StackVec<T, A>| v.carved_from(old(self).memory()@) && f.ensures((v,), r),
    {
        layout_for_type_is_valid::<T>();
        proof {
            T::lemma_size();
        }
        let align = core::mem::align_of::<T>();
        let old_len = bytes_len(&self.0.buf);
        let offset: usize = if old_len % align == 0 {
            0
        } else {
            align - old_len % align
        };
        let new_len = old_len + offset;
        bytes_resize(&mut self.0.buf, new_len, 0);
        let ghost start = self.0@;
        assert(start.subrange(0, old_len as int) =~= old(self).memory()@);
        let v = StackVec { base: new_len, stack: &mut *self.0, phantom: PhantomData };
        let ghost gv = v;
        proof {
            let k = align as int;
            let n = old_len as int;
            assert((n + (k - n % k)) % k == 0) by (nonlinear_arith)
                requires
                    k > 0,
                    n >= 0,
            ;
            assert(0int % (size_of::<T>() as int) == 0);
        }
        assert(gv.carved_from(old(self).memory()@));
        let res = f(v);
        assert(f.ensures((gv,), res));
        // The elements appended in `f` own nothing beyond their bytes, so
        // cutting the buffer back discards them along with the padding.
        bytes_truncate(&mut self.0.buf, old_len);
        assert(self.0@ =~= old(self).memory()@);
        res
    }
}

/// A growable sequence of `T` stored at the tail of a `StackMemory`, from
/// byte `base` on.
pub struct StackVec<'a, T, const A: usize> {
    base: usize,
    stack: &'a mut StackMemory<A>,
    phantom: PhantomData<T>,
}

impl<'a, T: Element, const A: usize> View for StackVec<'a, T, A> {
    type V = Seq<T>;

    /// The elements, in the order they were appended.
    open spec fn view(&self) -> Seq<T> {
        elements_of::<T>(self.region()@, self.base() as nat)
    }
}

impl<'a, T: Element, const A: usize> StackVec<'a, T, A> {
    /// The byte offset of the first element.
    pub closed spec fn base(self) -> usize {
        self.base
    }

    /// The memory this sequence borrows.
    pub closed spec fn region(self) -> &'a mut StackMemory<A> {
        self.stack
    }

    pub open spec fn wf(self) -> bool {
        &&& size_of::<T>() > 0
        &&& align_of::<T>() > 0
        &&& size_of::<T>() % align_of::<T>() == 0
        &&& A as nat % align_of::<T>() == 0
        &&& self.base() as nat % align_of::<T>() == 0
        &&& self.base() <= self.region()@.len()
        &&& (self.region()@.len() - self.base()) % (size_of::<T>() as int) == 0
        &&& self.region()@.len() <= max_region_len()
        &&& self.region().wf()
    }

    /// A fresh sequence carved on top of the bytes `prev`: its base is the first
    /// offset at or past `prev`'s end that is aligned for `T`, and it is empty.
    pub open spec fn carved_from(self, prev: Seq<u8>) -> bool {
        &&& self.wf()
        &&& self.base() as nat == pad_to(prev.len(), align_of::<T>())
        &&& self.region()@.len() == self.base()
        &&& self.region()@.subrange(0, prev.len() as int) == prev
    }

    /// Once a sequence is done with, the memory it borrows holds what it holds
    /// at that point.
    pub proof fn lemma_resolved(self)
        requires
            has_resolved(self),
        ensures
            *final(self.region()) == *self.region(),
    {
    }

    /// A freshly carved sequence is empty.
    pub proof fn lemma_carved_is_empty(self, prev: Seq<u8>)
        requires
            self.carved_from(prev),
        ensures
            self@ == Seq::<T>::empty(),
    {
        assert(self@ =~= Seq::<T>::empty());
    }

    /// Every element is stored at an offset aligned for `T`, and the memory's
    /// start is aligned to `A`, itself a multiple of `T`'s alignment; so every
    /// element's address is aligned for `T`.
    pub proof fn lemma_offsets_aligned(self, i: int)
        requires
            self.wf(),
            0 <= i < self@.len(),
        ensures
            (self.base() + i * size_of::<T>()) % (align_of::<T>() as int) == 0,
            self.region().alignment() % align_of::<T>() == 0,
    {
        let k = align_of::<T>() as int;
        let s = size_of::<T>() as int;
        let b = self.base() as int;
        lemma_fundamental_div_mod(b, k);
        lemma_fundamental_div_mod(s, k);
        let x = b / k + i * (s / k);
        assert(b + i * s == x * k) by (nonlinear_arith)
            requires
                b == k * (b / k),
                s == k * (s / k),
                x == b / k + i * (s / k),
        ;
        lemma_mod_multiples_basic(x, k);
    }

    /// Appends `val` at the tail.
    pub fn push(&mut self, val: T)
        requires
            old(self).wf(),
            old(self).region()@.len() + size_of::<T>() <= max_region_len(),
        ensures
            final(self).wf(),
            final(self)@ == old(self)@.push(val),
            final(self).base() == old(self).base(),
            final(self).region()@.len() == old(self).region()@.len() + size_of::<T>(),
            final(self).region()@.subrange(0, old(self).base() as int) == old(self).region()@.subrange(
                0,
                old(self).base() as int,
            ),
            *final(final(self).region()) == *final(old(self).region()),
    {
        let bytes = val.to_bytes();
        proof {
            T::lemma_encoding(val);
            lemma_elements_push::<T>(self.region()@, self.base as nat, val);
            let s = size_of::<T>() as int;
            let m = self.region()@.len() - self.base;
            assert((m + s) % s == 0) by (nonlinear_arith)
                requires
                    s > 0,
                    m >= 0,
                    m % s == 0,
            ;
        }
        bytes_extend(&mut self.stack.buf, bytes.as_slice());
        assert(self.region()@.subrange(0, self.base as int) =~= old(self).region()@.subrange(
            0,
            self.base as int,
        ));
    }

    /// The byte offset of the first element.
    pub fn base_offset(&self) -> (r: usize)
        ensures
            r == self.base(),
    {
        self.base
    }

    /// The number of elements.
    pub fn len(&self) -> (r: usize)
        requires
            self.wf(),
        ensures
            r as nat == self@.len(),
    {
        let size = core::mem::size_of::<T>();
        (bytes_len(&self.stack.buf) - self.base) / size
    }

    /// The element at index `i`.
    pub fn get(&self, i: usize) -> (r: T)
        requires
            self.wf(),
            i < self@.len(),
        ensures
            r == self@[i as int],
    {
        let size = core::mem::size_of::<T>();
        proof {
            lemma_element_bounds::<T>(self.region()@, self.base as nat, i as int);
        }
        let bytes = bytes_as_slice(&self.stack.buf);
        T::from_bytes(bytes, self.base + i * size)
    }

    /// A copy of the elements, in order.
    pub fn to_vec(&self) -> (r: Vec<T>)
        requires
            self.wf(),
        ensures
            r@ == self@,
    {
        let n = self.len();
        let mut out: Vec<T> = Vec::new();
        let mut i: usize = 0;
        while i < n
            invariant
                self.wf(),
                n == self@.len(),
                i <= n,
                out@ == self@.subrange(0, i as int),
            decreases n - i,
        {
            out.push(self.get(i));
            i = i + 1;
            assert(out@ =~= self@.subrange(0, i as int));
        }
        assert(out@ =~= self@);
        out
    }

    /// Appends each of `vals`, in order.
    pub fn extend(&mut self, vals: Vec<T>)
        requires
            old(self).wf(),
            old(self).region()@.len() + vals@.len() * size_of::<T>() <= max_region_len(),
        ensures
            final(self).wf(),
            final(self)@ == old(self)@ + vals@,
            final(self).base() == old(self).base(),
            final(self).region()@.len() == old(self).region()@.len() + vals@.len() * size_of::<T>(),
            final(self).region()@.subrange(0, old(self).base() as int) == old(self).region()@.subrange(
                0,
                old(self).base() as int,
            ),
            *final(final(self).region()) == *final(old(self).region()),
    {
        let mut i: usize = 0;
        while i < vals.len()
            invariant
                self.wf(),
                i <= vals@.len(),
                self@ == old(self)@ + vals@.subrange(0, i as int),
                self.base() == old(self).base(),
                self.region()@.len() == old(self).region()@.len() + i * size_of::<T>(),
                old(self).region()@.len() + vals@.len() * size_of::<T>() <= max_region_len(),
                self.region()@.subrange(0, old(self).base() as int) == old(self).region()@.subrange(
                    0,
                    old(self).base() as int,
                ),
                *final(self.region()) == *final(old(self).region()),
            decreases vals@.len() - i,
        {
            proof {
                let s = size_of::<T>() as int;
                assert(i * s + s <= vals@.len() * s) by (nonlinear_arith)
                    requires
                        i < vals@.len(),
                        s > 0,
                ;
                assert((i + 1) * s == i * s + s) by (nonlinear_arith);
            }
            self.push(vals[i]);
            i = i + 1;
            assert(self@ =~= old(self)@ + vals@.subrange(0, i as int));
        }
        assert(vals@.subrange(0, i as int) =~= vals@);
    }

    /// Overwrites the element at index `i` with `val`.
    pub fn set(&mut self, i: usize, val: T)
        requires
            old(self).wf(),
            i < old(self)@.len(),
        ensures
            final(self).wf(),
            final(self)@ == old(self)@.update(i as int, val),
            final(self).base() == old(self).base(),
            final(self).region()@.len() == old(self).region()@.len(),
            final(self).region()@.subrange(0, old(self).base() as int) == old(self).region()@.subrange(
                0,
                old(self).base() as int,
            ),
            *final(final(self).region()) == *final(old(self).region()),
    {
        let size = core::mem::size_of::<T>();
        let bytes = val.to_bytes();
        proof {
            T::lemma_encoding(val);
            lemma_element_bounds::<T>(self.region()@, self.base as nat, i as int);
        }
        let off = self.base + i * size;
        let ghost before = self.region()@;
        let mut j: usize = 0;
        while j < size
            invariant
                self.wf(),
                j <= size,
                size == size_of::<T>(),
                bytes@ == T::encode(val),
                bytes@.len() == size,
                off + size <= before.len(),
                off == self.base() + i * size,
                before == old(self).region()@,
                self.base() == old(self).base(),
                self.region()@.len() == before.len(),
                forall|k: int|
                    0 <= k < before.len() ==> #[trigger] self.region()@[k] == if off <= k < off + j {
                        bytes@[k - off]
                    } else {
                        before[k]
                    },
                *final(self.region()) == *final(old(self).region()),
            decreases size - j,
        {
            bytes_set(&mut self.stack.buf, off + j, bytes[j]);
            j = j + 1;
        }
        proof {
            let after = self.region()@;
            let sz = size as int;
            let base = self.base as int;
            assert(after.subrange(0, base) =~= before.subrange(0, base));
            let ea = elements_of::<T>(after, base as nat);
            let eb = elements_of::<T>(before, base as nat).update(i as int, val);
            assert forall|m: int| 0 <= m < ea.len() implies ea[m] == eb[m] by {
                lemma_element_bounds::<T>(after, base as nat, m);
                if m == i {
                    assert(after.subrange(base + m * sz, base + (m + 1) * sz) =~= T::encode(val));
                } else {
                    assert((m + 1) * sz <= i * sz || (i + 1) * sz <= m * sz) by (nonlinear_arith)
                        requires
                            m != i,
                            sz > 0,
                    ;
                    assert(after.subrange(base + m * sz, base + (m + 1) * sz) =~= before.subrange(
                        base + m * sz,
                        base + (m + 1) * sz,
                    ));
                }
            }
            assert(ea =~= eb);
        }
    }

    /// A handle for carving further sequences past this one's tail. While the
    /// handle lives this sequence cannot be used; when the memory comes back
    /// as it was handed out, so does this sequence.
    pub fn stack(&mut self) -> (r: Stack<'_, A>)
        ensures
            *r.memory() == *old(self).region(),
            *final(r.memory()) == *final(self).region(),
            final(self).base() == old(self).base(),
            *final(final(self).region()) == *final(old(self).region()),
    {
        Stack(&mut *self.stack)
    }
}

} // verus!
