//! A packed byte store for items of one size: item `i` takes bytes
//! `i * size .. (i + 1) * size`.
use vstd::prelude::*;

verus! {

/// The bytes of item `index` when items take `size` bytes each.
pub open spec fn chunk(bytes: Seq<u8>, size: nat, index: nat) -> Seq<u8> {
    bytes.subrange((index * size) as int, ((index + 1) * size) as int)
}

/// `bytes` with item `index` removed and the items after it moved down.
pub open spec fn removed_chunk(bytes: Seq<u8>, size: nat, index: nat) -> Seq<u8> {
    bytes.take((index * size) as int) + bytes.skip(((index + 1) * size) as int)
}

/// `bytes` with item `index` replaced by the last item, and the last item
/// dropped.
pub open spec fn swap_removed_chunk(bytes: Seq<u8>, size: nat, index: nat) -> Seq<u8> {
    Seq::new(
        (bytes.len() - size) as nat,
        |j: int|
            if index * size <= j < (index + 1) * size {
                bytes[bytes.len() - size + (j - index * size)]
            } else {
                bytes[j]
            },
    )
}

/// Items of one size, stored as bytes one after the other.
pub struct Blob {
    data: Vec<u8>,
    size: usize,
}

impl Blob {
    /// The stored bytes.
    pub closed spec fn bytes(&self) -> Seq<u8> {
        self.data@
    }

    /// The size of one item in bytes.
    pub closed spec fn item_size(&self) -> nat {
        self.size as nat
    }

    /// An empty store for items of `size` bytes.
    pub fn with_item_size(size: usize) -> (r: Blob)
        ensures
            r.bytes() == Seq::<u8>::empty(),
            r.item_size() == size,
    {
        Blob { data: Vec::new(), size }
    }

    pub fn data(&self) -> (r: &[u8])
        ensures
            r@ == self.bytes(),
    {
        self.data.as_slice()
    }

    /// The number of whole items stored.
    pub fn len(&self) -> (r: usize)
        requires
            self.item_size() > 0,
        ensures
            r == self.bytes().len() / self.item_size(),
    {
        self.data.len() / self.size
    }

    pub fn is_empty(&self) -> (r: bool)
        ensures
            r == (self.bytes().len() == 0),
    {
        self.data.len() == 0
    }

    pub fn clear(&mut self)
        ensures
            final(self).bytes() == Seq::<u8>::empty(),
            final(self).item_size() == old(self).item_size(),
    {
        self.data.clear();
    }

    /// Appends the bytes of whole items.
    pub fn append_raw(&mut self, value: Vec<u8>)
        requires
            old(self).item_size() > 0,
            value@.len() % old(self).item_size() == 0,
            old(self).bytes().len() + value@.len() <= usize::MAX,
        ensures
            final(self).bytes() == old(self).bytes() + value@,
            final(self).item_size() == old(self).item_size(),
    {
        let mut value = value;
        self.data.append(&mut value);
    }

    /// Takes item `index` out, moving the items after it down.
    pub fn remove_raw(&mut self, index: usize) -> (r: Vec<u8>)
        requires
            old(self).item_size() > 0,
            (index + 1) * old(self).item_size() <= old(self).bytes().len(),
        ensures
            r@ == chunk(old(self).bytes(), old(self).item_size(), index as nat),
            final(self).bytes() == removed_chunk(old(self).bytes(), old(self).item_size(), index as nat),
            final(self).item_size() == old(self).item_size(),
    {
        let ghost start = self.data@;
        let n = self.data.len();
        let size = self.size;
        proof {
            assert(size as nat == old(self).item_size());
            assert((index + 1) * size == index * size + size) by (nonlinear_arith);
            assert(index * size + size <= start.len());
            assert(start.len() == n);
        }
        let offset = index * size;
        let mut removed: Vec<u8> = Vec::new();
        let mut k: usize = 0;
        while k < size
            invariant
                start.len() <= usize::MAX,
                offset + size <= start.len(),
                self.data@.len() == start.len() - k,
                self.data@ == start.take(offset as int) + start.skip(offset + k),
                removed@ == start.subrange(offset as int, offset + k),
                k <= size,
                self.size == size,
            decreases size - k,
        {
            let b = self.data.remove(offset);
            removed.push(b);
            proof {
                assert(b == start[offset + k]);
                assert(removed@ =~= start.subrange(offset as int, offset + k + 1));
                assert(self.data@ =~= start.take(offset as int) + start.skip(offset + k + 1));
            }
            k = k + 1;
        }
        proof {
            assert((index + 1) * size == index * size + size) by (nonlinear_arith);
        }
        removed
    }

    /// Takes item `index` out, moving the last item into its place.
    pub fn swap_remove_raw(&mut self, index: usize) -> (r: Vec<u8>)
        requires
            old(self).item_size() > 0,
            (index + 1) * old(self).item_size() <= old(self).bytes().len(),
        ensures
            r@ == chunk(old(self).bytes(), old(self).item_size(), index as nat),
            final(self).bytes() == swap_removed_chunk(old(self).bytes(), old(self).item_size(), index as nat),
            final(self).item_size() == old(self).item_size(),
    {
        let ghost start = self.data@;
        let n = self.data.len();
        let size = self.size;
        proof {
            assert(size as nat == old(self).item_size());
            assert((index + 1) * size == index * size + size) by (nonlinear_arith);
            assert(index * size + size <= start.len());
            assert(start.len() == n);
        }
        let offset = index * size;
        let last = self.data.len() - size;
        let mut removed: Vec<u8> = Vec::new();
        let mut k: usize = 0;
        while k < size
            invariant
                start.len() <= usize::MAX,
                offset + size <= start.len(),
                last == start.len() - size,
                offset <= last,
                self.data@.len() == start.len(),
                self.size == size,
                k <= size,
                removed@ == start.subrange(offset as int, offset + k),
                forall|j: int|
                    0 <= j < start.len() ==> #[trigger] self.data@[j] == (if offset <= j < offset + k {
                        start[last + (j - offset)]
                    } else {
                        start[j]
                    }),
            decreases size - k,
        {
            let b = self.data[offset + k];
            removed.push(b);
            let moved = self.data[last + k];
            proof {
                assert(b == start[offset + k]);
                if offset <= last + k < offset + k {
                    assert(false);
                }
                assert(moved == start[last + k]);
            }
            self.data.set(offset + k, moved);
            proof {
                assert(removed@ =~= start.subrange(offset as int, offset + k + 1));
            }
            k = k + 1;
        }
        self.data.truncate(last);
        proof {
            assert((index + 1) * size == index * size + size) by (nonlinear_arith);
            assert(self.data@ =~= swap_removed_chunk(start, size as nat, index as nat));
        }
        removed
    }

    /// Gives up the bytes and the item size.
    pub fn into_raw(self) -> (r: (Vec<u8>, usize))
        ensures
            r.0@ == self.bytes(),
            r.1 == self.item_size(),
    {
        (self.data, self.size)
    }
}

} // verus!
