//! Compressed ragged matrix: an ordered sequence of variable-length rows
//! stored back to back in one contiguous buffer, delimited by an offsets
//! array of length `row_count + 1`.  Appending and removing the last row are
//! amortised constant time and no row needs its own allocation.

use vstd::prelude::*;

verus! {

/// Variable-length rows of `T` stored contiguously.  The view of a matrix
/// is the sequence of its rows, each row a sequence of items.
#[derive(Clone, Default, PartialEq, Eq, Debug)]
pub struct CsrMatrix<T> {
    items: Vec<T>,
    offsets: Vec<usize>,
}

impl<T> View for CsrMatrix<T> {
    type V = Seq<Seq<T>>;

    closed spec fn view(&self) -> Seq<Seq<T>> {
        Seq::new(
            (self.offsets@.len() - 1) as nat,
            |i: int| self.items@.subrange(self.offsets@[i] as int, self.offsets@[i + 1] as int),
        )
    }
}

impl<T> CsrMatrix<T> {
    /// The offsets array delimits the buffer: it starts at zero, never
    /// decreases, and ends at the buffer length.  Constructors establish
    /// this and every method preserves it.
    pub closed spec fn wf(&self) -> bool {
        &&& self.offsets@.len() >= 1
        &&& self.offsets@[0] == 0
        &&& forall|i: int, j: int|
            0 <= i <= j < self.offsets@.len() ==> #[trigger] self.offsets@[i]
                <= #[trigger] self.offsets@[j]
        &&& self.offsets@.last() == self.items@.len()
    }

    pub fn new() -> (r: Self)
        ensures
            r.wf(),
            r@ == Seq::<Seq<T>>::empty(),
    {
        let mut offsets: Vec<usize> = Vec::new();
        offsets.push(0);
        let r = Self { items: Vec::new(), offsets };
        proof {
            assert(r@ =~= Seq::<Seq<T>>::empty());
        }
        r
    }

    pub fn with_capacity(capacity: usize) -> (r: Self)
        requires
            capacity < usize::MAX,
        ensures
            r.wf(),
            r@ == Seq::<Seq<T>>::empty(),
    {
        let mut offsets: Vec<usize> = Vec::with_capacity(capacity + 1);
        offsets.push(0);
        let r = Self { items: Vec::with_capacity(capacity), offsets };
        proof {
            assert(r@ =~= Seq::<Seq<T>>::empty());
        }
        r
    }

    /// Number of rows, not of stored items.
    pub fn len(&self) -> (r: usize)
        requires
            self.wf(),
        ensures
            r == self@.len(),
    {
        self.offsets.len() - 1
    }

    pub fn is_empty(&self) -> (r: bool)
        requires
            self.wf(),
        ensures
            r == (self@.len() == 0),
    {
        self.len() == 0
    }

    /// The row at `index`, or `None` when `index` is out of range.
    pub fn get(&self, index: usize) -> (r: Option<&[T]>)
        requires
            self.wf(),
        ensures
            match r {
                Some(row) => index < self@.len() && row@ == self@[index as int],
                None => index >= self@.len(),
            },
    {
        if self.offsets.len() < 2 || index >= self.offsets.len() - 1 {
            return None;
        }
        let start = self.offsets[index];
        let end = self.offsets[index + 1];
        Some(&self.items.as_slice()[start..end])
    }

    /// The row at `index` for in-place mutation, or `None` when `index` is
    /// out of range.  Writing through the returned slice rewrites that row in
    /// place and cannot change its length; the contract only describes what
    /// the caller reads, not the written-back state.
    pub fn get_mut(&mut self, index: usize) -> (r: Option<&mut [T]>)
        requires
            old(self).wf(),
        ensures
            match r {
                Some(row) => index < old(self)@.len() && row@ == old(self)@[index as int],
                None => index >= old(self)@.len() && *final(self) == *old(self),
            },
    {
        let ghost old_self = *old(self);
        if self.offsets.len() < 2 || index >= self.offsets.len() - 1 {
            return None;
        }
        let start = self.offsets[index];
        let end = self.offsets[index + 1];
        let items = self.items.as_mut_slice();
        let (_, tail) = items.split_at_mut(start);
        let (row, _) = tail.split_at_mut(end - start);
        proof {
            assert(row@ =~= old_self.items@.subrange(start as int, end as int));
            assert(row@ == old_self@[index as int]);
        }
        Some(row)
    }

    /// The backing span of the half-open row range `start..end`: because the
    /// rows are stored back to back, this is their concatenation.  A range
    /// beyond the stored rows is a caller error, ruled out up front.
    pub fn get_range(&self, start: usize, end: usize) -> (r: &[T])
        requires
            self.wf(),
            start <= end <= self@.len(),
        ensures
            r@ == self@.subrange(start as int, end as int).flatten(),
    {
        let a = self.offsets[start];
        let b = self.offsets[end];
        let r = &self.items.as_slice()[a..b];
        proof {
            self.lemma_range_flatten(start as int, end as int);
        }
        r
    }

    /// The buffer span between two offsets is the concatenation of the rows
    /// they delimit.
    proof fn lemma_range_flatten(&self, a: int, b: int)
        requires
            self.wf(),
            0 <= a <= b <= self@.len(),
        ensures
            self.items@.subrange(
                self.offsets@[a] as int,
                self.offsets@[b] as int,
            ) == self@.subrange(a, b).flatten(),
        decreases b - a,
    {
        if a == b {
            assert(self@.subrange(a, b) =~= Seq::<Seq<T>>::empty());
            assert(self.items@.subrange(self.offsets@[a] as int, self.offsets@[b] as int) =~= Seq::<
                T,
            >::empty());
            assert(self@.subrange(a, b).flatten() =~= Seq::<T>::empty());
        } else {
            self.lemma_range_flatten(a, b - 1);
            let rows = self@.subrange(a, b);
            let init = self@.subrange(a, b - 1);
            assert(rows.drop_last() =~= init);
            rows.lemma_flatten_and_flatten_alt_are_equivalent();
            init.lemma_flatten_and_flatten_alt_are_equivalent();
            assert(rows.flatten_alt() == init.flatten_alt() + rows.last());
            assert(rows.last() == self@[b - 1]);
            assert(self.items@.subrange(self.offsets@[a] as int, self.offsets@[b] as int)
                =~= self.items@.subrange(self.offsets@[a] as int, self.offsets@[b - 1] as int)
                + self.items@.subrange(self.offsets@[b - 1] as int, self.offsets@[b] as int));
        }
    }
}

impl<T: Copy> CsrMatrix<T> {
    /// Appends a new row, copying its contents onto the end of the buffer.
    pub fn push(&mut self, item: &[T])
        requires
            old(self).wf(),
        ensures
            final(self).wf(),
            final(self)@ == old(self)@.push(item@),
    {
        let ghost old_self = *old(self);
        let n = item.len();
        let mut i: usize = 0;
        while i < n
            invariant
                n == item@.len(),
                0 <= i <= n,
                self.offsets == old_self.offsets,
                self.items@ == old_self.items@ + item@.subrange(0, i as int),
            decreases n - i,
        {
            self.items.push(item[i]);
            proof {
                assert(old_self.items@ + item@.subrange(0, i as int) + seq![item@[i as int]]
                    =~= old_self.items@ + item@.subrange(0, i + 1));
            }
            i += 1;
        }
        let last_offset = self.items.len();
        self.offsets.push(last_offset);
        proof {
            assert(item@.subrange(0, item@.len() as int) =~= item@);
            assert forall|k: int| 0 <= k < old_self@.len() implies self@[k] == old_self@[k] by {
                assert(self@[k] =~= old_self@[k]);
            }
            assert(self@[old_self@.len() as int] =~= item@);
            assert(self@ =~= old_self@.push(item@));
        }
    }

    /// Removes and returns the last row's contents; on an empty matrix it
    /// returns an empty row and changes nothing.
    pub fn pop(&mut self) -> (r: Vec<T>)
        requires
            old(self).wf(),
        ensures
            final(self).wf(),
            old(self)@.len() == 0 ==> r@ == Seq::<T>::empty() && final(self)@ == old(self)@,
            old(self)@.len() > 0 ==> r@ == old(self)@.last() && final(self)@ == old(
                self,
            )@.drop_last(),
    {
        let ghost old_self = *old(self);
        if self.offsets.len() < 2 {
            proof {
                assert(self@ =~= old(self)@);
            }
            return Vec::new();
        }
        let _ = self.offsets.pop();
        let last_offset = self.offsets[self.offsets.len() - 1];
        let mut row: Vec<T> = Vec::new();
        let mut i = last_offset;
        let items_len = self.items.len();
        while i < items_len
            invariant
                self.offsets@ == old_self.offsets@.drop_last(),
                self.items == old_self.items,
                items_len == self.items@.len(),
                self.offsets@.len() >= 1,
                last_offset == self.offsets@.last(),
                last_offset <= i <= items_len,
                row@ == old_self.items@.subrange(last_offset as int, i as int),
            decreases items_len - i,
        {
            let ghost old_row = row@;
            row.push(self.items[i]);
            proof {
                assert(row@ =~= old_self.items@.subrange(last_offset as int, i + 1));
            }
            i += 1;
        }
        self.items.truncate(last_offset);
        proof {
            let n = old_self.offsets@.len() as int;
            assert(old_self@.last() == old_self.items@.subrange(
                old_self.offsets@[n - 2] as int,
                old_self.offsets@[n - 1] as int,
            ));
            assert(row@ =~= old_self@.last());
            assert forall|k: int| 0 <= k < self@.len() implies self@[k] == old_self@[k] by {
                assert(self@[k] =~= old_self@[k]);
            }
            assert(self@ =~= old_self@.drop_last());
        }
        row
    }

    /// Appends every row of `item` in order.
    pub fn extend_from_slice(&mut self, item: &[Vec<T>])
        requires
            old(self).wf(),
        ensures
            final(self).wf(),
            final(self)@ == old(self)@ + item@.map_values(|row: Vec<T>| row@),
    {
        let ghost old_view = old(self)@;
        let ghost mapped = item@.map_values(|row: Vec<T>| row@);
        let n = item.len();
        let mut i: usize = 0;
        proof {
            assert(old_view + mapped.subrange(0, 0) =~= old_view);
        }
        while i < n
            invariant
                n == item@.len(),
                0 <= i <= n,
                mapped == item@.map_values(|row: Vec<T>| row@),
                mapped.len() == n,
                self.wf(),
                self@ == old_view + mapped.subrange(0, i as int),
            decreases n - i,
        {
            let row: &Vec<T> = &item[i];
            self.push(row.as_slice());
            proof {
                assert((old_view + mapped.subrange(0, i as int)).push(item@[i as int]@)
                    =~= old_view + mapped.subrange(0, i + 1));
            }
            i += 1;
        }
        proof {
            assert(mapped.subrange(0, n as int) =~= mapped);
        }
    }
}

/// An explicit cursor over the rows of a matrix, yielding each row slice in
/// order up to a caller-chosen bound.
pub struct GenericIter<'a, T> {
    items: &'a CsrMatrix<T>,
    current: usize,
    length: usize,
}

impl<'a, T> GenericIter<'a, T> {
    /// The cursor stays within its bound and the bound within the matrix.
    pub closed spec fn inv(&self) -> bool {
        &&& self.items.wf()
        &&& self.current <= self.length <= self.items@.len()
    }

    /// Rows of the matrix the cursor walks over.
    pub closed spec fn matrix(&self) -> Seq<Seq<T>> {
        self.items@
    }

    /// Current cursor position.
    pub closed spec fn pos(&self) -> int {
        self.current as int
    }

    /// Position at which the cursor stops.
    pub closed spec fn bound(&self) -> int {
        self.length as int
    }

    pub fn new(items: &'a CsrMatrix<T>, length: usize) -> (r: Self)
        requires
            items.wf(),
            length <= items@.len(),
        ensures
            r.inv(),
            r.matrix() == items@,
            r.pos() == 0,
            r.bound() == length as int,
    {
        GenericIter { items, current: 0, length }
    }

    /// The next row, advancing the cursor, or `None` once the bound is
    /// reached.
    pub fn next(&mut self) -> (r: Option<&'a [T]>)
        requires
            old(self).inv(),
        ensures
            final(self).inv(),
            final(self).matrix() == old(self).matrix(),
            final(self).bound() == old(self).bound(),
            match r {
                Some(row) => old(self).pos() < old(self).bound() && row@ == old(self).matrix()[
                    old(self).pos()
                ] && final(self).pos() == old(self).pos() + 1,
                None => old(self).pos() == old(self).bound() && final(self).pos() == old(
                    self,
                ).pos(),
            },
    {
        if self.current == self.length {
            None
        } else {
            let m: &'a CsrMatrix<T> = self.items;
            let result = m.get(self.current);
            self.current += 1;
            result
        }
    }
}

impl<T> CsrMatrix<T> {
    /// A cursor over all rows of this matrix.
    pub fn iter<'a>(&'a self) -> (r: GenericIter<'a, T>)
        requires
            self.wf(),
        ensures
            r.inv(),
            r.matrix() == self@,
            r.pos() == 0,
            r.bound() == self@.len(),
    {
        GenericIter::new(self, self.len())
    }
}

/// The rows removed, in pop order, by popping `k` times.
pub open spec fn popped_rows<T>(rows: Seq<Seq<T>>, k: int) -> Seq<Seq<T>>
    decreases k,
{
    if k <= 0 || rows.len() == 0 {
        Seq::empty()
    } else {
        seq![rows.last()] + popped_rows(rows.drop_last(), k - 1)
    }
}

/// The rows that remain after popping `k` times.
pub open spec fn rows_after_pops<T>(rows: Seq<Seq<T>>, k: int) -> Seq<Seq<T>>
    decreases k,
{
    if k <= 0 || rows.len() == 0 {
        rows
    } else {
        rows_after_pops(rows.drop_last(), k - 1)
    }
}

/// Round trip: pushing the rows of `pushed` onto a matrix holding `rows` and
/// then popping as many times yields the pushed rows in reverse order and
/// leaves the matrix holding `rows` again.
pub proof fn lemma_push_pop_round_trip<T>(rows: Seq<Seq<T>>, pushed: Seq<Seq<T>>)
    ensures
        popped_rows(rows + pushed, pushed.len() as int) == pushed.reverse(),
        rows_after_pops(rows + pushed, pushed.len() as int) == rows,
    decreases pushed.len(),
{
    if pushed.len() == 0 {
        assert(rows + pushed =~= rows);
        assert(pushed.reverse() =~= Seq::<Seq<T>>::empty());
        if rows.len() == 0 {
            assert(popped_rows(rows + pushed, 0) =~= Seq::<Seq<T>>::empty());
        }
    } else {
        let all = rows + pushed;
        assert(all.last() == pushed.last());
        assert(all.drop_last() =~= rows + pushed.drop_last());
        lemma_push_pop_round_trip(rows, pushed.drop_last());
        assert(pushed.reverse() =~= seq![pushed.last()] + pushed.drop_last().reverse());
    }
}

} // verus!
