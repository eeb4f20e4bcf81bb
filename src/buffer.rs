use crate::edit::{
    edit_valid, lemma_single_edit_keeps_element, moved, moves_fit, positions_moved, spliced, Edit,
};
use vstd::prelude::*;

verus! {

/// A byte buffer that keeps a table of tracked positions in its content.
///
/// Each growth operation rewrites the table so that a tracked position keeps
/// pointing at the element it was created for.
#[derive(Debug, Clone, PartialEq, Eq, Hash)]
pub struct IndexRefBuf {
    buf: Vec<u8>,
    references: Vec<usize>,
}

/// A handle to a tracked position of the buffer that issued it: a slot of its
/// table, never the position itself.
#[derive(Debug, Clone, Copy, PartialEq, Eq, Structural, Hash)]
pub struct IndexRef {
    ref_index: usize,
}

impl IndexRef {
    /// The slot of the table that this handle names.
    pub closed spec fn slot(self) -> int {
        self.ref_index as int
    }
}

impl IndexRefBuf {
    /// The bytes held.
    pub closed spec fn content(self) -> Seq<u8> {
        self.buf@
    }

    /// The tracked positions, one per handle, in the order of creation.
    pub closed spec fn positions(self) -> Seq<usize> {
        self.references@
    }

    /// Creates a new empty buffer.
    pub fn new() -> (r: Self)
        ensures
            r.content() == Seq::<u8>::empty(),
            r.positions() == Seq::<usize>::empty(),
    {
        IndexRefBuf { buf: Vec::new(), references: Vec::new() }
    }

    /// Creates a new buffer holding the given content and no references.
    pub fn from_vec(vec: Vec<u8>) -> (r: Self)
        ensures
            r.content() == vec@,
            r.positions() == Seq::<usize>::empty(),
    {
        IndexRefBuf { buf: vec, references: Vec::new() }
    }

    /// Whether `h` names a slot of this buffer's table.
    pub open spec fn holds(self, h: IndexRef) -> bool {
        0 <= h.slot() < self.positions().len()
    }

    /// Starts tracking `index` and hands back the handle of its new slot.
    ///
    /// The index is stored as it is, also where it lies outside the content.
    pub fn create_index_ref(&mut self, index: usize) -> (r: IndexRef)
        ensures
            final(self).content() == old(self).content(),
            final(self).positions() == old(self).positions().push(index),
            r.slot() == old(self).positions().len(),
            final(self).holds(r),
    {
        let ref_index = self.references.len();
        self.references.push(index);
        IndexRef { ref_index }
    }

    /// The current position tracked by `index_ref`.
    pub fn read_index_ref(&self, index_ref: IndexRef) -> (r: usize)
        requires
            self.holds(index_ref),
        ensures
            r == self.positions()[index_ref.slot()],
    {
        self.references[index_ref.ref_index]
    }

    /// Appends `value` to the content. No tracked position moves.
    pub fn push(&mut self, value: u8)
        ensures
            final(self).content() == old(self).content().push(value),
            final(self).positions() == old(self).positions(),
    {
        self.buf.push(value);
    }

    /// Appends the bytes of `other` to the content. No tracked position moves.
    pub fn extend_from_slice(&mut self, other: &[u8])
        ensures
            final(self).content() == old(self).content() + other@,
            final(self).positions() == old(self).positions(),
    {
        self.buf.extend_from_slice(other);
        proof {
            assert(self.buf@ =~= old(self).content() + other@);
        }
    }

    /// Moves the bytes of `other` to the end of the content, leaving `other`
    /// empty. No tracked position moves.
    pub fn append(&mut self, other: &mut Vec<u8>)
        ensures
            final(self).content() == old(self).content() + old(other)@,
            final(self).positions() == old(self).positions(),
            final(other)@ == Seq::<u8>::empty(),
    {
        self.buf.append(other);
    }

    /// The number of bytes held.
    pub fn len(&self) -> (r: usize)
        ensures
            r == self.content().len(),
    {
        self.buf.len()
    }

    /// Whether no byte is held.
    pub fn is_empty(&self) -> (r: bool)
        ensures
            r == (self.content().len() == 0),
    {
        self.buf.is_empty()
    }

    /// The bytes held, for reading.
    pub fn as_slice(&self) -> (r: &[u8])
        ensures
            r@ == self.content(),
    {
        self.buf.as_slice()
    }

    /// Replaces `[start, end)` of the content by `r`, handing back what was
    /// there. The table is left alone.
    fn splice_content(&mut self, start: usize, end: usize, r: &[u8]) -> (removed: Vec<u8>)
        requires
            start <= end <= old(self).content().len(),
        ensures
            removed@ == old(self).content().subrange(start as int, end as int),
            final(self).content() == spliced(old(self).content(), start as int, end as int, r@),
            final(self).positions() == old(self).positions(),
    {
        let mut tail = self.buf.split_off(end);
        let removed = self.buf.split_off(start);
        self.buf.extend_from_slice(r);
        self.buf.append(&mut tail);
        proof {
            assert(self.buf@ =~= spliced(old(self).content(), start as int, end as int, r@));
        }
        removed
    }

    /// Moves every tracked position at or after `end` by `growth`, the growth
    /// of a replacement of `[start, end)` by `r_len` bytes.
    fn shift_references(&mut self, start: usize, end: usize, r_len: usize)
        requires
            start <= end,
            r_len >= end - start,
            moves_fit(old(self).positions(), start as int, end as int, r_len as int),
        ensures
            final(self).content() == old(self).content(),
            positions_moved(
                old(self).positions(),
                final(self).positions(),
                start as int,
                end as int,
                r_len as int,
            ),
    {
        let growth = r_len - (end - start);
        let n = self.references.len();
        let mut k: usize = 0;
        while k < n
            invariant
                n == old(self).positions().len(),
                k <= n,
                growth == r_len - (end - start),
                moves_fit(old(self).positions(), start as int, end as int, r_len as int),
                self.buf@ == old(self).content(),
                self.references@.len() == n,
                forall|i: int|
                    0 <= i < k ==> self.references@[i] == moved(
                        old(self).positions()[i] as int,
                        start as int,
                        end as int,
                        r_len as int,
                    ),
                forall|i: int| k <= i < n ==> self.references@[i] == old(self).positions()[i],
            decreases n - k,
        {
            let p = self.references[k];
            if p >= end {
                proof {
                    assert(moved(old(self).positions()[k as int] as int, start as int, end as int, r_len as int) <= usize::MAX);
                }
                self.references.set(k, p + growth);
            }
            k += 1;
        }
    }

    /// Replaces the given range of the content with `replace_with`, handing
    /// back the bytes that were there.
    ///
    /// The buffer may only grow: `replace_with` is at least as long as the
    /// range. Positions at or after the end of the range move by the growth;
    /// positions before it, or inside it, stay where they are.
    pub fn splice(&mut self, range: std::ops::Range<usize>, replace_with: &[u8]) -> (removed: Vec<u8>)
        requires
            range.start <= range.end <= old(self).content().len(),
            replace_with@.len() >= range.end - range.start,
            moves_fit(
                old(self).positions(),
                range.start as int,
                range.end as int,
                replace_with@.len() as int,
            ),
        ensures
            removed@ == old(self).content().subrange(range.start as int, range.end as int),
            final(self).content() == spliced(
                old(self).content(),
                range.start as int,
                range.end as int,
                replace_with@,
            ),
            positions_moved(
                old(self).positions(),
                final(self).positions(),
                range.start as int,
                range.end as int,
                replace_with@.len() as int,
            ),
            final(self).content().len() == old(self).content().len() + replace_with@.len() - (
            range.end - range.start),
            keeps_tracked_bytes(*old(self), *final(self), range.start as int, range.end as int),
    {
        let start = range.start;
        let end = range.end;
        let removed = self.splice_content(start, end, replace_with);
        self.shift_references(start, end, replace_with.len());
        proof {
            lemma_growth_keeps_tracked_bytes(*old(self), *self, start as int, end as int, replace_with@);
        }
        removed
    }

    /// Inserts `elements` at `index`; positions at or after `index` move by
    /// their number.
    pub fn insert_slice(&mut self, index: usize, elements: &[u8])
        requires
            index <= old(self).content().len(),
            moves_fit(old(self).positions(), index as int, index as int, elements@.len() as int),
        ensures
            final(self).content() == spliced(old(self).content(), index as int, index as int, elements@),
            positions_moved(
                old(self).positions(),
                final(self).positions(),
                index as int,
                index as int,
                elements@.len() as int,
            ),
            final(self).content().len() == old(self).content().len() + elements@.len(),
            keeps_tracked_bytes(*old(self), *final(self), index as int, index as int),
    {
        self.splice_content(index, index, elements);
        self.shift_references(index, index, elements.len());
        proof {
            lemma_growth_keeps_tracked_bytes(*old(self), *self, index as int, index as int, elements@);
        }
    }

    /// Inserts `element` at `index`; positions at or after `index` move by
    /// one.
    pub fn insert(&mut self, index: usize, element: u8)
        requires
            index <= old(self).content().len(),
            moves_fit(old(self).positions(), index as int, index as int, 1),
        ensures
            final(self).content() == old(self).content().insert(index as int, element),
            final(self).content() == spliced(old(self).content(), index as int, index as int, seq![element]),
            positions_moved(old(self).positions(), final(self).positions(), index as int, index as int, 1),
            final(self).content().len() == old(self).content().len() + 1,
            keeps_tracked_bytes(*old(self), *final(self), index as int, index as int),
    {
        self.buf.insert(index, element);
        proof {
            assert(self.buf@ =~= spliced(old(self).content(), index as int, index as int, seq![element]));
        }
        self.shift_references(index, index, 1);
        proof {
            lemma_growth_keeps_tracked_bytes(*old(self), *self, index as int, index as int, seq![element]);
        }
    }
}

/// Every position of `before` that lay in its content and outside
/// `[start, end)` lies in the content of `after` and holds the same byte there.
pub open spec fn keeps_tracked_bytes(before: IndexRefBuf, after: IndexRefBuf, start: int, end: int) -> bool {
    forall|i: int|
        #![trigger after.positions()[i]]
        0 <= i < before.positions().len() && before.positions()[i] < before.content().len() && !(start
            <= before.positions()[i] < end) ==> after.positions()[i] < after.content().len()
            && after.content()[after.positions()[i] as int] == before.content()[before.positions()[i] as int]
}

/// Replacing `[start, end)` by `r`, with the table moved to match, keeps the
/// byte of every tracked position outside the range.
proof fn lemma_growth_keeps_tracked_bytes(
    before: IndexRefBuf,
    after: IndexRefBuf,
    start: int,
    end: int,
    r: Seq<u8>,
)
    requires
        0 <= start <= end <= before.content().len(),
        r.len() >= end - start,
        after.content() == spliced(before.content(), start, end, r),
        positions_moved(before.positions(), after.positions(), start, end, r.len() as int),
    ensures
        keeps_tracked_bytes(before, after, start, end),
{
    let e = Edit { start, end, replacement: r };
    assert forall|i: int|
        0 <= i < before.positions().len() && before.positions()[i] < before.content().len() && !(start
            <= before.positions()[i] < end) implies #[trigger] after.positions()[i] < after.content().len()
            && after.content()[after.positions()[i] as int] == before.content()[before.positions()[i] as int] by {
        lemma_single_edit_keeps_element(before.content(), before.positions()[i] as int, e);
    }
}

/// Insertion boundary rule: inserting `n` bytes exactly at the position that
/// `h` tracks moves that position forward by `n`; the tracked element is
/// pushed on, not overwritten.
pub proof fn lemma_insert_at_reference_pushes_forward(
    before: IndexRefBuf,
    after: IndexRefBuf,
    h: IndexRef,
    index: int,
    n: int,
)
    requires
        before.holds(h),
        index == before.positions()[h.slot()],
        positions_moved(before.positions(), after.positions(), index, index, n),
    ensures
        after.holds(h),
        after.positions()[h.slot()] == before.positions()[h.slot()] + n,
{
}

/// A growth operation on the buffer whose replaced range does not hold the
/// position tracked by `h` leaves that position on the same byte.
pub proof fn lemma_edit_keeps_reference(before: IndexRefBuf, after: IndexRefBuf, h: IndexRef, e: Edit)
    requires
        before.holds(h),
        before.positions()[h.slot()] < before.content().len(),
        edit_valid(before.content(), e),
        !(e.start <= before.positions()[h.slot()] < e.end),
        after.content() == spliced(before.content(), e.start, e.end, e.replacement),
        positions_moved(before.positions(), after.positions(), e.start, e.end, e.replacement.len() as int),
    ensures
        after.holds(h),
        after.positions()[h.slot()] < after.content().len(),
        after.content()[after.positions()[h.slot()] as int] == before.content()[before.positions()[h.slot()] as int],
{
    lemma_single_edit_keeps_element(before.content(), before.positions()[h.slot()] as int, e);
}

impl std::ops::Deref for IndexRefBuf {
    type Target = [u8];

    fn deref(&self) -> (r: &[u8])
        ensures
            r@ == self.content(),
    {
        self.buf.as_slice()
    }
}

} // verus!
