use vstd::prelude::*;

verus! {

/// The content `c` after the range `[start, end)` is replaced by `r`.
///
/// Every growth operation of the buffer is such a replacement: inserting
/// bytes at `i` replaces the empty range `[i, i)`, appending replaces the
/// empty range at the end.
pub open spec fn spliced(c: Seq<u8>, start: int, end: int, r: Seq<u8>) -> Seq<u8> {
    c.subrange(0, start) + r + c.subrange(end, c.len() as int)
}

/// Where a tracked position `p` stands after `[start, end)` is replaced by
/// `r_len` bytes: positions at or after `end` move by the growth, the others
/// stay where they are.
pub open spec fn moved(p: int, start: int, end: int, r_len: int) -> int {
    if p >= end {
        p + (r_len - (end - start))
    } else {
        p
    }
}

/// `after` is `before` with every position moved as [`moved`] says, for the
/// replacement of `[start, end)` by `r_len` bytes.
pub open spec fn positions_moved(
    before: Seq<usize>,
    after: Seq<usize>,
    start: int,
    end: int,
    r_len: int,
) -> bool {
    &&& after.len() == before.len()
    &&& forall|i: int| 0 <= i < before.len() ==> after[i] == moved(before[i] as int, start, end, r_len)
}

/// Every position of `ps` still fits in a `usize` once moved for the
/// replacement of `[start, end)` by `r_len` bytes.
pub open spec fn moves_fit(ps: Seq<usize>, start: int, end: int, r_len: int) -> bool {
    forall|i: int| 0 <= i < ps.len() ==> moved(ps[i] as int, start, end, r_len) <= usize::MAX
}

/// One growth operation seen on the content: the range `[start, end)` and
/// the bytes that replace it.
pub struct Edit {
    pub start: int,
    pub end: int,
    pub replacement: Seq<u8>,
}

/// `e` can be applied to `c`: its range lies in `c` and it does not shrink.
pub open spec fn edit_valid(c: Seq<u8>, e: Edit) -> bool {
    &&& 0 <= e.start <= e.end <= c.len()
    &&& e.replacement.len() >= e.end - e.start
}

/// The net number of bytes that `e` adds.
pub open spec fn growth(e: Edit) -> int {
    e.replacement.len() - (e.end - e.start)
}

/// The content after the edits, applied in order.
pub open spec fn replay_content(c: Seq<u8>, edits: Seq<Edit>) -> Seq<u8>
    decreases edits.len(),
{
    if edits.len() == 0 {
        c
    } else {
        let e = edits[0];
        replay_content(spliced(c, e.start, e.end, e.replacement), edits.drop_first())
    }
}

/// The tracked position `p` after the edits, applied in order.
pub open spec fn replay_position(p: int, edits: Seq<Edit>) -> int
    decreases edits.len(),
{
    if edits.len() == 0 {
        p
    } else {
        let e = edits[0];
        replay_position(moved(p, e.start, e.end, e.replacement.len() as int), edits.drop_first())
    }
}

/// The sum of the growths of the edits.
pub open spec fn total_growth(edits: Seq<Edit>) -> int
    decreases edits.len(),
{
    if edits.len() == 0 {
        0
    } else {
        growth(edits[0]) + total_growth(edits.drop_first())
    }
}

/// Each edit can be applied to the content that the ones before it left.
pub open spec fn edits_valid(c: Seq<u8>, edits: Seq<Edit>) -> bool
    decreases edits.len(),
{
    if edits.len() == 0 {
        true
    } else {
        let e = edits[0];
        &&& edit_valid(c, e)
        &&& edits_valid(spliced(c, e.start, e.end, e.replacement), edits.drop_first())
    }
}

/// Each edit can be applied, and none replaces a range that holds the
/// position `p` as the edits before it left it.
pub open spec fn edits_avoid(c: Seq<u8>, p: int, edits: Seq<Edit>) -> bool
    decreases edits.len(),
{
    if edits.len() == 0 {
        true
    } else {
        let e = edits[0];
        &&& edit_valid(c, e)
        &&& !(e.start <= p < e.end)
        &&& edits_avoid(
            spliced(c, e.start, e.end, e.replacement),
            moved(p, e.start, e.end, e.replacement.len() as int),
            edits.drop_first(),
        )
    }
}

/// A growth operation whose replaced range does not hold the position `p`
/// leaves the element of `p` at the moved position.
pub proof fn lemma_single_edit_keeps_element(c: Seq<u8>, p: int, e: Edit)
    requires
        0 <= p < c.len(),
        edit_valid(c, e),
        !(e.start <= p < e.end),
    ensures
        ({
            let c2 = spliced(c, e.start, e.end, e.replacement);
            let p2 = moved(p, e.start, e.end, e.replacement.len() as int);
            0 <= p2 < c2.len() && c2[p2] == c[p]
        }),
{
    let c2 = spliced(c, e.start, e.end, e.replacement);
    let p2 = moved(p, e.start, e.end, e.replacement.len() as int);
    if p >= e.end {
        assert(p2 == e.start + e.replacement.len() + (p - e.end));
        assert(c2[p2] == c.subrange(e.end, c.len() as int)[p - e.end]);
    } else {
        assert(c2[p2] == c.subrange(0, e.start)[p]);
    }
}

/// Reference stability: after any run of growth operations, none of which
/// replaces a range holding the tracked position as it then stands, the
/// tracked position still lies in the content and holds the byte it held at
/// the start.
pub proof fn lemma_reference_stable(c: Seq<u8>, k: int, edits: Seq<Edit>)
    requires
        0 <= k < c.len(),
        edits_avoid(c, k, edits),
    ensures
        0 <= replay_position(k, edits) < replay_content(c, edits).len(),
        replay_content(c, edits)[replay_position(k, edits)] == c[k],
    decreases edits.len(),
{
    if edits.len() > 0 {
        let e = edits[0];
        lemma_single_edit_keeps_element(c, k, e);
        lemma_reference_stable(
            spliced(c, e.start, e.end, e.replacement),
            moved(k, e.start, e.end, e.replacement.len() as int),
            edits.drop_first(),
        );
    }
}

/// Monotonic growth: after any run of growth operations the length is the
/// starting length plus the sum of their growths, and never below the
/// starting length.
pub proof fn lemma_growth_is_monotonic(c: Seq<u8>, edits: Seq<Edit>)
    requires
        edits_valid(c, edits),
    ensures
        replay_content(c, edits).len() == c.len() + total_growth(edits),
        total_growth(edits) >= 0,
        replay_content(c, edits).len() >= c.len(),
    decreases edits.len(),
{
    if edits.len() > 0 {
        let e = edits[0];
        lemma_growth_is_monotonic(spliced(c, e.start, e.end, e.replacement), edits.drop_first());
    }
}

} // verus!
