//! Patches: replacing stretches of a text while every other byte stays.

use crate::bytes::push_all;
use vstd::prelude::*;
use vstd::slice::slice_subrange;

verus! {

/// One replacement: the bytes from `start` up to `end` give way to
/// `replacement`.
#[derive(Debug, PartialEq, Eq)]
pub struct Patch {
    pub start: usize,
    pub end: usize,
    pub replacement: Vec<u8>,
}

/// The mathematical value of a [`Patch`].
pub struct PatchView {
    pub start: int,
    pub end: int,
    pub replacement: Seq<u8>,
}

impl View for Patch {
    type V = PatchView;

    open spec fn view(&self) -> PatchView {
        PatchView { start: self.start as int, end: self.end as int, replacement: self.replacement@ }
    }
}

/// The views of a list of patches.
pub open spec fn patch_views(patches: Seq<Patch>) -> Seq<PatchView> {
    patches.map_values(|p: Patch| p@)
}

/// Whether the patches lie in a text of `len` bytes, in ascending order
/// and without overlap.
pub open spec fn in_order(len: int, patches: Seq<PatchView>) -> bool {
    &&& forall|k: int|
        0 <= k < patches.len() ==> 0 <= (#[trigger] patches[k]).start <= patches[k].end <= len
    &&& forall|k: int, m: int|
        0 <= k < m < patches.len() ==> (#[trigger] patches[k]).end <= (#[trigger] patches[m]).start
}

/// The text after the patches: before the last patch the text up to its
/// start, patched by the patches before it; then its replacement; then
/// the text after its end.
pub open spec fn applied(text: Seq<u8>, patches: Seq<PatchView>) -> Seq<u8>
    decreases patches.len(),
{
    if patches.len() == 0 {
        text
    } else {
        let last = patches.last();
        applied(text.take(last.start), patches.drop_last()) + last.replacement + text.skip(
            last.end,
        )
    }
}

/// By how many bytes the first `k` patches make the text longer.
pub open spec fn growth(patches: Seq<PatchView>, k: int) -> int
    decreases k,
{
    if k <= 0 {
        0
    } else {
        growth(patches, k - 1) + patches[k - 1].replacement.len() - (patches[k - 1].end
            - patches[k - 1].start)
    }
}

/// Where the stretch between patch `k - 1` and patch `k` starts: at the
/// end of patch `k - 1`, or at the start of the text.
pub open spec fn gap_start(patches: Seq<PatchView>, k: int) -> int {
    if k == 0 {
        0
    } else {
        patches[k - 1].end
    }
}

/// Where the stretch between patch `k - 1` and patch `k` ends: at the
/// start of patch `k`, or at the end of the text.
pub open spec fn gap_end(len: int, patches: Seq<PatchView>, k: int) -> int {
    if k == patches.len() {
        len
    } else {
        patches[k].start
    }
}

proof fn lemma_growth_front(patches: Seq<PatchView>, k: int)
    requires
        0 <= k < patches.len(),
    ensures
        growth(patches.drop_last(), k) == growth(patches, k),
    decreases k,
{
    if k > 0 {
        lemma_growth_front(patches, k - 1);
        assert(patches.drop_last()[k - 1] == patches[k - 1]);
    }
}

/// The patches before the last lie in order in the text before its start.
proof fn lemma_front_in_order(len: int, patches: Seq<PatchView>)
    requires
        in_order(len, patches),
        patches.len() > 0,
    ensures
        in_order(patches.last().start, patches.drop_last()),
{
    let last = patches.last();
    let front = patches.drop_last();
    assert forall|k: int| 0 <= k < front.len() implies 0 <= (#[trigger] front[k]).start
        <= front[k].end <= last.start by {
        assert(front[k] == patches[k]);
        assert(patches[k].end <= patches[patches.len() - 1].start);
    }
    assert forall|k: int, m: int| 0 <= k < m < front.len() implies (#[trigger] front[k]).end <= (
    #[trigger] front[m]).start by {
        assert(front[k] == patches[k] && front[m] == patches[m]);
    }
}

/// Patching changes the length of the text by the growth of all patches.
pub proof fn lemma_applied_len(text: Seq<u8>, patches: Seq<PatchView>)
    requires
        in_order(text.len() as int, patches),
    ensures
        applied(text, patches).len() == text.len() + growth(patches, patches.len() as int),
    decreases patches.len(),
{
    if patches.len() > 0 {
        let last = patches.last();
        let front = patches.drop_last();
        lemma_front_in_order(text.len() as int, patches);
        lemma_applied_len(text.take(last.start), front);
        lemma_growth_front(patches, patches.len() - 1);
    }
}

/// Every byte outside the patches stays: the byte at place `x` between
/// patch `k - 1` and patch `k` stands in the patched text as it was, moved
/// by the growth of the patches before it; and the replacement of patch
/// `k` stands where the patch stood, moved likewise.
pub proof fn lemma_unpatched_bytes_stay(text: Seq<u8>, patches: Seq<PatchView>, k: int, x: int)
    requires
        in_order(text.len() as int, patches),
        0 <= k <= patches.len(),
        gap_start(patches, k) <= x < gap_end(text.len() as int, patches, k),
    ensures
        0 <= x + growth(patches, k) < applied(text, patches).len(),
        applied(text, patches)[x + growth(patches, k)] == text[x],
    decreases patches.len(),
{
    lemma_applied_len(text, patches);
    if patches.len() > 0 {
        let n = patches.len() as int;
        let last = patches.last();
        let front = patches.drop_last();
        let head = text.take(last.start);
        lemma_front_in_order(text.len() as int, patches);
        lemma_applied_len(head, front);
        lemma_growth_front(patches, n - 1);
        if k < n {
            if k > 0 {
                assert(front[k - 1] == patches[k - 1]);
            }
            if k < n - 1 {
                assert(front[k] == patches[k]);
                assert(patches[k].end <= patches[n - 1].start);
            }
            lemma_unpatched_bytes_stay(head, front, k, x);
            lemma_growth_front(patches, k);
        }
    }
}

/// The replacement of each patch stands in the patched text where the
/// patch stood, moved by the growth of the patches before it.
pub proof fn lemma_replacement_stands(text: Seq<u8>, patches: Seq<PatchView>, k: int)
    requires
        in_order(text.len() as int, patches),
        0 <= k < patches.len(),
    ensures
        0 <= patches[k].start + growth(patches, k),
        patches[k].start + growth(patches, k) + patches[k].replacement.len() <= applied(
            text,
            patches,
        ).len(),
        applied(text, patches).subrange(
            patches[k].start + growth(patches, k),
            patches[k].start + growth(patches, k) + patches[k].replacement.len(),
        ) == patches[k].replacement,
    decreases patches.len(),
{
    lemma_applied_len(text, patches);
    let n = patches.len() as int;
    let last = patches.last();
    let front = patches.drop_last();
    let head = text.take(last.start);
    lemma_front_in_order(text.len() as int, patches);
    lemma_applied_len(head, front);
    lemma_growth_front(patches, n - 1);
    let out = applied(text, patches);
    let at = patches[k].start + growth(patches, k);
    if k < n - 1 {
        assert(front[k] == patches[k]);
        lemma_replacement_stands(head, front, k);
        lemma_growth_front(patches, k);
        assert(out.subrange(at, at + patches[k].replacement.len()) =~= applied(
            head,
            front,
        ).subrange(at, at + patches[k].replacement.len()));
    } else {
        assert(out.subrange(at, at + last.replacement.len()) =~= last.replacement);
    }
}

proof fn lemma_applied_more_text(text: Seq<u8>, patches: Seq<PatchView>, c1: int, c2: int)
    requires
        in_order(c1, patches),
        0 <= c1 <= c2 <= text.len(),
    ensures
        applied(text.take(c2), patches) == applied(text.take(c1), patches) + text.subrange(c1, c2),
{
    if patches.len() == 0 {
        assert(text.take(c2) =~= text.take(c1) + text.subrange(c1, c2));
    } else {
        let last = patches.last();
        assert(text.take(c2).take(last.start) =~= text.take(last.start));
        assert(text.take(c1).take(last.start) =~= text.take(last.start));
        assert(text.take(c2).skip(last.end) =~= text.take(c1).skip(last.end) + text.subrange(
            c1,
            c2,
        ));
        let front = applied(text.take(last.start), patches.drop_last());
        assert(front + last.replacement + (text.take(c1).skip(last.end) + text.subrange(c1, c2))
            =~= front + last.replacement + text.take(c1).skip(last.end) + text.subrange(c1, c2));
    }
}

/// Applies the patches to a text in one pass from left to right: the bytes
/// between the patches are copied as they are, each patched stretch gives
/// way to its replacement.
pub fn apply_patches(text: &[u8], patches: &Vec<Patch>) -> (out: Vec<u8>)
    requires
        in_order(text@.len() as int, patch_views(patches@)),
    ensures
        out@ == applied(text@, patch_views(patches@)),
{
    let ghost views = patch_views(patches@);
    let mut out: Vec<u8> = Vec::new();
    let mut cursor: usize = 0;
    let mut k: usize = 0;
    assert(text@.take(0) =~= Seq::<u8>::empty());
    assert(views.take(0) =~= Seq::<PatchView>::empty());
    while k < patches.len()
        invariant
            k <= patches.len(),
            views == patch_views(patches@),
            in_order(text@.len() as int, views),
            cursor <= text@.len(),
            cursor == gap_start(views, k as int),
            out@ == applied(text@.take(cursor as int), views.take(k as int)),
        decreases patches.len() - k,
    {
        let patch = &patches[k];
        proof {
            assert(views[k as int] == patch@);
            if k > 0 {
                assert(views[k - 1].end <= views[k as int].start);
            }
            let done = views.take(k as int);
            assert(in_order(cursor as int, done)) by {
                assert forall|j: int| 0 <= j < done.len() implies 0 <= (#[trigger] done[j]).start
                    <= done[j].end <= cursor by {
                    assert(done[j] == views[j]);
                    if j < k - 1 {
                        assert(views[j].end <= views[k - 1].start);
                    }
                }
                assert forall|j: int, m: int| 0 <= j < m < done.len() implies (
                #[trigger] done[j]).end <= (#[trigger] done[m]).start by {
                    assert(done[j] == views[j] && done[m] == views[m]);
                }
            }
            lemma_applied_more_text(text@, done, cursor as int, patch.start as int);
            let next = views.take(k + 1);
            assert(next.last() == patch@);
            assert(next.drop_last() =~= done);
            assert(text@.take(patch.end as int).take(patch.start as int) =~= text@.take(
                patch.start as int,
            ));
            assert(text@.take(patch.end as int).skip(patch.end as int) =~= Seq::<u8>::empty());
        }
        push_all(&mut out, slice_subrange(text, cursor, patch.start));
        push_all(&mut out, patch.replacement.as_slice());
        proof {
            assert(out@ =~= applied(text@.take(patch.end as int), views.take(k + 1)));
        }
        cursor = patch.end;
        k += 1;
    }
    proof {
        assert(views.take(k as int) =~= views);
        let done = views;
        assert(in_order(cursor as int, done)) by {
            assert forall|j: int| 0 <= j < done.len() implies 0 <= (#[trigger] done[j]).start
                <= done[j].end <= cursor by {
                if j < k - 1 {
                    assert(views[j].end <= views[k - 1].start);
                }
            }
        }
        lemma_applied_more_text(text@, views, cursor as int, text@.len() as int);
        assert(text@.take(text@.len() as int) =~= text@);
    }
    push_all(&mut out, slice_subrange(text, cursor, text.len()));
    out
}

} // verus!
