use vstd::prelude::*;

use super::model::{
    composite, composite_byte, front_patch, holds, landing, lemma_front_patch_covered,
    lemma_overlay_end, lemma_place, lemma_place_cases, masked, place, splice, stack_wf,
    total_len, written,
};
use super::seek::SeekFrom;
use super::MemOverlay;
use crate::patch::PatchView;
use crate::patch_layer::covering;
use crate::patch_layer::lemmas::lemma_covering_none;

verus! {

/// A base without patches reads as itself.
pub proof fn theorem_unpatched_data_is_base(base: Seq<u8>)
    ensures
        composite(base, Seq::empty()) == base,
{
    let layers = Seq::<Seq<PatchView>>::empty();
    assert forall|i: int| 0 <= i < base.len() implies composite_byte(base, layers, i)
        == base[i] by {
        lemma_front_patch_covered(layers, i);
    }
    assert(composite(base, layers) =~= base);
}

/// What a write does to the data: the bytes of the patch show where they are
/// not masked, and nothing else changes.
pub proof fn theorem_write_changes_data(
    base: Seq<u8>,
    layers: Seq<Seq<PatchView>>,
    patch: PatchView,
)
    requires
        stack_wf(base, layers),
        patch.wf(),
        patch.begin() <= total_len(base, layers),
    ensures
        composite(base, place(layers, patch)) == written(base, layers, patch),
{
    lemma_place(base, layers, patch);
    lemma_overlay_end(layers);
    let after = place(layers, patch);
    let expected = written(base, layers, patch);
    assert forall|i: int| 0 <= i < expected.len() implies composite_byte(base, after, i)
        == expected[i] by {
        if patch.contains(i) && !masked(layers, patch, i) {
            assert(front_patch(after, i) == Some(patch));
        } else {
            assert(front_patch(after, i) == front_patch(layers, i));
            if patch.contains(i) {
                // a masked byte lies under a patch of the old stack, within the old data
                let m = choose|m: int|
                    0 <= m < landing(layers, patch) && (#[trigger] covering(
                        layers[m],
                        i,
                    )).is_some();
                lemma_covering_none(layers[m], i);
                let q = covering(layers[m], i).unwrap();
                assert(layers[m].contains(q));
                assert(holds(layers, q));
            }
        }
    }
    assert(composite(base, after) =~= expected);
}

/// The last write wins, where no older layer hides it. A write of a patch no
/// byte of which is masked changes the data as a splice does: the bytes of
/// the patch stand at its offset, and the rest of the data is as before.
pub proof fn theorem_unmasked_write_splices(
    base: Seq<u8>,
    layers: Seq<Seq<PatchView>>,
    patch: PatchView,
)
    requires
        stack_wf(base, layers),
        patch.wf(),
        patch.begin() <= total_len(base, layers),
        forall|i: int| patch.contains(i) ==> !#[trigger] masked(layers, patch, i),
    ensures
        composite(base, place(layers, patch)) == splice(
            composite(base, layers),
            patch.begin(),
            patch.bytes,
        ),
{
    theorem_write_changes_data(base, layers, patch);
    lemma_overlay_end(layers);
    assert(written(base, layers, patch) =~= splice(
        composite(base, layers),
        patch.begin(),
        patch.bytes,
    ));
}

/// A write into a stack of at most one layer is never masked: the patch
/// joins the one layer, or makes a new one in front of it.
pub proof fn theorem_shallow_stack_never_masks(layers: Seq<Seq<PatchView>>, patch: PatchView)
    requires
        layers.len() <= 1,
    ensures
        landing(layers, patch) == 0,
        forall|i: int| !#[trigger] masked(layers, patch, i),
{
    let l = lemma_place_cases(layers, patch);
}

/// The first write to an overlay splices its bytes into the base. Where the
/// patch ends within the base, the data keeps the length of the base. Where
/// it reaches beyond, the data ends with the patch.
pub proof fn theorem_first_write(base: Seq<u8>, patch: PatchView)
    requires
        base.len() <= u64::MAX,
        patch.wf(),
        patch.begin() <= base.len(),
    ensures
        stack_wf(base, place(Seq::empty(), patch)),
        composite(base, place(Seq::empty(), patch)) == splice(base, patch.begin(), patch.bytes),
        patch.end() <= base.len() ==> composite(base, place(Seq::empty(), patch))
            == base.subrange(0, patch.begin()) + patch.bytes + base.subrange(
            patch.end(),
            base.len() as int,
        ),
        patch.end() > base.len() ==> composite(base, place(Seq::empty(), patch)).len()
            == patch.end(),
{
    let none = Seq::<Seq<PatchView>>::empty();
    theorem_unpatched_data_is_base(base);
    theorem_shallow_stack_never_masks(none, patch);
    theorem_unmasked_write_splices(base, none, patch);
    lemma_place(base, none, patch);
    let spliced = splice(base, patch.begin(), patch.bytes);
    if patch.end() <= base.len() {
        assert(spliced =~= base.subrange(0, patch.begin()) + patch.bytes + base.subrange(
            patch.end(),
            base.len() as int,
        ));
    }
}

/// Of two writes to a fresh overlay the second wins. Where the second patch
/// lies, its bytes are read. Where only the first lies, the bytes of the
/// first are read. Elsewhere the base is read. This holds whichever of the
/// two is longer or begins first, and whether they overlap or not.
pub proof fn theorem_second_write_wins(base: Seq<u8>, first: PatchView, second: PatchView)
    requires
        base.len() <= u64::MAX,
        first.wf(),
        second.wf(),
        first.begin() <= base.len(),
        second.begin() <= base.len() || second.begin() <= first.end(),
    ensures
        stack_wf(base, place(place(Seq::empty(), first), second)),
        composite(base, place(place(Seq::empty(), first), second)) == splice(
            splice(base, first.begin(), first.bytes),
            second.begin(),
            second.bytes,
        ),
        forall|i: int|
            0 <= i < composite(base, place(place(Seq::empty(), first), second)).len()
                ==> #[trigger] composite(base, place(place(Seq::empty(), first), second))[i] == (
            if second.contains(i) {
                second.byte_at(i)
            } else if first.contains(i) {
                first.byte_at(i)
            } else {
                base[i]
            }),
{
    let none = Seq::<Seq<PatchView>>::empty();
    let one = place(none, first);
    theorem_first_write(base, first);
    let l = lemma_place_cases(none, first);
    assert(one.len() == 1);
    lemma_place(base, none, first);
    lemma_place(base, one, second);
    theorem_shallow_stack_never_masks(one, second);
    theorem_unmasked_write_splices(base, one, second);
}

/// Two patches that do not overlap both show in the data, whichever was
/// written first.
pub proof fn theorem_disjoint_writes_commute(base: Seq<u8>, a: PatchView, b: PatchView)
    requires
        base.len() <= u64::MAX,
        a.wf(),
        b.wf(),
        a.begin() <= base.len(),
        b.begin() <= base.len(),
        !a.overlaps(b),
    ensures
        composite(base, place(place(Seq::empty(), a), b)) == composite(
            base,
            place(place(Seq::empty(), b), a),
        ),
        forall|i: int|
            0 <= i < composite(base, place(place(Seq::empty(), a), b)).len()
                ==> #[trigger] composite(base, place(place(Seq::empty(), a), b))[i] == (
            if a.contains(i) {
                a.byte_at(i)
            } else if b.contains(i) {
                b.byte_at(i)
            } else {
                base[i]
            }),
{
    theorem_second_write_wins(base, a, b);
    theorem_second_write_wins(base, b, a);
    let one = composite(base, place(place(Seq::empty(), a), b));
    let other = composite(base, place(place(Seq::empty(), b), a));
    assert(one.len() == other.len()) by {
        let sa = splice(base, a.begin(), a.bytes);
        let sb = splice(base, b.begin(), b.bytes);
        assert(splice(sa, b.begin(), b.bytes).len() == splice(sb, a.begin(), a.bytes).len());
    }
    assert(one =~= other);
}

/// Of two writes of one span to a fresh overlay, the bytes of the second are
/// read back, and nothing of the first.
pub proof fn theorem_same_span_last_write_wins(base: Seq<u8>, first: PatchView, second: PatchView)
    requires
        base.len() <= u64::MAX,
        first.wf(),
        second.wf(),
        first.begin() <= base.len(),
        first.key() == second.key(),
    ensures
        composite(base, place(place(Seq::empty(), first), second)) == splice(
            base,
            second.begin(),
            second.bytes,
        ),
{
    theorem_second_write_wins(base, first, second);
    assert(splice(splice(base, first.begin(), first.bytes), second.begin(), second.bytes)
        =~= splice(base, second.begin(), second.bytes));
}

/// The length of the data after a write: the patch lengthens the data where
/// it ends beyond it.
pub proof fn theorem_write_extends(base: Seq<u8>, layers: Seq<Seq<PatchView>>, patch: PatchView)
    requires
        stack_wf(base, layers),
        patch.wf(),
        patch.begin() <= total_len(base, layers),
    ensures
        total_len(base, place(layers, patch)) == (if patch.end() > total_len(base, layers) {
            patch.end()
        } else {
            total_len(base, layers)
        }),
{
    lemma_place(base, layers, patch);
}

/// The offset and the length of a patch order as its id does: the id is less
/// where the offset is less, and at one offset where the length is less, and
/// two ids are equal only where both offset and length are.
pub proof fn theorem_id_orders_as_key(a: PatchView, b: PatchView)
    requires
        a.wf(),
        b.wf(),
    ensures
        a.id() < b.id() <==> a.key_lt(b),
        a.id() == b.id() <==> a.key() == b.key(),
{
}

impl MemOverlay {
    /// An overlay of at most one layer shows every write in full.
    pub proof fn theorem_shallow_overlay_is_unmasked(self, offset: int, bytes: Seq<u8>)
        requires
            self.layers().len() <= 1,
        ensures
            self.unmasked(offset, bytes),
    {
        theorem_shallow_stack_never_masks(
            self.layers(),
            PatchView { offset: offset as nat, bytes },
        );
    }

    /// Where there is data, the last valid position is the position of its
    /// last byte.
    pub proof fn theorem_last_valid_position(self)
        requires
            self.wf(),
        ensures
            self.spec_len() > 0 ==> self.spec_last_valid_position() == self.spec_len() - 1,
            self.spec_len() <= u64::MAX,
            self@.len() == self.spec_len(),
    {
        lemma_overlay_end(self.layers());
    }

    /// A seek reaches the last valid position and nothing behind it, from
    /// the start, from the end and from the cursor.
    pub proof fn theorem_seek_boundary(self)
        requires
            self.wf(),
        ensures
            self.seek_result(SeekFrom::Start(self.spec_last_valid_position())) == Some(
                self.spec_last_valid_position(),
            ),
            self.seek_result(SeekFrom::End(0)) == Some(self.spec_last_valid_position()),
            forall|diff: i64|
                self.cursor() + diff == self.spec_last_valid_position()
                    ==> #[trigger] self.seek_result(SeekFrom::Current(diff)) == Some(
                    self.spec_last_valid_position(),
                ),
            forall|target: u64|
                target > self.spec_last_valid_position() ==> (#[trigger] self.seek_result(
                    SeekFrom::Start(target),
                )).is_none(),
            forall|diff: i64|
                diff > 0 ==> (#[trigger] self.seek_result(SeekFrom::End(diff))).is_none(),
            forall|diff: i64|
                self.cursor() + diff > self.spec_last_valid_position() ==> (
                #[trigger] self.seek_result(SeekFrom::Current(diff))).is_none(),
    {
        lemma_overlay_end(self.layers());
    }

    /// With the cursor on the last byte, a read of one byte yields one byte,
    /// and the read after it yields none.
    pub proof fn theorem_read_at_last_position(self, after: Self)
        requires
            self.wf(),
            self.spec_len() > 0,
            self.cursor() == self.spec_last_valid_position(),
            after.same_data(&self),
            after.cursor() == self.cursor() + self.read_len(1),
        ensures
            self.read_len(1) == 1,
            forall|capacity: int| 0 <= capacity ==> #[trigger] after.read_len(capacity) == 0,
    {
        lemma_overlay_end(self.layers());
    }
}

} // verus!
