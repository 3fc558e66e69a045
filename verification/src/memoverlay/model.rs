use vstd::prelude::*;

use crate::patch::PatchView;
use crate::patch_layer::lemmas::{
    lemma_covering_none, lemma_disjoint_order, lemma_least_index, lemma_search, lemma_with_patch,
};
use crate::patch_layer::{
    admits, all_wf, covering, next_after, non_overlapping, sorted_by_key, with_patch,
};

verus! {

/// A layer of the stack: it is not empty, its patches are well formed and
/// sorted by key, and no two of them overlap.
pub open spec fn layer_ok(layer: Seq<PatchView>) -> bool {
    layer.len() > 0 && all_wf(layer) && sorted_by_key(layer) && non_overlapping(layer)
}

/// Some layer of the stack holds `patch`.
pub open spec fn holds(layers: Seq<Seq<PatchView>>, patch: PatchView) -> bool {
    exists|l: int| 0 <= l < layers.len() && (#[trigger] layers[l]).contains(patch)
}

/// The first offset after every patch of the stack, 0 where it has none.
pub open spec fn overlay_end(layers: Seq<Seq<PatchView>>) -> int
    decreases layers.len(),
{
    if layers.len() == 0 {
        0
    } else {
        let rest = overlay_end(layers.drop_last());
        let end = layers.last().last().end();
        if end > rest {
            end
        } else {
            rest
        }
    }
}

/// The length of the data: the base or the patches, whichever reaches further.
pub open spec fn total_len(base: Seq<u8>, layers: Seq<Seq<PatchView>>) -> int {
    if overlay_end(layers) > base.len() {
        overlay_end(layers)
    } else {
        base.len() as int
    }
}

/// Some layer of the stack covers `offset`.
pub open spec fn covered(layers: Seq<Seq<PatchView>>, offset: int) -> bool {
    exists|l: int| 0 <= l < layers.len() && (#[trigger] covering(layers[l], offset)).is_some()
}

/// A base with a stack of layers over it: every layer is in order, and what
/// lies beyond the base is covered by a patch, so that the data has no hole.
pub open spec fn stack_wf(base: Seq<u8>, layers: Seq<Seq<PatchView>>) -> bool {
    &&& base.len() <= u64::MAX
    &&& forall|l: int| 0 <= l < layers.len() ==> layer_ok(#[trigger] layers[l])
    &&& forall|i: int| base.len() <= i < overlay_end(layers) ==> #[trigger] covered(layers, i)
}

/// `l` is the front-most layer that covers `offset`.
pub open spec fn is_front_cover(layers: Seq<Seq<PatchView>>, offset: int, l: int) -> bool {
    &&& 0 <= l < layers.len()
    &&& covering(layers[l], offset).is_some()
    &&& forall|m: int| 0 <= m < l ==> (#[trigger] covering(layers[m], offset)).is_none()
}

/// The patch that decides the byte at `offset`: the one that covers it in the
/// front-most layer that covers it.
pub open spec fn front_patch(layers: Seq<Seq<PatchView>>, offset: int) -> Option<PatchView> {
    if exists|l: int| is_front_cover(layers, offset, l) {
        covering(layers[choose|l: int| is_front_cover(layers, offset, l)], offset)
    } else {
        None
    }
}

/// The byte of the data at `offset`.
pub open spec fn composite_byte(base: Seq<u8>, layers: Seq<Seq<PatchView>>, offset: int) -> u8 {
    match front_patch(layers, offset) {
        Some(patch) => patch.byte_at(offset),
        None => base[offset],
    }
}

/// The data: the base with the patches of every layer laid over it, a layer
/// nearer to the front over those behind it.
pub open spec fn composite(base: Seq<u8>, layers: Seq<Seq<PatchView>>) -> Seq<u8> {
    Seq::new(total_len(base, layers) as nat, |i: int| composite_byte(base, layers, i))
}

/// `l` is the front-most layer that admits `patch`.
pub open spec fn is_first_admitting(layers: Seq<Seq<PatchView>>, patch: PatchView, l: int) -> bool {
    &&& 0 <= l < layers.len()
    &&& admits(layers[l], patch)
    &&& forall|m: int| 0 <= m < l ==> !admits(#[trigger] layers[m], patch)
}

/// The stack after a write of `patch`: the patch joins the front-most layer
/// that admits it, and where none does it makes a new layer at the front.
pub open spec fn place(layers: Seq<Seq<PatchView>>, patch: PatchView) -> Seq<Seq<PatchView>> {
    if exists|l: int| is_first_admitting(layers, patch, l) {
        let l = choose|l: int| is_first_admitting(layers, patch, l);
        layers.update(l, with_patch(layers[l], patch))
    } else {
        seq![seq![patch]] + layers
    }
}

/// `data` with `bytes` written over it at `offset`, longer than `data` where
/// the bytes reach beyond its end.
pub open spec fn splice(data: Seq<u8>, offset: int, bytes: Seq<u8>) -> Seq<u8>
    recommends
        0 <= offset <= data.len(),
{
    if offset + bytes.len() >= data.len() {
        data.subrange(0, offset) + bytes
    } else {
        data.subrange(0, offset) + bytes + data.subrange(
            offset + bytes.len(),
            data.len() as int,
        )
    }
}

/// The least offset after `offset` at which a patch of the stack begins.
pub open spec fn next_start(layers: Seq<Seq<PatchView>>, offset: int) -> Option<int>
    decreases layers.len(),
{
    if layers.len() == 0 {
        None
    } else {
        let rest = next_start(layers.drop_last(), offset);
        match next_after(layers.last(), offset) {
            None => rest,
            Some(patch) => match rest {
                None => Some(patch.begin()),
                Some(begin) => if patch.begin() < begin {
                    Some(patch.begin())
                } else {
                    rest
                },
            },
        }
    }
}

/// Where the chunk that starts at `offset` ends: where its source ends, the
/// front patch or else the base, or where the next patch begins, whichever
/// comes first.
pub open spec fn chunk_end(base: Seq<u8>, layers: Seq<Seq<PatchView>>, offset: int) -> int {
    let source_end = match front_patch(layers, offset) {
        Some(patch) => patch.end(),
        None => base.len() as int,
    };
    match next_start(layers, offset) {
        Some(begin) => if begin < source_end {
            begin
        } else {
            source_end
        },
        None => source_end,
    }
}

/// How many bytes one chunk that starts at `offset` puts into a buffer of
/// `capacity` bytes.
pub open spec fn chunk_len(
    base: Seq<u8>,
    layers: Seq<Seq<PatchView>>,
    offset: int,
    capacity: int,
) -> int {
    let room = chunk_end(base, layers, offset) - offset;
    if room <= 0 {
        0
    } else if capacity < room {
        capacity
    } else {
        room
    }
}

/// The end of the overlay is the greatest end of a patch.
pub proof fn lemma_overlay_end(layers: Seq<Seq<PatchView>>)
    requires
        forall|l: int| 0 <= l < layers.len() ==> layer_ok(#[trigger] layers[l]),
    ensures
        0 <= overlay_end(layers) <= u64::MAX,
        forall|p: PatchView| #[trigger] holds(layers, p) ==> p.end() <= overlay_end(layers),
        layers.len() > 0 ==> exists|p: PatchView| #[trigger]
            holds(layers, p) && p.end() == overlay_end(layers),
    decreases layers.len(),
{
    if layers.len() > 0 {
        let rest = layers.drop_last();
        let top = layers.last();
        assert(layer_ok(top));
        assert forall|l: int| 0 <= l < rest.len() implies layer_ok(#[trigger] rest[l]) by {
            assert(rest[l] == layers[l]);
        }
        lemma_overlay_end(rest);
        assert(top.last().wf());
        assert forall|p: PatchView| #[trigger] holds(layers, p) implies p.end() <= overlay_end(
            layers,
        ) by {
            let l = choose|l: int| 0 <= l < layers.len() && (#[trigger] layers[l]).contains(p);
            if l < rest.len() {
                assert(rest[l].contains(p));
                assert(holds(rest, p));
            } else {
                let k = choose|k: int| 0 <= k < top.len() && top[k] == p;
                if k < top.len() - 1 {
                    lemma_disjoint_order(top, k, top.len() - 1);
                }
            }
        }
        if overlay_end(layers) == top.last().end() {
            assert(top.contains(top.last())) by {
                assert(top[top.len() - 1] == top.last());
            }
            assert(holds(layers, top.last())) by {
                assert(layers[layers.len() - 1].contains(top.last()));
            }
        } else {
            let p = choose|p: PatchView| #[trigger] holds(rest, p) && p.end() == overlay_end(rest);
            let l = choose|l: int| 0 <= l < rest.len() && (#[trigger] rest[l]).contains(p);
            assert(layers[l].contains(p));
            assert(holds(layers, p));
        }
    }
}

/// A layer that covers an offset, with none before it that does, holds the
/// front patch of that offset.
pub proof fn lemma_front_patch(layers: Seq<Seq<PatchView>>, offset: int, l: int)
    requires
        is_front_cover(layers, offset, l),
    ensures
        front_patch(layers, offset) == covering(layers[l], offset),
{
    let c = choose|c: int| is_front_cover(layers, offset, c);
    if c < l {
        assert(covering(layers[c], offset).is_none());
    } else if l < c {
        assert(covering(layers[l], offset).is_none());
    }
}

/// An offset has a front patch exactly where some layer covers it.
pub proof fn lemma_front_patch_covered(layers: Seq<Seq<PatchView>>, offset: int)
    ensures
        front_patch(layers, offset).is_some() <==> covered(layers, offset),
        front_patch(layers, offset) matches Some(p) ==> p.contains(offset) && holds(layers, p),
{
    if covered(layers, offset) {
        let k = choose|l: int|
            0 <= l < layers.len() && (#[trigger] covering(layers[l], offset)).is_some();
        let p = |l: int| 0 <= l < layers.len() && covering(layers[l], offset).is_some();
        let l = lemma_least_index(p, k);
        assert(is_front_cover(layers, offset, l)) by {
            assert forall|m: int| 0 <= m < l implies (#[trigger] covering(
                layers[m],
                offset,
            )).is_none() by {
                assert(!p(m));
            }
        }
        lemma_front_patch(layers, offset, l);
        lemma_covering_none(layers[l], offset);
        assert(layers[l].contains(front_patch(layers, offset).unwrap()));
    } else {
        assert forall|l: int| !is_front_cover(layers, offset, l) by {
            if is_front_cover(layers, offset, l) {
                assert(covering(layers[l], offset).is_some());
            }
        }
    }
}

/// The next start is the least begin of a patch after `offset`: no layer
/// reports a next patch before it, every patch that begins after `offset`
/// begins at it or later, and some patch begins at it.
pub proof fn lemma_next_start(layers: Seq<Seq<PatchView>>, offset: int)
    requires
        forall|l: int| 0 <= l < layers.len() ==> layer_ok(#[trigger] layers[l]),
    ensures
        next_start(layers, offset) matches Some(b) ==> b > offset && exists|p: PatchView| #[trigger]
            holds(layers, p) && p.begin() == b,
        forall|l: int|
            0 <= l < layers.len() && (#[trigger] next_after(layers[l], offset)).is_some()
                ==> next_start(layers, offset).is_some() && next_start(layers, offset).unwrap()
                <= next_after(layers[l], offset).unwrap().begin(),
        forall|p: PatchView| #[trigger]
            holds(layers, p) && p.begin() > offset ==> next_start(layers, offset).is_some()
                && next_start(layers, offset).unwrap() <= p.begin(),
    decreases layers.len(),
{
    if layers.len() > 0 {
        let rest = layers.drop_last();
        let top = layers.last();
        assert forall|l: int| 0 <= l < rest.len() implies layer_ok(#[trigger] rest[l]) by {
            assert(rest[l] == layers[l]);
        }
        lemma_next_start(rest, offset);
        assert(layer_ok(top));
        lemma_search(top, offset);
        if next_start(layers, offset).is_some() {
            let b = next_start(layers, offset).unwrap();
            if next_after(top, offset).is_some() && next_after(top, offset).unwrap().begin() == b {
                let q = next_after(top, offset).unwrap();
                assert(top.contains(q));
                assert(layers[layers.len() - 1].contains(q));
                assert(holds(layers, q));
            } else {
                let p = choose|p: PatchView| #[trigger] holds(rest, p) && p.begin() == b;
                let l = choose|l: int| 0 <= l < rest.len() && (#[trigger] rest[l]).contains(p);
                assert(layers[l].contains(p));
                assert(holds(layers, p));
            }
        }
        assert forall|l: int|
            0 <= l < layers.len() && (#[trigger] next_after(layers[l], offset)).is_some()
            implies next_start(layers, offset).is_some() && next_start(layers, offset).unwrap()
            <= next_after(layers[l], offset).unwrap().begin() by {
            if l < rest.len() {
                assert(rest[l] == layers[l]);
                assert(next_after(rest[l], offset).is_some());
            }
        }
        assert forall|p: PatchView| #[trigger]
            holds(layers, p) && p.begin() > offset implies next_start(layers, offset).is_some()
            && next_start(layers, offset).unwrap() <= p.begin() by {
            let l = choose|l: int| 0 <= l < layers.len() && (#[trigger] layers[l]).contains(p);
            if l < rest.len() {
                assert(rest[l].contains(p));
                assert(holds(rest, p));
            } else {
                let k = choose|k: int| 0 <= k < top.len() && top[k] == p;
                assert(top[k].begin() > offset);
            }
        }
    }
}

/// One chunk holds bytes of one source. Up to the end of the chunk that
/// starts at `offset`, the front patch is the front patch of `offset`. The
/// chunk ends within the data, and is not empty where data is left.
pub proof fn lemma_chunk(base: Seq<u8>, layers: Seq<Seq<PatchView>>, offset: int)
    requires
        stack_wf(base, layers),
        0 <= offset,
    ensures
        chunk_end(base, layers, offset) <= total_len(base, layers),
        offset < total_len(base, layers) ==> offset < chunk_end(base, layers, offset),
        forall|i: int|
            offset <= i < chunk_end(base, layers, offset) ==> #[trigger] front_patch(layers, i)
                == front_patch(layers, offset),
        front_patch(layers, offset) matches Some(p) ==> p.contains(offset) && p.wf(),
{
    lemma_overlay_end(layers);
    lemma_next_start(layers, offset);
    lemma_front_patch_covered(layers, offset);
    let end = chunk_end(base, layers, offset);
    if front_patch(layers, offset).is_some() {
        let p = front_patch(layers, offset).unwrap();
        let l = choose|l: int| 0 <= l < layers.len() && (#[trigger] layers[l]).contains(p);
        assert(layer_ok(layers[l]));
        let k = choose|k: int| 0 <= k < layers[l].len() && layers[l][k] == p;
        assert(layers[l][k].wf());
    } else if offset < total_len(base, layers) {
        if offset >= base.len() {
            assert(covered(layers, offset));
        }
    }
    assert forall|i: int| offset <= i < end implies #[trigger] front_patch(layers, i)
        == front_patch(layers, offset) by {
        assert forall|l: int| 0 <= l < layers.len() implies #[trigger] covering(layers[l], i) == (
        if covering(layers[l], offset) matches Some(c) && i < c.end() {
            covering(layers[l], offset)
        } else {
            None
        }) by {
            assert(layer_ok(layers[l]));
            lemma_search(layers[l], offset);
            if next_after(layers[l], offset).is_some() {
                assert(next_start(layers, offset).unwrap() <= next_after(
                    layers[l],
                    offset,
                ).unwrap().begin());
            }
        }
        if front_patch(layers, offset).is_some() {
            let c = choose|c: int| is_front_cover(layers, offset, c);
            assert(is_front_cover(layers, i, c)) by {
                assert forall|m: int| 0 <= m < c implies (#[trigger] covering(
                    layers[m],
                    i,
                )).is_none() by {
                    assert(covering(layers[m], offset).is_none());
                }
            }
            lemma_front_patch(layers, i, c);
        } else {
            lemma_front_patch_covered(layers, i);
            assert forall|l: int| 0 <= l < layers.len() implies (#[trigger] covering(
                layers[l],
                i,
            )).is_none() by {
                assert(!covered(layers, offset));
                assert(covering(layers[l], offset).is_none());
            }
        }
    }
}

/// The index of the layer that a write of `patch` changes or makes: of the
/// front-most layer that admits the patch, and 0 where none does.
pub open spec fn landing(layers: Seq<Seq<PatchView>>, patch: PatchView) -> int {
    if exists|l: int| is_first_admitting(layers, patch, l) {
        choose|l: int| is_first_admitting(layers, patch, l)
    } else {
        0
    }
}

/// Whether a layer in front of the layer that `patch` lands in covers
/// `offset`, so that a read finds the older byte there.
pub open spec fn masked(layers: Seq<Seq<PatchView>>, patch: PatchView, offset: int) -> bool {
    exists|m: int|
        0 <= m < landing(layers, patch) && (#[trigger] covering(layers[m], offset)).is_some()
}

/// The data after a write of `patch`. A byte of the patch shows where no
/// layer in front of the landing layer covers it. Everywhere else the data is
/// as it was.
pub open spec fn written(base: Seq<u8>, layers: Seq<Seq<PatchView>>, patch: PatchView) -> Seq<u8> {
    let data = composite(base, layers);
    let len = if patch.end() > data.len() {
        patch.end()
    } else {
        data.len() as int
    };
    Seq::new(
        len as nat,
        |i: int|
            if patch.contains(i) && !masked(layers, patch, i) {
                patch.byte_at(i)
            } else {
                data[i]
            },
    )
}

/// The front-most layer that admits a patch is the one that the patch lands
/// in.
pub proof fn lemma_landing(layers: Seq<Seq<PatchView>>, patch: PatchView, l: int)
    requires
        is_first_admitting(layers, patch, l),
    ensures
        landing(layers, patch) == l,
        place(layers, patch) == layers.update(l, with_patch(layers[l], patch)),
{
    let c = choose|c: int| is_first_admitting(layers, patch, c);
    if c < l {
        assert(!admits(layers[c], patch));
    } else if l < c {
        assert(!admits(layers[l], patch));
    }
}

/// Where no layer admits a patch, the patch makes a new layer at the front.
pub proof fn lemma_landing_in_front(layers: Seq<Seq<PatchView>>, patch: PatchView)
    requires
        forall|l: int| 0 <= l < layers.len() ==> !admits(#[trigger] layers[l], patch),
    ensures
        landing(layers, patch) == 0,
        place(layers, patch) == seq![seq![patch]] + layers,
{
    assert forall|l: int| !is_first_admitting(layers, patch, l) by {
        if is_first_admitting(layers, patch, l) {
            assert(admits(layers[l], patch));
        }
    }
}

/// A patch lands in the front-most layer that admits it, or in a new layer
/// where no layer admits it.
pub proof fn lemma_place_cases(layers: Seq<Seq<PatchView>>, patch: PatchView) -> (l: int)
    ensures
        l == landing(layers, patch),
        is_first_admitting(layers, patch, l) || (l == 0 && forall|m: int|
            0 <= m < layers.len() ==> !admits(#[trigger] layers[m], patch)),
        is_first_admitting(layers, patch, l) ==> place(layers, patch) == layers.update(
            l,
            with_patch(layers[l], patch),
        ),
        !is_first_admitting(layers, patch, l) ==> place(layers, patch) == seq![seq![patch]]
            + layers,
{
    if exists|k: int| 0 <= k < layers.len() && admits(#[trigger] layers[k], patch) {
        let k = choose|k: int| 0 <= k < layers.len() && admits(#[trigger] layers[k], patch);
        let p = |m: int| 0 <= m < layers.len() && admits(layers[m], patch);
        let l = lemma_least_index(p, k);
        assert(is_first_admitting(layers, patch, l)) by {
            assert forall|m: int| 0 <= m < l implies !admits(#[trigger] layers[m], patch) by {
                assert(!p(m));
            }
        }
        lemma_landing(layers, patch, l);
        l
    } else {
        lemma_landing_in_front(layers, patch);
        assert(!is_first_admitting(layers, patch, 0)) by {
            if is_first_admitting(layers, patch, 0) {
                assert(admits(layers[0], patch));
            }
        }
        0
    }
}

/// What a write does to the stack. The stack stays well formed. It holds the
/// patch beside what it held. Its end is the end of the patch where that
/// lies further. A layer covers what it covered, and the layer that the
/// patch landed in covers what the patch contains as well.
pub proof fn lemma_place(base: Seq<u8>, layers: Seq<Seq<PatchView>>, patch: PatchView)
    requires
        stack_wf(base, layers),
        patch.wf(),
        patch.begin() <= total_len(base, layers),
    ensures
        stack_wf(base, place(layers, patch)),
        forall|q: PatchView| #[trigger]
            holds(place(layers, patch), q) <==> q == patch || holds(layers, q),
        overlay_end(place(layers, patch)) == (if patch.end() > overlay_end(layers) {
            patch.end()
        } else {
            overlay_end(layers)
        }),
        forall|i: int| #[trigger]
            front_patch(place(layers, patch), i) == (if patch.contains(i) && !masked(
                layers,
                patch,
                i,
            ) {
                Some(patch)
            } else {
                front_patch(layers, i)
            }),
{
    let after = place(layers, patch);
    let l = lemma_place_cases(layers, patch);
    let joined = is_first_admitting(layers, patch, l);
    // the layer of `after` that stands for the layer `m` of `layers`
    let shift = if joined {
        0int
    } else {
        1int
    };
    let landed = if joined {
        with_patch(layers[l], patch)
    } else {
        seq![patch]
    };
    assert(after[l] == landed);
    assert(after.len() == layers.len() + shift);
    if joined {
        assert(layer_ok(layers[l]));
        lemma_with_patch(layers[l], patch);
    } else {
        assert(landed.contains(patch)) by {
            assert(landed[0] == patch);
        }
        assert forall|q: PatchView| #[trigger] landed.contains(q) implies q == patch by {
            let k = choose|k: int| 0 <= k < landed.len() && landed[k] == q;
        }
    }
    assert forall|i: int| #[trigger]
        covering(landed, i) == (if patch.contains(i) {
            Some(patch)
        } else if joined {
            covering(layers[l], i)
        } else {
            None
        }) by {
        if !joined {
            lemma_covering_none(landed, i);
            if patch.contains(i) {
                assert(landed[0].contains(i));
            } else {
                assert forall|k: int| 0 <= k < landed.len() implies !(#[trigger] landed[k])
                    .contains(i) by {}
            }
        }
    }
    assert forall|m: int| 0 <= m < after.len() implies layer_ok(#[trigger] after[m]) by {
        if m != l {
            if joined {
                assert(after[m] == layers[m]);
            } else {
                assert(after[m] == layers[m - 1]);
            }
        }
    }
    assert forall|q: PatchView| #[trigger] holds(after, q) <==> q == patch || holds(
        layers,
        q,
    ) by {
        if holds(after, q) {
            let m = choose|m: int| 0 <= m < after.len() && (#[trigger] after[m]).contains(q);
            if m == l {
                if joined && q != patch {
                    assert(layers[l].contains(q));
                }
            } else {
                assert(after[m] == layers[m - shift]);
                assert(layers[m - shift].contains(q));
            }
        }
        if q == patch {
            assert(after[l].contains(q));
        }
        if holds(layers, q) {
            let m = choose|m: int| 0 <= m < layers.len() && (#[trigger] layers[m]).contains(q);
            if joined && m == l {
                assert(after[l].contains(q));
            } else {
                assert(after[m + shift] == layers[m]);
                assert(after[m + shift].contains(q));
            }
        }
    }
    lemma_overlay_end(layers);
    lemma_overlay_end(after);
    let end = overlay_end(layers);
    let new_end = overlay_end(after);
    assert(new_end == (if patch.end() > end {
        patch.end()
    } else {
        end
    })) by {
        assert(holds(after, patch));
        if layers.len() > 0 {
            let p = choose|p: PatchView| #[trigger] holds(layers, p) && p.end() == end;
            assert(holds(after, p));
        }
        let q = choose|q: PatchView| #[trigger] holds(after, q) && q.end() == new_end;
        assert(q == patch || holds(layers, q));
    }
    assert forall|i: int| base.len() <= i < new_end implies #[trigger] covered(after, i) by {
        if i < end {
            assert(covered(layers, i));
            let m = choose|m: int|
                0 <= m < layers.len() && (#[trigger] covering(layers[m], i)).is_some();
            if joined && m == l {
                assert(covering(after[l], i).is_some());
            } else {
                assert(after[m + shift] == layers[m]);
                assert(covering(after[m + shift], i).is_some());
            }
        } else {
            assert(patch.contains(i));
            assert(covering(after[l], i).is_some());
        }
    }
    assert forall|i: int| #[trigger]
        front_patch(after, i) == (if patch.contains(i) && !masked(layers, patch, i) {
            Some(patch)
        } else {
            front_patch(layers, i)
        }) by {
        lemma_front_patch_covered(layers, i);
        lemma_front_patch_covered(after, i);
        let hidden = masked(layers, patch, i);
        if hidden {
            // a layer in front of the landing layer covers `i`, before and after
            let c = choose|c: int| is_front_cover(layers, i, c);
            let m = choose|m: int|
                0 <= m < l && (#[trigger] covering(layers[m], i)).is_some();
            assert(covered(layers, i));
            if c >= l {
                assert(covering(layers[m], i).is_none());
            }
            assert(is_front_cover(after, i, c)) by {
                assert(after[c] == layers[c]);
                assert forall|k: int| 0 <= k < c implies (#[trigger] covering(
                    after[k],
                    i,
                )).is_none() by {
                    assert(after[k] == layers[k]);
                    assert(covering(layers[k], i).is_none());
                }
            }
            lemma_front_patch(after, i, c);
        } else if patch.contains(i) {
            assert(is_front_cover(after, i, l)) by {
                assert forall|k: int| 0 <= k < l implies (#[trigger] covering(
                    after[k],
                    i,
                )).is_none() by {
                    assert(after[k] == layers[k]);
                    if covering(layers[k], i).is_some() {
                        assert(masked(layers, patch, i));
                    }
                }
            }
            lemma_front_patch(after, i, l);
        } else if covered(layers, i) {
            let c = choose|c: int| is_front_cover(layers, i, c);
            let d = if joined {
                c
            } else {
                c + 1
            };
            assert(is_front_cover(after, i, d)) by {
                if joined && c == l {
                } else {
                    assert(after[d] == layers[c]);
                }
                assert forall|k: int| 0 <= k < d implies (#[trigger] covering(
                    after[k],
                    i,
                )).is_none() by {
                    if k == l {
                        if joined {
                            assert(covering(layers[l], i).is_none());
                        }
                    } else {
                        assert(after[k] == layers[k - shift]);
                        assert(covering(layers[k - shift], i).is_none());
                    }
                }
            }
            lemma_front_patch(after, i, d);
        } else {
            assert forall|k: int| 0 <= k < after.len() implies (#[trigger] covering(
                after[k],
                i,
            )).is_none() by {
                if k == l {
                    if joined {
                        assert(covering(layers[l], i).is_none());
                    }
                } else {
                    assert(after[k] == layers[k - shift]);
                    assert(covering(layers[k - shift], i).is_none());
                }
            }
            if covered(after, i) {
                let k = choose|k: int|
                    0 <= k < after.len() && (#[trigger] covering(after[k], i)).is_some();
                assert(covering(after[k], i).is_none());
            }
        }
    }
}

} // verus!
