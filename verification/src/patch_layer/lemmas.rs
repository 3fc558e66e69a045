use vstd::prelude::*;

use super::{
    admits, all_wf, covering, current_at, first_beyond, has_key, is_first_beyond,
    is_first_containing, is_insert_position, next_after, non_overlapping, sorted_by_key,
    with_patch,
};
use crate::patch::PatchView;

verus! {

/// A sorted layer has one place for a patch.
pub proof fn lemma_insert_position_unique(layer: Seq<PatchView>, patch: PatchView, i: int)
    requires
        is_insert_position(layer, patch, i),
    ensures
        forall|k: int| is_insert_position(layer, patch, k) ==> k == i,
        (choose|k: int| is_insert_position(layer, patch, k)) == i,
{
    assert forall|k: int| is_insert_position(layer, patch, k) implies k == i by {
        if k < i {
            assert(layer[k].key_lt(patch));
        } else if i < k {
            assert(layer[i].key_lt(patch));
        }
    }
}

/// A patch that goes in at its place leaves the layer in order.
pub proof fn lemma_insert_keeps_order(layer: Seq<PatchView>, patch: PatchView, i: int)
    requires
        all_wf(layer),
        sorted_by_key(layer),
        patch.wf(),
        is_insert_position(layer, patch, i),
        !has_key(layer, patch),
    ensures
        all_wf(layer.insert(i, patch)),
        sorted_by_key(layer.insert(i, patch)),
{
    let after = layer.insert(i, patch);
    assert forall|k: int| 0 <= k < after.len() implies (#[trigger] after[k]).wf() by {
        if k < i {
            assert(after[k] == layer[k]);
        } else if k > i {
            assert(after[k] == layer[k - 1]);
        }
    }
    assert forall|a: int, b: int| 0 <= a < b < after.len() implies (#[trigger] after[a]).key_lt(
        #[trigger] after[b],
    ) by {
        if b < i {
            assert(layer[a].key_lt(layer[b]));
        } else if b == i {
            assert(layer[a].key_lt(patch));
        } else if a == i {
            assert(!layer[b - 1].key_lt(patch));
            assert(layer[b - 1].key() != patch.key());
        } else if a < i {
            assert(layer[a].key_lt(layer[b - 1]));
        } else {
            assert(layer[a - 1].key_lt(layer[b - 1]));
        }
    }
}

/// The first patch that ends after an offset is where the search stops.
pub proof fn lemma_first_beyond(layer: Seq<PatchView>, offset: int, i: int)
    requires
        is_first_beyond(layer, offset, i),
    ensures
        first_beyond(layer, offset) == i,
{
    assert forall|k: int| is_first_beyond(layer, offset, k) implies k == i by {
        if k < i {
            assert(layer[k].end() <= offset);
        } else if i < k {
            assert(layer[i].end() <= offset);
        }
    }
}

/// Two well-formed patches with one key overlap: a layer that admits a patch
/// holds none with its key.
pub proof fn lemma_same_key_overlaps(a: PatchView, b: PatchView)
    requires
        a.wf(),
        b.wf(),
        a.key() == b.key(),
    ensures
        a.overlaps(b),
{
}

/// A layer that admits a patch takes it in.
pub proof fn lemma_admitted_is_new(layer: Seq<PatchView>, patch: PatchView)
    requires
        all_wf(layer),
        patch.wf(),
        admits(layer, patch),
    ensures
        !has_key(layer, patch),
{
    assert forall|i: int| 0 <= i < layer.len() implies (#[trigger] layer[i]).key()
        != patch.key() by {
        if layer[i].key() == patch.key() {
            lemma_same_key_overlaps(layer[i], patch);
        }
    }
}

/// In a sorted layer without overlaps, a patch ends before the next begins.
pub proof fn lemma_disjoint_order(layer: Seq<PatchView>, i: int, j: int)
    requires
        all_wf(layer),
        sorted_by_key(layer),
        non_overlapping(layer),
        0 <= i < j < layer.len(),
    ensures
        layer[i].end() <= layer[j].begin(),
{
    assert(layer[i].key_lt(layer[j]));
    assert(!layer[i].overlaps(layer[j]));
    assert(layer[i].wf() && layer[j].wf());
}

/// Where a predicate holds of some index, it holds of a least one.
pub proof fn lemma_least_index(p: spec_fn(int) -> bool, k: int) -> (i: int)
    requires
        0 <= k,
        p(k),
    ensures
        0 <= i <= k,
        p(i),
        forall|j: int| 0 <= j < i ==> !#[trigger] p(j),
    decreases k,
{
    if exists|j: int| 0 <= j < k && #[trigger] p(j) {
        let j = choose|j: int| 0 <= j < k && #[trigger] p(j);
        lemma_least_index(p, j)
    } else {
        k
    }
}

/// In a layer without overlaps, the one patch that contains an offset is the
/// patch that covers it.
pub proof fn lemma_covering_unique(layer: Seq<PatchView>, offset: int, k: int)
    requires
        non_overlapping(layer),
        0 <= k < layer.len(),
        layer[k].contains(offset),
    ensures
        covering(layer, offset) == Some(layer[k]),
{
    assert(is_first_containing(layer, offset, k)) by {
        assert forall|j: int| 0 <= j < k implies !(#[trigger] layer[j]).contains(offset) by {
            if layer[j].contains(offset) {
                assert(layer[j].overlaps(layer[k]));
            }
        }
    }
    let c = choose|i: int| is_first_containing(layer, offset, i);
    if c != k {
        assert(layer[c].overlaps(layer[k]));
    }
}

/// A layer covers an offset exactly where one of its patches contains it.
pub proof fn lemma_covering_none(layer: Seq<PatchView>, offset: int)
    ensures
        covering(layer, offset).is_none() <==> forall|k: int|
            0 <= k < layer.len() ==> !(#[trigger] layer[k]).contains(offset),
        covering(layer, offset) matches Some(p) ==> p.contains(offset) && exists|k: int|
            0 <= k < layer.len() && #[trigger] layer[k] == p,
{
    if exists|k: int| 0 <= k < layer.len() && (#[trigger] layer[k]).contains(offset) {
        let k = choose|k: int| 0 <= k < layer.len() && (#[trigger] layer[k]).contains(offset);
        let i = lemma_least_index(|j: int| 0 <= j < layer.len() && layer[j].contains(offset), k);
        assert(is_first_containing(layer, offset, i)) by {
            assert forall|j: int| 0 <= j < i implies !(#[trigger] layer[j]).contains(offset) by {
                assert(!(|j: int| 0 <= j < layer.len() && layer[j].contains(offset))(j));
            }
        }
        let c = choose|c: int| is_first_containing(layer, offset, c);
        assert(layer[c] == layer[c]);
    } else {
        assert forall|i: int| !is_first_containing(layer, offset, i) by {
            if is_first_containing(layer, offset, i) {
                assert(layer[i].contains(offset));
            }
        }
    }
}

/// What a search at `offset` finds in a sorted layer without overlaps. The
/// current patch is the patch that covers `offset`. The next patch is the
/// first that begins after `offset`. Between `offset` and the next patch the
/// layer covers what the current patch covers, and nothing else.
pub proof fn lemma_search(layer: Seq<PatchView>, offset: int)
    requires
        all_wf(layer),
        sorted_by_key(layer),
        non_overlapping(layer),
    ensures
        current_at(layer, offset) == covering(layer, offset),
        next_after(layer, offset) matches Some(q) ==> q.begin() > offset && exists|k: int|
            0 <= k < layer.len() && #[trigger] layer[k] == q,
        forall|k: int|
            0 <= k < layer.len() && (#[trigger] layer[k]).begin() > offset ==> next_after(
                layer,
                offset,
            ).is_some() && next_after(layer, offset).unwrap().begin() <= layer[k].begin(),
        forall|i: int|
            offset <= i && (next_after(layer, offset) matches Some(q) ==> i < q.begin())
                ==> #[trigger] covering(layer, i) == (if current_at(layer, offset) matches Some(c)
                && i < c.end() {
                current_at(layer, offset)
            } else {
                None
            }),
{
    let f = first_beyond(layer, offset);
    if exists|k: int| 0 <= k < layer.len() && (#[trigger] layer[k]).end() > offset {
        let k = choose|k: int| 0 <= k < layer.len() && (#[trigger] layer[k]).end() > offset;
        let i = lemma_least_index(|j: int| 0 <= j < layer.len() && layer[j].end() > offset, k);
        assert(is_first_beyond(layer, offset, i)) by {
            assert forall|j: int| 0 <= j < i implies (#[trigger] layer[j]).end() <= offset by {
                assert(!(|j: int| 0 <= j < layer.len() && layer[j].end() > offset)(j));
            }
        }
        assert(is_first_beyond(layer, offset, f));
        assert(layer[f].wf());
        if layer[f].contains(offset) {
            lemma_covering_unique(layer, offset, f);
        } else {
            lemma_covering_none(layer, offset);
            assert forall|k: int| 0 <= k < layer.len() implies !(#[trigger] layer[k]).contains(
                offset,
            ) by {
                if k < f {
                    assert(layer[k].end() <= offset);
                } else if k > f {
                    lemma_disjoint_order(layer, f, k);
                }
            }
        }
        assert forall|k: int|
            0 <= k < layer.len() && (#[trigger] layer[k]).begin() > offset implies next_after(
            layer,
            offset,
        ).is_some() && next_after(layer, offset).unwrap().begin() <= layer[k].begin() by {
            assert(layer[k].wf());
            if k < f {
                assert(layer[k].end() <= offset);
            } else if k > f {
                if k > f + 1 {
                    lemma_disjoint_order(layer, f + 1, k);
                    assert(layer[f + 1].wf());
                }
                lemma_disjoint_order(layer, f, k);
            }
        }
        if f + 1 < layer.len() {
            lemma_disjoint_order(layer, f, f + 1);
        }
        assert forall|i: int|
            offset <= i && (next_after(layer, offset) matches Some(q) ==> i < q.begin())
            implies #[trigger] covering(layer, i) == (if current_at(layer, offset) matches Some(c)
            && i < c.end() {
            current_at(layer, offset)
        } else {
            None
        }) by {
            if layer[f].contains(offset) && i < layer[f].end() {
                lemma_covering_unique(layer, i, f);
            } else {
                lemma_covering_none(layer, i);
                assert forall|k: int| 0 <= k < layer.len() implies !(#[trigger] layer[k]).contains(
                    i,
                ) by {
                    assert(layer[k].wf());
                    if k < f {
                        assert(layer[k].end() <= offset);
                    } else if k > f {
                        if layer[f].contains(offset) {
                            if k > f + 1 {
                                lemma_disjoint_order(layer, f + 1, k);
                                assert(layer[f + 1].wf());
                            }
                        } else {
                            lemma_disjoint_order(layer, f, k);
                        }
                    }
                }
            }
        }
    } else {
        assert forall|i: int| !is_first_beyond(layer, offset, i) by {
            if is_first_beyond(layer, offset, i) {
                assert(layer[i].end() > offset);
            }
        }
        assert(f == layer.len());
        assert forall|i: int| offset <= i implies (#[trigger] covering(layer, i)).is_none() by {
            lemma_covering_none(layer, i);
            assert forall|k: int| 0 <= k < layer.len() implies !(#[trigger] layer[k]).contains(
                i,
            ) by {
                assert(layer[k].end() <= offset);
            }
        }
        assert forall|k: int| 0 <= k < layer.len() implies (#[trigger] layer[k]).begin()
            <= offset by {
            assert(layer[k].end() <= offset);
            assert(layer[k].wf());
        }
    }
}

/// How a layer looks after it took in a patch that it admits: it stays
/// sorted and without overlaps, it holds the patch beside what it held, and it
/// covers what the patch contains beside what it covered.
pub proof fn lemma_with_patch(layer: Seq<PatchView>, patch: PatchView)
    requires
        all_wf(layer),
        sorted_by_key(layer),
        non_overlapping(layer),
        patch.wf(),
        admits(layer, patch),
    ensures
        all_wf(with_patch(layer, patch)),
        sorted_by_key(with_patch(layer, patch)),
        non_overlapping(with_patch(layer, patch)),
        with_patch(layer, patch).len() == layer.len() + 1,
        forall|q: PatchView| #[trigger]
            with_patch(layer, patch).contains(q) <==> q == patch || layer.contains(q),
        forall|i: int| #[trigger]
            covering(with_patch(layer, patch), i) == (if patch.contains(i) {
                Some(patch)
            } else {
                covering(layer, i)
            }),
{
    lemma_admitted_is_new(layer, patch);
    let p = |j: int| 0 <= j <= layer.len() && (j == layer.len() || !layer[j].key_lt(patch));
    assert(p(layer.len() as int));
    let at = lemma_least_index(p, layer.len() as int);
    assert(is_insert_position(layer, patch, at)) by {
        assert forall|j: int| 0 <= j < at implies (#[trigger] layer[j]).key_lt(patch) by {
            assert(!p(j));
        }
        assert forall|j: int| at <= j < layer.len() implies !(#[trigger] layer[j]).key_lt(
            patch,
        ) by {
            if j > at {
                assert(layer[at].key_lt(layer[j]));
            }
        }
    }
    lemma_insert_position_unique(layer, patch, at);
    lemma_insert_keeps_order(layer, patch, at);
    let after = with_patch(layer, patch);
    assert(after == layer.insert(at, patch));
    assert forall|a: int, b: int|
        0 <= a < after.len() && 0 <= b < after.len() && a != b implies !(#[trigger] after[a]).overlaps(
        #[trigger] after[b],
    ) by {
        let oa = if a < at { a } else { a - 1 };
        let ob = if b < at { b } else { b - 1 };
        if a == at {
            assert(after[b] == layer[ob]);
            assert(!layer[ob].overlaps(patch));
        } else if b == at {
            assert(after[a] == layer[oa]);
            assert(!layer[oa].overlaps(patch));
        } else {
            assert(after[a] == layer[oa] && after[b] == layer[ob]);
        }
    }
    assert forall|q: PatchView| #[trigger] after.contains(q) <==> q == patch || layer.contains(
        q,
    ) by {
        if after.contains(q) {
            let a = choose|a: int| 0 <= a < after.len() && after[a] == q;
            if a < at {
                assert(layer[a] == q);
            } else if a > at {
                assert(layer[a - 1] == q);
            }
        }
        if q == patch {
            assert(after[at] == q);
        }
        if layer.contains(q) {
            let k = choose|k: int| 0 <= k < layer.len() && layer[k] == q;
            if k < at {
                assert(after[k] == q);
            } else {
                assert(after[k + 1] == q);
            }
        }
    }
    assert forall|i: int| #[trigger]
        covering(after, i) == (if patch.contains(i) {
            Some(patch)
        } else {
            covering(layer, i)
        }) by {
        if patch.contains(i) {
            lemma_covering_unique(after, i, at);
        } else {
            lemma_covering_none(layer, i);
            lemma_covering_none(after, i);
            if covering(layer, i).is_some() {
                let q = covering(layer, i).unwrap();
                let k = choose|k: int| 0 <= k < layer.len() && #[trigger] layer[k] == q;
                let a = if k < at { k } else { k + 1 };
                assert(after[a] == q);
                lemma_covering_unique(after, i, a);
            } else {
                assert forall|a: int| 0 <= a < after.len() implies !(#[trigger] after[a]).contains(
                    i,
                ) by {
                    if a < at {
                        assert(after[a] == layer[a]);
                    } else if a > at {
                        assert(after[a] == layer[a - 1]);
                    }
                }
            }
        }
    }
}

} // verus!
