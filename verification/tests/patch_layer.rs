use memoverlay::{Patch, PatchLayer, PatchSearchResult, SolidPatch};

fn layer_of(spans: &[(u64, usize)]) -> PatchLayer {
    let mut patches = spans.iter().map(|(offset, len)| Patch::new(*offset, vec![0u8; *len]).unwrap());
    let mut layer = PatchLayer::new_with(patches.next().unwrap());
    for patch in patches {
        assert!(layer.insert(patch));
    }
    layer
}

fn begins(layer: &PatchLayer) -> Vec<u64> {
    layer.iter_patches().iter().map(|patch| patch.begin()).collect()
}

#[test]
fn layer_keeps_its_patches_in_order() {
    let layer = layer_of(&[(20, 2), (0, 3), (40, 1), (10, 5)]);
    assert_eq!(begins(&layer), [0, 10, 20, 40]);
    let last = layer.iter_patches().iter().rev().next().unwrap();
    assert_eq!(last.last_byte_offset(), 40);
}

#[test]
fn layer_drops_a_patch_whose_key_it_holds() {
    let mut layer = layer_of(&[(10, 3)]);
    let mut buf = [0u8; 3];
    assert!(!layer.insert(Patch::new(10, vec![7u8, 7, 7]).unwrap()));
    assert_eq!(layer.iter_patches().len(), 1);
    layer.iter_patches()[0].read(0, &mut buf).unwrap();
    assert_eq!(buf, [0, 0, 0]);
    // another length is another key
    assert!(layer.insert(Patch::new(10, vec![7u8]).unwrap()));
    assert!(layer.insert(Patch::new(10, vec![7u8, 7, 7, 7]).unwrap()));
    let lens: Vec<u64> = layer.iter_patches().iter().map(|p| p.end() - p.begin()).collect();
    assert_eq!(lens, [1, 3, 4]);
}

#[test]
fn layer_admits_what_overlaps_none_of_its_patches() {
    let layer = layer_of(&[(10, 5), (20, 5)]);
    assert!(layer.may_contain(&Patch::new(0, vec![0u8; 10]).unwrap()));
    assert!(layer.may_contain(&Patch::new(15, vec![0u8; 5]).unwrap()));
    assert!(layer.may_contain(&Patch::new(25, vec![0u8; 1]).unwrap()));
    assert!(!layer.may_contain(&Patch::new(0, vec![0u8; 11]).unwrap()));
    assert!(!layer.may_contain(&Patch::new(14, vec![0u8; 1]).unwrap()));
    assert!(!layer.may_contain(&Patch::new(12, vec![0u8; 10]).unwrap()));
    assert!(!layer.may_contain(&Patch::new(20, vec![0u8; 5]).unwrap()));
    assert!(!layer.may_contain(&Patch::new(5, vec![0u8; 30]).unwrap()));
}

#[test]
fn layer_finds_the_patch_for_an_offset() {
    let layer = layer_of(&[(10, 5), (20, 5)]);
    assert!(layer.patch_for(9).is_none());
    assert_eq!(layer.patch_for(10).unwrap().begin(), 10);
    assert_eq!(layer.patch_for(14).unwrap().begin(), 10);
    assert!(layer.patch_for(15).is_none());
    assert_eq!(layer.patch_for(24).unwrap().begin(), 20);
    assert!(layer.patch_for(25).is_none());
}

#[test]
fn search_tells_current_and_next() {
    let layer = layer_of(&[(10, 5), (20, 5)]);
    assert!(matches!(
        layer.next_patch_for(0),
        PatchSearchResult::PatchFollows { next_patch } if next_patch.begin() == 10
    ));
    assert!(matches!(
        layer.next_patch_for(12),
        PatchSearchResult::CurrentPatchIsFollowedBy { current_patch, next_patch }
            if current_patch.begin() == 10 && next_patch.begin() == 20
    ));
    assert!(matches!(
        layer.next_patch_for(15),
        PatchSearchResult::PatchFollows { next_patch } if next_patch.begin() == 20
    ));
    assert!(matches!(
        layer.next_patch_for(24),
        PatchSearchResult::CurrentPatchIsTheLastOne { current_patch } if current_patch.begin() == 20
    ));
    assert!(matches!(layer.next_patch_for(25), PatchSearchResult::NoMorePatches));
}

#[test]
fn layer_clone_holds_the_same_patches() {
    let layer = layer_of(&[(10, 5), (20, 5)]);
    let mut copy = layer.clone();
    assert!(copy.insert(Patch::new(0, vec![1u8]).unwrap()));
    assert_eq!(begins(&layer), [10, 20]);
    assert_eq!(begins(&copy), [0, 10, 20]);
}
