use station::body::{bone_hierarchy, LimbSide};

#[test]
fn limb_sides_are_named() {
    assert_eq!(LimbSide::default(), LimbSide::Left);
    assert_eq!(LimbSide::Left.to_string(), "Left");
    assert_eq!(LimbSide::Right.to_string(), "Right");
}

#[test]
fn bone_hierarchy_from_children() {
    let children = vec![vec![1, 2], vec![3], vec![], vec![], vec![9]];
    let (parents, roots) = bone_hierarchy(&children);
    assert_eq!(parents, vec![None, Some(0), Some(0), Some(1), None]);
    assert_eq!(roots, vec![0, 4]);
}

#[test]
fn bone_hierarchy_last_listing_parent_wins() {
    let children = vec![vec![2], vec![2, 7], vec![]];
    let (parents, roots) = bone_hierarchy(&children);
    assert_eq!(parents, vec![None, None, Some(1)]);
    assert_eq!(roots, vec![0, 1]);
}

#[test]
fn bone_hierarchy_of_no_joints() {
    let (parents, roots) = bone_hierarchy(&Vec::new());
    assert!(parents.is_empty());
    assert!(roots.is_empty());
}
