use station::entity::Entity;
use station::items::containers::{drop_preview, Container};
use station::items::Item;
use station::maps::direction::UVec2;

fn one(_: Entity) -> UVec2 {
    UVec2::new(1, 1)
}

#[test]
fn default_item_takes_one_cell() {
    let item = Item::default();
    assert_eq!(item.name, "Default item name");
    assert_eq!(item.size, UVec2::new(1, 1));
}

#[test]
fn container_stores_and_removes_items() {
    let mut c = Container::new(UVec2::new(4, 4));
    assert!(c.is_empty());
    c.insert_item_unchecked(Entity(1), UVec2::new(0, 0));
    c.insert_item_unchecked(Entity(2), UVec2::new(2, 2));
    assert!(!c.is_empty());
    c.remove_item(Entity(1));
    c.remove_item(Entity(7));
    assert!(!c.is_empty());
    c.remove_item(Entity(2));
    assert!(c.is_empty());
}

#[test]
fn items_must_stay_inside() {
    let c = Container::new(UVec2::new(4, 3));
    assert!(c.can_fit(UVec2::new(4, 3), UVec2::new(0, 0), one));
    assert!(!c.can_fit(UVec2::new(2, 2), UVec2::new(3, 0), one));
    assert!(!c.can_fit(UVec2::new(1, 1), UVec2::new(0, 3), one));
    assert!(c.can_fit(UVec2::new(1, 1), UVec2::new(3, 2), one));
}

#[test]
fn items_must_not_overlap() {
    let mut c = Container::new(UVec2::new(10, 10));
    c.insert_item_unchecked(Entity(1), UVec2::new(4, 4));
    // a one-cell item on the same cell overlaps
    assert!(!c.can_fit(UVec2::new(1, 1), UVec2::new(4, 4), one));
    // next cell does not
    assert!(c.can_fit(UVec2::new(1, 1), UVec2::new(5, 4), one));
    // a wider item reaches over: |5 - 4| * 2 = 2 < 2 + 1
    assert!(!c.can_fit(UVec2::new(2, 1), UVec2::new(5, 4), one));
    // the stored item's own size counts too
    let big = |_: Entity| UVec2::new(3, 3);
    assert!(!c.can_fit(UVec2::new(1, 1), UVec2::new(5, 5), big));
    assert!(c.can_fit(UVec2::new(1, 1), UVec2::new(6, 6), big));
}

#[test]
fn inserting_on_an_occupied_cell_replaces() {
    let mut c = Container::new(UVec2::new(2, 2));
    c.insert_item_unchecked(Entity(1), UVec2::new(1, 1));
    c.insert_item_unchecked(Entity(2), UVec2::new(1, 1));
    c.remove_item(Entity(2));
    assert!(c.is_empty());
}

#[test]
fn drop_preview_clips_at_the_edge() {
    // fits entirely
    assert_eq!(drop_preview(UVec2::new(4, 4), UVec2::new(1, 1), UVec2::new(2, 3)), (UVec2::new(2, 3), false));
    // sticks out on the right: only one column shows
    assert_eq!(drop_preview(UVec2::new(4, 4), UVec2::new(3, 0), UVec2::new(2, 2)), (UVec2::new(1, 2), true));
    // dropped on the far edge: nothing shows
    assert_eq!(drop_preview(UVec2::new(4, 4), UVec2::new(4, 2), UVec2::new(1, 1)), (UVec2::new(0, 1), true));
}
