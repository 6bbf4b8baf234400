use snowmew::common::{CommonData, Delete, Duplicate, Parent, Scene};
use snowmew::table::Table;
use snowmew::graphics::Drawable;

#[test]
fn scene_holds_descendants() {
    let mut c = CommonData::new();
    let s = c.new_scene();
    let a = c.new_object(Some(s.0));
    let b = c.new_object(Some(a));
    assert_eq!(c.scene_iter(s), vec![a, b]);
    assert_eq!(c.get(a), Some(Parent(s.0)));
    assert_eq!(c.get(b), Some(Parent(a)));
}

#[test]
fn delete_does_not_cascade_scene_membership() {
    let mut c = CommonData::new();
    let s = c.new_scene();
    let a = c.new_object(Some(s.0));
    let b = c.new_object(Some(a));
    assert!(c.delete(a));
    assert_eq!(c.scene_iter(s), vec![b]);
    assert_eq!(c.get(a), None);
    assert_eq!(c.get(b), Some(Parent(0)));
}

#[test]
fn delete_nonexistent_is_false() {
    let mut c = CommonData::new();
    assert!(!c.delete(42));
    let a = c.new_object(None);
    assert!(!c.delete(a + 100));
}

#[test]
fn delete_twice_second_is_false() {
    let mut c = CommonData::new();
    let s = c.new_scene();
    let a = c.new_object(Some(s.0));
    let b = c.new_object(Some(s.0));
    assert!(c.delete(a));
    assert!(!c.delete(a));
    assert_eq!(c.scene_iter(s), vec![b]);
}

#[test]
fn identifiers_unique_while_live() {
    let mut c = CommonData::new();
    let a = c.new_object(None);
    let b = c.new_object(None);
    let d = c.new_object(Some(a));
    assert_ne!(a, b);
    assert_ne!(a, d);
    assert_ne!(b, d);
    assert_ne!(a, 0);
    assert_eq!((a, b, d), (1, 2, 3));
}

#[test]
fn freed_identifiers_are_reused_last_first() {
    let mut c = CommonData::new();
    let a = c.new_object(None);
    let b = c.new_object(None);
    assert!(c.delete(a));
    assert!(c.delete(b));
    assert_eq!(c.new_object(None), b);
    assert_eq!(c.new_object(None), a);
    assert_eq!(c.new_object(None), 3);
}

#[test]
fn reused_identifier_starts_clean() {
    let mut c = CommonData::new();
    let s = c.new_scene();
    let t = c.new_scene();
    let a = c.new_object(Some(s.0));
    let child = c.new_object(Some(a));
    assert!(c.delete(a));
    let again = c.new_object(Some(t.0));
    assert_eq!(again, a);
    assert_eq!(c.get(again), Some(Parent(t.0)));
    assert_eq!(c.scene_iter(s), vec![child]);
    assert_eq!(c.scene_iter(t), vec![again]);
    assert_eq!(c.get(child), Some(Parent(0)));
}

#[test]
fn deleting_a_scene_keeps_it_out_of_reuse_scenes() {
    let mut c = CommonData::new();
    let s = c.new_scene();
    let a = c.new_object(Some(s.0));
    assert!(c.delete(s.0));
    let n = c.new_object(None);
    assert_eq!(n, s.0);
    assert_eq!(c.get(a), Some(Parent(0)));
    assert_eq!(c.get(n), Some(Parent(0)));
}

#[test]
fn nearest_scene_wins() {
    let mut c = CommonData::new();
    let outer = c.new_scene();
    let mid = c.new_object(Some(outer.0));
    let a = c.new_object(Some(mid));
    let free = c.new_object(None);
    let b = c.new_object(Some(free));
    assert_eq!(c.scene_iter(outer), vec![mid, a]);
    assert_ne!(b, a);
}

#[test]
fn clone_is_independent() {
    let mut c = CommonData::new();
    let s = c.new_scene();
    let a = c.new_object(Some(s.0));
    let mut copy = c.clone();
    let extra = copy.new_object(Some(a));
    assert_eq!(copy.scene_iter(s), vec![a, extra]);
    assert_eq!(c.scene_iter(s), vec![a]);
    assert!(copy.delete(a));
    assert_eq!(c.scene_iter(s), vec![a]);
    assert_eq!(c.get(a), Some(Parent(s.0)));
}

#[test]
fn set_moves_between_scenes() {
    let mut c = CommonData::new();
    let s = c.new_scene();
    let t = c.new_scene();
    let a = c.new_object(Some(s.0));
    c.set(a, Parent(t.0));
    assert_eq!(c.get(a), Some(Parent(t.0)));
    assert_eq!(c.scene_iter(s), vec![]);
    assert_eq!(c.scene_iter(t), vec![a]);
}

#[test]
fn set_refuses_cycles_and_missing_parents() {
    let mut c = CommonData::new();
    let a = c.new_object(None);
    let b = c.new_object(Some(a));
    c.set(a, Parent(b));
    assert_eq!(c.get(a), Some(Parent(0)));
    c.set(a, Parent(a));
    assert_eq!(c.get(a), Some(Parent(0)));
    c.set(b, Parent(77));
    assert_eq!(c.get(b), Some(Parent(a)));
    c.set(b, Parent(0));
    assert_eq!(c.get(b), Some(Parent(0)));
}

#[test]
fn store_duplicate_copies_parent_and_scene() {
    let mut c = CommonData::new();
    let s = c.new_scene();
    let a = c.new_object(Some(s.0));
    let a2 = c.new_object(None);
    c.duplicate(a, a2);
    assert_eq!(c.get(a2), Some(Parent(s.0)));
    assert_eq!(c.scene_iter(s), vec![a, a2]);
}

#[test]
fn store_duplicate_onto_ancestor_does_nothing() {
    let mut c = CommonData::new();
    let s = c.new_scene();
    let a = c.new_object(Some(s.0));
    let b = c.new_object(Some(a));
    c.duplicate(b, a);
    assert_eq!(c.get(a), Some(Parent(s.0)));
    c.duplicate(a, 99);
    assert_eq!(c.get(99), None);
}

#[test]
fn graphics_duplicate_is_independent() {
    let mut c = CommonData::new();
    let a = c.new_object(None);
    let a2 = c.new_object(None);
    let mut graphics: Table<Drawable> = Table::new();
    graphics.insert(a, Drawable { geometry: 10, material: 20 });
    graphics.duplicate(a, a2);
    assert_eq!(graphics.get(a2), graphics.get(a));
    assert_eq!(graphics.get(a2), Some(&Drawable { geometry: 10, material: 20 }));
    graphics.insert(a, Drawable { geometry: 11, material: 21 });
    assert_eq!(graphics.get(a2), Some(&Drawable { geometry: 10, material: 20 }));
    assert_eq!(graphics.get(a), Some(&Drawable { geometry: 11, material: 21 }));
}

#[test]
fn scene_to_entity() {
    assert_eq!(Scene(7).to_entity(), 7);
}
