use oxlive::delta::{Delta, DeltaKind};

#[test]
fn a_change_has_a_kind_and_a_value() {
    let added: Delta<u32> = Delta::addition(4);
    let deleted: Delta<u32> = Delta::deletion(5);
    assert_eq!(added.kind(), DeltaKind::Addition);
    assert_eq!(deleted.kind(), DeltaKind::Deletion);
    assert_eq!(*added.value(), 4);
    assert_eq!(*deleted.value(), 5);
    assert_eq!(added.into_value(), 4);
    assert_eq!(deleted.into_parts(), (DeltaKind::Deletion, 5));
}

#[test]
fn a_change_of_a_kind_is_taken_apart_into_that_kind() {
    let kinds: [DeltaKind; 2] = [DeltaKind::Addition, DeltaKind::Deletion];
    for kind in kinds {
        let change = Delta::with_kind(kind, "quad");
        assert_eq!(change.into_parts(), (kind, "quad"));
    }
}

#[test]
fn the_value_of_a_change_can_be_replaced_in_place() {
    let mut change: Delta<u32> = Delta::deletion(1);
    *change.value_mut() = 9;
    assert_eq!(change.into_parts(), (DeltaKind::Deletion, 9));
}

#[test]
fn mapping_a_change_keeps_its_kind() {
    let change: Delta<String> = Delta::addition(7u32).map(|value| format!("<{value}>"));
    assert_eq!(change.into_parts(), (DeltaKind::Addition, String::from("<7>")));
    let change: Delta<u32> = Delta::deletion("four").map(|value| value.len() as u32);
    assert_eq!(change.into_parts(), (DeltaKind::Deletion, 4));
}
