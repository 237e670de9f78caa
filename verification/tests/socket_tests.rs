use noodle::dirty::Dirtiable;
use noodle::dirty::Dirty;
use noodle::socket::OutputMask;
use noodle::socket::SocketId;
use noodle::socket::SocketRef;
use noodle::socket::SocketSet;
use noodle::socket::SocketShape;
use noodle::socket::SocketValue;
use noodle::socket::SocketValues;
use noodle::socket::SortedUniqueSlice;
use noodle::socket::SortedUniqueSliceError;
use noodle::socket::ValueTypeId;
use noodle::value::TypeCastError;
use noodle::value::Value;

fn socket(id: u16) -> SocketRef {
    SocketRef { id: SocketId(id), shape: SocketShape::Optional, vtype: ValueTypeId(0) }
}

#[test]
fn fits_into_follows_the_table() {
    let all = [
        SocketShape::Disabled,
        SocketShape::Optional,
        SocketShape::ExactlyOne,
        SocketShape::AtLeastOne,
        SocketShape::Unlimited,
    ];
    // ExactlyOne fits into Optional, but not the other way round.
    assert!(SocketShape::ExactlyOne.fits_into(&SocketShape::Optional));
    assert!(!SocketShape::Optional.fits_into(&SocketShape::ExactlyOne));
    // Disabled fits nothing and accepts nothing.
    for other in all {
        assert!(!SocketShape::Disabled.fits_into(&other));
        assert!(!other.fits_into(&SocketShape::Disabled));
    }
    // Everything except Disabled fits into Unlimited; the one-or-more
    // shapes fit into every consumer but Disabled.
    for shape in [
        SocketShape::Optional,
        SocketShape::ExactlyOne,
        SocketShape::AtLeastOne,
        SocketShape::Unlimited,
    ] {
        assert!(shape.fits_into(&SocketShape::Unlimited));
        assert!(SocketShape::ExactlyOne.fits_into(&shape));
        assert!(SocketShape::AtLeastOne.fits_into(&shape));
    }
    // Unlimited fits only into Unlimited.
    assert!(!SocketShape::Unlimited.fits_into(&SocketShape::Optional));
    assert!(!SocketShape::Unlimited.fits_into(&SocketShape::ExactlyOne));
    assert!(!SocketShape::Unlimited.fits_into(&SocketShape::AtLeastOne));
    assert!(!SocketShape::Optional.fits_into(&SocketShape::AtLeastOne));
    assert!(SocketShape::Optional.fits_into(&SocketShape::Optional));
}

#[test]
fn socket_set_rejects_duplicates() {
    let slice = [socket(2), socket(2)];
    let r = SocketSet::new(&slice);
    assert_eq!(r.err(), Some(SortedUniqueSliceError::ContainsDuplicate));
}

#[test]
fn socket_set_rejects_descending_order() {
    let slice = [socket(5), socket(3)];
    let r = SocketSet::new(&slice);
    assert_eq!(r.err(), Some(SortedUniqueSliceError::ImproperOrdering));
}

#[test]
fn socket_set_accepts_ascending_and_finds_by_id() {
    let slice = [socket(1), socket(3), socket(7)];
    let set = SocketSet::new(&slice).unwrap();
    assert_eq!(set.len(), 3);
    let found = set.get(SocketId(3)).unwrap();
    assert_eq!(found, slice[1]);
    assert!(set.get(SocketId(2)).is_none());
    assert!(set.get(SocketId(7)).is_some());
}

#[test]
fn sorted_unique_slice_reports_first_violation() {
    // The first offending adjacent pair decides the error.
    let ids = [SocketId(1), SocketId(1), SocketId(0)];
    let r = SortedUniqueSlice::new(&ids);
    assert_eq!(r.err(), Some(SortedUniqueSliceError::ContainsDuplicate));
    let ids = [SocketId(4), SocketId(2), SocketId(2)];
    let r = SortedUniqueSlice::new(&ids);
    assert_eq!(r.err(), Some(SortedUniqueSliceError::ImproperOrdering));
    let ids = [SocketId(0), SocketId(9)];
    let s = SortedUniqueSlice::new(&ids).unwrap();
    assert_eq!(s.len(), 2);
    assert_eq!(s.search(9), Some(&SocketId(9)));
    assert_eq!(s.search(5), None);
}

#[test]
fn output_mask_includes_exactly_its_ids() {
    let ids = [SocketId(0), SocketId(2), SocketId(5)];
    let mask = OutputMask::new(&ids).unwrap();
    assert!(mask.includes(SocketId(0)));
    assert!(mask.includes(SocketId(2)));
    assert!(mask.includes(SocketId(5)));
    assert!(!mask.includes(SocketId(1)));
    assert!(!mask.includes(SocketId(6)));
    assert_eq!(mask.len(), 3);
    assert_eq!(mask.id_at(1), SocketId(2));
    let unsorted = [SocketId(2), SocketId(0)];
    assert!(OutputMask::new(&unsorted).is_err());
}

#[test]
fn socket_values_round_trip_by_id() {
    let values = vec![
        SocketValue { id: SocketId(1), value: Value::new(10i64) },
        SocketValue { id: SocketId(4), value: Value::new("text".to_string()) },
    ];
    let vals = SocketValues::new(values).unwrap();
    assert_eq!(vals.len(), 2);
    let v1 = vals.get(SocketId(1)).unwrap();
    assert_eq!(*v1.downcast::<i64>().unwrap(), 10);
    let v4 = vals.get(SocketId(4)).unwrap();
    assert_eq!(v4.downcast::<String>().unwrap(), "text");
    assert!(vals.get(SocketId(2)).is_none());
}

#[test]
fn socket_values_reject_duplicate_ids() {
    let values = vec![
        SocketValue { id: SocketId(3), value: Value::new(1u8) },
        SocketValue { id: SocketId(3), value: Value::new(2u8) },
    ];
    assert_eq!(SocketValues::new(values).err(), Some(SortedUniqueSliceError::ContainsDuplicate));
}

#[test]
fn value_round_trips_through_erasure() {
    let v = Value::new(42u32);
    assert_eq!(*v.downcast::<u32>().unwrap(), 42);
    let s = Value::new(String::from("payload"));
    assert_eq!(s.downcast::<String>().unwrap(), "payload");
    let pair = Value::new((1u8, 2u8));
    assert_eq!(*pair.downcast::<(u8, u8)>().unwrap(), (1, 2));
}

#[test]
fn value_downcast_to_wrong_type_fails() {
    let v = Value::new(42u32);
    assert_eq!(v.downcast::<i64>().err(), Some(TypeCastError));
    assert_eq!(v.downcast::<String>().err(), Some(TypeCastError));
    // The failed attempts leave the stored payload intact.
    assert_eq!(*v.downcast::<u32>().unwrap(), 42);
}

#[test]
fn value_clones_share_the_payload() {
    let v = Value::new(7i32);
    let w = v.clone();
    assert_eq!(*w.downcast::<i32>().unwrap(), 7);
    assert_eq!(*v.downcast::<i32>().unwrap(), 7);
}

#[test]
fn dirtiable_tracks_mutation() {
    let mut d = Dirtiable::new(5u32);
    assert!(!d.is_dirty());
    assert_eq!(*d.get(), 5);
    assert!(!d.is_dirty());
    *d.get_mut() = 6;
    assert!(d.is_dirty());
    assert_eq!(*d.get(), 6);
    d.clear_dirty();
    assert!(!d.is_dirty());
    d.set(9);
    assert!(d.is_dirty());
    let (value, dirty) = d.into_inner();
    assert_eq!(value, 9);
    assert!(dirty);
}

#[test]
fn socket_values_compare_by_id_alone() {
    let a = SocketValue { id: SocketId(3), value: Value::new(1u8) };
    let b = SocketValue { id: SocketId(3), value: Value::new(200u8) };
    let c = SocketValue { id: SocketId(4), value: Value::new(1u8) };
    assert!(a == b);
    assert!(a != c);
}
