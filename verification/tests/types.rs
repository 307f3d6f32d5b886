use rust_gpu_chimera::keys::{f32_bits_from_sortable, f32_bits_to_sortable, SortableKey};
use rust_gpu_chimera::types::{CompareDirection, Pass, SortOrder, Stage, ThreadId};

#[test]
fn sort_order_codes() {
    assert_eq!(u32::from(SortOrder::Ascending), 0);
    assert_eq!(u32::from(SortOrder::Descending), 1);
    assert_eq!(SortOrder::try_from(0u32), Ok(SortOrder::Ascending));
    assert_eq!(SortOrder::try_from(1u32), Ok(SortOrder::Descending));
    assert_eq!(SortOrder::try_from(2u32), Err("Invalid SortOrder value"));
}

#[test]
fn sort_order_names() {
    assert_eq!(SortOrder::Ascending.to_string(), "ascending");
    assert_eq!(SortOrder::Descending.to_string(), "descending");
}

#[test]
fn compare_direction() {
    assert_eq!(CompareDirection::from_bool(true), CompareDirection::Up);
    assert_eq!(CompareDirection::from_bool(false), CompareDirection::Down);
    assert!(CompareDirection::Up.is_ascending());
    assert!(!CompareDirection::Down.is_ascending());
}

#[test]
fn newtypes_round_trip() {
    assert_eq!(ThreadId::new(17).as_u32(), 17);
    assert_eq!(ThreadId::new(17).as_usize(), 17usize);
    assert_eq!(Stage::new(3).as_u32(), 3);
    assert_eq!(Pass::new(2).as_u32(), 2);
    assert_eq!(Stage::new(3), Stage(3));
}

#[test]
fn u32_keys() {
    assert_eq!(7u32.to_sortable_u32(), 7);
    assert_eq!(u32::from_sortable_u32(7), 7);
    assert_eq!(<u32 as SortableKey>::max_value(), u32::MAX);
    assert_eq!(<u32 as SortableKey>::min_value(), 0);
}

#[test]
fn i32_keys_keep_order_and_round_trip() {
    let values = [i32::MIN, -100, -1, 0, 1, 100, i32::MAX];
    for w in values.windows(2) {
        assert!(w[0].to_sortable_u32() < w[1].to_sortable_u32());
    }
    for v in values {
        assert_eq!(i32::from_sortable_u32(v.to_sortable_u32()), v);
    }
    assert_eq!((-1i32).to_sortable_u32(), 0x7fff_ffff);
    assert_eq!(0i32.to_sortable_u32(), 0x8000_0000);
    assert_eq!(<i32 as SortableKey>::max_value(), i32::MAX);
    assert_eq!(<i32 as SortableKey>::min_value(), i32::MIN);
}

#[test]
fn f32_bits_keys_order_floats_and_round_trip() {
    let values = [f32::NEG_INFINITY, -2.5f32, -0.0, 0.0, 1.0e-30, 3.0, f32::INFINITY];
    for w in values.windows(2) {
        assert!(f32_bits_to_sortable(w[0].to_bits()) < f32_bits_to_sortable(w[1].to_bits()));
    }
    for v in values {
        assert_eq!(f32_bits_from_sortable(f32_bits_to_sortable(v.to_bits())), v.to_bits());
    }
    assert_eq!(f32_bits_to_sortable(0.0f32.to_bits()), 0x8000_0000);
    assert_eq!(f32_bits_to_sortable((-0.0f32).to_bits()), 0x7fff_ffff);
}
