//! Axes, dimensions and buffer kinds.

use ghr::axis::{from_i32, to_i32, try_from_i32, Axis};
use ghr::buffer_type::BufferType;
use ghr::dimension::Dimension;

#[test]
fn axis_codes() {
    assert_eq!(to_i32(Axis::X), 0);
    assert_eq!(to_i32(Axis::Y), 1);
    assert_eq!(to_i32(Axis::Z), 2);
    assert_eq!(from_i32(0), Axis::X);
    assert_eq!(from_i32(1), Axis::Y);
    assert_eq!(from_i32(2), Axis::Z);
}

#[test]
fn axis_codes_round_trip() {
    for axis in [Axis::X, Axis::Y, Axis::Z] {
        assert_eq!(from_i32(to_i32(axis)), axis);
        assert_eq!(axis.position() as i32, to_i32(axis));
    }
    for code in 0..3 {
        assert_eq!(to_i32(from_i32(code)), code);
    }
}

#[test]
fn integers_that_are_no_axis() {
    assert_eq!(try_from_i32(-1), None);
    assert_eq!(try_from_i32(3), None);
    assert_eq!(try_from_i32(i32::MAX), None);
    assert_eq!(try_from_i32(i32::MIN), None);
    assert_eq!(try_from_i32(2), Some(Axis::Z));
}

#[test]
fn dimension_append_in_order() {
    let mut d = Dimension::Zero;
    d.append(Axis::Y);
    assert_eq!(d, Dimension::One(Axis::Y));
    d.append(Axis::Z);
    assert_eq!(d, Dimension::Two(Axis::Y, Axis::Z));
    d.append(Axis::X);
    assert_eq!(d, Dimension::Three(Axis::Y, Axis::Z, Axis::X));
}

#[test]
fn dimension_contains() {
    assert!(!Dimension::Zero.contains(Axis::X));
    assert!(Dimension::One(Axis::X).contains(Axis::X));
    assert!(!Dimension::One(Axis::X).contains(Axis::Y));
    assert!(Dimension::Two(Axis::X, Axis::Z).contains(Axis::Z));
    assert!(!Dimension::Two(Axis::X, Axis::Z).contains(Axis::Y));
    let all = Dimension::Three(Axis::Z, Axis::X, Axis::Y);
    assert!(all.contains(Axis::X) && all.contains(Axis::Y) && all.contains(Axis::Z));
}

#[test]
fn dimension_update_from_nothing() {
    let d = Dimension::Zero;
    assert_eq!(d.update(1, 1, 1), Some(Dimension::Zero));
    assert_eq!(d.update(101, 1, 1), Some(Dimension::One(Axis::X)));
    assert_eq!(d.update(1, 7, 1), Some(Dimension::One(Axis::Y)));
    assert_eq!(d.update(1, 1, 2), Some(Dimension::One(Axis::Z)));
    assert_eq!(d.update(2, 2, 1), None);
    assert_eq!(d.update(2, 1, 2), None);
    assert_eq!(d.update(3, 3, 3), None);
}

#[test]
fn dimension_update_from_one_axis() {
    let x = Dimension::One(Axis::X);
    assert_eq!(x.update(101, 1, 1), Some(x));
    assert_eq!(x.update(1, 1, 1), Some(x));
    assert_eq!(x.update(101, 101, 1), Some(Dimension::Two(Axis::X, Axis::Y)));
    assert_eq!(x.update(101, 1, 5), Some(Dimension::Two(Axis::X, Axis::Z)));
    assert_eq!(x.update(101, 2, 5), None);
    let y = Dimension::One(Axis::Y);
    assert_eq!(y.update(4, 9, 1), Some(Dimension::Two(Axis::Y, Axis::X)));
    assert_eq!(y.update(1, 9, 4), Some(Dimension::Two(Axis::Y, Axis::Z)));
    assert_eq!(y.update(4, 9, 4), None);
    let z = Dimension::One(Axis::Z);
    assert_eq!(z.update(1, 9, 4), Some(Dimension::Two(Axis::Z, Axis::Y)));
    assert_eq!(z.update(9, 1, 4), Some(Dimension::Two(Axis::Z, Axis::X)));
    assert_eq!(z.update(1, 1, 4), Some(z));
}

#[test]
fn dimension_update_from_two_axes() {
    let xy = Dimension::Two(Axis::X, Axis::Y);
    assert_eq!(xy.update(101, 101, 1), Some(xy));
    assert_eq!(xy.update(101, 101, 3), Some(Dimension::Three(Axis::X, Axis::Y, Axis::Z)));
    let zx = Dimension::Two(Axis::Z, Axis::X);
    assert_eq!(zx.update(5, 1, 5), Some(zx));
    assert_eq!(zx.update(5, 2, 5), Some(Dimension::Three(Axis::Z, Axis::X, Axis::Y)));
    let yz = Dimension::Two(Axis::Y, Axis::Z);
    assert_eq!(yz.update(8, 2, 5), Some(Dimension::Three(Axis::Y, Axis::Z, Axis::X)));
    let twice = Dimension::Two(Axis::X, Axis::X);
    assert_eq!(twice.update(5, 5, 5), Some(twice));
}

#[test]
fn dimension_update_when_full() {
    let all = Dimension::Three(Axis::X, Axis::Y, Axis::Z);
    assert_eq!(all.update(5, 5, 5), None);
    assert_eq!(all.update(1, 1, 1), None);
}

#[test]
fn dimension_codes() {
    assert_eq!(Dimension::Zero.codes(), (-1, -1, -1));
    assert_eq!(Dimension::One(Axis::Z).codes(), (2, -1, -1));
    assert_eq!(Dimension::Two(Axis::Y, Axis::X).codes(), (1, 0, -1));
    assert_eq!(Dimension::Three(Axis::Z, Axis::Y, Axis::X).codes(), (2, 1, 0));
}

#[test]
fn buffer_type_codes() {
    assert_eq!(BufferType::from_i32(1), BufferType::AmplitudeFieldBuffer);
    assert_eq!(BufferType::from_i32(2), BufferType::IntensityFieldBuffer);
    assert_eq!(BufferType::AmplitudeFieldBuffer.to_i32(), 1);
    assert_eq!(BufferType::IntensityFieldBuffer.to_i32(), 2);
    assert_eq!(BufferType::try_from_i32(0), None);
    assert_eq!(BufferType::try_from_i32(3), None);
    assert_eq!(BufferType::try_from_i32(2), Some(BufferType::IntensityFieldBuffer));
}
