use std::collections::HashSet;
use iced_keyed::length::Length;
use iced_keyed::mouse::Cursor;
use iced_keyed::window::ResizeDirection;

#[test]
fn enclose_adopts_filling_lengths_only_when_shrinking() {
    assert_eq!(Length::Shrink.enclose(Length::Fill), Length::Fill);
    assert_eq!(Length::Shrink.enclose(Length::FillPortion(2)), Length::FillPortion(2));
    assert_eq!(Length::Shrink.enclose(Length::Fixed(5.0f32.to_bits())), Length::Shrink);
    assert_eq!(Length::Shrink.enclose(Length::Shrink), Length::Shrink);
    assert_eq!(Length::Fill.enclose(Length::FillPortion(4)), Length::Fill);
    assert_eq!(Length::Fixed(7.5f32.to_bits()).enclose(Length::Fill), Length::Fixed(7.5f32.to_bits()));
    assert_eq!(Length::FillPortion(2).enclose(Length::Shrink), Length::FillPortion(2));
}

#[test]
fn cursor_levitation() {
    assert_eq!(Cursor::Available(1).levitate(), Cursor::Levitating(1));
    assert_eq!(Cursor::Levitating(1).levitate(), Cursor::Levitating(1));
    assert_eq!(Cursor::<u8>::Unavailable.levitate(), Cursor::Unavailable);
    assert!(Cursor::Levitating(1).is_levitating());
    assert!(!Cursor::Available(1).is_levitating());
}

#[test]
fn resize_directions_compare_and_hash() {
    let all = [
        ResizeDirection::East,
        ResizeDirection::North,
        ResizeDirection::NorthEast,
        ResizeDirection::NorthWest,
        ResizeDirection::South,
        ResizeDirection::SouthEast,
        ResizeDirection::SouthWest,
        ResizeDirection::West,
    ];
    let set: HashSet<ResizeDirection> = all.iter().copied().collect();
    assert_eq!(set.len(), 8);
    assert_eq!(ResizeDirection::East, ResizeDirection::East);
    assert_ne!(ResizeDirection::East, ResizeDirection::West);
}
