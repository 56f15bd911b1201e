use slidy::puzzle::size::{Size, SizeError};

fn size(width: u64, height: u64) -> Size {
    Size::new(width, height).unwrap()
}

#[test]
fn size_test_new() {
    assert_eq!(Size::new(2, 2), Ok(size(2, 2)));
    assert_eq!(Size::new(2, 3), Ok(size(2, 3)));
    assert_eq!(Size::new(3, 2), Ok(size(3, 2)));
    assert_eq!(Size::new(3, 3), Ok(size(3, 3)));
    assert_eq!(Size::new(1, 1), Ok(size(1, 1)));
    assert_eq!(Size::new(1, 2), Ok(size(1, 2)));
    assert_eq!(Size::new(2, 1), Ok(size(2, 1)));
    assert_eq!(Size::new(0, 0), Err(SizeError::InvalidSize(0, 0)));
    assert_eq!(Size::new(0, 1), Err(SizeError::InvalidSize(0, 1)));
    assert_eq!(Size::new(1, 0), Err(SizeError::InvalidSize(1, 0)));
}

#[test]
fn test_width() {
    assert_eq!(size(2, 3).width(), 2);
}

#[test]
fn test_height() {
    assert_eq!(size(2, 3).height(), 3);
}

#[test]
fn test_area() {
    assert_eq!(size(2, 3).area(), 6);
}

#[test]
fn test_num_pieces() {
    assert_eq!(size(2, 3).num_pieces(), 5);
}

#[test]
fn test_is_within_bounds() {
    assert!(size(2, 3).is_within_bounds((0, 0)));
    assert!(size(2, 3).is_within_bounds((1, 2)));
    assert!(!size(2, 3).is_within_bounds((2, 3)));
    assert!(!size(2, 3).is_within_bounds((3, 2)));
}

#[test]
fn test_transpose() {
    assert_eq!(size(2, 3).transpose(), size(3, 2));
}

#[test]
fn test_shrink_to_square() {
    assert_eq!(size(2, 5).shrink_to_square(), size(2, 2));
    assert_eq!(size(5, 2).shrink_to_square(), size(2, 2));
    assert_eq!(size(5, 5).shrink_to_square(), size(5, 5));
}

#[test]
fn test_expand_to_square() {
    assert_eq!(size(2, 5).expand_to_square(), size(5, 5));
    assert_eq!(size(5, 2).expand_to_square(), size(5, 5));
    assert_eq!(size(5, 5).expand_to_square(), size(5, 5));
}

#[test]
fn test_is_square() {
    assert!(!size(2, 5).is_square());
    assert!(!size(5, 2).is_square());
    assert!(size(5, 5).is_square());
}

#[test]
fn test_num_states() {
    assert_eq!(size(1, 1).num_states(), 1);
    assert_eq!(size(1, 5).num_states(), 5);
    assert_eq!(size(5, 1).num_states(), 5);
    assert_eq!(size(2, 2).num_states(), 12);
    assert_eq!(size(2, 3).num_states(), 360);
    assert_eq!(size(3, 2).num_states(), 360);
    assert_eq!(size(3, 3).num_states(), 181440);
    assert_eq!(size(4, 4).num_states(), 10461394944000);
    assert_eq!(size(5, 5).num_states(), 7755605021665492992000000);
    assert_eq!(
        size(17, 2).num_states(),
        147616399519802070423809304821760000000
    );
}

#[test]
fn test_into_usize_usize() {
    let (w, h): (u64, u64) = size(2, 3).into();
    assert_eq!((w, h), (2, 3));
}

#[test]
fn test_display() {
    assert_eq!(size(2, 3).to_string(), "2x3");
}

#[test]
fn test_parse() {
    assert_eq!("2x3".parse::<Size>(), Ok(size(2, 3)));
    assert_eq!(" 2x3 ".parse::<Size>(), Ok(size(2, 3)));
    assert_eq!("2 x 3".parse::<Size>(), Ok(size(2, 3)));
    assert_eq!(" 2 x3 ".parse::<Size>(), Ok(size(2, 3)));
    assert_eq!("2".parse::<Size>(), Ok(size(2, 2)));
    assert_eq!(" 2 ".parse::<Size>(), Ok(size(2, 2)));
}
