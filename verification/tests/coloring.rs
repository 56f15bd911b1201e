use palette::rgb::Rgba;
use std::f32::consts::{E, LN_2, PI, SQRT_2};
use slidy::puzzle::coloring::{ColorList, ColorListError, Monochrome};

#[test]
fn coloring_test_new() {
    let a = ColorList::<Rgba>::new(Vec::new());
    assert_eq!(a, Err(ColorListError::EmptyColorList));
}

#[test]
fn color_list_cycles() {
    let list = ColorList::new(vec![10u8, 20, 30]).unwrap();
    assert_eq!(*list.color(0, 5), 10);
    assert_eq!(*list.color(4, 5), 20);
    assert_eq!(*list.color(8, 5), 30);
    assert_eq!(list.colors(), &[10, 20, 30]);
    assert_eq!(*Monochrome::new(4u8).color(3, 9), 4);
}

#[test]
fn coloring_test_monochrome() {
    let c: Rgba = Rgba::new(E / 10.0, PI / 10.0, LN_2, SQRT_2 - 1.0);
    let a = Monochrome::new(c);
    assert_eq!(a.try_color(0, 3), Some(&c));
    assert_eq!(a.try_color(1, 3), Some(&c));
    assert_eq!(a.try_color(2, 3), Some(&c));
    assert_eq!(a.try_color(3, 3), None);
}

#[test]
fn coloring_test_new_2() {
    let a = ColorList::<Rgba>::new(vec![
        Rgba::new(0.1, 0.2, 0.3, 1.0),
        Rgba::new(0.1, 0.3, 0.6, 1.0),
        Rgba::new(0.6, 0.3, 0.4, 1.0),
    ]);
    assert!(a.is_ok());
}

#[test]
fn coloring_test_color_list() {
    let c: Vec<Rgba> = vec![
        Rgba::new(0.1, 0.2, 0.3, 1.0),
        Rgba::new(0.1, 0.3, 0.6, 1.0),
        Rgba::new(0.6, 0.3, 0.4, 1.0),
    ];
    let a = ColorList::new(c.clone()).unwrap();
    assert_eq!(a.try_color(0, 10), Some(&c[0]));
    assert_eq!(a.try_color(1, 10), Some(&c[1]));
    assert_eq!(a.try_color(2, 10), Some(&c[2]));
    assert_eq!(a.try_color(3, 10), Some(&c[0]));
    assert_eq!(a.try_color(4, 10), Some(&c[1]));
    assert_eq!(a.try_color(5, 10), Some(&c[2]));
    assert_eq!(a.try_color(6, 10), Some(&c[0]));
    assert_eq!(a.try_color(10, 10), None);
}
