use slidy::puzzle::color_scheme::balanced_split::{
    AspectCutoff, BalancedSplitScheme, SplitColor, Splitting,
};
use slidy::puzzle::color_scheme::multi_layer::{Layer, MultiLayerColorSchemeError};
use slidy::puzzle::color_scheme::scheme_list::{SchemeList, SchemeListError};
use slidy::puzzle::color_scheme::tiled::{GridTiled, RecursiveTiled, Tiled};
use slidy::puzzle::label::grid::Grid;
use slidy::puzzle::color_scheme::ColorSchemeError;
use slidy::puzzle::grids::Grids;
use palette::rgb::Rgba;
use slidy::puzzle::coloring::ColorList;
use slidy::puzzle::label::label::{Label, RowGrids, Rows};
use slidy::puzzle::label::rect_partition::Rect;
use slidy::puzzle::size::Size;

fn s(w: u64, h: u64) -> Size {
    Size::new(w, h).unwrap()
}

/// A cutoff fraction `num / den`, compared exactly.
#[derive(Clone, Copy, Debug, PartialEq)]
struct Fraction(u64, u64);

impl AspectCutoff for Fraction {
    fn admits(&self, numerator: u64, denominator: u64) -> bool {
        numerator as u128 * self.1 as u128 >= self.0 as u128 * denominator as u128
    }
}

fn scheme(splitting: Splitting<Fraction>) -> BalancedSplitScheme<(), (), Fraction> {
    BalancedSplitScheme::new((), (), (8, 8), splitting)
}

fn scheme1() -> BalancedSplitScheme<(), (), Fraction> {
    scheme(Splitting::UpDown {
        cutoff_fraction: Fraction(3, 4),
    })
}

fn scheme2() -> BalancedSplitScheme<(), (), Fraction> {
    scheme(Splitting::Quarters)
}

#[test]
fn test_num_layers_1() {
    let scheme = scheme1();

    assert_eq!(scheme.num_layers(s(7, 7)), 1);
    assert_eq!(scheme.num_layers(s(7, 8)), 2);
    assert_eq!(scheme.num_layers(s(8, 7)), 2);
    assert_eq!(scheme.num_layers(s(8, 8)), 3);
    assert_eq!(scheme.num_layers(s(14, 14)), 3);
    assert_eq!(scheme.num_layers(s(15, 15)), 5);
    assert_eq!(scheme.num_layers(s(16, 16)), 5);
    assert_eq!(scheme.num_layers(s(49, 49)), 7);
    assert_eq!(scheme.num_layers(s(173, 121)), 11);
    assert_eq!(scheme.num_layers(s(1000, 10)), 10);
}

#[test]
fn test_num_layers_2() {
    let scheme = scheme2();

    assert_eq!(scheme.num_layers(s(7, 7)), 1);
    assert_eq!(scheme.num_layers(s(7, 8)), 2);
    assert_eq!(scheme.num_layers(s(8, 7)), 2);
    assert_eq!(scheme.num_layers(s(8, 8)), 2);
    assert_eq!(scheme.num_layers(s(14, 14)), 2);
    assert_eq!(scheme.num_layers(s(15, 15)), 3);
    assert_eq!(scheme.num_layers(s(16, 16)), 3);
    assert_eq!(scheme.num_layers(s(49, 49)), 4);
    assert_eq!(scheme.num_layers(s(173, 121)), 6);
    assert_eq!(scheme.num_layers(s(1000, 10)), 9);
}

#[test]
fn balanced_split_color_quarters() {
    let scheme = scheme2();
    let size = s(16, 16);
    // The first split takes quarters of the 16x16 puzzle.
    assert_eq!(
        scheme.color(size, (3, 12), 0),
        SplitColor::Grid { label: 2, num_labels: 4 }
    );
    assert_eq!(
        scheme.color(size, (12, 3), 0),
        SplitColor::Grid { label: 1, num_labels: 4 }
    );
    // Then quarters of the 8x8 quarter.
    assert_eq!(
        scheme.color(size, (12, 3), 1),
        SplitColor::Grid { label: 1, num_labels: 4 }
    );
    // A 4x4 quarter can not be split: the small scheme colors it.
    assert_eq!(
        scheme.color(size, (13, 3), 2),
        SplitColor::Small { size: s(4, 4), pos: (1, 3) }
    );
}

#[test]
fn balanced_split_color_up_down() {
    let scheme = scheme1();
    let size = s(8, 16);
    // Tall: split into top and bottom.
    assert_eq!(
        scheme.color(size, (5, 9), 0),
        SplitColor::Grid { label: 1, num_labels: 2 }
    );
    // The bottom 8x8 half is square, 1 >= 3/4: split into top and bottom again.
    assert_eq!(
        scheme.color(size, (5, 9), 1),
        SplitColor::Grid { label: 0, num_labels: 2 }
    );
    // The 8x4 part is wide: split into left and right.
    assert_eq!(
        scheme.color(size, (5, 9), 2),
        SplitColor::Grid { label: 1, num_labels: 2 }
    );
}

#[test]
fn balanced_split_try_color() {
    let scheme = scheme2();
    let size = s(16, 16);
    assert_eq!(
        scheme.try_color(size, (16, 0), 0),
        Err(MultiLayerColorSchemeError::ColorSchemeError(
            ColorSchemeError::PositionOutOfBounds { size, pos: (16, 0) }
        ))
    );
    assert_eq!(
        scheme.try_color(size, (0, 0), 3),
        Err(MultiLayerColorSchemeError::LayerOutOfBounds { layer: 3 })
    );
    assert!(scheme.try_color(size, (0, 0), 2).is_ok());
    assert!(scheme.layer(size, 2).is_some());
    assert!(scheme.layer(size, 3).is_none());
}

#[test]
fn balanced_split_grid_containing_pos() {
    let scheme = scheme2();
    let layer = scheme.layer(s(16, 10), 0).unwrap();
    assert_eq!(
        layer.grid_containing_pos(s(16, 10), (9, 2)),
        Rect::new((8, 0), (16, 5)).unwrap()
    );
    let small = Layer::new(&scheme, 0);
    assert_eq!(
        small.grid_containing_pos(s(7, 7), (3, 3)),
        Rect::new((0, 0), (7, 7)).unwrap()
    );
}

#[test]
fn test_grid_size() {
    let grid_size = Size::new(5, 3).unwrap();
    let tiled = Tiled::new(RowGrids, grid_size);

    assert_eq!(tiled.grid_size(), grid_size);
}

#[test]
fn test_color() {
    let grid_size = Size::new(5, 3).unwrap();
    let tiled = Tiled::new(RowGrids, grid_size);

    let size = Size::new(14, 14).unwrap();

    for x in [0, 5] {
        for y in [0, 3, 6, 9] {
            for dx in 0..5 {
                for dy in 0..3 {
                    assert_eq!(
                        tiled.tile_position(size, (x + dx, y + dy)),
                        tiled.tile_position(size, (dx, dy)),
                    );
                }
            }
        }
    }

    let size2 = Size::new(4, 3).unwrap();
    for y in [0, 3, 6, 9] {
        for dx in 0..4 {
            for dy in 0..3 {
                assert_eq!(tiled.tile_position(size, (10 + dx, y + dy)), (size2, (dx, dy)));
            }
        }
    }

    let size3 = Size::new(5, 2).unwrap();
    for x in [0, 5] {
        for dx in 0..5 {
            for dy in 0..2 {
                assert_eq!(tiled.tile_position(size, (x + dx, 12 + dy)), (size3, (dx, dy)));
            }
        }
    }

    let size4 = Size::new(4, 2).unwrap();
    for dx in 0..4 {
        for dy in 0..2 {
            assert_eq!(tiled.tile_position(size, (10 + dx, 12 + dy)), (size4, (dx, dy)));
        }
    }
}

#[test]
fn test_grid_containing_position() {
    let size = Size::new(12, 7).unwrap();
    let rec = RecursiveTiled::new(
        RowGrids,
        vec![Size::new(5, 5).unwrap(), Size::new(3, 2).unwrap()],
    );

    let r = |x, y, w, h| Rect::new((x, y), (x + w, y + h)).unwrap();

    let rects = [
        r(0, 0, 3, 2),
        r(3, 0, 2, 2),
        r(5, 0, 3, 2),
        r(8, 0, 2, 2),
        r(10, 0, 2, 2),
        r(0, 2, 3, 2),
        r(3, 2, 2, 2),
        r(5, 2, 3, 2),
        r(8, 2, 2, 2),
        r(10, 2, 2, 2),
        r(0, 4, 3, 1),
        r(3, 4, 2, 1),
        r(5, 4, 3, 1),
        r(8, 4, 2, 1),
        r(10, 4, 2, 1),
        r(0, 5, 3, 2),
        r(3, 5, 2, 2),
        r(5, 5, 3, 2),
        r(8, 5, 2, 2),
        r(10, 5, 2, 2),
    ];

    let grid = [
        0, 0, 0, 1, 1, 2, 2, 2, 3, 3, 4, 4, //
        0, 0, 0, 1, 1, 2, 2, 2, 3, 3, 4, 4, //
        5, 5, 5, 6, 6, 7, 7, 7, 8, 8, 9, 9, //
        5, 5, 5, 6, 6, 7, 7, 7, 8, 8, 9, 9, //
        10, 10, 10, 11, 11, 12, 12, 12, 13, 13, 14, 14, //
        15, 15, 15, 16, 16, 17, 17, 17, 18, 18, 19, 19, //
        15, 15, 15, 16, 16, 17, 17, 17, 18, 18, 19, 19,
    ];

    for y in 0..7 {
        for x in 0..12 {
            assert_eq!(
                rec.grid_containing_position(size, (x, y)),
                rects[grid[(x + y * 12) as usize]].clone(),
            );
        }
    }
}

#[test]
fn recursive_tiled_locate() {
    let size = Size::new(12, 7).unwrap();
    let rec = RecursiveTiled::new(
        RowGrids,
        vec![Size::new(5, 5).unwrap(), Size::new(3, 2).unwrap()],
    );
    assert_eq!(rec.locate(size, (0, 0)), (s(3, 2), (0, 0)));
    assert_eq!(rec.locate(size, (11, 6)), (s(2, 2), (1, 1)));
    assert_eq!(rec.locate(size, (6, 4)), (s(3, 1), (1, 0)));
}

#[test]
fn scheme_list() {
    assert_eq!(SchemeList::<RowGrids>::new(vec![]), Err(SchemeListError::Empty));
    let list = SchemeList::new(vec![1u8, 2, 3]).unwrap();
    assert_eq!(list.num_layers(s(4, 4)), 3);
    assert_eq!(*list.scheme(1), 2);
    assert_eq!(list.schemes(), &[1, 2, 3]);
    assert_eq!(SchemeList::from_scheme(7u8).schemes(), &[7]);
}

#[test]
fn grid_tiled_position() {
    let tiled = GridTiled::new(Grid::new(vec![2, 4], vec![2, 4, 6]), RowGrids);
    let size = s(5, 5);
    assert_eq!(tiled.tile_position(size, (0, 0)), (s(2, 2), (0, 0)));
    assert_eq!(tiled.tile_position(size, (3, 1)), (s(2, 2), (1, 1)));
    assert_eq!(tiled.tile_position(size, (4, 4)), (s(1, 1), (0, 0)));
    assert_eq!(tiled.tile_position(size, (4, 2)), (s(1, 2), (0, 0)));
}

/// A cutoff fraction compared in floating point, as the renderer compares it.
#[derive(Clone, Copy, Debug, PartialEq)]
struct FloatCutoff(f32);

impl AspectCutoff for FloatCutoff {
    fn admits(&self, numerator: u64, denominator: u64) -> bool {
        numerator as f32 / denominator as f32 >= self.0
    }
}

type ColorScheme = BalancedSplitScheme<ColorList<Rgba>, ColorList<Rgba>, FloatCutoff>;

fn color_scheme(splitting: Splitting<FloatCutoff>) -> ColorScheme {
    let small_colors = (0..16)
        .map(|i| -> Rgba { Rgba::new(i as f32 / 16.0, 0.0, 0.0, 1.0) })
        .collect();
    let grid_colors = (0..4)
        .map(|i| -> Rgba { Rgba::new(i as f32 / 4.0, 0.0, 0.0, 1.0) })
        .collect();
    BalancedSplitScheme::new(
        ColorList::new(small_colors).unwrap(),
        ColorList::new(grid_colors).unwrap(),
        (8, 8),
        splitting,
    )
}

/// The color of `pos` on layer `layer`: the small scheme colors its grid by rows, and the grid
/// coloring colors the labels of the splits.
fn color(scheme: &ColorScheme, size: Size, pos: (u64, u64), layer: u32) -> Rgba {
    match scheme.color(size, pos, layer) {
        SplitColor::Small { size, pos } => {
            let label = Rows.position_label(size, pos);
            let num_labels = Rows.num_labels(size);
            *scheme.small_scheme().color(label, num_labels)
        }
        SplitColor::Grid { label, num_labels } => *scheme.grid_coloring().color(label, num_labels),
    }
}

#[test]
fn test_color_1() {
    let scheme = color_scheme(Splitting::UpDown {
        cutoff_fraction: FloatCutoff(0.75),
    });
    let size = s(49, 15);
    let black: Rgba = Rgba::new(0.0, 0.0, 0.0, 1.0);
    let quarter: Rgba = Rgba::new(1.0 / 4.0, 0.0, 0.0, 1.0);
    let check = |xs: std::ops::Range<u64>, ys: std::ops::Range<u64>, layer: u32, c: Rgba| {
        for y in ys {
            for x in xs.clone() {
                assert_eq!(color(&scheme, size, (x, y), layer), c);
            }
        }
    };

    check(0..25, 0..15, 0, black);
    check(25..49, 0..15, 0, quarter);
    check(0..13, 0..15, 1, black);
    check(13..25, 0..15, 1, quarter);
    check(0..13, 0..8, 2, black);
    check(0..13, 8..15, 2, quarter);
    check(0..7, 0..8, 3, black);
    check(7..13, 0..8, 3, quarter);
    check(0..7, 0..4, 4, black);
    check(0..7, 4..8, 4, quarter);
    for y in 0..4 {
        for x in 0..7 {
            let expected: Rgba = Rgba::new(y as f32 / 16.0, 0.0, 0.0, 1.0);
            assert_eq!(color(&scheme, size, (x, y), 5), expected);
        }
    }
}

#[test]
fn test_color_2() {
    let scheme = color_scheme(Splitting::Quarters);
    let size = s(49, 15);
    let c = |i: u64| -> Rgba { Rgba::new(i as f32 / 4.0, 0.0, 0.0, 1.0) };
    let check = |xs: std::ops::Range<u64>, ys: std::ops::Range<u64>, layer: u32, expected: Rgba| {
        for y in ys {
            for x in xs.clone() {
                assert_eq!(color(&scheme, size, (x, y), layer), expected);
            }
        }
    };

    check(0..25, 0..8, 0, c(0));
    check(25..49, 0..8, 0, c(1));
    check(0..25, 8..15, 0, c(2));
    check(25..49, 8..15, 0, c(3));
    check(0..13, 0..4, 1, c(0));
    check(13..25, 0..4, 1, c(1));
    check(0..13, 4..8, 1, c(2));
    check(13..25, 4..8, 1, c(3));
    check(0..7, 0..4, 2, c(0));
    check(7..13, 0..4, 2, c(1));
}

#[test]
fn balanced_split_grid_narrows_with_layers() {
    let scheme = color_scheme(Splitting::UpDown {
        cutoff_fraction: FloatCutoff(0.75),
    });
    let size = s(49, 15);
    let grid = |layer: u32, pos: (u64, u64)| scheme.layer(size, layer).unwrap().grid_containing_pos(size, pos);
    assert_eq!(grid(0, (0, 0)), Rect::new((0, 0), (25, 15)).unwrap());
    assert_eq!(grid(0, (30, 3)), Rect::new((25, 0), (49, 15)).unwrap());
    assert_eq!(grid(1, (0, 0)), Rect::new((0, 0), (13, 15)).unwrap());
    assert_eq!(grid(1, (20, 9)), Rect::new((13, 0), (25, 15)).unwrap());
    assert_eq!(grid(2, (0, 9)), Rect::new((0, 8), (13, 15)).unwrap());
    assert_eq!(grid(3, (8, 0)), Rect::new((7, 0), (13, 8)).unwrap());
}
