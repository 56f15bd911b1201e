use slidy::puzzle::grids::Grids;
use slidy::puzzle::label::grid::Grid;
use slidy::puzzle::label::label::{Label, RowGrids};
use slidy::puzzle::label::rect_partition::{Rect, RectError, RectPartition, RectPartitionError};
use slidy::puzzle::label::scaled::Scaled;
use slidy::puzzle::size::Size;

fn s(w: u64, h: u64) -> Size {
    Size::new(w, h).unwrap()
}

#[test]
fn test_num_labels() {
    let grid = Grid::new(vec![2, 4], vec![2, 4, 6]);

    assert_eq!(grid.num_labels(s(2, 2)), 1);
    assert_eq!(grid.num_labels(s(2, 3)), 2);
    assert_eq!(grid.num_labels(s(2, 4)), 2);
    assert_eq!(grid.num_labels(s(2, 5)), 3);
    assert_eq!(grid.num_labels(s(2, 6)), 3);
    assert_eq!(grid.num_labels(s(2, 7)), 4);
    assert_eq!(grid.num_labels(s(2, 8)), 4);
    assert_eq!(grid.num_labels(s(4, 2)), 2);
    assert_eq!(grid.num_labels(s(4, 3)), 4);
    assert_eq!(grid.num_labels(s(4, 4)), 4);
    assert_eq!(grid.num_labels(s(4, 5)), 6);
    assert_eq!(grid.num_labels(s(5, 4)), 6);
    assert_eq!(grid.num_labels(s(5, 5)), 9);
    assert_eq!(grid.num_labels(s(5, 6)), 9);
    assert_eq!(grid.num_labels(s(5, 7)), 12);
    assert_eq!(grid.num_labels(s(6, 5)), 9);
    assert_eq!(grid.num_labels(s(6, 6)), 9);
    assert_eq!(grid.num_labels(s(8, 5)), 9);
    assert_eq!(grid.num_labels(s(8, 8)), 12);
}

const GRID_LABELS: [[u64; 5]; 5] = [
    [0, 0, 1, 1, 2],
    [0, 0, 1, 1, 2],
    [3, 3, 4, 4, 5],
    [3, 3, 4, 4, 5],
    [6, 6, 7, 7, 8],
];

#[test]
fn test_position_label() {
    let grid = Grid::new(vec![2, 4], vec![2, 4, 6]);
    let size = s(5, 5);

    let actual = (0..size.height())
        .map(|y| {
            (0..size.width())
                .map(|x| grid.position_label(size, (x, y)))
                .collect::<Vec<_>>()
        })
        .collect::<Vec<_>>();

    assert_eq!(actual, GRID_LABELS);
}

#[test]
fn test_grid_containing_pos() {
    let grid = Grid::new(vec![2, 4], vec![2, 4, 6]);
    let size = s(5, 5);

    let rects = [
        Rect::new((0, 0), (2, 2)).unwrap(),
        Rect::new((2, 0), (4, 2)).unwrap(),
        Rect::new((4, 0), (5, 2)).unwrap(),
        Rect::new((0, 2), (2, 4)).unwrap(),
        Rect::new((2, 2), (4, 4)).unwrap(),
        Rect::new((4, 2), (5, 4)).unwrap(),
        Rect::new((0, 4), (2, 5)).unwrap(),
        Rect::new((2, 4), (4, 5)).unwrap(),
        Rect::new((4, 4), (5, 5)).unwrap(),
    ];

    for y in 0..size.height() {
        for x in 0..size.width() {
            let rect = grid.grid_containing_pos(size, (x, y));
            assert_eq!(rect, rects[GRID_LABELS[y as usize][x as usize] as usize]);
        }
    }
}

#[test]
fn grid_unsorted_coordinates() {
    let a = Grid::new(vec![4, 0, 2, 4], vec![6, 2, 4, 2, 0]);
    let b = Grid::new(vec![2, 4], vec![2, 4, 6]);
    let size = s(7, 7);
    for y in 0..7 {
        for x in 0..7 {
            assert_eq!(a.position_label(size, (x, y)), b.position_label(size, (x, y)));
        }
    }
    assert_eq!(a.num_labels(size), 12);
}

#[test]
fn test_rect() {
    let r = Rect::new((0, 0), (3, 5));
    assert!(r.is_ok());
}

#[test]
fn test_rect_2() {
    let r = Rect::new((3, 3), (4, 4));
    assert!(r.is_ok());
}

#[test]
fn test_rect_3() {
    let r = Rect::new((3, 1), (5, 1));
    assert_eq!(r, Err(RectError::InvalidSize));
}

#[test]
fn test_rect_4() {
    let r = Rect::new((3, 1), (3, 2));
    assert_eq!(r, Err(RectError::InvalidSize));
}

#[test]
fn test_rect_5() {
    let r = Rect::new((3, 2), (0, 0));
    assert_eq!(r, Err(RectError::InvalidSize));
}

#[test]
fn rect_accessors() {
    let r = Rect::new((1, 2), (4, 7)).unwrap();
    assert_eq!(r.width(), 3);
    assert_eq!(r.height(), 5);
    assert_eq!(r.top_left(), (1, 2));
    assert_eq!(r.size(), (3, 5));
    assert!(r.contains(1, 2));
    assert!(r.contains(3, 6));
    assert!(!r.contains(4, 6));
    assert!(!r.contains(3, 7));
    assert!(!r.contains(0, 3));
}

#[test]
fn test_rect_partition() {
    assert!(RectPartition::new(vec![
        Rect::new((0, 0), (3, 2)).unwrap(),
        Rect::new((3, 0), (5, 3)).unwrap(),
        Rect::new((0, 2), (2, 5)).unwrap(),
        Rect::new((2, 2), (3, 3)).unwrap(),
        Rect::new((2, 3), (5, 5)).unwrap(),
    ])
    .is_ok());
}

#[test]
fn test_rect_partition_2() {
    assert!(RectPartition::new(vec![Rect::new((0, 0), (1, 1)).unwrap()]).is_ok());
}

#[test]
fn test_rect_partition_3() {
    assert!(RectPartition::new(vec![
        Rect::new((0, 0), (5, 1)).unwrap(),
        Rect::new((0, 1), (1, 3)).unwrap(),
        Rect::new((1, 1), (3, 2)).unwrap(),
        Rect::new((2, 2), (4, 4)).unwrap(),
        Rect::new((3, 1), (4, 2)).unwrap(),
        Rect::new((4, 1), (5, 4)).unwrap(),
        Rect::new((1, 2), (2, 5)).unwrap(),
        Rect::new((0, 3), (1, 5)).unwrap(),
        Rect::new((2, 4), (4, 5)).unwrap(),
        Rect::new((4, 4), (5, 5)).unwrap(),
    ])
    .is_ok());
}

#[test]
fn test_rect_partition_4() {
    assert_eq!(RectPartition::new(vec![]), Err(RectPartitionError::Empty));
}

#[test]
fn test_rect_partition_5() {
    assert_eq!(
        RectPartition::new(vec![
            Rect::new((0, 0), (2, 2)).unwrap(),
            Rect::new((2, 0), (4, 1)).unwrap(),
            Rect::new((3, 1), (4, 2)).unwrap(),
        ]),
        Err(RectPartitionError::NotPartition { x: 2, y: 1 })
    );
}

#[test]
fn test_rect_partition_6() {
    assert_eq!(
        RectPartition::new(vec![
            Rect::new((0, 0), (3, 3)).unwrap(),
            Rect::new((2, 0), (6, 3)).unwrap(),
            Rect::new((0, 3), (3, 6)).unwrap(),
            Rect::new((3, 3), (6, 6)).unwrap(),
        ]),
        Err(RectPartitionError::NotPartition { x: 2, y: 0 })
    );
}

#[test]
fn test_rect_partition_7() {
    assert!(RectPartition::new(vec![
        Rect::new((4, 1), (6, 3)).unwrap(),
        Rect::new((4, 3), (6, 5)).unwrap(),
        Rect::new((6, 1), (8, 3)).unwrap(),
        Rect::new((6, 3), (8, 5)).unwrap(),
    ])
    .is_ok());
}

#[test]
fn rect_partition_num_rects() {
    let p = RectPartition::new(vec![
        Rect::new((0, 0), (2, 1)).unwrap(),
        Rect::new((0, 1), (2, 2)).unwrap(),
    ])
    .unwrap();
    assert_eq!(p.num_rects(), 2);
}

#[test]
fn scaled_test_new() {
    assert!(Scaled::new(RowGrids, (0, 1)).is_err());
    assert!(Scaled::new(RowGrids, (1, 0)).is_err());
    assert!(Scaled::new(RowGrids, (1, 1)).is_ok());
    assert!(Scaled::new(RowGrids, (3, 5)).is_ok());
}

#[test]
fn test_scale() {
    let label = Scaled::new(RowGrids, (3, 5)).unwrap();
    assert_eq!(label.scale(), (3, 5));
}

#[test]
fn test_scaled_row_grids() {
    let size = Size::new(8, 5).unwrap();
    let label = Scaled::new(&RowGrids, (3, 2)).unwrap();

    let labels = (0..40)
        .map(|i| label.position_label(size, (i % 8, i / 8)))
        .collect::<Vec<_>>();
    let num_labels = label.num_labels(size);

    assert_eq!(
        labels,
        vec![
            0, 0, 0, 1, 1, 1, 2, 2, //
            0, 0, 0, 1, 1, 1, 2, 2, //
            3, 3, 3, 4, 4, 4, 5, 5, //
            3, 3, 3, 4, 4, 4, 5, 5, //
            6, 6, 6, 7, 7, 7, 8, 8,
        ]
    );
    assert_eq!(num_labels, 9);
}

#[test]
fn test_scaled_row_grids_2() {
    let size = Size::new(10, 10).unwrap();
    let label = Scaled::new(&RowGrids, (10, 5)).unwrap();

    let labels = (0..100)
        .map(|i| label.position_label(size, (i % 10, i / 10)))
        .collect::<Vec<_>>();
    let num_labels = label.num_labels(size);

    let mut expected = vec![0; 50];
    expected.extend(vec![1; 50]);
    assert_eq!(labels, expected);
    assert_eq!(num_labels, 2);
}

#[test]
fn rect_partition_names_square_not_covered_once() {
    assert_eq!(
        RectPartition::new(vec![
            Rect::new((0, 0), (1, 1)).unwrap(),
            Rect::new((0, 1), (2, 2)).unwrap(),
        ]),
        Err(RectPartitionError::NotPartition { x: 1, y: 0 })
    );
    assert_eq!(
        RectPartition::new(vec![
            Rect::new((0, 0), (2, 1)).unwrap(),
            Rect::new((1, 0), (3, 1)).unwrap(),
        ]),
        Err(RectPartitionError::NotPartition { x: 1, y: 0 })
    );
}

#[test]
fn grid_depends_on_line_sets() {
    let a = Grid::new(vec![3, 1, 0, 3], vec![2]);
    let b = Grid::new(vec![1, 3], vec![0, 2, 2]);
    let size = Size::new(5, 4).unwrap();
    assert_eq!(a.num_labels(size), b.num_labels(size));
    for y in 0..4 {
        for x in 0..5 {
            assert_eq!(a.position_label(size, (x, y)), b.position_label(size, (x, y)));
            assert_eq!(a.grid_containing_pos(size, (x, y)), b.grid_containing_pos(size, (x, y)));
        }
    }
}

#[test]
fn rect_partition_keeps_every_rect() {
    let rects = vec![
        Rect::new((2, 0), (4, 2)).unwrap(),
        Rect::new((0, 0), (2, 2)).unwrap(),
        Rect::new((0, 2), (4, 3)).unwrap(),
    ];
    let p = RectPartition::new(rects.clone()).unwrap();
    assert_eq!(p.num_rects(), rects.len());
}
