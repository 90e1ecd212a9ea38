use advent24::bytegrid::{east, origin, south, southeast, ByteGrid, Point};

#[test]
fn bytegrid_test_point() {
    let origin_point = Point::default();
    assert_eq!(origin_point.row, 0);
    assert_eq!(origin_point.col, 0);
    let new_point = origin().plus(southeast().times(2)).minus(south());
    assert_eq!(new_point.row, 1);
    assert_eq!(new_point.col, 2);
}

#[test]
fn bytegrid_test_u8_grid() {
    let mut grid = ByteGrid::new(
        "0123456789\n\
         11......1.\n\
         2.2....2..\n\
         3..3..3...\n\
         4...44....\n\
         5...55....\n\
         6..6..6...\n\
         7.7....7..\n\
         88......8.\n\
         9........9\n",
    );
    assert_eq!(grid.width, 10);
    assert_eq!(grid.height, 10);
    assert_eq!(grid.data[99], b'9');

    let mut column_vec: Vec<u8> = Vec::new();
    let mut it = grid.iter_towards(origin().plus(south()), south());
    while let Some(b) = it.next(&grid) {
        column_vec.push(b);
    }
    assert_eq!(
        column_vec,
        vec![b'1', b'2', b'3', b'4', b'5', b'6', b'7', b'8', b'9']
    );

    let mut row_vec: Vec<u8> = Vec::new();
    let mut it = grid.iter_towards(origin().plus(south()), east());
    while let Some(b) = it.next(&grid) {
        row_vec.push(b);
    }
    assert_eq!(
        row_vec,
        vec![b'1', b'1', b'.', b'.', b'.', b'.', b'.', b'.', b'1', b'.']
    );

    let mut ray = grid.iter_mut_ray(0, 0, 1, 0);
    while let Some(p) = ray.next_point(&grid) {
        grid.set_point(p, b'!');
    }

    let mut column_vec: Vec<u8> = Vec::new();
    let mut it = grid.iter_towards(origin().plus(south()), south());
    while let Some(b) = it.next(&grid) {
        column_vec.push(b);
    }
    assert_eq!(
        column_vec,
        vec![b'!', b'!', b'!', b'!', b'!', b'!', b'!', b'!', b'!']
    );
    assert_eq!(grid.get_point(origin()), Some(&b'!'));
    assert_eq!(grid.at(origin()), b'!');
    assert_eq!(grid.at_coord(0, 0), b'!');
    assert_eq!(grid.data[0], b'!');

    let (count, points) = grid.flood_orthogonals_mut(Point::new(2, 3), b'%');
    let blah = points.iter().filter(|p| p.col == 4).count();

    assert_eq!(count, 12);
    assert_eq!(blah, 3);
    assert_eq!(grid.at_coord(2, 3), b'%');
    assert_eq!(grid.at_coord(1, 3), b'%');
    assert_eq!(grid.at_coord(1, 1), b'1');

    let rows = grid.rows();
    let expected = "!123456789\n\
                    !1%%%%%%1.\n\
                    !.2%%%%2..\n\
                    !..3%%3...\n\
                    !...44....\n\
                    !...55....\n\
                    !..6..6...\n\
                    !.7....7..\n\
                    !8......8.\n\
                    !........9";
    let expected_rows: Vec<Vec<u8>> = expected.lines().map(|l| l.as_bytes().to_vec()).collect();
    assert_eq!(rows, expected_rows);
}

#[test]
fn grid_count_and_lookup() {
    let grid = ByteGrid::new("ab\ncd\n");
    assert_eq!(grid.width, 2);
    assert_eq!(grid.height, 2);
    assert_eq!(grid.count(b'a'), 1);
    assert_eq!(grid.count(b'z'), 0);
    assert_eq!(grid.get_point(Point::new(5, 5)), None);
    assert_eq!(grid.idx_to_coord(3), (1, 1));
    assert_eq!(grid.coord_to_idx(1, 0), 2);
    let m = grid.bytes_to_points();
    assert_eq!(m[&b'c'], vec![Point::new(1, 0)]);
    assert!(!m.contains_key(&b'z'));
}

#[test]
fn grid_regions_cover_everything() {
    let grid = ByteGrid::new("AAB\nABB\n");
    let regions = grid.to_regions();
    let total_area: i32 = regions.iter().map(|r| r.area()).sum();
    assert_eq!(total_area, 6);
    assert_eq!(regions.len(), 2);
}

#[test]
fn grid_u8s_surrounding() {
    let grid = ByteGrid::new("abc\ndef\nghi\n");
    let center = Point::new(1, 1);
    let offsets = [advent24::bytegrid::north(), advent24::bytegrid::south()];
    assert_eq!(grid.u8s_surrounding(center, &offsets), Some(vec![b'b', b'h']));
    let corner = Point::new(0, 0);
    assert_eq!(grid.u8s_surrounding(corner, &offsets), None);
}

use advent24::chargrid;

#[test]
fn chargrid_test_point() {
    let origin_point = chargrid::Point::default();
    assert_eq!(origin_point.row, 0);
    assert_eq!(origin_point.col, 0);
    let new_point = chargrid::origin().plus(chargrid::southeast().times(2)).minus(
        chargrid::south(),
    );
    assert_eq!(new_point.row, 1);
    assert_eq!(new_point.col, 2);
}

#[test]
fn chargrid_test_u8_grid() {
    let mut grid = chargrid::ByteGrid::new(
        "0123456789\n\
         11......1.\n\
         2.2....2..\n\
         3..3..3...\n\
         4...44....\n\
         5...55....\n\
         6..6..6...\n\
         7.7....7..\n\
         88......8.\n\
         9........9\n",
    );
    assert_eq!(grid.width, 10);
    assert_eq!(grid.height, 10);
    assert_eq!(grid.data[99], b'9');

    let mut column_vec: Vec<u8> = Vec::new();
    let mut it = grid.iter_towards(chargrid::origin().plus(chargrid::south()), chargrid::south());
    while let Some(b) = it.next(&grid) {
        column_vec.push(b);
    }
    assert_eq!(
        column_vec,
        vec![b'1', b'2', b'3', b'4', b'5', b'6', b'7', b'8', b'9']
    );

    let mut row_vec: Vec<u8> = Vec::new();
    let mut it = grid.iter_towards(chargrid::origin().plus(chargrid::south()), chargrid::east());
    while let Some(b) = it.next(&grid) {
        row_vec.push(b);
    }
    assert_eq!(
        row_vec,
        vec![b'1', b'1', b'.', b'.', b'.', b'.', b'.', b'.', b'1', b'.']
    );

    let mut ray = grid.iter_mut_ray(0, 0, 1, 0);
    while let Some(p) = ray.next_point(&grid) {
        grid.set_point(p, b'!');
    }

    let mut column_vec: Vec<u8> = Vec::new();
    let mut it = grid.iter_towards(chargrid::origin().plus(chargrid::south()), chargrid::south());
    while let Some(b) = it.next(&grid) {
        column_vec.push(b);
    }
    assert_eq!(
        column_vec,
        vec![b'!', b'!', b'!', b'!', b'!', b'!', b'!', b'!', b'!']
    );
    assert_eq!(grid.get_point(chargrid::origin()), Some(&b'!'));
    assert_eq!(grid.at(chargrid::origin()), b'!');
    assert_eq!(grid.data[0], b'!');

    let (count, points) = grid.flood_orthogonals(chargrid::Point::new(2, 3), b'%');
    let blah = points.iter().filter(|p| p.col == 4).count();

    assert_eq!(count, 12);
    assert_eq!(blah, 3);
    assert_eq!(grid.at(chargrid::Point::new(2, 3)), b'%');
    assert_eq!(grid.at(chargrid::Point::new(1, 3)), b'%');
    assert_eq!(grid.at(chargrid::Point::new(1, 1)), b'1');

    let rows = grid.rows();
    let expected = "!123456789\n\
                    !1%%%%%%1.\n\
                    !.2%%%%2..\n\
                    !..3%%3...\n\
                    !...44....\n\
                    !...55....\n\
                    !..6..6...\n\
                    !.7....7..\n\
                    !8......8.\n\
                    !........9";
    let expected_rows: Vec<Vec<u8>> = expected.lines().map(|l| l.as_bytes().to_vec()).collect();
    assert_eq!(rows, expected_rows);
}
