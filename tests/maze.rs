use gryds::cfile::{check_no_nul, Error};
use gryds::mazegen::{GenerateError, Maze2, MazeCell2};

fn generated(w: usize, h: usize) -> Maze2 {
    let mut m = Maze2::empty(w, h);
    assert_eq!(m.generate(), Ok(()));
    m
}

fn bits(v: u8) -> u32 {
    v.count_ones()
}

fn step(x: usize, y: usize, d: u8) -> Option<(usize, usize)> {
    match d {
        0 => Some((x + 1, y)),
        1 => x.checked_sub(1).map(|nx| (nx, y)),
        2 => Some((x, y + 1)),
        _ => y.checked_sub(1).map(|ny| (x, ny)),
    }
}

fn opposite(d: u8) -> u8 {
    [1, 0, 3, 2][d as usize]
}

/// Number of cells reachable from (0, 0) through open passages.
fn reachable(m: &Maze2) -> usize {
    let (w, h) = m.get_size();
    let mut seen = vec![false; w * h];
    let mut stack = vec![(0usize, 0usize)];
    seen[0] = true;
    let mut count = 0;
    while let Some((x, y)) = stack.pop() {
        count += 1;
        for d in 0..4u8 {
            if m.is_cell_open(x, y, d) {
                let (nx, ny) = step(x, y, d).unwrap();
                if !seen[nx * h + ny] {
                    seen[nx * h + ny] = true;
                    stack.push((nx, ny));
                }
            }
        }
    }
    count
}

fn open_bits(m: &Maze2) -> u32 {
    let (w, h) = m.get_size();
    let mut total = 0;
    for x in 0..w {
        for y in 0..h {
            total += bits(m.get_cell_val(x, y));
        }
    }
    total
}

#[test]
fn cell_starts_closed_and_unvisited() {
    let c = MazeCell2::new();
    assert_eq!(c.val(), 0);
    assert!(!c.is_visited());
    assert!(!c.is_listed());
    for d in 0..4 {
        assert!(!c.is_open(d));
    }
}

#[test]
fn cell_open_sets_one_bit() {
    let mut c = MazeCell2::new();
    c.open(2);
    assert_eq!(c.val(), 4);
    assert!(c.is_open(2));
    assert!(!c.is_open(0));
    c.open(0);
    assert_eq!(c.val(), 5);
    c.open(0);
    assert_eq!(c.val(), 5);
    c.open(3);
    assert_eq!(c.val(), 13);
}

#[test]
fn cell_flags() {
    let mut c = MazeCell2::new();
    c.list();
    assert!(c.is_listed());
    c.unlist();
    assert!(!c.is_listed());
    c.visit();
    assert!(c.is_visited());
    assert_eq!(c.val(), 0);
}

#[test]
fn empty_maze_is_closed() {
    let m = Maze2::empty(4, 3);
    assert_eq!(m.get_size(), (4, 3));
    assert_eq!(m.borrow_data().len(), 12);
    for x in 0..4 {
        for y in 0..3 {
            assert_eq!(m.get_cell_val(x, y), 0);
        }
    }
}

#[test]
fn two_cell_maze_has_one_passage() {
    let m = generated(1, 2);
    assert_eq!(m.get_cell_val(0, 0), 4);
    assert_eq!(m.get_cell_val(0, 1), 8);
    assert!(m.is_cell_open(0, 0, 2));
    assert!(m.is_cell_open(0, 1, 3));
    assert!(!m.is_cell_open(0, 0, 3));
    assert!(!m.is_cell_open(0, 1, 2));
    for y in 0..2 {
        assert!(!m.is_cell_open(0, y, 0));
        assert!(!m.is_cell_open(0, y, 1));
    }
}

fn passages(m: &Maze2) -> u32 {
    let (w, h) = m.get_size();
    let mut total = 0;
    for x in 0..w {
        for y in 0..h {
            total += bits(m.get_cell_val(x, y) & 0b0101);
        }
    }
    total
}

#[test]
fn three_by_three_has_eight_passages() {
    for _ in 0..20 {
        let m = generated(3, 3);
        assert_eq!(passages(&m), 8);
        assert_eq!(open_bits(&m), 16);
    }
}

#[test]
fn generated_maze_spans_the_grid() {
    for &(w, h) in &[(1, 1), (2, 2), (5, 3), (7, 9), (15, 15)] {
        let m = generated(w, h);
        assert_eq!(reachable(&m), w * h);
        assert_eq!(open_bits(&m) as usize, 2 * (w * h - 1));
    }
}

#[test]
fn generated_maze_has_no_cycle() {
    // A connected graph on n vertices with n - 1 edges is a tree.
    let m = generated(10, 6);
    let edges = open_bits(&m) as usize / 2;
    assert_eq!(edges, 59);
    assert_eq!(reachable(&m), 60);
}

#[test]
fn walls_are_symmetric() {
    let m = generated(6, 5);
    for x in 0..6 {
        for y in 0..5 {
            for d in 0..4u8 {
                let mirrored = match step(x, y, d) {
                    Some((nx, ny)) if nx < 6 && ny < 5 => m.is_cell_open(nx, ny, opposite(d)),
                    _ => false,
                };
                assert_eq!(m.is_cell_open(x, y, d), mirrored);
            }
        }
    }
}

#[test]
fn boundary_stays_closed() {
    let m = generated(5, 4);
    for y in 0..4 {
        assert!(!m.is_cell_open(0, y, 1));
        assert!(!m.is_cell_open(4, y, 0));
    }
    for x in 0..5 {
        assert!(!m.is_cell_open(x, 0, 3));
        assert!(!m.is_cell_open(x, 3, 2));
    }
    for x in 0..5 {
        for y in 0..4 {
            assert!(m.get_cell_val(x, y) < 16);
        }
    }
}

#[test]
fn reads_repeat_after_generation() {
    let m = generated(4, 4);
    for x in 0..4 {
        for y in 0..4 {
            let v = m.get_cell_val(x, y);
            assert_eq!(m.get_cell_val(x, y), v);
            for d in 0..4 {
                assert_eq!(m.is_cell_open(x, y, d), m.is_cell_open(x, y, d));
                assert_eq!(m.is_cell_open(x, y, d), v >> d & 1 == 1);
            }
        }
    }
}

#[test]
fn second_generation_is_refused() {
    let mut m = generated(5, 5);
    let before: Vec<u8> = m.borrow_data().iter().map(|c| c.val()).collect();
    assert_eq!(m.generate(), Err(GenerateError::AlreadyGenerated));
    let after: Vec<u8> = m.borrow_data().iter().map(|c| c.val()).collect();
    assert_eq!(before, after);
}

#[test]
fn grid_without_cells_is_refused() {
    let mut m = Maze2::empty(0, 4);
    assert_eq!(m.generate(), Err(GenerateError::EmptyGrid));
    let mut m = Maze2::empty(3, 0);
    assert_eq!(m.generate(), Err(GenerateError::EmptyGrid));
    assert_eq!(m.get_size(), (3, 0));
}

#[test]
fn single_cell_maze_has_no_passage() {
    let m = generated(1, 1);
    assert_eq!(m.get_cell_val(0, 0), 0);
}

#[test]
fn text_picture_of_two_cells() {
    let m = generated(1, 2);
    let lines: Vec<String> = m.text_lines().iter().map(|l| l.iter().collect()).collect();
    assert_eq!(lines.len(), 2);
    assert_eq!(lines[0], "\u{2588}\u{2588}\u{2588}\u{2588}\u{2588}\u{2588}  ");
    assert_eq!(lines[1], "        ");
}

#[test]
fn text_picture_size() {
    let m = generated(3, 5);
    let lines = m.text_lines();
    assert_eq!(lines.len(), 6);
    for l in &lines {
        assert_eq!(l.len(), 20);
    }
}

#[test]
fn crossing_needs_open_passage_and_door_band() {
    let m = generated(1, 2);
    assert!(m.can_cross(0, 0, 2, true));
    assert!(!m.can_cross(0, 0, 2, false));
    assert!(!m.can_cross(0, 0, 0, true));
    assert!(!m.can_cross(0, 1, 2, true));
    assert!(m.can_cross(0, 1, 3, true));
    assert!(!m.can_cross(1, 0, 2, true));
    assert!(!m.can_cross(0, 2, 3, true));
}

#[test]
fn nul_byte_is_rejected() {
    assert!(check_no_nul(&vec![b'a', b'b']).is_ok());
    assert!(check_no_nul(&vec![]).is_ok());
    assert!(matches!(check_no_nul(&vec![b'a', 0, b'b']), Err(Error::FileContainsNil)));
}

#[test]
fn io_error_converts() {
    let e: Error = std::io::Error::new(std::io::ErrorKind::NotFound, "gone").into();
    assert!(matches!(e, Error::Io(_)));
}
