use wavemaze::position::Position;
use wavemaze::walls::{find_entrance, gen_all_walls, wall_from_draw, Wall, CERTAIN};
use wavemaze::{Maze, MazeError};

use Wall::{Block, Open};

fn solve(m: &mut Maze, max_ticks: usize) -> usize {
    let mut ticks = 0;
    while m.light_path_len() == 0 && m.cell_count() > 0 && ticks < max_ticks {
        m.tick();
        ticks += 1;
    }
    ticks
}

#[test]
fn advance_moves_one_unit() {
    let p = Position { x: 2, y: 3 };
    assert_eq!(p.advance(0, 5, 5), Some(Position { x: 2, y: 2 }));
    assert_eq!(p.advance(1, 5, 5), Some(Position { x: 2, y: 4 }));
    assert_eq!(p.advance(2, 5, 5), Some(Position { x: 1, y: 3 }));
    assert_eq!(p.advance(3, 5, 5), Some(Position { x: 3, y: 3 }));
    assert_eq!(p.advance(4, 5, 5), None);
}

#[test]
fn advance_stops_at_edges() {
    for x in 0..6u32 {
        assert_eq!(Position { x, y: 0 }.advance(0, 5, 5), None);
        assert_eq!(Position { x, y: 5 }.advance(1, 5, 5), None);
    }
    for y in 0..6u32 {
        assert_eq!(Position { x: 0, y }.advance(2, 5, 5), None);
        assert_eq!(Position { x: 5, y }.advance(3, 5, 5), None);
    }
    assert_eq!(Position { x: 0, y: 4 }.advance(1, 5, 5), Some(Position { x: 0, y: 5 }));
}

#[test]
fn draw_below_threshold_opens() {
    assert_eq!(wall_from_draw(0, 1), Open);
    assert_eq!(wall_from_draw(1, 1), Block);
    assert_eq!(wall_from_draw(0, 0), Block);
    assert_eq!(wall_from_draw(u32::MAX, CERTAIN), Open);
}

#[test]
fn generated_sides_are_blocked() {
    for &(w, h) in &[(1u32, 1u32), (3, 2), (7, 5), (10, 10)] {
        for &p in &[0u64, CERTAIN / 2, CERTAIN] {
            let (v, hw) = gen_all_walls(w, h, p, p);
            assert_eq!(v.len(), ((w + 1) * h) as usize);
            assert_eq!(hw.len(), (w * (h + 1)) as usize);
            for row in 0..h {
                assert_eq!(v[(row * (w + 1)) as usize], Block);
                assert_eq!(v[(row * (w + 1) + w) as usize], Block);
            }
        }
    }
}

#[test]
fn generated_extremes() {
    let (v, h) = gen_all_walls(4, 3, 0, 0);
    assert!(v.iter().all(|w| *w == Block));
    assert!(h.iter().all(|w| *w == Block));
    let (v, h) = gen_all_walls(4, 3, CERTAIN, CERTAIN);
    assert!(h.iter().all(|w| *w == Open));
    for (i, w) in v.iter().enumerate() {
        let col = i % 5;
        assert_eq!(*w, if col == 0 || col == 4 { Block } else { Open });
    }
}

#[test]
fn entrance_scan_starts_at_middle() {
    let h = vec![Open, Open, Block, Block, Open, Block];
    assert_eq!(find_entrance(6, &h), Some(4));
    let h = vec![Open, Open, Open, Block, Block, Block];
    assert_eq!(find_entrance(6, &h), None);
    assert_eq!(find_entrance(1, &vec![Open, Block]), Some(0));
}

#[test]
fn one_by_one_open_maze() {
    let mut m = Maze::new(1, 1, CERTAIN, CERTAIN).unwrap();
    assert_eq!(m.cells(), vec![0, 0]);
    assert_eq!(m.cell_count(), 1);
    assert_eq!(m.light_path_len(), 0);
    assert!(m.lightup().is_empty());
    m.tick();
    assert_eq!(m.light_path_len(), 2);
    assert_eq!(m.lightup(), vec![0, 0, 0, 1]);
    assert_eq!(m.cell_count(), 0);
}

#[test]
fn straight_corridor_takes_one_tick() {
    let v = vec![Block; 4];
    let h = vec![Block, Open, Block, Block, Open, Block];
    let mut m = Maze::from_walls(3, 1, v, h).unwrap();
    assert_eq!(m.cells(), vec![1, 0]);
    m.tick();
    assert_eq!(m.light_path_len(), 2);
    let path = m.lightup();
    assert_eq!(path, vec![1, 0, 1, 1]);
    assert_eq!(path[0], path[2]);
}

#[test]
fn closed_floors_never_win() {
    let (w, h) = (3u32, 2u32);
    let v = vec![Block, Open, Open, Block, Block, Open, Open, Block];
    let hw = vec![Block; (w * (h + 1)) as usize];
    assert_eq!(Maze::from_walls(w, h, v.clone(), hw.clone()).err(), Some(MazeError::NoEntrance));
    let mut m = Maze::with_entrance(w, h, v, hw, 0).unwrap();
    for _ in 0..20 {
        m.tick();
        assert_eq!(m.light_path_len(), 0);
        assert!(m.lightup().is_empty());
    }
    assert_eq!(m.cell_count(), 0);
}

#[test]
fn frontier_spreads_through_open_walls() {
    let v = vec![Block, Open, Open, Block];
    let h = vec![Block, Open, Block, Block, Block, Block];
    let mut m = Maze::from_walls(3, 1, v, h).unwrap();
    m.tick();
    assert_eq!(m.cells(), vec![0, 0, 2, 0]);
    m.tick();
    assert_eq!(m.cell_count(), 0);
    assert_eq!(m.light_path_len(), 0);
}

#[test]
fn contested_position_goes_to_first_branch() {
    // Branches at (1,1) and (0,0) both reach (0,1) in the same tick.
    let v = vec![Block, Open, Block, Block, Open, Block, Block, Block, Block];
    let h = vec![Block, Open, Open, Open, Block, Block, Block, Block];
    let mut m = Maze::from_walls(2, 3, v, h).unwrap();
    assert_eq!(m.cells(), vec![1, 0]);
    m.tick();
    assert_eq!(m.cells(), vec![1, 1, 0, 0]);
    m.tick();
    assert_eq!(m.cells(), vec![0, 1]);
    m.tick();
    assert_eq!(m.cell_count(), 0);
}

#[test]
fn tick_after_win_changes_nothing() {
    let mut m = Maze::new(3, 4, CERTAIN, CERTAIN).unwrap();
    solve(&mut m, 100);
    let len = m.light_path_len();
    let path = m.lightup();
    assert!(len > 0);
    for _ in 0..3 {
        m.tick();
        assert_eq!(m.light_path_len(), len);
        assert_eq!(m.lightup(), path);
        assert_eq!(m.cell_count(), 0);
    }
}

#[test]
fn winning_path_is_connected() {
    for _ in 0..20 {
        let mut m = Maze::new(6, 5, CERTAIN / 2, CERTAIN * 3 / 4).unwrap();
        solve(&mut m, 1000);
        let bytes = m.lightup();
        assert_eq!(bytes.len(), 2 * m.light_path_len() as usize);
        let v = m.v_walls();
        let h = m.h_walls();
        for k in 0..(bytes.len() / 2).saturating_sub(1) {
            let (x0, y0) = (bytes[2 * k] as usize, bytes[2 * k + 1] as usize);
            let (x1, y1) = (bytes[2 * k + 2] as usize, bytes[2 * k + 3] as usize);
            let wall = if x0 == x1 && y1 == y0 + 1 {
                h[y1 * 6 + x0]
            } else if x0 == x1 && y0 == y1 + 1 {
                h[y0 * 6 + x0]
            } else if y0 == y1 && x1 == x0 + 1 {
                v[y0 * 7 + x1]
            } else if y0 == y1 && x0 == x1 + 1 {
                v[y0 * 7 + x0]
            } else {
                panic!("not a unit step");
            };
            assert_eq!(wall, Open);
        }
        if !bytes.is_empty() {
            assert_eq!(bytes[1], 0);
            assert_eq!(bytes[bytes.len() - 1], 5);
        }
    }
}

#[test]
fn open_maze_path_is_straight_down() {
    let mut m = Maze::new(5, 4, CERTAIN, CERTAIN).unwrap();
    assert_eq!(m.cells(), vec![2, 0]);
    let ticks = solve(&mut m, 100);
    assert_eq!(ticks, 4);
    assert_eq!(m.lightup(), vec![2, 0, 2, 1, 2, 2, 2, 3, 2, 4]);
}

#[test]
fn clear_cells_restarts_at_entrance() {
    let mut m = Maze::new(5, 4, CERTAIN, CERTAIN).unwrap();
    m.tick();
    assert!(m.cell_count() > 1);
    m.clear_cells();
    assert_eq!(m.cells(), vec![2, 0]);
    assert_eq!(m.cell_count(), 1);
}

#[test]
fn accessors_report_grid() {
    let m = Maze::new(4, 3, 0, CERTAIN).unwrap();
    assert_eq!(m.width(), 4);
    assert_eq!(m.height(), 3);
    assert_eq!(m.v_walls(), vec![Block; 15]);
    assert_eq!(m.h_walls(), vec![Open; 16]);
}

#[test]
fn construction_errors() {
    assert_eq!(Maze::new(0, 3, CERTAIN, CERTAIN).err(), Some(MazeError::Dimensions));
    assert_eq!(Maze::new(3, 0, CERTAIN, CERTAIN).err(), Some(MazeError::Dimensions));
    assert_eq!(Maze::new(3, 3, CERTAIN, 0).err(), Some(MazeError::NoEntrance));
    assert_eq!(Maze::from_walls(2, 1, vec![Block; 2], vec![Open; 4]).err(), Some(MazeError::WallCount));
    assert_eq!(
        Maze::from_walls(2, 1, vec![Block, Open, Open], vec![Open; 4]).err(),
        Some(MazeError::OpenSide)
    );
    assert_eq!(
        Maze::with_entrance(2, 1, vec![Block, Open, Block], vec![Open; 4], 2).err(),
        Some(MazeError::EntranceOutside)
    );
}
