use std::collections::VecDeque;
use wumpus_maze::direction::{Direction, Orientation};
use wumpus_maze::maze::{Maze, Room, STARTING_ARROWS};

use Direction::{East, North, South, West};

fn opposite(d: Direction) -> Direction {
    match d {
        North => South,
        South => North,
        East => West,
        West => East,
    }
}

/// Degree, distinct directions, reciprocity and connectivity of a room list.
fn valid(rooms: &[Room]) -> bool {
    for (r, room) in rooms.iter().enumerate() {
        for i in 0..3 {
            for j in (i + 1)..3 {
                if room[i].1 == room[j].1 || room[i].0 == room[j].0 {
                    return false;
                }
            }
            let (n, d) = room[i];
            if n >= rooms.len() || n == r {
                return false;
            }
            if !rooms[n].iter().any(|&(b, bd)| b == r && bd == opposite(d)) {
                return false;
            }
        }
    }
    let mut seen = vec![false; rooms.len()];
    let mut queue = VecDeque::new();
    seen[0] = true;
    queue.push_back(0usize);
    while let Some(r) = queue.pop_front() {
        for &(n, _) in rooms[r].iter() {
            if !seen[n] {
                seen[n] = true;
                queue.push_back(n);
            }
        }
    }
    seen.iter().all(|&s| s)
}

#[test]
fn direction_opposites() {
    assert_eq!(North.opposite(), South);
    assert_eq!(South.opposite(), North);
    assert_eq!(East.opposite(), West);
    assert_eq!(West.opposite(), East);
}

#[test]
fn orientation_axes() {
    assert_eq!(North.orientation(), Orientation::NorthSouth);
    assert_eq!(South.orientation(), Orientation::NorthSouth);
    assert_eq!(East.orientation(), Orientation::EastWest);
    assert_eq!(West.orientation(), Orientation::EastWest);
    assert_eq!(Orientation::NorthSouth.major(), North);
    assert_eq!(Orientation::NorthSouth.minor(), South);
    assert_eq!(Orientation::EastWest.major(), East);
    assert_eq!(Orientation::EastWest.minor(), West);
}

#[test]
fn quad_is_the_base_cave() {
    let m = Maze::quad();
    assert_eq!(
        m.rooms,
        vec![
            [(1, West), (2, North), (3, East)],
            [(0, East), (2, West), (3, North)],
            [(0, South), (1, East), (3, West)],
            [(0, West), (1, South), (2, East)],
        ]
    );
    assert_eq!(m.arrows, STARTING_ARROWS);
    assert!(valid(&m.rooms));
}

#[test]
fn expand_room_zero_both_choices() {
    let mut a = Maze::quad();
    a.expand(0, true);
    let mut b = Maze::quad();
    b.expand(0, false);
    assert_eq!(a.rooms.len(), 6);
    assert_eq!(b.rooms.len(), 6);
    assert!(valid(&a.rooms));
    assert!(valid(&b.rooms));
    assert_ne!(a.rooms, b.rooms);
    // room 0: West(1), North(2), East(3); the shared axis is East-West.
    assert_eq!(a.rooms[0], [(3, East), (4, West), (5, North)]);
    assert_eq!(a.rooms[4], [(0, East), (2, North), (5, West)]);
    assert_eq!(a.rooms[5], [(4, East), (1, West), (0, South)]);
    assert_eq!(b.rooms[4], [(0, East), (2, North), (5, South)]);
    assert_eq!(b.rooms[5], [(4, North), (1, West), (0, South)]);
    assert_eq!(a.rooms[2], [(4, South), (1, East), (3, West)]);
    assert_eq!(a.rooms[1], [(5, East), (2, West), (3, North)]);
    assert_eq!(a.rooms[3], Maze::quad().rooms[3]);
}

#[test]
fn expand_each_room_and_slot_order() {
    for idx in 0..4 {
        for choice in [true, false] {
            let mut m = Maze::quad();
            m.expand(idx, choice);
            assert_eq!(m.rooms.len(), 6);
            assert!(valid(&m.rooms));
        }
    }
}

#[test]
fn expand_twice_in_sequence() {
    let mut m = Maze::quad();
    m.expand(0, true);
    let last = m.rooms.len() - 1;
    m.expand(last, false);
    assert_eq!(m.rooms.len(), 8);
    assert!(valid(&m.rooms));
}

#[test]
fn expand_many_times_stays_valid() {
    let mut m = Maze::quad();
    let mut k: usize = 7;
    for step in 0..40 {
        k = (k * 31 + 11) % 1009;
        let idx = k % m.rooms.len();
        m.expand(idx, step % 3 == 0);
        assert_eq!(m.rooms.len(), 6 + 2 * step);
        assert!(valid(&m.rooms));
    }
}

#[test]
fn validation_has_no_side_effects() {
    let mut m = Maze::quad();
    m.expand(2, true);
    let before = m.rooms.clone();
    let first = valid(&m.rooms);
    let second = valid(&m.rooms);
    assert_eq!(first, second);
    assert_eq!(before, m.rooms);
}

#[test]
fn expand_keeps_roles() {
    let mut m = Maze::quad();
    m.bats = 1;
    m.pit = 2;
    m.wumpus = 3;
    m.expand(1, false);
    assert_eq!((m.bats, m.pit, m.wumpus, m.arrows), (1, 2, 3, STARTING_ARROWS));
}

fn check_generated(m: &Maze, room_count: usize) {
    assert_eq!(m.rooms.len(), room_count);
    assert!(valid(&m.rooms));
    assert_ne!(m.bats, m.pit);
    for role in [m.bats, m.pit, m.wumpus] {
        assert!(role >= 1 && role < room_count);
    }
    if room_count > 4 {
        assert!(!m.rooms[0].iter().any(|&(r, _)| r == m.wumpus));
    }
    assert_eq!(m.arrows, STARTING_ARROWS);
}

#[test]
fn generate_sizes_satisfy_invariants() {
    for adds in 0..12u32 {
        for _ in 0..20 {
            let m = Maze::generate(adds);
            check_generated(&m, 4 + 2 * adds as usize);
        }
    }
}

#[test]
fn generate_without_splits_is_the_base_cave() {
    for _ in 0..30 {
        let m = Maze::generate(0);
        assert_eq!(m.rooms, Maze::quad().rooms);
        assert!([1, 2, 3].contains(&m.wumpus));
        assert!([1, 2, 3].contains(&m.bats));
        assert!([1, 2, 3].contains(&m.pit));
        assert_ne!(m.bats, m.pit);
    }
}

#[test]
fn generate_one_split_has_six_rooms() {
    for _ in 0..30 {
        let m = Maze::generate(1);
        assert_eq!(m.rooms.len(), 6);
        assert!(valid(&m.rooms));
        assert!(m.rooms[4].iter().any(|&(_, _)| true));
        assert!(m.rooms.iter().take(4).any(|room| room.iter().any(|&(r, _)| r == 4)));
        assert!(m.rooms.iter().take(4).any(|room| room.iter().any(|&(r, _)| r == 5)));
    }
}

#[test]
fn pit_room_skips_the_bats() {
    assert_eq!(Maze::pit_room(6, 3, 0), 1);
    assert_eq!(Maze::pit_room(6, 3, 1), 2);
    assert_eq!(Maze::pit_room(6, 3, 2), 4);
    assert_eq!(Maze::pit_room(6, 3, 3), 5);
    assert_eq!(Maze::pit_room(4, 1, 0), 2);
}

#[test]
fn start_safe_rooms_of_base_and_split() {
    assert!(Maze::quad().start_safe_rooms().is_empty());
    let mut m = Maze::quad();
    m.expand(0, true);
    // room 0 now leads to 3, 4 and 5
    assert_eq!(m.start_safe_rooms(), vec![1, 2]);
}

#[test]
fn neighbor_toward_follows_tunnels() {
    let m = Maze::quad();
    assert_eq!(m.neighbor_toward(0, North), Some(2));
    assert_eq!(m.neighbor_toward(0, West), Some(1));
    assert_eq!(m.neighbor_toward(0, East), Some(3));
    assert_eq!(m.neighbor_toward(0, South), None);
    assert_eq!(m.neighbor_toward(3, South), Some(1));
    assert_eq!(m.neighbor_toward(3, North), None);
}
