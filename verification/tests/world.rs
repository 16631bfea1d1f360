use collapser::cell::Working;
use collapser::parity::Parity;
use collapser::save::WorldSave;
use collapser::shades::Shades;
use collapser::world::World;

/// The two-tile cell.
type Possible = Parity;

fn records<W: Working>(world: &World<W>) -> (Vec<(i32, i32)>, Vec<(i32, i32)>) {
    let primary = world.store().primary_layer();
    let secondary = world.store().secondary_layer();
    let mut p = Vec::new();
    for i in 0..primary.len() {
        let (x, y, _) = primary.entry(i);
        p.push((x, y));
    }
    let mut s = Vec::new();
    for i in 0..secondary.len() {
        let (x, y, _) = secondary.entry(i);
        s.push((x, y));
    }
    (p, s)
}

#[test]
fn checkertest() {
    let size = 10;
    let mut world: World<Possible> = World::new((), [0, 0]..[size, size]);
    for i in 0..size {
        for j in 0..size {
            world.collapse(i, j);
        }
    }
    assert_ne!(world.read(0, 0), world.read(0, 1));
    assert_eq!(world.read(0, 0), Ok(&0));
    assert_eq!(world.read(0, 1), Ok(&1));
}

#[test]
fn alternation_over_the_whole_window() {
    let size = 10;
    let mut world: World<Possible> = World::new((), [0, 0]..[size, size]);
    for i in 0..size {
        for j in 0..size {
            world.collapse(i, j);
        }
    }
    for i in 0..size {
        for j in 0..size {
            assert_eq!(world.read(i, j), Ok(&(((i + j) % 2) as u8)));
        }
    }
}

#[test]
fn isolation_far_cells_read_as_base() {
    let mut world: World<Shades> = World::new(3, [0, 0]..[10, 10]);
    world.collapse(5, 5);
    assert_eq!(world.try_read(0, 0), None);
    assert_eq!(world.read(0, 0), Err(world.base()));
    assert_eq!(world.base(), &Shades(vec![true, true, true]));
    assert_eq!(world.read(0, 0), Err(&Shades(vec![true, true, true])));
}

#[test]
fn propagation_materializes_exactly_the_four_neighbors() {
    let mut world: World<Shades> = World::new(3, [-5, -5]..[5, 5]);
    world.collapse(0, 0);
    let (p, s) = records(&world);
    assert_eq!(p, vec![(0, 0)]);
    assert_eq!(s, vec![(-1, 0), (0, -1), (0, 1), (1, 0)]);
    assert_eq!(world.read(0, 0), Ok(&0));
    let narrowed = Shades(vec![false, true, true]);
    for &(dx, dy) in &Shades::neighbors() {
        assert_eq!(world.try_read(dx, dy), Some(Err(&narrowed)));
    }
    assert_eq!(world.try_read(1, 1), None);
}

#[test]
fn superpositions_only_narrow_until_they_collapse() {
    let mut world: World<Shades> = World::new(4, [0, 0]..[3, 3]);
    let mut last = 4;
    for &(x, y) in &[(0, 1), (1, 0), (2, 1), (1, 2)] {
        world.collapse(x, y);
        let now = match world.read(1, 1) {
            Ok(_) => 0,
            Err(w) => w.count(),
        };
        assert!(now <= last);
        last = now;
    }
    assert_eq!(world.read(0, 1), Ok(&0));
    assert_eq!(world.read(1, 0), Ok(&0));
    assert_eq!(world.read(1, 1), Err(&Shades(vec![false, true, true, true])));
    world.collapse(1, 1);
    assert_eq!(world.read(1, 1), Ok(&1));
    world.collapse(0, 1);
    assert_eq!(world.read(0, 1), Ok(&0));
}

#[test]
fn layers_stay_disjoint_and_sorted() {
    let mut world: World<Shades> = World::new(5, [-3, -3]..[4, 4]);
    for &(x, y) in &[(2, 2), (-1, 0), (0, 0), (3, -3), (-3, 3), (1, 1), (0, 0)] {
        world.collapse(x, y);
        let (p, s) = records(&world);
        assert!(p.windows(2).all(|w| w[0] < w[1]));
        assert!(s.windows(2).all(|w| w[0] < w[1]));
        assert!(p.iter().all(|k| !s.contains(k)));
        assert!(p.iter().chain(s.iter()).all(|&(x, y)| world.bounding().contains(x, y)));
    }
    world.set_bounding([-1, -1]..[6, 6]);
    let (p, s) = records(&world);
    assert!(p.windows(2).all(|w| w[0] < w[1]));
    assert!(s.windows(2).all(|w| w[0] < w[1]));
    assert!(p.iter().all(|k| !s.contains(k)));
}

#[test]
fn save_lists_tiles_before_superpositions() {
    let mut world: World<Shades> = World::new(3, [-5, -5]..[5, 5]);
    world.collapse(0, 0);
    let save = world.get_save();
    assert_eq!(save.rules, 3);
    assert_eq!(save.bounding, [-5, -5]..[5, 5]);
    let narrowed = Shades(vec![false, true, true]);
    assert_eq!(
        save.cells,
        vec![
            ((0, 0), Ok(0)),
            ((-1, 0), Err(narrowed.clone())),
            ((0, -1), Err(narrowed.clone())),
            ((0, 1), Err(narrowed.clone())),
            ((1, 0), Err(narrowed.clone())),
        ]
    );
}

#[test]
fn save_and_load_after_alternation() {
    let size = 10;
    let mut world: World<Possible> = World::new((), [0, 0]..[size, size]);
    for i in 0..size {
        for j in 0..size {
            world.collapse(i, j);
        }
    }
    let loaded: World<Possible> = World::from(world.get_save());
    assert_eq!(loaded.bounding(), world.bounding());
    assert_eq!(loaded.base(), world.base());
    for i in -1..size + 1 {
        for j in -1..size + 1 {
            assert_eq!(loaded.read(i, j), world.read(i, j));
        }
    }
    assert_eq!(loaded.read(3, 4), Ok(&1));
}

#[test]
fn save_and_load_keep_superpositions() {
    let mut world: World<Shades> = World::new(3, [-2, -2]..[3, 3]);
    world.collapse(0, 0);
    world.collapse(2, 2);
    let mut loaded: World<Shades> = World::load(world.get_save());
    for i in -3..4 {
        for j in -3..4 {
            assert_eq!(loaded.try_read(i, j), world.try_read(i, j));
            assert_eq!(loaded.read(i, j), world.read(i, j));
        }
    }
    loaded.collapse(1, 0);
    world.collapse(1, 0);
    for i in -3..4 {
        for j in -3..4 {
            assert_eq!(loaded.try_read(i, j), world.try_read(i, j));
        }
    }
}

#[test]
fn load_writes_the_cells_in_order() {
    let a = Shades(vec![true, false, true]);
    let b = Shades(vec![false, true, true]);
    let save = WorldSave {
        rules: 3u8,
        cells: vec![
            ((4, 4), Err(a.clone())),
            ((0, 0), Err(a.clone())),
            ((0, 0), Ok(1u8)),
            ((0, 0), Err(b.clone())),
            ((4, 4), Err(b.clone())),
            ((-1, 9), Ok(2u8)),
            ((-1, 9), Ok(0u8)),
        ],
        bounding: [0, 0]..[2, 2],
    };
    let world: World<Shades> = World::load(save);
    assert_eq!(world.read(0, 0), Ok(&1));
    assert_eq!(world.read(4, 4), Err(&b));
    assert_eq!(world.read(-1, 9), Ok(&0));
    assert_eq!(world.read(1, 1), Err(&Shades(vec![true, true, true])));
    assert_eq!(records(&world), (vec![(-1, 9), (0, 0)], vec![(4, 4)]));
    assert_eq!(world.bounding().to_range(), [0, 0]..[2, 2]);
    assert_eq!(world.rules(), &3);
}

#[test]
fn settle_records_what_the_cell_reported() {
    let mut world: World<Shades> = World::new(3, [0, 0]..[2, 2]);
    let w = Shades(vec![true, true, false]);
    assert!(!world.settle(0, 0, Err(false), w.clone()));
    assert_eq!(world.try_read(0, 0), None);
    assert!(world.settle(0, 0, Err(true), w.clone()));
    assert_eq!(world.try_read(0, 0), Some(Err(&w)));
    assert!(world.settle(0, 0, Ok(1), w.clone()));
    assert_eq!(world.try_read(0, 0), Some(Ok(&1)));
    assert!(world.settle(0, 0, Err(true), w.clone()));
    assert_eq!(world.try_read(0, 0), Some(Ok(&1)));
    assert_eq!(records(&world), (vec![(0, 0)], vec![]));
}

#[test]
fn propagate_refines_the_neighbors_only_on_request() {
    let save = WorldSave {
        rules: 3u8,
        cells: vec![((0, 0), Ok(2u8))],
        bounding: [-1, -1]..[2, 2],
    };
    let mut world: World<Shades> = World::load(save);
    assert_eq!(records(&world), (vec![(0, 0)], vec![]));
    world.propagate(0, 0);
    let narrowed = Shades(vec![true, true, false]);
    assert_eq!(
        records(&world),
        (vec![(0, 0)], vec![(-1, 0), (0, -1), (0, 1), (1, 0)])
    );
    assert_eq!(world.read(1, 0), Err(&narrowed));
}

#[test]
fn read_falls_back_to_base_exactly_without_a_record() {
    let mut world: World<Possible> = World::new((), [0, 0]..[10, 10]);
    world.collapse(5, 5);
    for x in -1..11 {
        for y in -1..11 {
            match world.try_read(x, y) {
                None => assert_eq!(world.read(x, y), Err(world.base())),
                Some(e) => {
                    assert_eq!(world.read(x, y), e);
                    assert_ne!(world.read(x, y), Err(world.base()));
                }
            }
        }
    }
}

#[test]
fn propagation_reaches_the_four_neighbors() {
    let mut world: World<Possible> = World::new((), [-5, -5]..[5, 5]);
    world.collapse(0, 0);
    assert_eq!(world.read(0, 0), Ok(&0));
    for &(dx, dy) in &Possible::neighbors() {
        assert_eq!(world.try_read(dx, dy), Some(Ok(&1)));
    }
    let mut records = 0;
    for x in -5..5 {
        for y in -5..5 {
            if world.try_read(x, y).is_some() {
                records += 1;
            }
        }
    }
    assert!(records >= 5);
}

#[test]
fn collapse_outside_the_window_is_a_no_op() {
    let mut world: World<Possible> = World::new((), [0, 0]..[3, 3]);
    world.collapse(5, 5);
    world.collapse(3, 0);
    world.collapse(0, 3);
    world.collapse(-1, 1);
    for x in -2..8 {
        for y in -2..8 {
            assert_eq!(world.try_read(x, y), None);
        }
    }
}

#[test]
fn no_record_appears_outside_the_window() {
    let mut world: World<Possible> = World::new((), [0, 0]..[3, 3]);
    for x in 0..3 {
        for y in 0..3 {
            world.collapse(x, y);
        }
    }
    for x in -3..6 {
        for y in -3..6 {
            let inside = (0..3).contains(&x) && (0..3).contains(&y);
            assert_eq!(world.try_read(x, y).is_some(), inside);
        }
    }
}

#[test]
fn window_expansion_narrows_the_cells_next_to_a_tile() {
    let mut world: World<Shades> = World::new(3, [0, 0]..[1, 1]);
    world.collapse(0, 0);
    assert_eq!(records(&world), (vec![(0, 0)], vec![]));
    world.set_bounding([-1, -1]..[3, 3]);
    assert_eq!(
        records(&world),
        (vec![(0, 0)], vec![(-1, 0), (0, -1), (0, 1), (1, 0)])
    );
    assert_eq!(world.read(1, 0), Err(&Shades(vec![false, true, true])));
    assert_eq!(world.read(1, 1), Err(world.base()));
}

#[test]
fn window_expansion_wakes_the_new_cells() {
    let mut world: World<Possible> = World::new((), [0, 0]..[1, 1]);
    world.collapse(0, 0);
    assert_eq!(world.read(0, 0), Ok(&0));
    assert_eq!(world.try_read(0, 1), None);
    assert_eq!(world.try_read(1, 0), None);
    world.set_bounding([0, 0]..[3, 3]);
    assert_eq!(world.bounding().to_range(), [0, 0]..[3, 3]);
    assert_eq!(world.read(0, 0), Ok(&0));
    assert_eq!(world.read(0, 1), Ok(&1));
    assert_eq!(world.read(1, 0), Ok(&1));
}

#[test]
fn set_bounding_to_the_same_window_changes_nothing() {
    let mut world: World<Possible> = World::new((), [0, 0]..[2, 2]);
    world.collapse(0, 0);
    world.set_bounding([0, 0]..[2, 2]);
    assert_eq!(world.read(0, 0), Ok(&0));
    assert_eq!(world.read(0, 1), Ok(&1));
    assert_eq!(world.try_read(1, 1), Some(Ok(&0)));
}

#[test]
fn set_bounding_to_a_smaller_window_keeps_the_records() {
    let mut world: World<Shades> = World::new(3, [0, 0]..[4, 4]);
    world.collapse(3, 3);
    let before = records(&world);
    assert_eq!(before, (vec![(3, 3)], vec![(2, 3), (3, 2)]));
    world.set_bounding([0, 0]..[2, 2]);
    assert_eq!(records(&world), before);
    assert_eq!(world.read(3, 3), Ok(&0));
    world.collapse(3, 0);
    assert_eq!(world.try_read(3, 0), None);
    world.collapse(3, 2);
    assert_eq!(world.read(3, 2), Err(&Shades(vec![false, true, true])));
}

#[test]
fn collapse_twice_is_collapse_once() {
    let mut once: World<Possible> = World::new((), [0, 0]..[4, 4]);
    let mut twice: World<Possible> = World::new((), [0, 0]..[4, 4]);
    once.collapse(1, 1);
    once.collapse(2, 2);
    twice.collapse(1, 1);
    twice.collapse(2, 2);
    twice.collapse(2, 2);
    twice.collapse(1, 1);
    for x in -1..5 {
        for y in -1..5 {
            assert_eq!(once.try_read(x, y), twice.try_read(x, y));
        }
    }
}

#[test]
fn grab_lists_the_neighbors_in_offset_order() {
    let mut world: World<Possible> = World::new((), [0, 0]..[1, 1]);
    assert!(world.grab(0, 0).is_none());
    world.collapse(0, 0);
    assert!(world.grab(5, 5).is_none());
    let base = Parity { zero: true, one: true };
    assert_eq!(
        world.grab(1, 0),
        Some(vec![Ok(&0), Err(&base), Err(&base), Err(&base)])
    );
    assert_eq!(
        world.grab(0, -1),
        Some(vec![Err(&base), Err(&base), Ok(&0), Err(&base)])
    );
}

#[test]
fn refine_leaves_cells_outside_the_window_and_lonely_cells_alone() {
    let mut world: World<Possible> = World::new((), [0, 0]..[1, 1]);
    world.collapse(0, 0);
    world.refine(0, 1);
    assert_eq!(world.try_read(0, 1), None);
    world.refine(5, 5);
    assert_eq!(world.try_read(5, 5), None);
    let mut wide: World<Shades> = World::new(3, [0, 0]..[9, 9]);
    wide.refine(4, 4);
    assert_eq!(records(&wide), (vec![], vec![]));
    wide.collapse(0, 0);
    wide.refine(4, 4);
    assert_eq!(wide.try_read(4, 4), None);
    wide.refine(0, 0);
    assert_eq!(wide.read(0, 0), Ok(&0));
}

#[test]
fn neighbors_at_the_edge_of_the_coordinate_space() {
    let mut world: World<Possible> =
        World::new((), [i32::MAX - 1, i32::MIN]..[i32::MAX, i32::MIN + 2]);
    world.collapse(i32::MAX - 1, i32::MIN);
    assert_eq!(world.read(i32::MAX - 1, i32::MIN), Ok(&0));
    assert_eq!(world.read(i32::MAX - 1, i32::MIN + 1), Ok(&1));
    assert_eq!(world.try_read(i32::MAX, i32::MIN), None);
}

#[test]
fn parity_alternates_over_the_whole_window() {
    let size = 10;
    let mut world: World<Parity> = World::new((), [0, 0]..[size, size]);
    for i in 0..size {
        for j in 0..size {
            world.collapse(i, j);
        }
    }
    for i in 0..size {
        for j in 0..size {
            assert_eq!(world.read(i, j), Ok(&(((i + j) % 2) as u8)));
        }
    }
    assert_eq!(world.read(size, 0), Err(&Parity { zero: true, one: true }));
}

#[test]
fn parity_strikes_the_tiles_of_collapsed_neighbors() {
    let both = Parity::new(&());
    assert_eq!(both, Parity { zero: true, one: true });
    assert_eq!(both.force_collapse(), 0);
    assert_eq!(Parity { zero: false, one: true }.force_collapse(), 1);
    assert_eq!(Parity { zero: false, one: false }.force_collapse(), 2);
    let mut cell = both;
    assert_eq!(cell.refine(&[Err(&both), Err(&both), Err(&both), Err(&both)], &()), Err(false));
    assert_eq!(cell, both);
    assert_eq!(cell.refine(&[Err(&both), Ok(&0), Err(&both), Ok(&2)], &()), Ok(1));
    assert_eq!(cell, Parity { zero: false, one: true });
    let mut cell = both;
    assert_eq!(cell.refine(&[Ok(&1), Ok(&0), Err(&both), Err(&both)], &()), Ok(2));
    assert_eq!(cell, Parity { zero: false, one: false });
    assert_eq!(Parity::neighbors(), [(-1, 0), (0, -1), (0, 1), (1, 0)]);
}

#[test]
fn consult_asks_only_cells_that_are_awake() {
    let mut world: World<Shades> = World::new(3, [0, 0]..[3, 3]);
    assert_eq!(world.consult(1, 1), None);
    world.collapse(0, 0);
    assert_eq!(world.consult(0, 0), None);
    assert_eq!(world.consult(2, 2), None);
    assert_eq!(world.consult(-1, 0), None);
    assert_eq!(world.consult(1, 1), Some((Err(false), Shades(vec![true, true, true]))));
    assert_eq!(world.consult(0, 1), Some((Err(false), Shades(vec![false, true, true]))));
    world.set_bounding([0, 0]..[1, 1]);
    world.set_bounding([0, 0]..[4, 1]);
    assert_eq!(world.consult(0, 1), None);
    let save = WorldSave {
        rules: 3u8,
        cells: vec![((0, 0), Ok(1u8)), ((2, 0), Ok(0u8))],
        bounding: [0, 0]..[3, 1],
    };
    let loaded: World<Shades> = World::load(save);
    assert_eq!(loaded.consult(1, 0), Some((Ok(2), Shades(vec![false, false, true]))));
    assert_eq!(loaded.try_read(1, 0), None);
}
