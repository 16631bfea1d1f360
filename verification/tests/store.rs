use collapser::bounding::{shift, Bounding};
use collapser::tagged::Tagged;
use collapser::twolayer::Twolayer;

#[test]
fn tag_test() {
    let mut tagged = Tagged::new();
    tagged.insert(0, 0, 0u8);
    tagged.insert(0, 1, 1u8);
    tagged.insert(1, 0, 2u8);
    assert_eq!(tagged.get(0, 1), Some(&1))
}

#[test]
fn twolayer_test() {
    let mut layers = Twolayer::new();
    layers.insert_s(0, 1, 1);
    layers.insert_p(0, 1, 1);
    layers.insert_s(1, 0, 2);
    assert_eq!(layers.get(0, 1), Some(Ok(&1)));
    assert_eq!(layers.get(1, 0), Some(Err(&2)));
}

#[test]
fn tagged_search_reports_position_or_insertion_point() {
    let mut tagged = Tagged::new();
    assert_eq!(tagged.search(0, 0), Err(0));
    tagged.insert(1, 5, 'b');
    tagged.insert(-3, 9, 'a');
    tagged.insert(1, 7, 'c');
    assert_eq!(tagged.len(), 3);
    assert_eq!(tagged.search(-3, 9), Ok(0));
    assert_eq!(tagged.search(1, 5), Ok(1));
    assert_eq!(tagged.search(1, 7), Ok(2));
    assert_eq!(tagged.search(-4, 100), Err(0));
    assert_eq!(tagged.search(1, 6), Err(2));
    assert_eq!(tagged.search(2, -1), Err(3));
}

#[test]
fn tagged_keeps_keys_in_lexicographic_order() {
    let mut tagged = Tagged::new();
    let keys = [(3, 1), (-1, 4), (3, -2), (0, 0), (-1, -7), (2, 2)];
    for (n, (x, y)) in keys.iter().enumerate() {
        tagged.insert(*x, *y, n);
    }
    let mut seen = Vec::new();
    for i in 0..tagged.len() {
        let (x, y, v) = tagged.entry(i);
        seen.push((x, y, *v));
    }
    assert_eq!(
        seen,
        vec![(-1, -7, 4), (-1, 4, 1), (0, 0, 3), (2, 2, 5), (3, -2, 2), (3, 1, 0)]
    );
}

#[test]
fn tagged_insert_overwrites_and_remove_deletes() {
    let mut tagged = Tagged::new();
    tagged.insert(2, 2, 10);
    tagged.insert(2, 2, 11);
    assert_eq!(tagged.len(), 1);
    assert_eq!(tagged.get(2, 2), Some(&11));
    tagged.remove(5, 5);
    assert_eq!(tagged.len(), 1);
    tagged.remove(2, 2);
    assert_eq!(tagged.len(), 0);
    assert_eq!(tagged.get(2, 2), None);
}

#[test]
fn twolayer_layers_stay_disjoint() {
    let mut layers: Twolayer<u8, u8> = Twolayer::new();
    layers.insert_s(4, 4, 7);
    assert_eq!(layers.secondary_layer().len(), 1);
    layers.insert_p(4, 4, 9);
    assert_eq!(layers.primary_layer().len(), 1);
    assert_eq!(layers.secondary_layer().len(), 0);
    layers.insert_s(4, 4, 8);
    assert_eq!(layers.secondary_layer().len(), 0);
    assert_eq!(layers.get(4, 4), Some(Ok(&9)));
    assert_eq!(layers.get(0, 0), None);
}

#[test]
fn twolayer_rm_s_drops_only_superpositions() {
    let mut layers: Twolayer<u8, u8> = Twolayer::new();
    layers.insert_s(1, 1, 3);
    layers.insert_p(2, 2, 4);
    layers.rm_s(2, 2);
    layers.rm_s(1, 1);
    assert_eq!(layers.get(1, 1), None);
    assert_eq!(layers.get(2, 2), Some(Ok(&4)));
}

#[test]
fn bounding_is_half_open() {
    let b = Bounding::from_range([0, 0]..[3, 2]);
    assert!(b.contains(0, 0));
    assert!(b.contains(2, 1));
    assert!(!b.contains(3, 0));
    assert!(!b.contains(0, 2));
    assert!(!b.contains(-1, 0));
    assert_eq!(b.to_range(), [0, 0]..[3, 2]);
}

#[test]
fn shift_adds_offsets_and_stops_at_the_edge_of_i32() {
    assert_eq!(shift(3, 4, (-1, 2)), Some((2, 6)));
    assert_eq!(shift(i32::MAX, 0, (1, 0)), None);
    assert_eq!(shift(0, i32::MIN, (0, -1)), None);
    assert_eq!(shift(i32::MAX, i32::MIN, (-1, 1)), Some((i32::MAX - 1, i32::MIN + 1)));
}

#[test]
fn cells_lists_the_rectangle_row_by_row() {
    let b = Bounding::from_range([1, -1]..[3, 2]);
    assert_eq!(
        b.cells(),
        vec![(1, -1), (1, 0), (1, 1), (2, -1), (2, 0), (2, 1)]
    );
    assert_eq!(Bounding::from_range([0, 0]..[0, 5]).cells(), vec![]);
    assert_eq!(Bounding::from_range([3, 0]..[1, 5]).cells(), vec![]);
    assert_eq!(Bounding::from_range([0, 2]..[4, 2]).cells(), vec![]);
    assert_eq!(
        Bounding::from_range([i32::MAX - 1, i32::MIN]..[i32::MAX, i32::MIN + 2]).cells(),
        vec![(i32::MAX - 1, i32::MIN), (i32::MAX - 1, i32::MIN + 1)]
    );
}
