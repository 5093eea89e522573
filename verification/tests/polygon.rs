use osm_semantic::data::semantic::{Area, AreaType, MapCoords, Path};
use osm_semantic::errors::ErrorKind;

fn pt(lat: f64, lon: f64) -> MapCoords {
    MapCoords { lat: lat.to_bits(), lon: lon.to_bits() }
}

fn total(paths: &Vec<Path>) -> usize {
    let mut n = 0;
    for p in paths {
        n += p.len();
    }
    n
}

#[test]
fn single_closed_ring_is_returned_unchanged() {
    let ring = vec![pt(0.0, 0.0), pt(0.0, 1.0), pt(1.0, 1.0), pt(0.0, 0.0)];
    let out = Area::reorder_ways(&vec![ring.clone()]).unwrap();
    assert_eq!(out, vec![ring]);
}

#[test]
fn single_open_path_is_returned_unchanged() {
    let path = vec![pt(0.0, 0.0), pt(0.0, 1.0)];
    let out = Area::reorder_ways(&vec![path.clone()]).unwrap();
    assert_eq!(out, vec![path]);
}

#[test]
fn two_paths_that_meet_are_joined_without_dropping_the_shared_point() {
    let a = pt(0.0, 0.0);
    let b = pt(0.0, 1.0);
    let c = pt(1.0, 1.0);
    let out = Area::reorder_ways(&vec![vec![a, b], vec![b, c]]).unwrap();
    assert_eq!(out, vec![vec![a, b, b, c]]);
}

#[test]
fn a_path_that_arrives_by_its_last_point_is_walked_backwards() {
    let a = pt(0.0, 0.0);
    let b = pt(0.0, 1.0);
    let c = pt(1.0, 1.0);
    let d = pt(2.0, 1.0);
    let out = Area::reorder_ways(&vec![vec![a, b], vec![d, c, b]]).unwrap();
    assert_eq!(out, vec![vec![a, b, b, c, d]]);
}

#[test]
fn three_segments_in_any_order_close_one_ring() {
    let a = pt(0.0, 0.0);
    let b = pt(0.0, 1.0);
    let c = pt(1.0, 1.0);
    let out = Area::reorder_ways(&vec![vec![a, b], vec![c, a], vec![b, c]]).unwrap();
    assert_eq!(out, vec![vec![a, b, b, c, c, a]]);
}

#[test]
fn paths_that_share_no_end_point_stay_apart_in_the_order_given() {
    let p = vec![pt(0.0, 0.0), pt(0.0, 1.0)];
    let q = vec![pt(5.0, 5.0), pt(5.0, 6.0)];
    let r = vec![pt(9.0, 9.0)];
    let input = vec![p, q, r];
    let out = Area::reorder_ways(&input).unwrap();
    assert_eq!(out, input);
}

#[test]
fn a_chain_grows_only_at_its_far_end() {
    let a = pt(0.0, 0.0);
    let b = pt(0.0, 1.0);
    let c = pt(1.0, 1.0);
    let out = Area::reorder_ways(&vec![vec![b, c], vec![a, b]]).unwrap();
    assert_eq!(out, vec![vec![b, c], vec![a, b]]);
}

#[test]
fn equal_paths_are_each_placed_once() {
    let a = pt(0.0, 0.0);
    let b = pt(0.0, 1.0);
    let out = Area::reorder_ways(&vec![vec![a, b], vec![a, b]]).unwrap();
    assert_eq!(out, vec![vec![a, b, b, a]]);
}

#[test]
fn no_point_is_lost_or_added() {
    let a = pt(0.0, 0.0);
    let b = pt(0.0, 1.0);
    let c = pt(1.0, 1.0);
    let d = pt(1.0, 0.0);
    let e = pt(7.0, 7.0);
    let input = vec![vec![a, b], vec![c, d, a], vec![e, e], vec![b, pt(0.5, 1.5), c], vec![e]];
    let out = Area::reorder_ways(&input).unwrap();
    assert_eq!(total(&out), total(&input));
    assert_eq!(total(&out), 11);
    assert_eq!(out.len(), 2);
}

#[test]
fn no_paths_are_refused() {
    let err = Area::reorder_ways(&Vec::new()).unwrap_err();
    assert_eq!(err.kind, ErrorKind::Geometry);
}

#[test]
fn a_path_without_points_is_refused() {
    let err = Area::reorder_ways(&vec![vec![pt(0.0, 0.0)], Vec::new()]).unwrap_err();
    assert_eq!(err.kind, ErrorKind::Geometry);
}

#[test]
fn an_area_keeps_its_kind_and_its_chains() {
    let a = pt(0.0, 0.0);
    let b = pt(0.0, 1.0);
    let area = Area::new(AreaType::Water, &vec![vec![a, b], vec![b, a]]).unwrap();
    assert_eq!(area.area_type, AreaType::Water);
    assert_eq!(area.area_polygons, vec![vec![a, b, b, a]]);
    assert!(Area::new(AreaType::Park, &Vec::new()).is_err());
}

#[test]
fn points_are_the_same_only_where_their_bits_agree() {
    assert_ne!(pt(0.0, 0.0), pt(-0.0, 0.0));
    assert_eq!(pt(f64::NAN, 1.0), pt(f64::NAN, 1.0));
    let zero = pt(0.0, 0.0);
    let minus = pt(-0.0, 0.0);
    let out = Area::reorder_ways(&vec![vec![pt(1.0, 1.0), zero], vec![minus, pt(2.0, 2.0)]]).unwrap();
    assert_eq!(out.len(), 2);
}
