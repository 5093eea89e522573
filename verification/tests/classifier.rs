use osm_semantic::data::osm::{IdTable, Node, OsmMapData, Relation, TagSet, Way};
use osm_semantic::data::semantic::{
    AreaType, LandmarkType, MapCoords, SemanticMapElements, TransportStationType, TubeLine,
};
use osm_semantic::errors::ErrorKind;
use osm_semantic::etl::semantic_map::{lines_for_name, list_contains, SemanticMapEtl};

fn tags(pairs: &[(&str, &str)]) -> TagSet {
    let mut t = TagSet::new();
    for (k, v) in pairs {
        t.insert(k.as_bytes().to_vec(), v.as_bytes().to_vec());
    }
    t
}

fn node(id: u64, lat: f64, lon: f64, pairs: &[(&str, &str)]) -> Node {
    Node { id, lat: lat.to_bits(), lon: lon.to_bits(), tags: tags(pairs) }
}

fn way(id: u64, nodes: Vec<Node>, pairs: &[(&str, &str)]) -> Way {
    Way { id, nodes, tags: tags(pairs) }
}

fn pt(lat: f64, lon: f64) -> MapCoords {
    MapCoords { lat: lat.to_bits(), lon: lon.to_bits() }
}

fn landmark(pairs: &[(&str, &str)]) -> Option<LandmarkType> {
    SemanticMapEtl::new().landmark_type_from_tags(&tags(pairs))
}

fn of_node(n: &Node) -> SemanticMapElements {
    let mut out = SemanticMapElements::default();
    SemanticMapEtl::new().process_node(&mut out, n).unwrap();
    out
}

fn of_way(w: &Way) -> SemanticMapElements {
    let mut out = SemanticMapElements::default();
    SemanticMapEtl::new().process_way(&mut out, w).unwrap();
    out
}

fn of_relation(r: &Relation) -> SemanticMapElements {
    let mut out = SemanticMapElements::default();
    SemanticMapEtl::new().process_relation(&mut out, r).unwrap();
    out
}

#[test]
fn a_value_matches_any_piece_between_semicolons() {
    let t = tags(&[("sport", "a;b;c"), ("empty", ""), ("gap", "x;;y")]);
    for v in ["a", "b", "c"] {
        assert!(SemanticMapEtl::has_kv_pair(&t, b"sport", v.as_bytes()));
    }
    assert!(!SemanticMapEtl::has_kv_pair(&t, b"sport", b"a;b"));
    assert!(!SemanticMapEtl::has_kv_pair(&t, b"sport", b"a;b;c"));
    assert!(!SemanticMapEtl::has_kv_pair(&t, b"sport", b""));
    assert!(!SemanticMapEtl::has_kv_pair(&t, b"sport", b"d"));
    assert!(!SemanticMapEtl::has_kv_pair(&t, b"other", b"a"));
    assert!(SemanticMapEtl::has_kv_pair(&t, b"empty", b""));
    assert!(SemanticMapEtl::has_kv_pair(&t, b"gap", b""));
    assert!(SemanticMapEtl::has_kv_pair(&t, b"gap", b"y"));
    assert!(list_contains(b"one;two", b"two"));
    assert!(!list_contains(b"one;two", b"tw"));
    assert!(list_contains(b";", b""));
}

#[test]
fn a_key_is_there_or_not() {
    let t = tags(&[("name", "x")]);
    assert!(SemanticMapEtl::has_key(&t, b"name"));
    assert!(!SemanticMapEtl::has_key(&t, b"nam"));
    assert!(!SemanticMapEtl::has_key(&TagSet::new(), b"name"));
}

#[test]
fn a_value_is_read_as_text_with_its_references_resolved() {
    let t = tags(&[("name", "Fish &amp; Chips"), ("plain", "Oval"), ("bad", "a &nope; b"), ("n", "&#65;&#x42;")]);
    assert_eq!(SemanticMapEtl::get_string(&t, b"name"), Some("Fish & Chips".to_string()));
    assert_eq!(SemanticMapEtl::get_string(&t, b"plain"), Some("Oval".to_string()));
    assert_eq!(SemanticMapEtl::get_string(&t, b"n"), Some("AB".to_string()));
    assert_eq!(SemanticMapEtl::get_string(&t, b"bad"), None);
    assert_eq!(SemanticMapEtl::get_string(&t, b"missing"), None);
    let mut raw = TagSet::new();
    raw.insert(b"name".to_vec(), vec![0x4f, 0xff, 0x76]);
    assert_eq!(SemanticMapEtl::get_string(&raw, b"name"), None);
    let mut utf8 = TagSet::new();
    utf8.insert(b"name".to_vec(), "Caf\u{e9}".as_bytes().to_vec());
    assert_eq!(SemanticMapEtl::get_string(&utf8, b"name"), Some("Caf\u{e9}".to_string()));
}

#[test]
fn values_are_taken_apart_at_semicolons() {
    let t = tags(&[("line", "District;Circle"), ("one", "Central"), ("none", ""), ("amp", "a&amp;b;c")]);
    assert_eq!(SemanticMapEtl::get_strings(&t, b"line"), vec!["District", "Circle"]);
    assert_eq!(SemanticMapEtl::get_strings(&t, b"one"), vec!["Central"]);
    assert_eq!(SemanticMapEtl::get_strings(&t, b"none"), vec![""]);
    assert_eq!(SemanticMapEtl::get_strings(&t, b"amp"), vec!["a&b", "c"]);
    assert!(SemanticMapEtl::get_strings(&t, b"missing").is_empty());
}

#[test]
fn the_station_of_the_example_is_named_without_its_qualifier() {
    let n = node(
        1,
        51.52,
        -0.17,
        &[
            ("railway", "station"),
            ("name", "Edgware Road (Bakerloo line)"),
            ("network", "London Underground"),
        ],
    );
    let out = of_node(&n);
    assert_eq!(out.underground_stations.len(), 1);
    let s = &out.underground_stations[0];
    assert_eq!(s.name, "Edgware Road");
    assert_eq!(s.station_type, TransportStationType::Underground);
    assert_eq!(f64::from_bits(s.lat), 51.52);
    assert_eq!(f64::from_bits(s.lon), -0.17);
    assert!(out.landmarks.is_empty());
    let again = of_node(&n);
    assert_eq!(again.underground_stations[0].name, "Edgware Road");
    assert_eq!(again.underground_stations[0].station_type, TransportStationType::Underground);
}

#[test]
fn station_names_are_cut_at_the_first_parenthesis_and_trimmed() {
    for (name, shown) in [
        ("Bank", "Bank"),
        ("  Bank  ", "Bank"),
        ("Paddington (Circle) (H&amp;C)", "Paddington"),
        ("(hidden)", ""),
        ("Open ( never closed", "Open"),
        ("Kew\u{a0}Gardens\u{2003}(x)", "Kew\u{a0}Gardens"),
        ("", ""),
    ] {
        let t = tags(&[("name", name)]);
        assert_eq!(SemanticMapEtl::station_name_from_tags(&t), Some(shown.to_string()));
    }
    assert_eq!(SemanticMapEtl::station_name_from_tags(&tags(&[("name", "A &x; B")])), None);
    assert_eq!(SemanticMapEtl::station_name_from_tags(&tags(&[])), None);
}

#[test]
fn the_network_decides_the_kind_of_station() {
    for (network, kind) in [
        ("London Underground", Some(TransportStationType::Underground)),
        ("Docklands Light Railway", Some(TransportStationType::Dlr)),
        ("London Overground", Some(TransportStationType::Overground)),
        ("Elizabeth Line", Some(TransportStationType::ElizabethLine)),
        ("National Rail;London Overground", Some(TransportStationType::Overground)),
        ("London Overground;London Underground", Some(TransportStationType::Underground)),
        ("National Rail", None),
    ] {
        let n = node(1, 0.0, 0.0, &[("railway", "station"), ("name", "X"), ("network", network)]);
        let out = of_node(&n);
        let kinds: Vec<TransportStationType> =
            out.underground_stations.iter().map(|s| s.station_type).collect();
        assert_eq!(kinds, kind.into_iter().collect::<Vec<_>>());
    }
    let no_name = node(1, 0.0, 0.0, &[("railway", "station"), ("network", "London Underground")]);
    assert!(of_node(&no_name).underground_stations.is_empty());
    let no_station = node(1, 0.0, 0.0, &[("name", "X"), ("network", "London Underground")]);
    assert!(of_node(&no_station).underground_stations.is_empty());
}

#[test]
fn a_station_whose_name_cannot_be_read_is_fatal() {
    let n = node(1, 0.0, 0.0, &[("railway", "station"), ("name", "A &bogus; B")]);
    let mut out = SemanticMapElements::default();
    let err = SemanticMapEtl::new().process_node(&mut out, &n).unwrap_err();
    assert_eq!(err.kind, ErrorKind::Decode);
    assert!(out.underground_stations.is_empty() && out.landmarks.is_empty());
}

#[test]
fn the_first_landmark_rule_that_holds_decides() {
    assert_eq!(landmark(&[("lgbtq:men", "only")]), Some(LandmarkType::LgbtqMen));
    assert_eq!(landmark(&[("lgbtq:men", "primary")]), Some(LandmarkType::LgbtqMen));
    assert_eq!(landmark(&[("gay", "yes")]), Some(LandmarkType::LgbtqMen));
    assert_eq!(landmark(&[("lgbtq", "primary")]), Some(LandmarkType::Lgbtq));
    assert_eq!(landmark(&[("lgbtq", "primary"), ("gay", "yes")]), Some(LandmarkType::LgbtqMen));
    assert_eq!(landmark(&[("bar", "cocktail")]), Some(LandmarkType::CocktailBar));
    assert_eq!(landmark(&[("cocktails", "yes")]), Some(LandmarkType::CocktailBar));
    assert_eq!(landmark(&[("drink:cocktail", "served")]), Some(LandmarkType::CocktailBar));
    assert_eq!(landmark(&[("bar", "cocktail"), ("lgbtq", "primary")]), Some(LandmarkType::Lgbtq));
    assert_eq!(landmark(&[("emergency", "emergency_ward_entrance")]), Some(LandmarkType::Hospital));
    assert_eq!(landmark(&[("healthcare", "emergency_ward")]), Some(LandmarkType::Hospital));
    assert_eq!(landmark(&[("natural", "tree"), ("name", "Old Oak")]), Some(LandmarkType::Tree));
    assert_eq!(landmark(&[("natural", "tree")]), None);
    assert_eq!(landmark(&[("leisure", "fitness_centre")]), Some(LandmarkType::Gym));
    assert_eq!(landmark(&[("climbing:toprope", "yes")]), Some(LandmarkType::ClimbingRope));
    assert_eq!(landmark(&[("climbing:sport", "yes")]), Some(LandmarkType::ClimbingRope));
    assert_eq!(landmark(&[("climbing:ice", "yes")]), Some(LandmarkType::ClimbingRope));
    assert_eq!(landmark(&[("climbing:boulder", "yes")]), Some(LandmarkType::ClimbingBoulder));
    assert_eq!(landmark(&[("climbing", "bouldering")]), Some(LandmarkType::ClimbingBoulder));
    assert_eq!(
        landmark(&[("leisure", "sports_centre"), ("sport", "climbing")]),
        Some(LandmarkType::ClimbingBoulder)
    );
    assert_eq!(landmark(&[("leisure", "sports_centre")]), None);
    assert_eq!(
        landmark(&[("leisure", "pitch"), ("sport", "climbing")]),
        Some(LandmarkType::ClimbingOutdoor)
    );
    assert_eq!(
        landmark(&[("leisure", "pitch;fitness_centre"), ("sport", "climbing")]),
        Some(LandmarkType::Gym)
    );
    assert_eq!(
        landmark(&[("climbing:boulder", "yes"), ("climbing:sport", "yes")]),
        Some(LandmarkType::ClimbingRope)
    );
    assert_eq!(landmark(&[("amenity", "music_venue")]), Some(LandmarkType::MusicVenue));
    assert_eq!(landmark(&[("live_music", "yes")]), Some(LandmarkType::MusicVenue));
    assert_eq!(landmark(&[("live_music", "no")]), None);
    assert_eq!(landmark(&[]), None);
}

#[test]
fn a_place_of_worship_is_a_temple_of_its_religion() {
    for (religion, kind) in [
        ("aetherius_society", LandmarkType::TempleAetheriusSociety),
        ("buddhist", LandmarkType::TempleBuddhist),
        ("christian", LandmarkType::TempleChristian),
        ("spiritualist", LandmarkType::TempleChristian),
        ("hindu", LandmarkType::TempleHindu),
        ("humanist", LandmarkType::TempleHumanist),
        ("jain", LandmarkType::TempleJain),
        ("jewish", LandmarkType::TempleJewish),
        ("muslim", LandmarkType::TempleMuslim),
        ("rastafarian", LandmarkType::TempleRastafarian),
        ("rosicrucian", LandmarkType::TempleRosicucian),
        ("scientologist", LandmarkType::TempleScientologist),
        ("self-realization_fellowship", LandmarkType::TempleSelfRealizationFellowship),
        ("sikh", LandmarkType::TempleSikh),
    ] {
        assert_eq!(landmark(&[("amenity", "place_of_worship"), ("religion", religion)]), Some(kind));
        assert_eq!(landmark(&[("religion", religion)]), None);
    }
    assert_eq!(landmark(&[("amenity", "place_of_worship")]), None);
    assert_eq!(landmark(&[("amenity", "place_of_worship"), ("religion", "pastafarian")]), None);
    assert_eq!(
        landmark(&[("amenity", "place_of_worship"), ("religion", "sikh;buddhist")]),
        Some(LandmarkType::TempleBuddhist)
    );
    assert_eq!(
        landmark(&[("amenity", "place_of_worship;music_venue"), ("religion", "sikh")]),
        Some(LandmarkType::MusicVenue)
    );
}

#[test]
fn a_node_may_be_a_station_and_a_landmark() {
    let n = node(
        7,
        1.0,
        2.0,
        &[("railway", "station"), ("name", "X"), ("network", "Elizabeth Line"), ("live_music", "yes")],
    );
    let out = of_node(&n);
    assert_eq!(out.underground_stations.len(), 1);
    assert_eq!(out.landmarks.len(), 1);
    assert_eq!(out.landmarks[0].landmark_type, LandmarkType::MusicVenue);
    assert_eq!(out.landmarks[0].lat, 1.0f64.to_bits());
    assert_eq!(out.landmarks[0].lon, 2.0f64.to_bits());
}

#[test]
fn one_node_is_a_cocktail_bar_whatever_its_tags() {
    let out = of_node(&node(5417354028, 1.0, 2.0, &[]));
    let kinds: Vec<LandmarkType> = out.landmarks.iter().map(|l| l.landmark_type).collect();
    assert_eq!(kinds, vec![LandmarkType::CocktailBar]);
    let out = of_node(&node(5417354028, 1.0, 2.0, &[("leisure", "fitness_centre")]));
    let kinds: Vec<LandmarkType> = out.landmarks.iter().map(|l| l.landmark_type).collect();
    assert_eq!(kinds, vec![LandmarkType::Gym, LandmarkType::CocktailBar]);
    assert!(of_node(&node(5417354029, 1.0, 2.0, &[])).landmarks.is_empty());
}

#[test]
fn names_of_lines_are_looked_up_in_lower_case() {
    assert_eq!(lines_for_name("bakerloo"), vec![TubeLine::Bakerloo]);
    assert_eq!(lines_for_name("central"), vec![TubeLine::Central]);
    assert_eq!(lines_for_name("central line"), vec![TubeLine::Central]);
    assert_eq!(lines_for_name("circle"), vec![TubeLine::Circle]);
    assert_eq!(lines_for_name("deep level district"), vec![TubeLine::District]);
    assert_eq!(lines_for_name("district"), vec![TubeLine::District]);
    assert_eq!(lines_for_name("district, north london"), vec![TubeLine::District]);
    assert_eq!(lines_for_name("district, piccadilly"), vec![TubeLine::District, TubeLine::Piccadilly]);
    assert_eq!(lines_for_name("dlr"), vec![TubeLine::Dlr]);
    assert_eq!(lines_for_name("elizabeth"), vec![TubeLine::Elizabeth]);
    assert_eq!(lines_for_name("hammersmith & city"), vec![TubeLine::HammersmithAndCity]);
    assert_eq!(lines_for_name("jubilee"), vec![TubeLine::Jubilee]);
    assert_eq!(lines_for_name("jubilee line"), vec![TubeLine::Jubilee]);
    assert_eq!(lines_for_name("metropolitan"), vec![TubeLine::Metropolitan]);
    assert_eq!(
        lines_for_name("metropolitan, piccadilly"),
        vec![TubeLine::Metropolitan, TubeLine::Piccadilly]
    );
    assert_eq!(lines_for_name("north london line"), vec![TubeLine::Overground]);
    assert_eq!(lines_for_name("northern"), vec![TubeLine::Northern]);
    assert_eq!(lines_for_name("northern line"), vec![TubeLine::Northern]);
    assert_eq!(lines_for_name("northern city"), vec![TubeLine::Northern, TubeLine::HammersmithAndCity]);
    assert_eq!(lines_for_name("picadilly"), vec![TubeLine::Piccadilly]);
    assert_eq!(lines_for_name("piccadilly"), vec![TubeLine::Piccadilly]);
    assert_eq!(lines_for_name("victoria"), vec![TubeLine::Victoria]);
    assert_eq!(lines_for_name("waterloo & city"), vec![TubeLine::WaterlooAndCity]);
    assert!(lines_for_name("Bakerloo").is_empty());
    assert!(lines_for_name("thameslink").is_empty());
    assert!(lines_for_name("").is_empty());
}

#[test]
fn a_shared_stretch_gives_one_rail_for_each_line() {
    let w = way(
        1,
        vec![node(1, 1.0, 1.0, &[]), node(2, 2.0, 2.0, &[])],
        &[("railway", "subway"), ("line", "District, Piccadilly")],
    );
    let out = of_way(&w);
    let lines: Vec<TubeLine> = out.tube_rails.iter().map(|r| r.line).collect();
    assert_eq!(lines, vec![TubeLine::District, TubeLine::Piccadilly]);
    for rail in &out.tube_rails {
        assert_eq!(rail.path, vec![pt(1.0, 1.0), pt(2.0, 2.0)]);
    }
    assert!(out.rails.is_empty() && out.roads.is_empty() && out.areas.is_empty());
}

#[test]
fn lines_come_from_each_piece_of_the_line_tag_whatever_its_case() {
    let nodes = || vec![node(1, 1.0, 1.0, &[])];
    let w = way(1, nodes(), &[("railway", "light_rail"), ("line", "DLR;Unknown;JUBILEE LINE;Northern City")]);
    let lines: Vec<TubeLine> = of_way(&w).tube_rails.iter().map(|r| r.line).collect();
    assert_eq!(
        lines,
        vec![TubeLine::Dlr, TubeLine::Jubilee, TubeLine::Northern, TubeLine::HammersmithAndCity]
    );
    let w = way(1, nodes(), &[("railway", "rail"), ("line", "Hammersmith &amp; City")]);
    let lines: Vec<TubeLine> = of_way(&w).tube_rails.iter().map(|r| r.line).collect();
    assert_eq!(lines, vec![TubeLine::HammersmithAndCity]);
    let w = way(1, nodes(), &[("railway", "tram"), ("line", "District")]);
    assert!(of_way(&w).tube_rails.is_empty());
}

#[test]
fn the_rail_rules_are_tried_in_order() {
    let nodes = || vec![node(1, 1.0, 1.0, &[]), node(2, 2.0, 2.0, &[])];
    let named = way(1, nodes(), &[("railway", "rail"), ("line", "nowhere"), ("name", "Elizabeth Line")]);
    let out = of_way(&named);
    assert!(out.tube_rails.is_empty() && out.rails.is_empty());
    let elizabeth = way(1, nodes(), &[("railway", "rail"), ("name", "Elizabeth Line")]);
    let out = of_way(&elizabeth);
    assert_eq!(out.tube_rails.len(), 1);
    assert_eq!(out.tube_rails[0].line, TubeLine::Elizabeth);
    assert!(out.rails.is_empty());
    let plain = way(1, nodes(), &[("railway", "rail"), ("name", "Main Line")]);
    let out = of_way(&plain);
    assert!(out.tube_rails.is_empty());
    assert_eq!(out.rails, vec![vec![pt(1.0, 1.0), pt(2.0, 2.0)]]);
    let subway = way(1, nodes(), &[("railway", "subway")]);
    let out = of_way(&subway);
    assert!(out.tube_rails.is_empty() && out.rails.is_empty());
}

#[test]
fn a_way_may_be_a_road_an_area_and_a_landmark() {
    let w = way(
        1,
        vec![node(1, 1.0, 1.5, &[]), node(2, 2.0, 2.5, &[]), node(1, 1.0, 1.5, &[])],
        &[("highway", "footway"), ("leisure", "park"), ("natural", "water"), ("live_music", "yes")],
    );
    let out = of_way(&w);
    let ring = vec![pt(1.0, 1.5), pt(2.0, 2.5), pt(1.0, 1.5)];
    assert_eq!(out.roads, vec![ring.clone()]);
    let kinds: Vec<AreaType> = out.areas.iter().map(|a| a.area_type).collect();
    assert_eq!(kinds, vec![AreaType::Park, AreaType::Water]);
    assert_eq!(out.areas[0].area_polygons, vec![ring.clone()]);
    assert_eq!(out.areas[1].area_polygons, vec![ring]);
    assert_eq!(out.landmarks.len(), 1);
    assert_eq!(out.landmarks[0].landmark_type, LandmarkType::MusicVenue);
    assert_eq!((out.landmarks[0].lat, out.landmarks[0].lon), (1.0f64.to_bits(), 1.5f64.to_bits()));
}

#[test]
fn any_water_tag_makes_water() {
    let nodes = || vec![node(1, 1.0, 1.0, &[])];
    assert_eq!(of_way(&way(1, nodes(), &[("water", "lake")])).areas.len(), 1);
    assert_eq!(of_way(&way(1, nodes(), &[("natural", "water")])).areas.len(), 1);
    assert_eq!(of_way(&way(1, nodes(), &[("natural", "wood")])).areas.len(), 0);
}

#[test]
fn one_way_is_a_climbing_landmark_whatever_its_tags() {
    let w = way(963992061, vec![node(1, 3.0, 4.0, &[])], &[]);
    let out = of_way(&w);
    assert_eq!(out.landmarks.len(), 1);
    assert_eq!(out.landmarks[0].landmark_type, LandmarkType::ClimbingRope);
    assert_eq!((out.landmarks[0].lat, out.landmarks[0].lon), (3.0f64.to_bits(), 4.0f64.to_bits()));
}

#[test]
fn a_way_without_nodes_is_fatal_where_it_needs_one() {
    for pairs in [
        &[("leisure", "park")][..],
        &[("water", "pond")][..],
        &[("live_music", "yes")][..],
    ] {
        let mut out = SemanticMapElements::default();
        let err = SemanticMapEtl::new().process_way(&mut out, &way(1, Vec::new(), pairs)).unwrap_err();
        assert_eq!(err.kind, ErrorKind::Geometry);
        assert!(out.areas.is_empty() && out.landmarks.is_empty());
    }
    let mut out = SemanticMapElements::default();
    assert!(SemanticMapEtl::new().process_way(&mut out, &way(963992061, Vec::new(), &[])).is_err());
    let road = of_way(&way(1, Vec::new(), &[("highway", "path")]));
    assert_eq!(road.roads, vec![Vec::<MapCoords>::new()]);
}

#[test]
fn a_relation_outlines_its_area_with_all_its_ways() {
    let a = node(1, 0.0, 0.0, &[]);
    let b = node(2, 0.0, 1.0, &[]);
    let c = node(3, 1.0, 1.0, &[]);
    let r = Relation {
        id: 100,
        ways: vec![
            way(10, vec![a.clone(), b.clone()], &[]),
            way(11, vec![a.clone(), c.clone()], &[]),
            way(12, vec![b.clone(), c.clone()], &[]),
        ],
        tags: tags(&[("leisure", "park"), ("water", "yes")]),
    };
    let out = of_relation(&r);
    let kinds: Vec<AreaType> = out.areas.iter().map(|a| a.area_type).collect();
    assert_eq!(kinds, vec![AreaType::Park, AreaType::Water]);
    let ring = vec![pt(0.0, 0.0), pt(0.0, 1.0), pt(0.0, 1.0), pt(1.0, 1.0), pt(1.0, 1.0), pt(0.0, 0.0)];
    assert_eq!(out.areas[0].area_polygons, vec![ring.clone()]);
    assert_eq!(out.areas[1].area_polygons, vec![ring]);
    assert!(out.tube_rails.is_empty());
}

#[test]
fn a_relation_of_the_overground_makes_its_rails_overground() {
    let a = node(1, 0.0, 0.0, &[]);
    let b = node(2, 0.0, 1.0, &[]);
    let r = Relation {
        id: 100,
        ways: vec![
            way(10, vec![a.clone(), b.clone()], &[("railway", "rail")]),
            way(11, vec![b.clone()], &[("railway", "platform")]),
            way(12, vec![b.clone(), a.clone()], &[("railway", "rail;disused")]),
        ],
        tags: tags(&[("network", "London Overground")]),
    };
    let out = of_relation(&r);
    assert_eq!(out.tube_rails.len(), 2);
    assert!(out.tube_rails.iter().all(|t| t.line == TubeLine::Overground));
    assert_eq!(out.tube_rails[0].path, vec![pt(0.0, 0.0), pt(0.0, 1.0)]);
    assert_eq!(out.tube_rails[1].path, vec![pt(0.0, 1.0), pt(0.0, 0.0)]);
    assert!(out.areas.is_empty());
    let other = Relation { id: 1, ways: r.ways.clone(), tags: tags(&[("network", "Thameslink")]) };
    assert!(of_relation(&other).tube_rails.is_empty());
}

#[test]
fn a_relation_without_ways_is_fatal_where_it_is_an_area() {
    let park = Relation { id: 1, ways: Vec::new(), tags: tags(&[("leisure", "park")]) };
    let mut out = SemanticMapElements::default();
    let err = SemanticMapEtl::new().process_relation(&mut out, &park).unwrap_err();
    assert_eq!(err.kind, ErrorKind::Geometry);
    let hollow = Relation {
        id: 1,
        ways: vec![way(1, Vec::new(), &[])],
        tags: tags(&[("natural", "water")]),
    };
    assert!(SemanticMapEtl::new().process_relation(&mut out, &hollow).is_err());
    let route = Relation { id: 1, ways: Vec::new(), tags: tags(&[("type", "route")]) };
    assert!(SemanticMapEtl::new().process_relation(&mut out, &route).is_ok());
    assert!(out.areas.is_empty());
}

#[test]
fn a_map_gives_the_elements_of_its_nodes_ways_and_relations_by_identifier() {
    let a = node(2, 0.0, 0.0, &[("live_music", "yes")]);
    let b = node(1, 0.0, 1.0, &[("leisure", "fitness_centre")]);
    let w = way(10, vec![a.clone(), b.clone()], &[("highway", "residential"), ("railway", "rail")]);
    let r = Relation {
        id: 100,
        ways: vec![w.clone()],
        tags: tags(&[("network", "London Overground")]),
    };
    let input = OsmMapData {
        nodes: IdTable::new().insert(2, a).insert(1, b),
        ways: IdTable::new().insert(10, w),
        relations: IdTable::new().insert(100, r),
    };
    let out = SemanticMapEtl::new().transform(&input).unwrap();
    let kinds: Vec<LandmarkType> = out.landmarks.iter().map(|l| l.landmark_type).collect();
    assert_eq!(kinds, vec![LandmarkType::Gym, LandmarkType::MusicVenue]);
    assert_eq!(out.roads.len(), 1);
    assert_eq!(out.rails.len(), 1);
    assert_eq!(out.tube_rails.len(), 1);
    assert_eq!(out.tube_rails[0].line, TubeLine::Overground);
    let again = SemanticMapEtl::new().transform(&input).unwrap();
    let kinds_again: Vec<LandmarkType> = again.landmarks.iter().map(|l| l.landmark_type).collect();
    assert_eq!(kinds_again, kinds);
}

#[test]
fn a_map_fails_as_its_first_failing_entity() {
    let bad_node = node(1, 0.0, 0.0, &[("railway", "station"), ("name", "&;")]);
    let bad_way = way(10, Vec::new(), &[("leisure", "park")]);
    let input = OsmMapData {
        nodes: IdTable::new().insert(1, bad_node),
        ways: IdTable::new().insert(10, bad_way.clone()),
        relations: IdTable::new(),
    };
    assert_eq!(SemanticMapEtl::new().transform(&input).unwrap_err().kind, ErrorKind::Decode);
    let input = OsmMapData {
        nodes: IdTable::new(),
        ways: IdTable::new().insert(10, bad_way),
        relations: IdTable::new(),
    };
    assert_eq!(SemanticMapEtl::new().transform(&input).unwrap_err().kind, ErrorKind::Geometry);
}

#[test]
fn nodes_before_a_failing_node_have_given_their_elements() {
    let good = node(1, 0.0, 0.0, &[("live_music", "yes")]);
    let bad = node(2, 0.0, 0.0, &[("railway", "station"), ("name", "&;")]);
    let late = node(3, 0.0, 0.0, &[("live_music", "yes")]);
    let nodes = IdTable::new().insert(3, late).insert(2, bad).insert(1, good);
    let mut out = SemanticMapElements::default();
    let err = SemanticMapEtl::new().process_nodes(&mut out, &nodes).unwrap_err();
    assert_eq!(err.kind, ErrorKind::Decode);
    assert_eq!(out.landmarks.len(), 1);
}

#[test]
fn the_semantic_stage_knows_its_names() {
    let etl = SemanticMapEtl::new();
    assert_eq!(etl.etl_name(), "semantic_map");
    assert_eq!(etl.output_file_name(), "semantic_map.rkyv");
}
