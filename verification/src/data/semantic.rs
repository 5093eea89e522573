//! Semantic map elements: what is handed to a renderer.
//!
//! Coordinates are kept as the IEEE-754 binary64 bit patterns of their values
//! in degrees, so that two points are the same point exactly when their bits
//! agree.

use vstd::prelude::*;
use crate::data::osm::{Node, NodeView, Way, WayView};
use crate::data::polygon::views;

verus! {

/// A point on the map. `lat` and `lon` hold the bit patterns of the latitude
/// and the longitude in degrees; equality is equality of bits.
#[derive(Clone, Copy, Debug, PartialEq, Eq, Hash, Structural)]
pub struct MapCoords {
    pub lat: u64,
    pub lon: u64,
}

/// A polyline: its points in order.
pub type Path = Vec<MapCoords>;

/// The network a station belongs to.
#[derive(Clone, Copy, Debug, PartialEq, Eq, Structural)]
pub enum TransportStationType {
    Underground,
    Overground,
    Dlr,
    ElizabethLine,
}

/// A station: its display name, its network and where it is.
#[derive(Clone, Debug)]
pub struct TransportStation {
    pub name: String,
    pub station_type: TransportStationType,
    pub lat: u64,
    pub lon: u64,
}

/// What an area is filled as.
#[derive(Clone, Copy, Debug, PartialEq, Eq, Structural)]
pub enum AreaType {
    Park,
    Water,
}

/// A filled area: its kind and the chains of points that outline it.
#[derive(Clone, Debug)]
pub struct Area {
    pub area_type: AreaType,
    pub area_polygons: Vec<Path>,
}

/// The categories of point landmarks.
#[derive(Clone, Copy, Debug, PartialEq, Eq, Structural)]
pub enum LandmarkType {
    Lgbtq,
    LgbtqMen,
    CocktailBar,
    ClimbingBoulder,
    ClimbingRope,
    ClimbingOutdoor,
    Gym,
    Hospital,
    MusicVenue,
    Tree,
    TubeEmergencyExit,
    TempleAetheriusSociety,
    TempleBuddhist,
    TempleChristian,
    TempleHindu,
    TempleHumanist,
    TempleJain,
    TempleJewish,
    TempleMuslim,
    TempleRastafarian,
    TempleRosicucian,
    TempleScientologist,
    TempleSelfRealizationFellowship,
    TempleSikh,
}

/// A point landmark.
#[derive(Clone, Copy, Debug, PartialEq, Eq, Structural)]
pub struct Landmark {
    pub lon: u64,
    pub lat: u64,
    pub landmark_type: LandmarkType,
}

/// The named transit lines.
#[derive(Clone, Copy, Debug, PartialEq, Eq, PartialOrd, Ord, Structural)]
pub enum TubeLine {
    Bakerloo,
    Central,
    Circle,
    District,
    Dlr,
    Elizabeth,
    HammersmithAndCity,
    Jubilee,
    Metropolitan,
    Northern,
    Overground,
    Piccadilly,
    Victoria,
    WaterlooAndCity,
}

/// A stretch of rail that belongs to a named line.
#[derive(Clone, Debug)]
pub struct TubeRail {
    pub line: TubeLine,
    pub path: Path,
}

/// Everything a renderer draws.
#[derive(Clone, Debug)]
pub struct SemanticMapElements {
    pub underground_stations: Vec<TransportStation>,
    pub rails: Vec<Path>,
    pub roads: Vec<Path>,
    pub areas: Vec<Area>,
    pub landmarks: Vec<Landmark>,
    pub tube_rails: Vec<TubeRail>,
}

impl<'a> From<&'a Node> for MapCoords {
    fn from(value: &'a Node) -> (c: MapCoords) {
        MapCoords { lat: value.lat, lon: value.lon }
    }
}

impl<'a> vstd::std_specs::convert::FromSpecImpl<&'a Node> for MapCoords {
    open spec fn obeys_from_spec() -> bool {
        true
    }

    open spec fn from_spec(value: &'a Node) -> MapCoords {
        MapCoords { lat: value.lat, lon: value.lon }
    }
}

impl<'a> From<&'a TransportStation> for MapCoords {
    fn from(value: &'a TransportStation) -> (c: MapCoords) {
        MapCoords { lat: value.lat, lon: value.lon }
    }
}

impl<'a> vstd::std_specs::convert::FromSpecImpl<&'a TransportStation> for MapCoords {
    open spec fn obeys_from_spec() -> bool {
        true
    }

    open spec fn from_spec(value: &'a TransportStation) -> MapCoords {
        MapCoords { lat: value.lat, lon: value.lon }
    }
}

impl<'a> From<&'a Landmark> for MapCoords {
    fn from(value: &'a Landmark) -> (c: MapCoords) {
        MapCoords { lat: value.lat, lon: value.lon }
    }
}

impl<'a> vstd::std_specs::convert::FromSpecImpl<&'a Landmark> for MapCoords {
    open spec fn obeys_from_spec() -> bool {
        true
    }

    open spec fn from_spec(value: &'a Landmark) -> MapCoords {
        MapCoords { lat: value.lat, lon: value.lon }
    }
}

/// Where a node is.
pub open spec fn coords_of(n: NodeView) -> MapCoords {
    MapCoords { lat: n.lat, lon: n.lon }
}

/// The path that a way draws: the positions of its nodes in order.
pub open spec fn path_of(w: WayView) -> Seq<MapCoords> {
    Seq::new(w.nodes.len(), |i: int| coords_of(w.nodes[i]))
}

/// The path that a way draws: the positions of its nodes in order.
pub fn way_path(way: &Way) -> (path: Path)
    ensures
        path@ == path_of(way@),
{
    let n = way.nodes.len();
    let mut path: Vec<MapCoords> = Vec::new();
    let mut i: usize = 0;
    while i < n
        invariant
            n == way.nodes@.len(),
            i <= n,
            path@.len() == i,
            forall|k: int| 0 <= k < i ==> path@[k] == coords_of(way.nodes@[k]@),
        decreases n - i,
    {
        let node = &way.nodes[i];
        path.push(MapCoords { lat: node.lat, lon: node.lon });
        i += 1;
    }
    assert(path@ =~= path_of(way@));
    path
}

/// `TransportStation` as what it is.
pub struct StationView {
    pub name: Seq<char>,
    pub station_type: TransportStationType,
    pub lat: u64,
    pub lon: u64,
}

impl View for TransportStation {
    type V = StationView;

    open spec fn view(&self) -> StationView {
        StationView {
            name: self.name@,
            station_type: self.station_type,
            lat: self.lat,
            lon: self.lon,
        }
    }
}

/// `Area` as what it is.
pub struct AreaView {
    pub area_type: AreaType,
    pub polygons: Seq<Seq<MapCoords>>,
}

impl View for Area {
    type V = AreaView;

    open spec fn view(&self) -> AreaView {
        AreaView { area_type: self.area_type, polygons: views(self.area_polygons@) }
    }
}

/// `TubeRail` as what it is.
pub struct TubeRailView {
    pub line: TubeLine,
    pub path: Seq<MapCoords>,
}

impl View for TubeRail {
    type V = TubeRailView;

    open spec fn view(&self) -> TubeRailView {
        TubeRailView { line: self.line, path: self.path@ }
    }
}

/// `SemanticMapElements` as what it is.
pub struct ElementsView {
    pub stations: Seq<StationView>,
    pub rails: Seq<Seq<MapCoords>>,
    pub roads: Seq<Seq<MapCoords>>,
    pub areas: Seq<AreaView>,
    pub landmarks: Seq<Landmark>,
    pub tube_rails: Seq<TubeRailView>,
}

impl ElementsView {
    /// No elements.
    pub open spec fn none() -> ElementsView {
        ElementsView {
            stations: Seq::empty(),
            rails: Seq::empty(),
            roads: Seq::empty(),
            areas: Seq::empty(),
            landmarks: Seq::empty(),
            tube_rails: Seq::empty(),
        }
    }

    /// These elements, followed kind by kind by those of `more`.
    pub open spec fn plus(self, more: ElementsView) -> ElementsView {
        ElementsView {
            stations: self.stations + more.stations,
            rails: self.rails + more.rails,
            roads: self.roads + more.roads,
            areas: self.areas + more.areas,
            landmarks: self.landmarks + more.landmarks,
            tube_rails: self.tube_rails + more.tube_rails,
        }
    }
}

impl View for SemanticMapElements {
    type V = ElementsView;

    open spec fn view(&self) -> ElementsView {
        ElementsView {
            stations: Seq::new(
                self.underground_stations@.len(),
                |i: int| self.underground_stations@[i]@,
            ),
            rails: views(self.rails@),
            roads: views(self.roads@),
            areas: Seq::new(self.areas@.len(), |i: int| self.areas@[i]@),
            landmarks: self.landmarks@,
            tube_rails: Seq::new(self.tube_rails@.len(), |i: int| self.tube_rails@[i]@),
        }
    }
}

impl Default for SemanticMapElements {
    fn default() -> (elements: SemanticMapElements)
        ensures
            elements@ == ElementsView::none(),
    {
        let elements = SemanticMapElements {
            underground_stations: Vec::new(),
            rails: Vec::new(),
            roads: Vec::new(),
            areas: Vec::new(),
            landmarks: Vec::new(),
            tube_rails: Vec::new(),
        };
        assert(elements@.stations =~= Seq::empty());
        assert(elements@.rails =~= Seq::empty());
        assert(elements@.roads =~= Seq::empty());
        assert(elements@.areas =~= Seq::empty());
        assert(elements@.tube_rails =~= Seq::empty());
        elements
    }
}

impl SemanticMapElements {
    /// Adds a station after those that are there.
    pub fn push_station(&mut self, station: TransportStation)
        ensures
            final(self)@ == (ElementsView {
                stations: old(self)@.stations.push(station@),
                ..old(self)@
            }),
    {
        self.underground_stations.push(station);
        assert(self@.stations =~= old(self)@.stations.push(station@));
    }

    /// Adds a plain rail after those that are there.
    pub fn push_rail(&mut self, path: Path)
        ensures
            final(self)@ == (ElementsView { rails: old(self)@.rails.push(path@), ..old(self)@ }),
    {
        self.rails.push(path);
        assert(self@.rails =~= old(self)@.rails.push(path@));
    }

    /// Adds a road after those that are there.
    pub fn push_road(&mut self, path: Path)
        ensures
            final(self)@ == (ElementsView { roads: old(self)@.roads.push(path@), ..old(self)@ }),
    {
        self.roads.push(path);
        assert(self@.roads =~= old(self)@.roads.push(path@));
    }

    /// Adds an area after those that are there.
    pub fn push_area(&mut self, area: Area)
        ensures
            final(self)@ == (ElementsView { areas: old(self)@.areas.push(area@), ..old(self)@ }),
    {
        self.areas.push(area);
        assert(self@.areas =~= old(self)@.areas.push(area@));
    }

    /// Adds a landmark after those that are there.
    pub fn push_landmark(&mut self, landmark: Landmark)
        ensures
            final(self)@ == (ElementsView {
                landmarks: old(self)@.landmarks.push(landmark),
                ..old(self)@
            }),
    {
        self.landmarks.push(landmark);
    }

    /// Adds a stretch of a named line after those that are there.
    pub fn push_tube_rail(&mut self, rail: TubeRail)
        ensures
            final(self)@ == (ElementsView {
                tube_rails: old(self)@.tube_rails.push(rail@),
                ..old(self)@
            }),
    {
        self.tube_rails.push(rail);
        assert(self@.tube_rails =~= old(self)@.tube_rails.push(rail@));
    }
}

} // verus!
