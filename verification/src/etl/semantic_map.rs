//! Making semantic elements of the raw entities: rules on the tags of each
//! node, way and relation, tried in a fixed order.

use vstd::prelude::*;
use vstd::string::StringSliceAdditionalSpecFns;
use vstd::utf8::{decode_utf8, valid_utf8};
use crate::bytes::bytes_eq;
use crate::data::osm::{
    IdTable, Node, NodeView, OsmMapData, Relation, RelationView, TagSet, Way, WayView,
};
use crate::data::polygon::{assembled, views, well_formed};
use crate::data::semantic::{
    path_of, way_path, Area, AreaType, AreaView, ElementsView, Landmark, LandmarkType,
    MapCoords, Path, SemanticMapElements, StationView, TransportStation, TransportStationType,
    TubeLine, TubeRail, TubeRailView,
};
use crate::errors::{Error, ErrorKind, Result};
use crate::text::{
    base_name_pattern, capture_group, lowercase_text, lowercased, pieces, regex_capture,
    split_semicolons, string_views, trim_text, trimmed, unescape_text, unescaped, utf8_text,
};

verus! {

/// The tags of an entity.
pub type Tags = Map<Seq<u8>, Seq<u8>>;

/// The byte that separates the values of a tag that has several.
pub open spec fn semicolon() -> u8 {
    59
}

/// The tag `key` has `value` as its value, or as one of its values where
/// semicolons separate several.
pub open spec fn has_kv(tags: Tags, key: Seq<u8>, value: Seq<u8>) -> bool {
    tags.contains_key(key) && pieces(tags[key], semicolon()).contains(value)
}

/// `has_kv` with key and value written as text.
pub open spec fn tagged(tags: Tags, key: &str, value: &str) -> bool {
    has_kv(tags, key.spec_bytes(), value.spec_bytes())
}

/// There is a tag `key`, written as text.
pub open spec fn keyed(tags: Tags, key: &str) -> bool {
    tags.contains_key(key.spec_bytes())
}

/// The value of the tag `key` as text: decoded as UTF-8, then with its
/// character references resolved. Nothing where there is no such tag or
/// where its value cannot be read so.
pub open spec fn text_of(tags: Tags, key: Seq<u8>) -> Option<Seq<char>> {
    if tags.contains_key(key) && valid_utf8(tags[key]) {
        unescaped(decode_utf8(tags[key]))
    } else {
        None
    }
}

/// The values of the tag `key` as texts: what `text_of` gives, taken apart
/// at the semicolons. Empty where `text_of` gives nothing.
pub open spec fn texts_of(tags: Tags, key: Seq<u8>) -> Seq<Seq<char>> {
    match text_of(tags, key) {
        Some(s) => pieces(s, ';'),
        None => Seq::empty(),
    }
}

/// Whether the bytes of `s` from `start` up to `end` are those of
/// `value`.
fn range_eq(s: &[u8], start: usize, end: usize, value: &[u8]) -> (same: bool)
    requires
        start <= end <= s.len(),
    ensures
        same == (s@.subrange(start as int, end as int) == value@),
{
    let ghost piece = s@.subrange(start as int, end as int);
    if end - start != value.len() {
        return false;
    }
    let n = value.len();
    let mut i: usize = 0;
    while i < n
        invariant
            n == value.len(),
            n == end - start,
            start <= end <= s.len(),
            piece == s@.subrange(start as int, end as int),
            i <= n,
            forall|k: int| 0 <= k < i ==> piece[k] == value@[k],
        decreases n - i,
    {
        assert(piece[i as int] == s@[start + i]);
        if s[start + i] != value[i] {
            return false;
        }
        i += 1;
    }
    assert(piece =~= value@);
    true
}

/// Whether `value` is one of the pieces of `s` between semicolons.
pub fn list_contains(s: &[u8], value: &[u8]) -> (found: bool)
    ensures
        found == pieces(s@, semicolon()).contains(value@),
{
    let n = s.len();
    let mut found = false;
    let mut start: usize = 0;
    let mut i: usize = 0;
    let ghost mut done: Seq<Seq<u8>> = Seq::empty();
    assert(s@.subrange(0, 0) =~= Seq::<u8>::empty());
    assert(done.push(s@.subrange(0, 0)) =~= pieces(s@.subrange(0, 0), semicolon()));
    while i < n
        invariant
            n == s.len(),
            start <= i <= n,
            pieces(s@.subrange(0, i as int), semicolon()) == done.push(
                s@.subrange(start as int, i as int),
            ),
            found == done.contains(value@),
        decreases n - i,
    {
        let ghost head = s@.subrange(0, i + 1);
        assert(head.drop_last() =~= s@.subrange(0, i as int));
        assert(head.last() == s@[i as int]);
        let ghost open = s@.subrange(start as int, i as int);
        assert(done.push(open).drop_last() =~= done);
        if s[i] == 59 {
            let same = range_eq(s, start, i, value);
            proof {
                let longer = done.push(open);
                if same {
                    assert(longer[done.len() as int] == value@);
                }
                if longer.contains(value@) && !found {
                    let k = choose|k: int| 0 <= k < longer.len() && longer[k] == value@;
                    if k < done.len() {
                        assert(done[k] == value@);
                    }
                }
                if found {
                    let k = choose|k: int| 0 <= k < done.len() && done[k] == value@;
                    assert(longer[k] == value@);
                }
                done = longer;
            }
            found = found || same;
            start = i + 1;
            assert(s@.subrange(start as int, i + 1) =~= Seq::<u8>::empty());
        } else {
            assert(s@.subrange(start as int, i + 1) =~= open.push(s@[i as int]));
        }
        i += 1;
    }
    assert(s@.subrange(0, n as int) =~= s@);
    let same = range_eq(s, start, n, value);
    proof {
        let last = s@.subrange(start as int, n as int);
        let all = done.push(last);
        if same {
            assert(all[done.len() as int] == value@);
        }
        if found {
            let k = choose|k: int| 0 <= k < done.len() && done[k] == value@;
            assert(all[k] == value@);
        }
        if all.contains(value@) && !found {
            let k = choose|k: int| 0 <= k < all.len() && all[k] == value@;
            if k < done.len() {
                assert(done[k] == value@);
            }
        }
    }
    found || same
}

/// The stage that makes semantic elements of the raw entities.
#[derive(Debug)]
pub struct SemanticMapEtl {}

impl SemanticMapEtl {
    /// The stage.
    pub fn new() -> SemanticMapEtl {
        SemanticMapEtl {  }
    }

    /// The name of the stage.
    pub fn etl_name(&self) -> (name: &'static str)
        ensures
            name@ == "semantic_map"@,
    {
        "semantic_map"
    }

    /// The name of the file that holds what the stage gives.
    pub fn output_file_name(&self) -> (name: &'static str)
        ensures
            name@ == "semantic_map.rkyv"@,
    {
        "semantic_map.rkyv"
    }

    /// Whether there is a tag `key`.
    pub fn has_key(tags: &TagSet, key: &[u8]) -> (has: bool)
        ensures
            has == tags@.contains_key(key@),
    {
        tags.contains_key(key)
    }

    /// Whether the tag `key` has `value` as its value, or as one of its
    /// values where semicolons separate several.
    pub fn has_kv_pair(tags: &TagSet, key: &[u8], value: &[u8]) -> (has: bool)
        ensures
            has == has_kv(tags@, key@, value@),
    {
        match tags.get(key) {
            Some(tag_value) => list_contains(tag_value.as_slice(), value),
            None => false,
        }
    }

    /// The value of the tag `key` as text, if there is such a tag and its
    /// value can be read as text.
    pub fn get_string(tags: &TagSet, key: &[u8]) -> (r: Option<String>)
        ensures
            match r {
                Some(s) => text_of(tags@, key@) == Some(s@),
                None => text_of(tags@, key@) is None,
            },
    {
        let value = match tags.get(key) {
            Some(v) => v,
            None => {
                return None;
            },
        };
        match utf8_text(value.as_slice()) {
            Some(raw) => {
                proof {
                    vstd::utf8::encode_utf8_decode_utf8(raw@);
                }
                unescape_text(raw)
            },
            None => None,
        }
    }

    /// The values of the tag `key` as texts, taken apart at the semicolons.
    /// Empty where `get_string` gives nothing.
    pub fn get_strings(tags: &TagSet, key: &[u8]) -> (r: Vec<String>)
        ensures
            string_views(r@) == texts_of(tags@, key@),
    {
        match Self::get_string(tags, key) {
            Some(s) => split_semicolons(s.as_str()),
            None => {
                let none: Vec<String> = Vec::new();
                assert(string_views(none@) =~= Seq::<Seq<char>>::empty());
                none
            },
        }
    }

    /// `has_kv_pair` with key and value written as text.
    fn is_tagged(tags: &TagSet, key: &str, value: &str) -> (has: bool)
        ensures
            has == tagged(tags@, key, value),
    {
        Self::has_kv_pair(tags, key.as_bytes(), value.as_bytes())
    }

    /// `has_key` with the key written as text.
    fn is_keyed(tags: &TagSet, key: &str) -> (has: bool)
        ensures
            has == keyed(tags@, key),
    {
        Self::has_key(tags, key.as_bytes())
    }
}

/// The kind of temple that the `religion` tag names, for a place of
/// worship.
pub open spec fn temple_of(tags: Tags) -> Option<LandmarkType> {
    if tagged(tags, "religion", "aetherius_society") {
        Some(LandmarkType::TempleAetheriusSociety)
    } else if tagged(tags, "religion", "buddhist") {
        Some(LandmarkType::TempleBuddhist)
    } else if tagged(tags, "religion", "christian") || tagged(tags, "religion", "spiritualist") {
        Some(LandmarkType::TempleChristian)
    } else if tagged(tags, "religion", "hindu") {
        Some(LandmarkType::TempleHindu)
    } else if tagged(tags, "religion", "humanist") {
        Some(LandmarkType::TempleHumanist)
    } else if tagged(tags, "religion", "jain") {
        Some(LandmarkType::TempleJain)
    } else if tagged(tags, "religion", "jewish") {
        Some(LandmarkType::TempleJewish)
    } else if tagged(tags, "religion", "muslim") {
        Some(LandmarkType::TempleMuslim)
    } else if tagged(tags, "religion", "rastafarian") {
        Some(LandmarkType::TempleRastafarian)
    } else if tagged(tags, "religion", "rosicrucian") {
        Some(LandmarkType::TempleRosicucian)
    } else if tagged(tags, "religion", "scientologist") {
        Some(LandmarkType::TempleScientologist)
    } else if tagged(tags, "religion", "self-realization_fellowship") {
        Some(LandmarkType::TempleSelfRealizationFellowship)
    } else if tagged(tags, "religion", "sikh") {
        Some(LandmarkType::TempleSikh)
    } else {
        None
    }
}

/// The kind of landmark that the tags describe: the first rule that holds
/// decides, and where none holds there is no landmark.
pub open spec fn landmark_of(tags: Tags) -> Option<LandmarkType> {
    if tagged(tags, "lgbtq:men", "only") || tagged(tags, "lgbtq:men", "primary") || tagged(
        tags,
        "gay",
        "yes",
    ) {
        Some(LandmarkType::LgbtqMen)
    } else if tagged(tags, "lgbtq", "primary") {
        Some(LandmarkType::Lgbtq)
    } else if tagged(tags, "bar", "cocktail") || tagged(tags, "cocktails", "yes") || tagged(
        tags,
        "drink:cocktail",
        "served",
    ) {
        Some(LandmarkType::CocktailBar)
    } else if tagged(tags, "emergency", "emergency_ward_entrance") || tagged(
        tags,
        "healthcare",
        "emergency_ward",
    ) {
        Some(LandmarkType::Hospital)
    } else if tagged(tags, "natural", "tree") && keyed(tags, "name") {
        Some(LandmarkType::Tree)
    } else if tagged(tags, "leisure", "fitness_centre") {
        Some(LandmarkType::Gym)
    } else if tagged(tags, "climbing:toprope", "yes") || tagged(tags, "climbing:sport", "yes")
        || tagged(tags, "climbing:ice", "yes") {
        Some(LandmarkType::ClimbingRope)
    } else if tagged(tags, "climbing:boulder", "yes") || tagged(tags, "climbing", "bouldering") || (
    tagged(tags, "leisure", "sports_centre") && tagged(tags, "sport", "climbing")) {
        Some(LandmarkType::ClimbingBoulder)
    } else if tagged(tags, "leisure", "pitch") && tagged(tags, "sport", "climbing") {
        Some(LandmarkType::ClimbingOutdoor)
    } else if tagged(tags, "amenity", "music_venue") || tagged(tags, "live_music", "yes") {
        Some(LandmarkType::MusicVenue)
    } else if tagged(tags, "amenity", "place_of_worship") {
        temple_of(tags)
    } else {
        None
    }
}

impl SemanticMapEtl {
    /// The kind of temple that the `religion` tag names.
    fn temple_type_from_tags(tags: &TagSet) -> (r: Option<LandmarkType>)
        ensures
            r == temple_of(tags@),
    {
        if Self::is_tagged(tags, "religion", "aetherius_society") {
            Some(LandmarkType::TempleAetheriusSociety)
        } else if Self::is_tagged(tags, "religion", "buddhist") {
            Some(LandmarkType::TempleBuddhist)
        } else if Self::is_tagged(tags, "religion", "christian") || Self::is_tagged(
            tags,
            "religion",
            "spiritualist",
        ) {
            Some(LandmarkType::TempleChristian)
        } else if Self::is_tagged(tags, "religion", "hindu") {
            Some(LandmarkType::TempleHindu)
        } else if Self::is_tagged(tags, "religion", "humanist") {
            Some(LandmarkType::TempleHumanist)
        } else if Self::is_tagged(tags, "religion", "jain") {
            Some(LandmarkType::TempleJain)
        } else if Self::is_tagged(tags, "religion", "jewish") {
            Some(LandmarkType::TempleJewish)
        } else if Self::is_tagged(tags, "religion", "muslim") {
            Some(LandmarkType::TempleMuslim)
        } else if Self::is_tagged(tags, "religion", "rastafarian") {
            Some(LandmarkType::TempleRastafarian)
        } else if Self::is_tagged(tags, "religion", "rosicrucian") {
            Some(LandmarkType::TempleRosicucian)
        } else if Self::is_tagged(tags, "religion", "scientologist") {
            Some(LandmarkType::TempleScientologist)
        } else if Self::is_tagged(tags, "religion", "self-realization_fellowship") {
            Some(LandmarkType::TempleSelfRealizationFellowship)
        } else if Self::is_tagged(tags, "religion", "sikh") {
            Some(LandmarkType::TempleSikh)
        } else {
            None
        }
    }

    /// The kind of landmark that the tags describe, if any: the first rule
    /// that holds decides.
    pub fn landmark_type_from_tags(&mut self, tags: &TagSet) -> (r: Option<LandmarkType>)
        ensures
            r == landmark_of(tags@),
    {
        if Self::is_tagged(tags, "lgbtq:men", "only") || Self::is_tagged(tags, "lgbtq:men", "primary")
            || Self::is_tagged(tags, "gay", "yes") {
            Some(LandmarkType::LgbtqMen)
        } else if Self::is_tagged(tags, "lgbtq", "primary") {
            Some(LandmarkType::Lgbtq)
        } else if Self::is_tagged(tags, "bar", "cocktail") || Self::is_tagged(tags, "cocktails", "yes")
            || Self::is_tagged(tags, "drink:cocktail", "served") {
            Some(LandmarkType::CocktailBar)
        } else if Self::is_tagged(tags, "emergency", "emergency_ward_entrance") || Self::is_tagged(
            tags,
            "healthcare",
            "emergency_ward",
        ) {
            Some(LandmarkType::Hospital)
        } else if Self::is_tagged(tags, "natural", "tree") && Self::is_keyed(tags, "name") {
            Some(LandmarkType::Tree)
        } else if Self::is_tagged(tags, "leisure", "fitness_centre") {
            Some(LandmarkType::Gym)
        } else if Self::is_tagged(tags, "climbing:toprope", "yes") || Self::is_tagged(
            tags,
            "climbing:sport",
            "yes",
        ) || Self::is_tagged(tags, "climbing:ice", "yes") {
            Some(LandmarkType::ClimbingRope)
        } else if Self::is_tagged(tags, "climbing:boulder", "yes") || Self::is_tagged(
            tags,
            "climbing",
            "bouldering",
        ) || (Self::is_tagged(tags, "leisure", "sports_centre") && Self::is_tagged(
            tags,
            "sport",
            "climbing",
        )) {
            Some(LandmarkType::ClimbingBoulder)
        } else if Self::is_tagged(tags, "leisure", "pitch") && Self::is_tagged(
            tags,
            "sport",
            "climbing",
        ) {
            Some(LandmarkType::ClimbingOutdoor)
        } else if Self::is_tagged(tags, "amenity", "music_venue") || Self::is_tagged(
            tags,
            "live_music",
            "yes",
        ) {
            Some(LandmarkType::MusicVenue)
        } else if Self::is_tagged(tags, "amenity", "place_of_worship") {
            Self::temple_type_from_tags(tags)
        } else {
            None
        }
    }
}

/// `s` is the text `name`.
pub open spec fn named(s: Seq<u8>, name: &str) -> bool {
    s == name.spec_bytes()
}

/// The lines that a name stands for, once it is in lower case: none for a
/// name that is not known, and two for a name that stands for a stretch that
/// two lines share.
pub open spec fn lines_of(lower: Seq<u8>) -> Seq<TubeLine> {
    if named(lower, "bakerloo") {
        seq![TubeLine::Bakerloo]
    } else if named(lower, "central") || named(lower, "central line") {
        seq![TubeLine::Central]
    } else if named(lower, "circle") {
        seq![TubeLine::Circle]
    } else if named(lower, "deep level district") || named(lower, "district") || named(
        lower,
        "district, north london",
    ) {
        seq![TubeLine::District]
    } else if named(lower, "district, piccadilly") {
        seq![TubeLine::District, TubeLine::Piccadilly]
    } else if named(lower, "dlr") {
        seq![TubeLine::Dlr]
    } else if named(lower, "elizabeth") {
        seq![TubeLine::Elizabeth]
    } else if named(lower, "hammersmith & city") {
        seq![TubeLine::HammersmithAndCity]
    } else if named(lower, "jubilee") || named(lower, "jubilee line") {
        seq![TubeLine::Jubilee]
    } else if named(lower, "metropolitan") {
        seq![TubeLine::Metropolitan]
    } else if named(lower, "metropolitan, piccadilly") {
        seq![TubeLine::Metropolitan, TubeLine::Piccadilly]
    } else if named(lower, "north london line") {
        seq![TubeLine::Overground]
    } else if named(lower, "northern") || named(lower, "northern line") {
        seq![TubeLine::Northern]
    } else if named(lower, "northern city") {
        seq![TubeLine::Northern, TubeLine::HammersmithAndCity]
    } else if named(lower, "picadilly") || named(lower, "piccadilly") {
        seq![TubeLine::Piccadilly]
    } else if named(lower, "victoria") {
        seq![TubeLine::Victoria]
    } else if named(lower, "waterloo & city") {
        seq![TubeLine::WaterlooAndCity]
    } else {
        Seq::empty()
    }
}

/// Whether `s` is the text `name`.
fn is_named(s: &[u8], name: &str) -> (same: bool)
    ensures
        same == named(s@, name),
{
    bytes_eq(s, name.as_bytes())
}

/// One line.
fn one_line(a: TubeLine) -> (lines: Vec<TubeLine>)
    ensures
        lines@ == seq![a],
{
    let mut lines: Vec<TubeLine> = Vec::new();
    lines.push(a);
    assert(lines@ =~= seq![a]);
    lines
}

/// Two lines.
fn two_lines(a: TubeLine, b: TubeLine) -> (lines: Vec<TubeLine>)
    ensures
        lines@ == seq![a, b],
{
    let mut lines: Vec<TubeLine> = Vec::new();
    lines.push(a);
    lines.push(b);
    assert(lines@ =~= seq![a, b]);
    lines
}

/// The lines that a name in lower case stands for.
pub fn lines_for_name(lower: &str) -> (lines: Vec<TubeLine>)
    ensures
        lines@ == lines_of(lower.spec_bytes()),
{
    let s = lower.as_bytes();
    if is_named(s, "bakerloo") {
        one_line(TubeLine::Bakerloo)
    } else if is_named(s, "central") || is_named(s, "central line") {
        one_line(TubeLine::Central)
    } else if is_named(s, "circle") {
        one_line(TubeLine::Circle)
    } else if is_named(s, "deep level district") || is_named(s, "district") || is_named(
        s,
        "district, north london",
    ) {
        one_line(TubeLine::District)
    } else if is_named(s, "district, piccadilly") {
        two_lines(TubeLine::District, TubeLine::Piccadilly)
    } else if is_named(s, "dlr") {
        one_line(TubeLine::Dlr)
    } else if is_named(s, "elizabeth") {
        one_line(TubeLine::Elizabeth)
    } else if is_named(s, "hammersmith & city") {
        one_line(TubeLine::HammersmithAndCity)
    } else if is_named(s, "jubilee") || is_named(s, "jubilee line") {
        one_line(TubeLine::Jubilee)
    } else if is_named(s, "metropolitan") {
        one_line(TubeLine::Metropolitan)
    } else if is_named(s, "metropolitan, piccadilly") {
        two_lines(TubeLine::Metropolitan, TubeLine::Piccadilly)
    } else if is_named(s, "north london line") {
        one_line(TubeLine::Overground)
    } else if is_named(s, "northern") || is_named(s, "northern line") {
        one_line(TubeLine::Northern)
    } else if is_named(s, "northern city") {
        two_lines(TubeLine::Northern, TubeLine::HammersmithAndCity)
    } else if is_named(s, "picadilly") || is_named(s, "piccadilly") {
        one_line(TubeLine::Piccadilly)
    } else if is_named(s, "victoria") {
        one_line(TubeLine::Victoria)
    } else if is_named(s, "waterloo & city") {
        one_line(TubeLine::WaterlooAndCity)
    } else {
        Vec::new()
    }
}

/// The lines that the names of a list stand for, name after name, whatever
/// their case.
pub open spec fn lines_of_texts(texts: Seq<Seq<char>>) -> Seq<TubeLine>
    decreases texts.len(),
{
    if texts.len() == 0 {
        Seq::empty()
    } else {
        lines_of_texts(texts.drop_last()) + lines_of(
            vstd::utf8::encode_utf8(lowercased(texts.last())),
        )
    }
}

/// The network that the tags name, if it is one of the four.
pub open spec fn station_type_of(tags: Tags) -> Option<TransportStationType> {
    if tagged(tags, "network", "London Underground") {
        Some(TransportStationType::Underground)
    } else if tagged(tags, "network", "Docklands Light Railway") {
        Some(TransportStationType::Dlr)
    } else if tagged(tags, "network", "London Overground") {
        Some(TransportStationType::Overground)
    } else if tagged(tags, "network", "Elizabeth Line") {
        Some(TransportStationType::ElizabethLine)
    } else {
        None
    }
}

/// The tags are those of a station with a name.
pub open spec fn is_station(tags: Tags) -> bool {
    tagged(tags, "railway", "station") && keyed(tags, "name")
}

/// The name under which a station is shown: what stands before the
/// qualifier in parentheses, without the white space around it. Nothing
/// where the name cannot be read as text or cannot be taken apart.
pub open spec fn station_name(tags: Tags) -> Option<Seq<char>> {
    match text_of(tags, "name".spec_bytes()) {
        None => None,
        Some(name) => match regex_capture(base_name_pattern(), "base_name"@, name) {
            None => None,
            Some(base) => Some(trimmed(base)),
        },
    }
}

/// The landmark that a node is made whatever its tags say.
pub open spec fn forced_node_landmark(id: u64) -> Option<LandmarkType> {
    if id == 5417354028 {
        Some(LandmarkType::CocktailBar)
    } else {
        None
    }
}

/// The landmark that a way is made whatever its tags say.
pub open spec fn forced_way_landmark(id: u64) -> Option<LandmarkType> {
    if id == 963992061 {
        Some(LandmarkType::ClimbingRope)
    } else {
        None
    }
}

/// The landmarks at one place: one of the kind that the tags describe, if
/// they describe one, then one of the kind that is forced, if one is.
pub open spec fn landmarks_at(
    lat: u64,
    lon: u64,
    by_tags: Option<LandmarkType>,
    forced: Option<LandmarkType>,
) -> Seq<Landmark> {
    (match by_tags {
        Some(landmark_type) => seq![Landmark { lon, lat, landmark_type }],
        None => Seq::empty(),
    }) + (match forced {
        Some(landmark_type) => seq![Landmark { lon, lat, landmark_type }],
        None => Seq::empty(),
    })
}

/// The elements that a node gives: a station, where its tags are those of
/// a station of one of the four networks, and its landmarks. Nothing where
/// the node is a station whose name cannot be read.
pub open spec fn node_outcome(n: NodeView) -> Option<ElementsView> {
    if is_station(n.tags) && station_name(n.tags) is None {
        None
    } else {
        Some(
            ElementsView {
                stations: if is_station(n.tags) && station_type_of(n.tags) is Some {
                    seq![
                        StationView {
                            name: station_name(n.tags)->Some_0,
                            station_type: station_type_of(n.tags)->Some_0,
                            lat: n.lat,
                            lon: n.lon,
                        },
                    ]
                } else {
                    Seq::empty()
                },
                landmarks: landmarks_at(
                    n.lat,
                    n.lon,
                    landmark_of(n.tags),
                    forced_node_landmark(n.id),
                ),
                ..ElementsView::none()
            },
        )
    }
}

/// The number of entities before the first that gives nothing: all of them
/// where each gives something.
pub open spec fn sound_prefix(parts: Seq<Option<ElementsView>>, from: int) -> int
    decreases parts.len() - from,
{
    if from < 0 || from >= parts.len() {
        parts.len() as int
    } else if parts[from] is None {
        from
    } else {
        sound_prefix(parts, from + 1)
    }
}

/// `base`, followed by the elements that each of the first `upto` entities
/// gives, entity after entity.
pub open spec fn gathered(base: ElementsView, parts: Seq<Option<ElementsView>>, upto: int) -> ElementsView
    decreases upto,
{
    if upto <= 0 {
        base
    } else {
        gathered(base, parts, upto - 1).plus(parts[upto - 1]->Some_0)
    }
}

/// What each node of a list gives.
pub open spec fn node_parts(nodes: Seq<Node>) -> Seq<Option<ElementsView>> {
    Seq::new(nodes.len(), |i: int| node_outcome(nodes[i]@))
}

impl SemanticMapEtl {
    /// The forced landmark of a node, if it has one.
    fn node_override(id: u64) -> (r: Option<LandmarkType>)
        ensures
            r == forced_node_landmark(id),
    {
        if id == 5417354028 {
            Some(LandmarkType::CocktailBar)
        } else {
            None
        }
    }

    /// The network that the tags name.
    fn station_type_from_tags(tags: &TagSet) -> (r: Option<TransportStationType>)
        ensures
            r == station_type_of(tags@),
    {
        if Self::is_tagged(tags, "network", "London Underground") {
            Some(TransportStationType::Underground)
        } else if Self::is_tagged(tags, "network", "Docklands Light Railway") {
            Some(TransportStationType::Dlr)
        } else if Self::is_tagged(tags, "network", "London Overground") {
            Some(TransportStationType::Overground)
        } else if Self::is_tagged(tags, "network", "Elizabeth Line") {
            Some(TransportStationType::ElizabethLine)
        } else {
            None
        }
    }

    /// The name under which a station is shown.
    pub fn station_name_from_tags(tags: &TagSet) -> (r: Option<String>)
        ensures
            match r {
                Some(name) => station_name(tags@) == Some(name@),
                None => station_name(tags@) is None,
            },
    {
        let name = match Self::get_string(tags, "name".as_bytes()) {
            Some(name) => name,
            None => {
                return None;
            },
        };
        match capture_group("(?<base_name>[^(]*)(\\(.*\\))?", "base_name", name.as_str()) {
            Some(base) => Some(trim_text(base.as_str())),
            None => None,
        }
    }

    /// Adds the landmarks at one place.
    fn push_landmarks(
        output: &mut SemanticMapElements,
        lat: u64,
        lon: u64,
        by_tags: Option<LandmarkType>,
        forced: Option<LandmarkType>,
    )
        ensures
            final(output)@ == (ElementsView {
                landmarks: old(output)@.landmarks + landmarks_at(lat, lon, by_tags, forced),
                ..old(output)@
            }),
    {
        if let Some(landmark_type) = by_tags {
            output.push_landmark(Landmark { lon, lat, landmark_type });
        }
        if let Some(landmark_type) = forced {
            output.push_landmark(Landmark { lon, lat, landmark_type });
        }
        assert(output@.landmarks =~= old(output)@.landmarks + landmarks_at(lat, lon, by_tags, forced));
    }

    /// Adds the elements that a node gives, or fails and adds nothing.
    pub fn process_node(&mut self, output: &mut SemanticMapElements, node: &Node) -> (r: Result<()>)
        ensures
            match node_outcome(node@) {
                Some(elements) => r is Ok && final(output)@ == old(output)@.plus(elements),
                None => r is Err && r->Err_0.kind == ErrorKind::Decode && final(output)@ == old(
                    output,
                )@,
            },
    {
        let tags = &node.tags;
        if Self::is_tagged(tags, "railway", "station") && Self::is_keyed(tags, "name") {
            let name = match Self::station_name_from_tags(tags) {
                Some(name) => name,
                None => {
                    return Err(Error::new(ErrorKind::Decode, "the name of a station cannot be read"));
                },
            };
            if let Some(station_type) = Self::station_type_from_tags(tags) {
                output.push_station(
                    TransportStation { name, station_type, lat: node.lat, lon: node.lon },
                );
            }
        }
        let by_tags = self.landmark_type_from_tags(tags);
        Self::push_landmarks(output, node.lat, node.lon, by_tags, Self::node_override(node.id));
        proof {
            let e = node_outcome(node@)->Some_0;
            let o = old(output)@;
            assert(output@.stations =~= o.stations + e.stations);
            assert(output@.rails =~= o.rails + e.rails);
            assert(output@.roads =~= o.roads + e.roads);
            assert(output@.areas =~= o.areas + e.areas);
            assert(output@.tube_rails =~= o.tube_rails + e.tube_rails);
        }
        Ok(())
    }

    /// Adds the elements that the nodes give, node after node in the order
    /// of their identifiers, up to the first node that fails.
    pub fn process_nodes(&mut self, output: &mut SemanticMapElements, nodes: &IdTable<Node>) -> (r:
        Result<()>)
        ensures
            r is Ok <==> sound_prefix(node_parts(nodes.items()), 0) == nodes.items().len(),
            r is Err ==> r->Err_0.kind == ErrorKind::Decode,
            final(output)@ == gathered(
                old(output)@,
                node_parts(nodes.items()),
                sound_prefix(node_parts(nodes.items()), 0),
            ),
    {
        let ghost parts = node_parts(nodes.items());
        let n = nodes.len();
        let mut i: usize = 0;
        while i < n
            invariant
                n == nodes.items().len(),
                parts == node_parts(nodes.items()),
                i <= n,
                sound_prefix(parts, 0) == sound_prefix(parts, i as int),
                output@ == gathered(old(output)@, parts, i as int),
            decreases n - i,
        {
            let node = nodes.item(i);
            assert(parts[i as int] == node_outcome(node@));
            match self.process_node(output, node) {
                Ok(()) => {},
                Err(e) => {
                    return Err(e);
                },
            }
            i += 1;
        }
        Ok(())
    }
}

/// The tags are those of a park.
pub open spec fn is_park(tags: Tags) -> bool {
    tagged(tags, "leisure", "park")
}

/// The tags are those of a body of water.
pub open spec fn is_water(tags: Tags) -> bool {
    keyed(tags, "water") || tagged(tags, "natural", "water")
}

/// The tags are those of a railway that may belong to named lines, and name
/// its lines.
pub open spec fn names_lines(tags: Tags) -> bool {
    (tagged(tags, "railway", "subway") || tagged(tags, "railway", "rail") || tagged(
        tags,
        "railway",
        "light_rail",
    )) && keyed(tags, "line")
}

/// The named lines that a way belongs to: those that its `line` tag names,
/// where it is a railway with such a tag; else the Elizabeth line, where it
/// is a rail of that name; else none.
pub open spec fn rail_lines(tags: Tags) -> Seq<TubeLine> {
    if names_lines(tags) {
        lines_of_texts(texts_of(tags, "line".spec_bytes()))
    } else if tagged(tags, "railway", "rail") && tagged(tags, "name", "Elizabeth Line") {
        seq![TubeLine::Elizabeth]
    } else {
        Seq::empty()
    }
}

/// The way is a rail that belongs to no named line.
pub open spec fn is_plain_rail(tags: Tags) -> bool {
    !names_lines(tags) && !(tagged(tags, "railway", "rail") && tagged(
        tags,
        "name",
        "Elizabeth Line",
    )) && tagged(tags, "railway", "rail")
}

/// One stretch of rail for each line, all along the same path.
pub open spec fn rails_along(lines: Seq<TubeLine>, path: Seq<MapCoords>) -> Seq<TubeRailView> {
    Seq::new(lines.len(), |i: int| TubeRailView { line: lines[i], path })
}

/// The areas that an entity with these tags outlines with these paths: a
/// park, then a body of water, as far as the tags say so.
pub open spec fn areas_of(tags: Tags, paths: Seq<Seq<MapCoords>>) -> Seq<AreaView> {
    (if is_park(tags) {
        seq![AreaView { area_type: AreaType::Park, polygons: assembled(paths) }]
    } else {
        Seq::empty()
    }) + (if is_water(tags) {
        seq![AreaView { area_type: AreaType::Water, polygons: assembled(paths) }]
    } else {
        Seq::empty()
    })
}

/// The way gives an area or a landmark: something that needs its first
/// node.
pub open spec fn way_needs_nodes(w: WayView) -> bool {
    is_park(w.tags) || is_water(w.tags) || landmark_of(w.tags) is Some || forced_way_landmark(
        w.id,
    ) is Some
}

/// The elements that a way gives: a road, areas, stretches of named lines
/// or a plain rail, and landmarks at its first node. Nothing where the way
/// has no node and would give an area or a landmark.
pub open spec fn way_outcome(w: WayView) -> Option<ElementsView> {
    if w.nodes.len() == 0 && way_needs_nodes(w) {
        None
    } else {
        Some(
            ElementsView {
                stations: Seq::empty(),
                rails: if is_plain_rail(w.tags) {
                    seq![path_of(w)]
                } else {
                    Seq::empty()
                },
                roads: if keyed(w.tags, "highway") {
                    seq![path_of(w)]
                } else {
                    Seq::empty()
                },
                areas: areas_of(w.tags, seq![path_of(w)]),
                landmarks: if way_needs_nodes(w) {
                    landmarks_at(
                        w.nodes[0].lat,
                        w.nodes[0].lon,
                        landmark_of(w.tags),
                        forced_way_landmark(w.id),
                    )
                } else {
                    Seq::empty()
                },
                tube_rails: rails_along(rail_lines(w.tags), path_of(w)),
            },
        )
    }
}

/// What each way of a list gives.
pub open spec fn way_parts(ways: Seq<Way>) -> Seq<Option<ElementsView>> {
    Seq::new(ways.len(), |i: int| way_outcome(ways[i]@))
}

/// The paths of the ways of a relation.
pub open spec fn paths_of(ways: Seq<WayView>) -> Seq<Seq<MapCoords>> {
    Seq::new(ways.len(), |i: int| path_of(ways[i]))
}

/// A stretch of the Overground for each of the ways that is a rail.
pub open spec fn overground_rails(ways: Seq<WayView>) -> Seq<TubeRailView>
    decreases ways.len(),
{
    if ways.len() == 0 {
        Seq::empty()
    } else {
        overground_rails(ways.drop_last()) + if tagged(ways.last().tags, "railway", "rail") {
            seq![TubeRailView { line: TubeLine::Overground, path: path_of(ways.last()) }]
        } else {
            Seq::empty()
        }
    }
}

/// The elements that a relation gives: areas outlined by all its ways, and,
/// for a relation of the Overground, a stretch of that line for each way that
/// is a rail. Nothing where the relation would give an area and has no way,
/// or a way without nodes.
pub open spec fn relation_outcome(r: RelationView) -> Option<ElementsView> {
    if (is_park(r.tags) || is_water(r.tags)) && !well_formed(paths_of(r.ways)) {
        None
    } else {
        Some(
            ElementsView {
                areas: areas_of(r.tags, paths_of(r.ways)),
                tube_rails: if tagged(r.tags, "network", "London Overground") {
                    overground_rails(r.ways)
                } else {
                    Seq::empty()
                },
                ..ElementsView::none()
            },
        )
    }
}

/// What each relation of a list gives.
pub open spec fn relation_parts(relations: Seq<Relation>) -> Seq<Option<ElementsView>> {
    Seq::new(relations.len(), |i: int| relation_outcome(relations[i]@))
}

impl SemanticMapEtl {
    /// The forced landmark of a way, if it has one.
    fn way_override(id: u64) -> (r: Option<LandmarkType>)
        ensures
            r == forced_way_landmark(id),
    {
        if id == 963992061 {
            Some(LandmarkType::ClimbingRope)
        } else {
            None
        }
    }

    /// The lines that the names of a list stand for.
    pub fn lines_for_names(names: &Vec<String>) -> (lines: Vec<TubeLine>)
        ensures
            lines@ == lines_of_texts(string_views(names@)),
    {
        let ghost texts = string_views(names@);
        let n = names.len();
        let mut lines: Vec<TubeLine> = Vec::new();
        let mut i: usize = 0;
        assert(texts.subrange(0, 0) =~= Seq::<Seq<char>>::empty());
        while i < n
            invariant
                n == names@.len(),
                texts == string_views(names@),
                i <= n,
                lines@ == lines_of_texts(texts.subrange(0, i as int)),
            decreases n - i,
        {
            let lower = lowercase_text(names[i].as_str());
            let mut more = lines_for_name(lower.as_str());
            proof {
                assert(texts.subrange(0, i + 1).drop_last() =~= texts.subrange(0, i as int));
                assert(texts.subrange(0, i + 1).last() == names@[i as int]@);
            }
            lines.append(&mut more);
            i += 1;
        }
        assert(texts.subrange(0, n as int) =~= texts);
        lines
    }

    /// The named lines that a way with these tags belongs to.
    pub fn rail_lines_from_tags(tags: &TagSet) -> (lines: Vec<TubeLine>)
        ensures
            lines@ == rail_lines(tags@),
    {
        if (Self::is_tagged(tags, "railway", "subway") || Self::is_tagged(tags, "railway", "rail")
            || Self::is_tagged(tags, "railway", "light_rail")) && Self::is_keyed(tags, "line") {
            let names = Self::get_strings(tags, "line".as_bytes());
            Self::lines_for_names(&names)
        } else if Self::is_tagged(tags, "railway", "rail") && Self::is_tagged(
            tags,
            "name",
            "Elizabeth Line",
        ) {
            one_line(TubeLine::Elizabeth)
        } else {
            Vec::new()
        }
    }

    /// Whether a way with these tags is a rail that belongs to no named
    /// line.
    fn plain_rail_from_tags(tags: &TagSet) -> (plain: bool)
        ensures
            plain == is_plain_rail(tags@),
    {
        let names = (Self::is_tagged(tags, "railway", "subway") || Self::is_tagged(
            tags,
            "railway",
            "rail",
        ) || Self::is_tagged(tags, "railway", "light_rail")) && Self::is_keyed(tags, "line");
        let elizabeth = Self::is_tagged(tags, "railway", "rail") && Self::is_tagged(
            tags,
            "name",
            "Elizabeth Line",
        );
        !names && !elizabeth && Self::is_tagged(tags, "railway", "rail")
    }

    /// The areas that an entity with these tags outlines with these paths.
    fn areas_from_tags(tags: &TagSet, paths: &Vec<Path>) -> (r: Result<Vec<Area>>)
        ensures
            r is Err <==> (is_park(tags@) || is_water(tags@)) && !well_formed(views(paths@)),
            r is Err ==> r->Err_0.kind == ErrorKind::Geometry,
            r matches Ok(areas) ==> Seq::new(areas@.len(), |i: int| areas@[i]@) == areas_of(
                tags@,
                views(paths@),
            ),
    {
        let mut areas: Vec<Area> = Vec::new();
        if Self::is_tagged(tags, "leisure", "park") {
            match Area::new(AreaType::Park, paths) {
                Ok(area) => {
                    areas.push(area);
                },
                Err(e) => {
                    return Err(e);
                },
            }
        }
        if Self::is_keyed(tags, "water") || Self::is_tagged(tags, "natural", "water") {
            match Area::new(AreaType::Water, paths) {
                Ok(area) => {
                    areas.push(area);
                },
                Err(e) => {
                    return Err(e);
                },
            }
        }
        assert(Seq::new(areas@.len(), |i: int| areas@[i]@) =~= areas_of(tags@, views(paths@)));
        Ok(areas)
    }

    /// Adds areas after those that are there.
    fn push_areas(output: &mut SemanticMapElements, areas: Vec<Area>)
        ensures
            final(output)@ == (ElementsView {
                areas: old(output)@.areas + Seq::new(areas@.len(), |i: int| areas@[i]@),
                ..old(output)@
            }),
    {
        let ghost all = Seq::new(areas@.len(), |i: int| areas@[i]@);
        let mut areas = areas;
        output.areas.append(&mut areas);
        assert(output@.areas =~= old(output)@.areas + all);
    }

    /// Adds a stretch of rail along the way for each of the lines.
    fn push_rails_along(output: &mut SemanticMapElements, lines: &Vec<TubeLine>, way: &Way)
        ensures
            final(output)@ == (ElementsView {
                tube_rails: old(output)@.tube_rails + rails_along(lines@, path_of(way@)),
                ..old(output)@
            }),
    {
        let n = lines.len();
        let mut i: usize = 0;
        assert(output@.tube_rails =~= old(output)@.tube_rails + rails_along(
            lines@.subrange(0, 0),
            path_of(way@),
        ));
        while i < n
            invariant
                n == lines@.len(),
                i <= n,
                output@ == (ElementsView {
                    tube_rails: old(output)@.tube_rails + rails_along(
                        lines@.subrange(0, i as int),
                        path_of(way@),
                    ),
                    ..old(output)@
                }),
            decreases n - i,
        {
            output.push_tube_rail(TubeRail { line: lines[i], path: way_path(way) });
            assert(output@.tube_rails =~= old(output)@.tube_rails + rails_along(
                lines@.subrange(0, i + 1),
                path_of(way@),
            ));
            i += 1;
        }
        assert(lines@.subrange(0, n as int) =~= lines@);
    }

    /// Adds the elements that a way gives, or fails and adds nothing.
    pub fn process_way(&mut self, output: &mut SemanticMapElements, way: &Way) -> (r: Result<()>)
        ensures
            match way_outcome(way@) {
                Some(elements) => r is Ok && final(output)@ == old(output)@.plus(elements),
                None => r is Err && r->Err_0.kind == ErrorKind::Geometry && final(output)@ == old(
                    output,
                )@,
            },
    {
        let tags = &way.tags;
        let by_tags = self.landmark_type_from_tags(tags);
        let forced = Self::way_override(way.id);
        let park = Self::is_tagged(tags, "leisure", "park");
        let water = Self::is_keyed(tags, "water") || Self::is_tagged(tags, "natural", "water");
        let needs_nodes = park || water || by_tags.is_some() || forced.is_some();
        if way.nodes.len() == 0 && needs_nodes {
            return Err(Error::new(ErrorKind::Geometry, "a way without nodes"));
        }
        let mut outline: Vec<Path> = Vec::new();
        outline.push(way_path(way));
        assert(views(outline@) =~= seq![path_of(way@)]);
        let areas = match Self::areas_from_tags(tags, &outline) {
            Ok(areas) => areas,
            Err(e) => {
                assert(path_of(way@).len() > 0);
                assert(well_formed(views(outline@)));
                return Err(e);
            },
        };
        if Self::is_keyed(tags, "highway") {
            output.push_road(way_path(way));
        }
        Self::push_areas(output, areas);
        let lines = Self::rail_lines_from_tags(tags);
        Self::push_rails_along(output, &lines, way);
        if Self::plain_rail_from_tags(tags) {
            output.push_rail(way_path(way));
        }
        if needs_nodes {
            let first = &way.nodes[0];
            assert(way@.nodes[0] == first@);
            Self::push_landmarks(output, first.lat, first.lon, by_tags, forced);
        }
        proof {
            let e = way_outcome(way@)->Some_0;
            let o = old(output)@;
            assert(output@.stations =~= o.stations + e.stations);
            assert(output@.rails =~= o.rails + e.rails);
            assert(output@.roads =~= o.roads + e.roads);
            assert(output@.areas =~= o.areas + e.areas);
            assert(output@.landmarks =~= o.landmarks + e.landmarks);
            assert(output@.tube_rails =~= o.tube_rails + e.tube_rails);
        }
        Ok(())
    }

    /// Adds the elements that the ways give, way after way in the order of
    /// their identifiers, up to the first way that fails.
    pub fn process_ways(&mut self, output: &mut SemanticMapElements, ways: &IdTable<Way>) -> (r:
        Result<()>)
        ensures
            r is Ok <==> sound_prefix(way_parts(ways.items()), 0) == ways.items().len(),
            r is Err ==> r->Err_0.kind == ErrorKind::Geometry,
            final(output)@ == gathered(
                old(output)@,
                way_parts(ways.items()),
                sound_prefix(way_parts(ways.items()), 0),
            ),
    {
        let ghost parts = way_parts(ways.items());
        let n = ways.len();
        let mut i: usize = 0;
        while i < n
            invariant
                n == ways.items().len(),
                parts == way_parts(ways.items()),
                i <= n,
                sound_prefix(parts, 0) == sound_prefix(parts, i as int),
                output@ == gathered(old(output)@, parts, i as int),
            decreases n - i,
        {
            let way = ways.item(i);
            assert(parts[i as int] == way_outcome(way@));
            match self.process_way(output, way) {
                Ok(()) => {},
                Err(e) => {
                    return Err(e);
                },
            }
            i += 1;
        }
        Ok(())
    }
}

impl SemanticMapEtl {
    /// The paths of the ways of a relation.
    fn relation_paths(relation: &Relation) -> (paths: Vec<Path>)
        ensures
            views(paths@) == paths_of(relation@.ways),
    {
        let n = relation.ways.len();
        let mut paths: Vec<Path> = Vec::new();
        let mut i: usize = 0;
        while i < n
            invariant
                n == relation.ways@.len(),
                i <= n,
                paths@.len() == i,
                forall|k: int| 0 <= k < i ==> (#[trigger] paths@[k])@ == path_of(relation.ways@[k]@),
            decreases n - i,
        {
            paths.push(way_path(&relation.ways[i]));
            i += 1;
        }
        assert(views(paths@) =~= paths_of(relation@.ways));
        paths
    }

    /// Adds a stretch of the Overground for each way of the relation that
    /// is a rail.
    fn push_overground_rails(output: &mut SemanticMapElements, relation: &Relation)
        ensures
            final(output)@ == (ElementsView {
                tube_rails: old(output)@.tube_rails + overground_rails(relation@.ways),
                ..old(output)@
            }),
    {
        let ghost ways = relation@.ways;
        let n = relation.ways.len();
        let mut i: usize = 0;
        assert(ways.subrange(0, 0) =~= Seq::<WayView>::empty());
        assert(output@.tube_rails =~= old(output)@.tube_rails + overground_rails(
            ways.subrange(0, 0),
        ));
        while i < n
            invariant
                n == relation.ways@.len(),
                ways == relation@.ways,
                i <= n,
                output@ == (ElementsView {
                    tube_rails: old(output)@.tube_rails + overground_rails(
                        ways.subrange(0, i as int),
                    ),
                    ..old(output)@
                }),
            decreases n - i,
        {
            let way = &relation.ways[i];
            proof {
                assert(ways.subrange(0, i + 1).drop_last() =~= ways.subrange(0, i as int));
                assert(ways.subrange(0, i + 1).last() == way@);
            }
            if Self::is_tagged(&way.tags, "railway", "rail") {
                output.push_tube_rail(TubeRail { line: TubeLine::Overground, path: way_path(way) });
            }
            assert(output@.tube_rails =~= old(output)@.tube_rails + overground_rails(
                ways.subrange(0, i + 1),
            ));
            i += 1;
        }
        assert(ways.subrange(0, n as int) =~= ways);
    }

    /// Adds the elements that a relation gives, or fails and adds nothing.
    pub fn process_relation(&mut self, output: &mut SemanticMapElements, relation: &Relation) -> (r:
        Result<()>)
        ensures
            match relation_outcome(relation@) {
                Some(elements) => r is Ok && final(output)@ == old(output)@.plus(elements),
                None => r is Err && r->Err_0.kind == ErrorKind::Geometry && final(output)@ == old(
                    output,
                )@,
            },
    {
        let tags = &relation.tags;
        let paths = Self::relation_paths(relation);
        let areas = match Self::areas_from_tags(tags, &paths) {
            Ok(areas) => areas,
            Err(e) => {
                return Err(e);
            },
        };
        Self::push_areas(output, areas);
        if Self::is_tagged(tags, "network", "London Overground") {
            Self::push_overground_rails(output, relation);
        }
        proof {
            let e = relation_outcome(relation@)->Some_0;
            let o = old(output)@;
            assert(output@.stations =~= o.stations + e.stations);
            assert(output@.rails =~= o.rails + e.rails);
            assert(output@.roads =~= o.roads + e.roads);
            assert(output@.areas =~= o.areas + e.areas);
            assert(output@.landmarks =~= o.landmarks + e.landmarks);
            assert(output@.tube_rails =~= o.tube_rails + e.tube_rails);
        }
        Ok(())
    }

    /// Adds the elements that the relations give, relation after relation in
    /// the order of their identifiers, up to the first relation that fails.
    pub fn process_relations(
        &mut self,
        output: &mut SemanticMapElements,
        relations: &IdTable<Relation>,
    ) -> (r: Result<()>)
        ensures
            r is Ok <==> sound_prefix(relation_parts(relations.items()), 0)
                == relations.items().len(),
            r is Err ==> r->Err_0.kind == ErrorKind::Geometry,
            final(output)@ == gathered(
                old(output)@,
                relation_parts(relations.items()),
                sound_prefix(relation_parts(relations.items()), 0),
            ),
    {
        let ghost parts = relation_parts(relations.items());
        let n = relations.len();
        let mut i: usize = 0;
        while i < n
            invariant
                n == relations.items().len(),
                parts == relation_parts(relations.items()),
                i <= n,
                sound_prefix(parts, 0) == sound_prefix(parts, i as int),
                output@ == gathered(old(output)@, parts, i as int),
            decreases n - i,
        {
            let relation = relations.item(i);
            assert(parts[i as int] == relation_outcome(relation@));
            match self.process_relation(output, relation) {
                Ok(()) => {},
                Err(e) => {
                    return Err(e);
                },
            }
            i += 1;
        }
        Ok(())
    }
}

/// Every entity of the list gives something.
pub open spec fn all_sound(parts: Seq<Option<ElementsView>>) -> bool {
    sound_prefix(parts, 0) == parts.len()
}

/// The elements that a map gives: those of its nodes, then those of its
/// ways, then those of its relations, each kind in the order of the
/// identifiers.
pub open spec fn elements_of(input: OsmMapData) -> ElementsView {
    let nodes = node_parts(input.nodes.items());
    let ways = way_parts(input.ways.items());
    let relations = relation_parts(input.relations.items());
    gathered(
        gathered(
            gathered(ElementsView::none(), nodes, nodes.len() as int),
            ways,
            ways.len() as int,
        ),
        relations,
        relations.len() as int,
    )
}

/// The failure of a map that gives no elements: that of the first entity
/// that fails, nodes before ways and ways before relations.
pub open spec fn failure_of(input: OsmMapData) -> Option<ErrorKind> {
    if !all_sound(node_parts(input.nodes.items())) {
        Some(ErrorKind::Decode)
    } else if !all_sound(way_parts(input.ways.items())) || !all_sound(
        relation_parts(input.relations.items()),
    ) {
        Some(ErrorKind::Geometry)
    } else {
        None
    }
}

impl SemanticMapEtl {
    /// Makes the semantic elements of a map, or fails as the first entity
    /// that fails does.
    pub fn transform(&mut self, input: &OsmMapData) -> (r: Result<SemanticMapElements>)
        ensures
            match failure_of(*input) {
                None => r is Ok && r->Ok_0@ == elements_of(*input),
                Some(kind) => r is Err && r->Err_0.kind == kind,
            },
    {
        let mut output = SemanticMapElements::default();
        match self.process_nodes(&mut output, &input.nodes) {
            Ok(()) => {},
            Err(e) => {
                return Err(e);
            },
        }
        match self.process_ways(&mut output, &input.ways) {
            Ok(()) => {},
            Err(e) => {
                return Err(e);
            },
        }
        match self.process_relations(&mut output, &input.relations) {
            Ok(()) => {},
            Err(e) => {
                return Err(e);
            },
        }
        Ok(output)
    }
}

/// What an entity gives is decided by what it is: two nodes with the same
/// identifier, the same place and the same tags give the same elements, and
/// fail alike, however their tags were put together.
pub proof fn lemma_same_node_same_elements(a: Node, b: Node)
    requires
        a.id == b.id,
        a.lat == b.lat,
        a.lon == b.lon,
        a.tags@ =~= b.tags@,
    ensures
        node_outcome(a@) == node_outcome(b@),
        landmark_of(a.tags@) == landmark_of(b.tags@),
        station_type_of(a.tags@) == station_type_of(b.tags@),
        station_name(a.tags@) == station_name(b.tags@),
{
    assert(a@ == b@);
}

/// Two ways with the same identifier, the same nodes and the same tags give
/// the same elements, and fail alike.
pub proof fn lemma_same_way_same_elements(a: Way, b: Way)
    requires
        a.id == b.id,
        a@.nodes =~= b@.nodes,
        a.tags@ =~= b.tags@,
    ensures
        way_outcome(a@) == way_outcome(b@),
        rail_lines(a.tags@) == rail_lines(b.tags@),
{
    assert(a@ == b@);
}

/// Two relations with the same identifier, the same ways and the same tags
/// give the same elements, and fail alike.
pub proof fn lemma_same_relation_same_elements(a: Relation, b: Relation)
    requires
        a.id == b.id,
        a@.ways =~= b@.ways,
        a.tags@ =~= b.tags@,
    ensures
        relation_outcome(a@) == relation_outcome(b@),
{
    assert(a@ == b@);
}

/// A way with a node gives its elements: only a way without nodes can
/// fail.
pub proof fn lemma_way_with_nodes_gives_elements(w: WayView)
    requires
        w.nodes.len() > 0,
    ensures
        way_outcome(w) is Some,
{
}

/// A relation with a way, all of whose ways have a node, gives its
/// elements.
pub proof fn lemma_relation_with_parts_gives_elements(r: RelationView)
    requires
        r.ways.len() > 0,
        forall|j: int| 0 <= j < r.ways.len() ==> (#[trigger] r.ways[j]).nodes.len() > 0,
    ensures
        relation_outcome(r) is Some,
{
    let paths = paths_of(r.ways);
    assert forall|i: int| 0 <= i < paths.len() implies (#[trigger] paths[i]).len() > 0 by {
        assert(r.ways[i].nodes.len() > 0);
    }
}

} // verus!
