//! The element schema: a JSON object that maps each element identifier (in
//! decimal) to the element's name and data type. The JSON is read with the
//! `json` crate; its values are modelled by `JsonModel`.

use vstd::prelude::*;

verus! {

/// The schema of the WebM elements this library knows: for each identifier,
/// written in decimal without its marker bit, the element's `name` and its
/// `type` (`m` master, `u` unsigned, `s` signed, `f` float, `b` binary, `8`
/// UTF-8 text).
pub const DEFAULT_SCHEMA_JSON: &'static str = "{\"172351395\":{\"name\":\"EBML\",\"type\":\"m\"},\"646\":{\"name\":\"EBMLVersion\",\"type\":\"u\"},\"759\":{\"name\":\"EBMLReadVersion\",\"type\":\"u\"},\"754\":{\"name\":\"EBMLMaxIDLength\",\"type\":\"u\"},\"755\":{\"name\":\"EBMLMaxSizeLength\",\"type\":\"u\"},\"642\":{\"name\":\"DocType\",\"type\":\"8\"},\"647\":{\"name\":\"DocTypeVersion\",\"type\":\"u\"},\"645\":{\"name\":\"DocTypeReadVersion\",\"type\":\"u\"},\"108\":{\"name\":\"Void\",\"type\":\"b\"},\"63\":{\"name\":\"CRC-32\",\"type\":\"b\"},\"139690087\":{\"name\":\"Segment\",\"type\":\"m\"},\"21863284\":{\"name\":\"SeekHead\",\"type\":\"m\"},\"3515\":{\"name\":\"Seek\",\"type\":\"m\"},\"5035\":{\"name\":\"SeekID\",\"type\":\"b\"},\"5036\":{\"name\":\"SeekPosition\",\"type\":\"u\"},\"88713574\":{\"name\":\"Info\",\"type\":\"m\"},\"710577\":{\"name\":\"TimecodeScale\",\"type\":\"u\"},\"1161\":{\"name\":\"Duration\",\"type\":\"f\"},\"1121\":{\"name\":\"DateUTC\",\"type\":\"s\"},\"15273\":{\"name\":\"Title\",\"type\":\"8\"},\"3456\":{\"name\":\"MuxingApp\",\"type\":\"8\"},\"5953\":{\"name\":\"WritingApp\",\"type\":\"8\"},\"13220\":{\"name\":\"SegmentUID\",\"type\":\"b\"},\"256095861\":{\"name\":\"Cluster\",\"type\":\"m\"},\"103\":{\"name\":\"Timecode\",\"type\":\"u\"},\"43\":{\"name\":\"PrevSize\",\"type\":\"u\"},\"35\":{\"name\":\"SimpleBlock\",\"type\":\"b\"},\"32\":{\"name\":\"BlockGroup\",\"type\":\"m\"},\"33\":{\"name\":\"Block\",\"type\":\"b\"},\"27\":{\"name\":\"BlockDuration\",\"type\":\"u\"},\"123\":{\"name\":\"ReferenceBlock\",\"type\":\"s\"},\"106212971\":{\"name\":\"Tracks\",\"type\":\"m\"},\"46\":{\"name\":\"TrackEntry\",\"type\":\"m\"},\"87\":{\"name\":\"TrackNumber\",\"type\":\"u\"},\"13253\":{\"name\":\"TrackUID\",\"type\":\"u\"},\"3\":{\"name\":\"TrackType\",\"type\":\"u\"},\"28\":{\"name\":\"FlagLacing\",\"type\":\"u\"},\"57\":{\"name\":\"FlagEnabled\",\"type\":\"u\"},\"8\":{\"name\":\"FlagDefault\",\"type\":\"u\"},\"5546\":{\"name\":\"FlagForced\",\"type\":\"u\"},\"177564\":{\"name\":\"Language\",\"type\":\"8\"},\"6\":{\"name\":\"CodecID\",\"type\":\"8\"},\"9122\":{\"name\":\"CodecPrivate\",\"type\":\"b\"},\"362120\":{\"name\":\"CodecName\",\"type\":\"8\"},\"254851\":{\"name\":\"DefaultDuration\",\"type\":\"u\"},\"4974\":{\"name\":\"Name\",\"type\":\"8\"},\"5802\":{\"name\":\"CodecDelay\",\"type\":\"u\"},\"5819\":{\"name\":\"SeekPreRoll\",\"type\":\"u\"},\"96\":{\"name\":\"Video\",\"type\":\"m\"},\"48\":{\"name\":\"PixelWidth\",\"type\":\"u\"},\"58\":{\"name\":\"PixelHeight\",\"type\":\"u\"},\"26\":{\"name\":\"FlagInterlaced\",\"type\":\"u\"},\"5296\":{\"name\":\"DisplayWidth\",\"type\":\"u\"},\"5306\":{\"name\":\"DisplayHeight\",\"type\":\"u\"},\"97\":{\"name\":\"Audio\",\"type\":\"m\"},\"53\":{\"name\":\"SamplingFrequency\",\"type\":\"f\"},\"31\":{\"name\":\"Channels\",\"type\":\"u\"},\"8804\":{\"name\":\"BitDepth\",\"type\":\"u\"},\"206814059\":{\"name\":\"Cues\",\"type\":\"m\"},\"59\":{\"name\":\"CuePoint\",\"type\":\"m\"},\"51\":{\"name\":\"CueTime\",\"type\":\"u\"},\"55\":{\"name\":\"CueTrackPositions\",\"type\":\"m\"},\"119\":{\"name\":\"CueTrack\",\"type\":\"u\"},\"113\":{\"name\":\"CueClusterPosition\",\"type\":\"u\"},\"112\":{\"name\":\"CueRelativePosition\",\"type\":\"u\"},\"4984\":{\"name\":\"CueBlockNumber\",\"type\":\"u\"},\"39109479\":{\"name\":\"Tags\",\"type\":\"m\"},\"13171\":{\"name\":\"Tag\",\"type\":\"m\"},\"9152\":{\"name\":\"Targets\",\"type\":\"m\"},\"10184\":{\"name\":\"SimpleTag\",\"type\":\"m\"},\"1443\":{\"name\":\"TagName\",\"type\":\"8\"},\"1159\":{\"name\":\"TagString\",\"type\":\"8\"}}";

/// What a JSON value holds, as far as this library reads it. Every value
/// carries the text that `to_string` gives for it.
pub enum JsonModel {
    /// A string, and its characters (which are also its text).
    Text(Seq<char>),
    /// `null`, a boolean or a number, and its text.
    Scalar(Seq<char>),
    /// An array: its items and its text.
    List(Seq<JsonModel>, Seq<char>),
    /// An object: its members in order, and its text.
    Members(Seq<(Seq<char>, JsonModel)>, Seq<char>),
}

/// The text that `to_string` gives for a value.
pub open spec fn model_display(m: JsonModel) -> Seq<char> {
    match m {
        JsonModel::Text(s) => s,
        JsonModel::Scalar(t) => t,
        JsonModel::List(_, t) => t,
        JsonModel::Members(_, t) => t,
    }
}

/// The index of the first member named `key`, if any.
pub open spec fn member_index(members: Seq<(Seq<char>, JsonModel)>, key: Seq<char>) -> Option<int>
    decreases members.len(),
{
    if members.len() == 0 {
        None
    } else if members[0].0 == key {
        Some(0)
    } else {
        match member_index(members.drop_first(), key) {
            Some(i) => Some(i + 1),
            None => None,
        }
    }
}

/// The value `null`.
pub open spec fn model_null() -> JsonModel {
    JsonModel::Scalar(seq!['n', 'u', 'l', 'l'])
}

/// `value[key]`: the member named `key` of an object, `null` otherwise.
pub open spec fn model_member(m: JsonModel, key: Seq<char>) -> JsonModel {
    match m {
        JsonModel::Members(members, _) => match member_index(members, key) {
            Some(i) => members[i].1,
            None => model_null(),
        },
        _ => model_null(),
    }
}

/// `value.has_key(key)`: an object with a member named `key`.
pub open spec fn model_has_key(m: JsonModel, key: Seq<char>) -> bool {
    match m {
        JsonModel::Members(members, _) => member_index(members, key) is Some,
        _ => false,
    }
}

/// `value == text`: a string with exactly these characters.
pub open spec fn model_is_text(m: JsonModel, text: Seq<char>) -> bool {
    match m {
        JsonModel::Text(s) => s == text,
        _ => false,
    }
}

/// What a parsed JSON value holds.
pub uninterp spec fn json_contents(v: json::JsonValue) -> JsonModel;

/// What `json::parse` makes of a text: the value, or `None` for text that is
/// not JSON.
pub uninterp spec fn json_parse_result(text: Seq<char>) -> Option<JsonModel>;

/// The JSON value type of the `json` crate.
#[verifier::external_type_specification]
#[verifier::external_body]
pub struct ExJsonValue(json::JsonValue);

/// `json::parse`: the value a JSON text denotes, or `None` for a text that is
/// not JSON. What the value holds is named, not stated.
#[verifier::external_body]
pub(crate) fn json_parse(text: &str) -> (r: Option<json::JsonValue>)
    ensures
        r is Some <==> json_parse_result(text@) is Some,
        r matches Some(v) ==> json_contents(v) == json_parse_result(text@)->0,
{
    json::parse(text).ok()
}

/// `JsonValue`'s `Index<&str>`: the member named `key` of an object (the first
/// such member), and `null` for a missing key or a value that is not an object.
#[verifier::external_body]
pub(crate) fn json_member<'a>(v: &'a json::JsonValue, key: &str) -> (r: &'a json::JsonValue)
    ensures
        json_contents(*r) == model_member(json_contents(*v), key@),
{
    &v[key]
}

/// `JsonValue::has_key`: whether the value is an object with a member named
/// `key`.
#[verifier::external_body]
pub(crate) fn json_has_key(v: &json::JsonValue, key: &str) -> (r: bool)
    ensures
        r == model_has_key(json_contents(*v), key@),
{
    v.has_key(key)
}

/// `JsonValue`'s `PartialEq<&str>`: whether the value is a string with exactly
/// the characters of `text`.
#[verifier::external_body]
pub(crate) fn json_is_text(v: &json::JsonValue, text: &str) -> (r: bool)
    ensures
        r == model_is_text(json_contents(*v), text@),
{
    *v == text
}

/// `JsonValue::to_string`: the characters of a string; for other values the
/// text that the model carries for them (what that text is, for numbers,
/// booleans, arrays and objects, is left unsaid here).
#[verifier::external_body]
pub(crate) fn json_display(v: &json::JsonValue) -> (r: String)
    ensures
        r@ == model_display(json_contents(*v)),
{
    v.to_string()
}

} // verus!
