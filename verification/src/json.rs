//! The JSON text of a focus target, which is part of its key.

use vstd::prelude::*;

use crate::seqs::slice_of;
use crate::text::{decimal, decimal_text, join_texts, joined};
use crate::types::{
    FocusTargetView, HunkTargetView, LocationView, SemEntityTarget, SemFocusTarget, SemHunkTarget,
    SemLineRange, SemLocationTarget, SemSide, TargetView,
};

verus! {

/// A hexadecimal digit in lower case.
pub open spec fn hex_digit(d: int) -> char {
    "0123456789abcdef"@[d]
}

/// A character as it stands in a JSON string.
pub open spec fn json_escape(c: char) -> Seq<char> {
    if c == '"' {
        seq!['\\', '"']
    } else if c == '\\' {
        seq!['\\', '\\']
    } else if c == '\u{8}' {
        seq!['\\', 'b']
    } else if c == '\t' {
        seq!['\\', 't']
    } else if c == '\n' {
        seq!['\\', 'n']
    } else if c == '\u{c}' {
        seq!['\\', 'f']
    } else if c == '\r' {
        seq!['\\', 'r']
    } else if (c as u32) <= 31 {
        seq!['\\', 'u', '0', '0', hex_digit(c as int / 16), hex_digit(c as int % 16)]
    } else {
        seq![c]
    }
}

/// All characters of a text as they stand in a JSON string.
pub open spec fn json_escaped(text: Seq<char>) -> Seq<char>
    decreases text.len(),
{
    if text.len() == 0 {
        Seq::empty()
    } else {
        json_escaped(text.drop_last()) + json_escape(text.last())
    }
}

/// A text as a JSON string, with its quotes.
pub open spec fn json_string(text: Seq<char>) -> Seq<char> {
    seq!['"'] + json_escaped(text) + seq!['"']
}

/// `serde_json::to_string` of a `str`. Claimed of it: it succeeds, and gives
/// the text between quotes, with quotes and backslashes behind a backslash,
/// control characters in their short form or, where they have none, as
/// `\u00` and two hexadecimal digits, and every other character as it is.
#[verifier::external_body]
fn json_string_text(text: &str) -> (json: String)
    ensures
        json@ == json_string(text@),
{
    serde_json::to_string(text).unwrap_or_default()
}

/// A member of a JSON object.
pub open spec fn json_member(name: Seq<char>, value: Seq<char>) -> Seq<char> {
    "\""@ + name + "\":"@ + value
}

/// A member of a JSON object, or none where there is no value.
pub open spec fn json_option(name: Seq<char>, value: Option<Seq<char>>) -> Seq<Seq<char>> {
    match value {
        Some(value) => seq![json_member(name, value)],
        None => Seq::empty(),
    }
}

/// A JSON object of the given members.
pub open spec fn json_object(members: Seq<Seq<char>>) -> Seq<char> {
    "{"@ + joined(members, ","@) + "}"@
}

fn push_member(members: &mut Vec<String>, name: &str, value: String)
    ensures
        final(members).deep_view() == old(members).deep_view() + json_option(
            name@,
            Some(value@),
        ),
{
    let ghost before = members.deep_view();
    let mut member = "\"".to_string();
    member.append(name);
    member.append("\":");
    member.append(value.as_str());
    members.push(member);
    assert(members.deep_view() =~= before + json_option(name@, Some(value@)));
}

fn push_option(members: &mut Vec<String>, name: &str, value: Option<String>)
    ensures
        final(members).deep_view() == old(members).deep_view() + json_option(
            name@,
            value.deep_view(),
        ),
{
    match value {
        Some(value) => push_member(members, name, value),
        None => {
            assert(members.deep_view() =~= members.deep_view() + json_option(name@, None));
        },
    }
}

fn object_text(members: &Vec<String>) -> (json: String)
    ensures
        json@ == json_object(members.deep_view()),
{
    let mut json = "{".to_string();
    json.append(join_texts(slice_of(members), ",").as_str());
    json.append("}");
    json
}

pub open spec fn json_text_option(value: Option<Seq<char>>) -> Option<Seq<char>> {
    match value {
        Some(text) => Some(json_string(text)),
        None => None,
    }
}

fn text_option_text(value: &Option<String>) -> (json: Option<String>)
    ensures
        json.deep_view() == json_text_option(value.deep_view()),
{
    match value {
        Some(text) => Some(json_string_text(text.as_str())),
        None => None,
    }
}

pub open spec fn json_side(side: SemSide) -> Seq<char> {
    match side {
        SemSide::Before => "\"before\""@,
        SemSide::After => "\"after\""@,
    }
}

fn side_text(side: SemSide) -> (json: String)
    ensures
        json@ == json_side(side),
{
    match side {
        SemSide::Before => "\"before\"".to_string(),
        SemSide::After => "\"after\"".to_string(),
    }
}

pub open spec fn json_range(range: SemLineRange) -> Seq<char> {
    json_object(
        json_option("startLine"@, Some(decimal(range.start_line as nat))) + json_option(
            "endLine"@,
            Some(decimal(range.end_line as nat)),
        ),
    )
}

pub open spec fn json_range_option(range: Option<SemLineRange>) -> Option<Seq<char>> {
    match range {
        Some(range) => Some(json_range(range)),
        None => None,
    }
}

fn range_option_text(range: Option<SemLineRange>) -> (json: Option<String>)
    ensures
        json.deep_view() == json_range_option(range),
{
    match range {
        Some(range) => {
            let mut members: Vec<String> = Vec::new();
            assert(members.deep_view() =~= Seq::empty());
            push_member(&mut members, "startLine", decimal_text(range.start_line as u64));
            push_member(&mut members, "endLine", decimal_text(range.end_line as u64));
            assert(members.deep_view() =~= json_option(
                "startLine"@,
                Some(decimal(range.start_line as nat)),
            ) + json_option("endLine"@, Some(decimal(range.end_line as nat))));
            Some(object_text(&members))
        },
        None => None,
    }
}

pub open spec fn json_entity_target(target: TargetView) -> Seq<char> {
    json_object(
        json_option("entityId"@, json_text_option(target.entity_id)) + json_option(
            "entityName"@,
            json_text_option(target.entity_name),
        ) + json_option("filePath"@, json_text_option(target.file_path)),
    )
}

fn entity_target_text(target: &SemEntityTarget) -> (json: String)
    ensures
        json@ == json_entity_target(target.deep_view()),
{
    let mut members: Vec<String> = Vec::new();
    assert(members.deep_view() + json_option(
        "entityId"@,
        json_text_option(target.entity_id.deep_view()),
    ) =~= json_option("entityId"@, json_text_option(target.entity_id.deep_view())));
    push_option(&mut members, "entityId", text_option_text(&target.entity_id));
    push_option(&mut members, "entityName", text_option_text(&target.entity_name));
    push_option(&mut members, "filePath", text_option_text(&target.file_path));
    object_text(&members)
}

pub open spec fn json_location(location: LocationView) -> Seq<char> {
    json_object(
        json_option("filePath"@, Some(json_string(location.file_path))) + json_option(
            "line"@,
            Some(decimal(location.line as nat)),
        ) + json_option("side"@, Some(json_side(location.side))),
    )
}

fn location_text(location: &SemLocationTarget) -> (json: String)
    ensures
        json@ == json_location(location.deep_view()),
{
    let mut members: Vec<String> = Vec::new();
    let ghost first = json_option("filePath"@, Some(json_string(location.file_path@)));
    assert(members.deep_view() + first =~= first);
    push_member(&mut members, "filePath", json_string_text(location.file_path.as_str()));
    push_member(&mut members, "line", decimal_text(location.line as u64));
    push_member(&mut members, "side", side_text(location.side));
    object_text(&members)
}

pub open spec fn json_number_option(value: Option<usize>) -> Option<Seq<char>> {
    match value {
        Some(n) => Some(decimal(n as nat)),
        None => None,
    }
}

pub open spec fn json_hunk(hunk: HunkTargetView) -> Seq<char> {
    json_object(
        json_option("filePath"@, Some(json_string(hunk.file_path))) + json_option(
            "oldFilePath"@,
            json_text_option(hunk.old_file_path),
        ) + json_option("hunkIndex"@, json_number_option(hunk.hunk_index)) + json_option(
            "hunkHeader"@,
            json_text_option(hunk.hunk_header),
        ) + json_option("side"@, Some(json_side(hunk.side))) + json_option(
            "oldRange"@,
            json_range_option(hunk.old_range),
        ) + json_option("newRange"@, json_range_option(hunk.new_range)),
    )
}

fn hunk_text(hunk: &SemHunkTarget) -> (json: String)
    ensures
        json@ == json_hunk(hunk.deep_view()),
{
    let mut members: Vec<String> = Vec::new();
    let ghost first = json_option("filePath"@, Some(json_string(hunk.file_path@)));
    assert(members.deep_view() + first =~= first);
    push_member(&mut members, "filePath", json_string_text(hunk.file_path.as_str()));
    push_option(&mut members, "oldFilePath", text_option_text(&hunk.old_file_path));
    let index: Option<String> = match hunk.hunk_index {
        Some(n) => Some(decimal_text(n as u64)),
        None => None,
    };
    push_option(&mut members, "hunkIndex", index);
    push_option(&mut members, "hunkHeader", text_option_text(&hunk.hunk_header));
    push_member(&mut members, "side", side_text(hunk.side));
    push_option(&mut members, "oldRange", range_option_text(hunk.old_range));
    push_option(&mut members, "newRange", range_option_text(hunk.new_range));
    object_text(&members)
}

/// The JSON object of a focus target: members in the order of its fields, in
/// camel case, and none for what it leaves open.
pub open spec fn json_focus_target(target: FocusTargetView) -> Seq<char> {
    let entity = match target.entity {
        Some(entity) => Some(json_entity_target(entity)),
        None => None,
    };
    let location = match target.location {
        Some(location) => Some(json_location(location)),
        None => None,
    };
    let hunk = match target.hunk {
        Some(hunk) => Some(json_hunk(hunk)),
        None => None,
    };
    json_object(
        json_option("entity"@, entity) + json_option("location"@, location) + json_option(
            "hunk"@,
            hunk,
        ),
    )
}

/// Writes the JSON object of a focus target.
pub fn focus_target_text(target: &SemFocusTarget) -> (json: String)
    ensures
        json@ == json_focus_target(target.deep_view()),
{
    let entity: Option<String> = match &target.entity {
        Some(entity) => Some(entity_target_text(entity)),
        None => None,
    };
    let location: Option<String> = match &target.location {
        Some(location) => Some(location_text(location)),
        None => None,
    };
    let hunk: Option<String> = match &target.hunk {
        Some(hunk) => Some(hunk_text(hunk)),
        None => None,
    };
    let mut members: Vec<String> = Vec::new();
    let ghost first = json_option("entity"@, entity.deep_view());
    assert(members.deep_view() + first =~= first);
    push_option(&mut members, "entity", entity);
    push_option(&mut members, "location", location);
    push_option(&mut members, "hunk", hunk);
    object_text(&members)
}

} // verus!
