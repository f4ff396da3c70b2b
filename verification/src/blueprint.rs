//! Blueprint strings and the four kinds of entry that they carry.

use std::io::Read;
use base64::Engine;
use vstd::prelude::*;
use vstd::utf8::{
    decode_utf8, encode_utf8, encode_utf8_decode_utf8, encode_utf8_valid_utf8, valid_utf8,
};
use crate::text::{
    char_index, chars_of, find, find_char, find_chars, is_whitespace, lemma_trimmed_blank,
    lemma_trimmed_first, lemma_trimmed_same, occurs_at, push_tail, stands_at, string_of,
    take_chars, trim_chars, trimmed,
};
use crate::value::{
    entries_view, items_view, json_parsed, lemma_array_view, lemma_object_view, owned, parse_json,
    Json, JsonView, Number, NumberView,
};

pub mod count_entities;
pub mod upgrade_quality;

verus! {

/// Why a blueprint string cannot be read.
#[derive(Debug, PartialEq, Eq)]
pub enum CodecError {
    /// The string does not begin with the version marker `0`; `found` is
    /// what it begins with, if anything.
    UnsupportedVersion { found: Option<char> },
    /// What follows the version marker is not base64, for the reason given.
    MalformedBase64 { reason: String },
    /// The bytes that the base64 stands for are no zlib stream, for the
    /// reason given.
    MalformedCompression { reason: String },
    /// The bytes that the stream unpacks to are not UTF-8.
    InvalidText,
}

/// What a `CodecError` stands for.
pub enum CodecErrorView {
    UnsupportedVersion { found: Option<char> },
    MalformedBase64 { reason: Seq<char> },
    MalformedCompression { reason: Seq<char> },
    InvalidText,
}

impl View for CodecError {
    type V = CodecErrorView;

    open spec fn view(&self) -> CodecErrorView {
        match self {
            CodecError::UnsupportedVersion { found } => CodecErrorView::UnsupportedVersion {
                found: *found,
            },
            CodecError::MalformedBase64 { reason } => CodecErrorView::MalformedBase64 {
                reason: reason@,
            },
            CodecError::MalformedCompression { reason } => CodecErrorView::MalformedCompression {
                reason: reason@,
            },
            CodecError::InvalidText => CodecErrorView::InvalidText,
        }
    }
}

/// The bytes that were read, or the reason why there are none.
pub open spec fn bytes_view(outcome: Result<Vec<u8>, String>) -> Result<Seq<u8>, Seq<char>> {
    match outcome {
        Ok(bytes) => Ok(bytes@),
        Err(reason) => Err(reason@),
    }
}

/// The version marker that a blueprint string begins with.
pub const VERSION: char = '0';

/// How hard the text is packed; any level unpacks to the same text.
pub const LEVEL: u32 = 1;

/// The text that `base64`'s `STANDARD` engine writes for the bytes.
pub uninterp spec fn base64_encoded(data: Seq<u8>) -> Seq<char>;

/// The bytes that `base64`'s `STANDARD` engine reads from the text, or
/// what its error says where it reports one.
pub uninterp spec fn base64_decoded(text: Seq<char>) -> Result<Seq<u8>, Seq<char>>;

/// The zlib stream that `flate2` packs the bytes into at the given level.
pub uninterp spec fn zlib_packed(data: Seq<u8>, level: u32) -> Seq<u8>;

/// The bytes that `flate2` unpacks from a zlib stream, or what its error
/// says where it reports one.
pub uninterp spec fn zlib_unpacked(stream: Seq<u8>) -> Result<Seq<u8>, Seq<char>>;

/// Whether reading gave the bytes, and no error.
pub open spec fn unpacks_to(outcome: Result<Seq<u8>, Seq<char>>, data: Seq<u8>) -> bool {
    outcome == Ok::<Seq<u8>, Seq<char>>(data)
}

/// Whether a character belongs to the alphabet of padded standard base64.
pub open spec fn is_base64_char(c: char) -> bool {
    ||| 'A' <= c <= 'Z'
    ||| 'a' <= c <= 'z'
    ||| '0' <= c <= '9'
    ||| c == '+'
    ||| c == '/'
    ||| c == '='
}

/// `Engine::decode` of `base64`'s `STANDARD` engine. An error is handed on
/// as what it says of itself.
#[verifier::external_body]
fn base64_decode(text: &str) -> (data: Result<Vec<u8>, String>)
    ensures
        bytes_view(data) == base64_decoded(text@),
{
    base64::prelude::BASE64_STANDARD.decode(text).map_err(|e| e.to_string())
}

/// `Engine::encode_string` of `base64`'s `STANDARD` engine: it appends the
/// base64 of the bytes to `out`. What it appends is made of the characters
/// of the alphabet only, and decodes to the bytes again.
#[verifier::external_body]
fn base64_encode(data: &Vec<u8>, out: &mut String)
    ensures
        final(out)@ == old(out)@ + base64_encoded(data@),
        unpacks_to(base64_decoded(final(out)@.skip(old(out)@.len() as int)), data@),
        forall|i: int|
            old(out)@.len() <= i < final(out)@.len() ==> is_base64_char(#[trigger] final(out)@[i]),
{
    base64::prelude::BASE64_STANDARD.encode_string(data, out)
}

/// `flate2::read::ZlibEncoder`, read to its end: the zlib stream of the
/// bytes. The stream unpacks to the bytes again.
#[verifier::external_body]
fn zlib_pack(data: &[u8], level: u32) -> (stream: Vec<u8>)
    requires
        level <= 9,
    ensures
        stream@ == zlib_packed(data@, level),
        unpacks_to(zlib_unpacked(stream@), data@),
{
    let mut stream = Vec::new();
    flate2::read::ZlibEncoder::new(data, flate2::Compression::new(level)).read_to_end(
        &mut stream,
    ).unwrap();
    stream
}

/// `flate2::read::ZlibDecoder`, read to its end: the bytes that the zlib
/// stream holds. An error is handed on as what it says of itself.
#[verifier::external_body]
fn zlib_unpack(stream: &Vec<u8>) -> (data: Result<Vec<u8>, String>)
    ensures
        bytes_view(data) == zlib_unpacked(stream@),
{
    let mut data = Vec::new();
    match flate2::read::ZlibDecoder::new(&stream[..]).read_to_end(&mut data) {
        Ok(_) => Ok(data),
        Err(e) => Err(e.to_string()),
    }
}

/// `String::from_utf8`: the text that the bytes encode, where they are
/// UTF-8. An error becomes `None`.
#[verifier::external_body]
fn utf8_text(bytes: Vec<u8>) -> (text: Option<String>)
    ensures
        match text {
            Some(t) => valid_utf8(bytes@) && t@ == decode_utf8(bytes@),
            None => !valid_utf8(bytes@),
        },
{
    String::from_utf8(bytes).ok()
}

/// What a wire string carries behind its version marker: the wire string
/// without the white space around it must begin with `0`.
pub open spec fn wire_body(wire: Seq<char>) -> Result<Seq<char>, CodecErrorView> {
    let text = trimmed(wire);
    if text.len() == 0 {
        Err(CodecErrorView::UnsupportedVersion { found: None })
    } else if text[0] != VERSION {
        Err(CodecErrorView::UnsupportedVersion { found: Some(text[0]) })
    } else {
        Ok(text.skip(1))
    }
}

/// The text that unpacked bytes encode.
pub open spec fn text_of(bytes: Seq<u8>) -> Result<Seq<char>, CodecErrorView> {
    if valid_utf8(bytes) {
        Ok(decode_utf8(bytes))
    } else {
        Err(CodecErrorView::InvalidText)
    }
}

/// What a wire string decodes to: behind the version marker stands base64,
/// that of a zlib stream, that of a text in UTF-8.
pub open spec fn decoded(wire: Seq<char>) -> Result<Seq<char>, CodecErrorView> {
    match wire_body(wire) {
        Ok(body) => match base64_decoded(body) {
            Ok(stream) => match zlib_unpacked(stream) {
                Ok(bytes) => text_of(bytes),
                Err(reason) => Err(CodecErrorView::MalformedCompression { reason }),
            },
            Err(reason) => Err(CodecErrorView::MalformedBase64 { reason }),
        },
        Err(error) => Err(error),
    }
}

/// The wire string of a text: the version marker, then the base64 of the
/// zlib stream of the text in UTF-8.
pub open spec fn encoded(text: Seq<char>) -> Seq<char> {
    seq![VERSION] + base64_encoded(zlib_packed(encode_utf8(text), LEVEL))
}

/// The version gate: a wire string decodes to `UnsupportedVersion` exactly
/// where, white space around it left out, it is empty or begins with
/// something other than the version marker.
pub proof fn lemma_version_gate(wire: Seq<char>)
    ensures
        (decoded(wire) is Err && decoded(wire)->Err_0 is UnsupportedVersion) <==> !(trimmed(
            wire,
        ).len() > 0 && trimmed(wire)[0] == VERSION),
{
}

/// The version gate on the wire string as it stands: a wire string that is
/// empty, that is nothing but white space, or that begins with a character
/// that is neither white space nor the version marker, decodes to
/// `UnsupportedVersion`.
pub proof fn lemma_version_gate_first(wire: Seq<char>)
    requires
        wire.len() == 0 || (forall|i: int| 0 <= i < wire.len() ==> is_whitespace(#[trigger] wire[i]))
            || (!is_whitespace(wire[0]) && wire[0] != VERSION),
    ensures
        decoded(wire) is Err,
        decoded(wire)->Err_0 is UnsupportedVersion,
{
    if wire.len() > 0 && !is_whitespace(wire[0]) {
        lemma_trimmed_first(wire);
    } else {
        lemma_trimmed_blank(wire);
    }
}

/// What a string holds, or why there is none.
pub open spec fn text_view(outcome: Result<String, CodecError>) -> Result<
    Seq<char>,
    CodecErrorView,
> {
    match outcome {
        Ok(text) => Ok(text@),
        Err(error) => Err(error@),
    }
}

/// Takes the version marker off a wire string, and the white space around
/// it.
pub fn strip_version(wire: &str) -> (body: Result<String, CodecError>)
    ensures
        text_view(body) == wire_body(wire@),
{
    let text = trim_chars(&chars_of(wire));
    if text.len() == 0 {
        return Err(CodecError::UnsupportedVersion { found: None });
    }
    if text[0] != VERSION {
        return Err(CodecError::UnsupportedVersion { found: Some(text[0]) });
    }
    let mut rest: Vec<char> = Vec::new();
    push_tail(&mut rest, &text, 1);
    Ok(string_of(&rest))
}

/// Reads unpacked bytes as a text.
pub fn read_text(bytes: Vec<u8>) -> (text: Result<String, CodecError>)
    ensures
        text_view(text) == text_of(bytes@),
{
    match utf8_text(bytes) {
        Some(text) => Ok(text),
        None => Err(CodecError::InvalidText),
    }
}

/// Decodes a blueprint string to the text that it carries.
pub fn blueprint_to_json(blueprint_str: &str) -> (json: Result<String, CodecError>)
    ensures
        text_view(json) == decoded(blueprint_str@),
{
    let body = match strip_version(blueprint_str) {
        Ok(body) => body,
        Err(error) => {
            return Err(error);
        },
    };
    let stream = match base64_decode(body.as_str()) {
        Ok(stream) => stream,
        Err(reason) => {
            return Err(CodecError::MalformedBase64 { reason });
        },
    };
    match zlib_unpack(&stream) {
        Ok(bytes) => read_text(bytes),
        Err(reason) => Err(CodecError::MalformedCompression { reason }),
    }
}

/// Encodes a text as a blueprint string. Decoding the string gives the text
/// back.
pub fn json_to_blueprint(json: &str) -> (wire: String)
    ensures
        wire@ == encoded(json@),
        decoded(wire@) == Ok::<Seq<char>, CodecErrorView>(json@),
{
    let stream = zlib_pack(json.as_bytes(), LEVEL);
    let mut wire = String::new();
    wire.push(VERSION);
    base64_encode(&stream, &mut wire);
    proof {
        assert(wire@ =~= seq![VERSION] + base64_encoded(stream@));
        assert(is_base64_char(wire@[0]));
        assert(!is_whitespace(wire@[0]));
        assert(!is_whitespace(wire@.last())) by {
            if wire@.len() > 1 {
                assert(is_base64_char(wire@[wire@.len() - 1]));
            }
        }
        lemma_trimmed_same(wire@);
        assert(wire@.skip(1) =~= base64_encoded(stream@));
        encode_utf8_valid_utf8(json@);
        encode_utf8_decode_utf8(json@);
    }
    wire
}

/// An entry by its kind, with the payload that stands under the kind's key.
pub enum BlueprintType<T> {
    Blueprint(T),
    BlueprintBook(T),
    UpgradePlanner(T),
    DeconstructionPlanner(T),
}

impl<T> BlueprintType<T> {
    /// The payload, whatever the kind.
    pub open spec fn payload(self) -> T {
        match self {
            BlueprintType::Blueprint(payload) => payload,
            BlueprintType::BlueprintBook(payload) => payload,
            BlueprintType::UpgradePlanner(payload) => payload,
            BlueprintType::DeconstructionPlanner(payload) => payload,
        }
    }
}

/// The kind of an entry and its payload: the first of the four kind keys
/// that the entry has decides. `None` where it has none of them.
pub open spec fn entry_kind(entry: JsonView) -> Option<BlueprintType<JsonView>> {
    if let Some(payload) = entry.get("blueprint"@) {
        Some(BlueprintType::Blueprint(payload))
    } else if let Some(payload) = entry.get("blueprint_book"@) {
        Some(BlueprintType::BlueprintBook(payload))
    } else if let Some(payload) = entry.get("upgrade_planner"@) {
        Some(BlueprintType::UpgradePlanner(payload))
    } else if let Some(payload) = entry.get("deconstruction_planner"@) {
        Some(BlueprintType::DeconstructionPlanner(payload))
    } else {
        None
    }
}

impl<'a> View for BlueprintType<&'a Json> {
    type V = BlueprintType<JsonView>;

    open spec fn view(&self) -> BlueprintType<JsonView> {
        match self {
            BlueprintType::Blueprint(payload) => BlueprintType::Blueprint(payload@),
            BlueprintType::BlueprintBook(payload) => BlueprintType::BlueprintBook(payload@),
            BlueprintType::UpgradePlanner(payload) => BlueprintType::UpgradePlanner(payload@),
            BlueprintType::DeconstructionPlanner(payload) => BlueprintType::DeconstructionPlanner(
                payload@,
            ),
        }
    }
}

impl<'a> BlueprintType<&'a Json> {
    /// The kind of an entry, where it has one.
    pub fn detect(json: &'a Json) -> (kind: Option<BlueprintType<&'a Json>>)
        ensures
            match kind {
                Some(k) => entry_kind(json@) == Some(k@),
                None => entry_kind(json@) is None,
            },
    {
        if let Some(payload) = json.get("blueprint") {
            Some(BlueprintType::Blueprint(payload))
        } else if let Some(payload) = json.get("blueprint_book") {
            Some(BlueprintType::BlueprintBook(payload))
        } else if let Some(payload) = json.get("upgrade_planner") {
            Some(BlueprintType::UpgradePlanner(payload))
        } else if let Some(payload) = json.get("deconstruction_planner") {
            Some(BlueprintType::DeconstructionPlanner(payload))
        } else {
            None
        }
    }

    /// The kind of an entry that has one.
    pub fn new(json: &'a Json) -> (kind: BlueprintType<&'a Json>)
        requires
            entry_kind(json@) is Some,
        ensures
            entry_kind(json@) == Some(kind@),
    {
        match BlueprintType::detect(json) {
            Some(kind) => kind,
            None => BlueprintType::Blueprint(json),
        }
    }

    /// The payload, whatever the kind.
    pub fn any(&self) -> (payload: &'a Json)
        ensures
            payload@ == self@.payload(),
    {
        match self {
            BlueprintType::Blueprint(payload) => payload,
            BlueprintType::BlueprintBook(payload) => payload,
            BlueprintType::UpgradePlanner(payload) => payload,
            BlueprintType::DeconstructionPlanner(payload) => payload,
        }
    }

    /// The label of the payload, where it has one that is a string.
    pub fn label(&self) -> (label: Option<&'a str>)
        ensures
            match label {
                Some(text) => self@.payload().text_at("label"@) == Some(text@),
                None => self@.payload().text_at("label"@) is None,
            },
    {
        match self.any().get("label") {
            Some(label) => label.as_str(),
            None => None,
        }
    }
}

impl<T> BlueprintType<T> {
    /// The key that the payload of the kind stands under.
    pub open spec fn key(self) -> Seq<char> {
        match self {
            BlueprintType::Blueprint(_) => "blueprint"@,
            BlueprintType::BlueprintBook(_) => "blueprint_book"@,
            BlueprintType::UpgradePlanner(_) => "upgrade_planner"@,
            BlueprintType::DeconstructionPlanner(_) => "deconstruction_planner"@,
        }
    }
}

impl<'a> View for BlueprintType<&'a mut Json> {
    type V = BlueprintType<JsonView>;

    open spec fn view(&self) -> BlueprintType<JsonView> {
        match self {
            BlueprintType::Blueprint(payload) => BlueprintType::Blueprint(payload@),
            BlueprintType::BlueprintBook(payload) => BlueprintType::BlueprintBook(payload@),
            BlueprintType::UpgradePlanner(payload) => BlueprintType::UpgradePlanner(payload@),
            BlueprintType::DeconstructionPlanner(payload) => BlueprintType::DeconstructionPlanner(
                payload@,
            ),
        }
    }
}

impl<T> BlueprintType<T> {
    /// The same kind with another payload.
    pub open spec fn holding<U>(self, payload: U) -> BlueprintType<U> {
        match self {
            BlueprintType::Blueprint(_) => BlueprintType::Blueprint(payload),
            BlueprintType::BlueprintBook(_) => BlueprintType::BlueprintBook(payload),
            BlueprintType::UpgradePlanner(_) => BlueprintType::UpgradePlanner(payload),
            BlueprintType::DeconstructionPlanner(_) => BlueprintType::DeconstructionPlanner(
                payload,
            ),
        }
    }
}

/// Where the payload of an entry stands among what the entry holds, and of
/// which kind it is.
fn locate(entries: &Vec<(String, Json)>) -> (found: Option<(usize, BlueprintType<()>)>)
    ensures
        match found {
            Some((place, kind)) => {
                &&& place < entries@.len()
                &&& crate::value::key_index(entries_view(entries@), kind.key()) == Some(
                    place as int,
                )
                &&& entry_kind(JsonView::Object(entries_view(entries@))) == Some(
                    kind.holding(entries@[place as int].1@),
                )
            },
            None => entry_kind(JsonView::Object(entries_view(entries@))) is None,
        },
{
    if let Some(i) = crate::value::position(entries, "blueprint") {
        Some((i, BlueprintType::Blueprint(())))
    } else if let Some(i) = crate::value::position(entries, "blueprint_book") {
        Some((i, BlueprintType::BlueprintBook(())))
    } else if let Some(i) = crate::value::position(entries, "upgrade_planner") {
        Some((i, BlueprintType::UpgradePlanner(())))
    } else if let Some(i) = crate::value::position(entries, "deconstruction_planner") {
        Some((i, BlueprintType::DeconstructionPlanner(())))
    } else {
        None
    }
}

impl<'a> BlueprintType<&'a mut Json> {
    /// The kind of an entry that has one, with its payload open to change:
    /// what is put into the payload stands in the entry afterwards.
    pub fn new(json: &'a mut Json) -> (kind: BlueprintType<&'a mut Json>)
        requires
            entry_kind(old(json)@) is Some,
        ensures
            entry_kind(old(json)@) == Some(kind@),
            final(json)@ == old(json)@.with(kind@.key(), final(kind.payload())@),
    {
        match json {
            Json::Object(entries) => {
                proof {
                    lemma_object_view(*entries);
                }
                let (place, kind) = match locate(entries) {
                    Some(found) => found,
                    None => (0, BlueprintType::Blueprint(())),
                };
                let ghost before = entries@;
                proof {
                    crate::value::lemma_key_index(entries_view(before), kind.key(), 0);
                    assert forall|after: Vec<(String, Json)>, put: Json|
                        after@ == before.update(
                            place as int,
                            (before[place as int].0, put),
                        ) implies #[trigger] Json::Object(after)@ == old(json)@.with(
                        kind.key(),
                        #[trigger] put@,
                    ) by {
                        lemma_object_view(after);
                        assert(entries_view(after@) =~= entries_view(before).update(
                            place as int,
                            (kind.key(), put@),
                        ));
                    }
                }
                let payload = &mut entries[place].1;
                match kind {
                    BlueprintType::Blueprint(_) => BlueprintType::Blueprint(payload),
                    BlueprintType::BlueprintBook(_) => BlueprintType::BlueprintBook(payload),
                    BlueprintType::UpgradePlanner(_) => BlueprintType::UpgradePlanner(payload),
                    BlueprintType::DeconstructionPlanner(_) => BlueprintType::DeconstructionPlanner(
                        payload,
                    ),
                }
            },
            other => BlueprintType::Blueprint(other),
        }
    }

    /// The same entry, with its payload closed to change.
    pub fn as_ref(&self) -> (kind: BlueprintType<&Json>)
        ensures
            kind@ == self@,
    {
        match self {
            BlueprintType::Blueprint(payload) => BlueprintType::Blueprint(&**payload),
            BlueprintType::BlueprintBook(payload) => BlueprintType::BlueprintBook(&**payload),
            BlueprintType::UpgradePlanner(payload) => BlueprintType::UpgradePlanner(&**payload),
            BlueprintType::DeconstructionPlanner(payload) => BlueprintType::DeconstructionPlanner(
                &**payload,
            ),
        }
    }

    /// The payload, whatever the kind, open to change.
    pub fn any_mut(&mut self) -> (payload: &mut Json)
        ensures
            payload@ == old(self)@.payload(),
            final(self)@ == old(self)@.holding(final(payload)@),
            *final(final(self).payload()) == *final(old(self).payload()),
    {
        match self {
            BlueprintType::Blueprint(payload) => &mut **payload,
            BlueprintType::BlueprintBook(payload) => &mut **payload,
            BlueprintType::UpgradePlanner(payload) => &mut **payload,
            BlueprintType::DeconstructionPlanner(payload) => &mut **payload,
        }
    }

    /// Sets a tag in the description of the payload; a payload without a
    /// description gets one.
    pub fn set_tag_in_description(&mut self, tag: &str, value: &str)
        requires
            can_be_described(old(self)@.payload()),
        ensures
            final(self)@ == old(self)@.holding(described(old(self)@.payload(), tag@, value@)),
            *final(final(self).payload()) == *final(old(self).payload()),
    {
        let payload = self.any_mut();
        let description = match payload.get("description") {
            Some(description) => match description.as_str() {
                Some(text) => text.to_owned(),
                None => String::new(),
            },
            None => String::new(),
        };
        payload.insert("description", Json::String(set_tag_in_string(description, tag, value)));
    }
}

/// Whether a payload can take a description: it is an object, and what it
/// has under `description`, if anything, is a string.
pub open spec fn can_be_described(payload: JsonView) -> bool {
    payload is Object && (payload.get("description"@) is Some ==> payload.get(
        "description"@,
    )->0 is String)
}

/// A payload with a tag set in its description.
pub open spec fn described(payload: JsonView, tag: Seq<char>, value: Seq<char>) -> JsonView {
    let before = match payload.text_at("description"@) {
        Some(text) => text,
        None => Seq::empty(),
    };
    payload.with("description"@, JsonView::String(with_tag(before, tag, value)))
}

/// The line that sets a tag: the tag, a colon, a space, the value.
pub open spec fn tag_line(tag: Seq<char>, value: Seq<char>) -> Seq<char> {
    tag + seq![':', ' '] + value
}

/// Where the line of a tag begins in a description: at the very beginning,
/// or else behind the first line break that the tag and a colon follow.
pub open spec fn tag_start(description: Seq<char>, tag: Seq<char>) -> Option<int> {
    if occurs_at(description, tag.push(':'), 0) {
        Some(0)
    } else {
        match find(description, seq!['\n'] + tag.push(':')) {
            Some(at) => Some(at + 1),
            None => None,
        }
    }
}

/// A description with the tag set to the value. Where the description has
/// a line of the tag, that line is written anew, and what stands before and
/// behind it stays. Where it has none, the line is added at the end, as a
/// new line unless the description is empty.
pub open spec fn with_tag(description: Seq<char>, tag: Seq<char>, value: Seq<char>) -> Seq<char> {
    match tag_start(description, tag) {
        Some(start) => {
            let rest = description.skip(start);
            let behind = match char_index(rest, '\n') {
                Some(end) => rest.skip(end),
                None => Seq::empty(),
            };
            description.take(start) + tag_line(tag, value) + behind
        },
        None => if description.len() > 0 {
            description.push('\n') + tag_line(tag, value)
        } else {
            tag_line(tag, value)
        },
    }
}

/// Sets a tag in a description: writes the line `tag: value` in the place
/// of the tag's line, or at the end where the description has none.
pub fn set_tag_in_string(description: String, tag: &str, value: &str) -> (text: String)
    ensures
        text@ == with_tag(description@, tag@, value@),
{
    let chars = chars_of(description.as_str());
    let value_chars = chars_of(value);
    let mut line = chars_of(tag);
    let mut head = chars_of(tag);
    head.push(':');
    let mut broken: Vec<char> = Vec::new();
    broken.push('\n');
    push_tail(&mut broken, &head, 0);
    line.push(':');
    line.push(' ');
    push_tail(&mut line, &value_chars, 0);
    proof {
        assert(head@ =~= tag@.push(':'));
        assert(broken@ =~= seq!['\n'] + tag@.push(':'));
        assert(line@ =~= tag_line(tag@, value@));
    }
    let start = if stands_at(&chars, &head, 0) {
        Some(0)
    } else {
        let length = chars.len();
        match find_chars(&chars, &broken) {
            Some(at) => {
                assert(at + 2 <= length);
                Some(at + 1)
            },
            None => None,
        }
    };
    let mut out: Vec<char> = Vec::new();
    match start {
        Some(start) => {
            let rest = skip_chars(&chars, start);
            push_tail(&mut out, &take_chars(&chars, start), 0);
            push_tail(&mut out, &line, 0);
            if let Some(end) = find_char(&rest, '\n') {
                push_tail(&mut out, &rest, end);
            }
            proof {
                let behind = match char_index(rest@, '\n') {
                    Some(end) => rest@.skip(end),
                    None => Seq::empty(),
                };
                assert(out@ =~= chars@.take(start as int) + line@ + behind);
            }
        },
        None => {
            push_tail(&mut out, &chars, 0);
            if chars.len() > 0 {
                out.push('\n');
            }
            push_tail(&mut out, &line, 0);
            proof {
                if chars@.len() > 0 {
                    assert(out@ =~= chars@.push('\n') + line@);
                } else {
                    assert(out@ =~= line@);
                }
            }
        },
    }
    string_of(&out)
}

/// The characters from the place `from` on.
fn skip_chars(text: &Vec<char>, from: usize) -> (tail: Vec<char>)
    requires
        from <= text@.len(),
    ensures
        tail@ == text@.skip(from as int),
{
    let mut tail: Vec<char> = Vec::new();
    push_tail(&mut tail, text, from);
    tail
}

/// The blueprint of one constant combinator, as a blueprint string.
pub const COMBINATOR: &'static str =
    "0eNqNkNEOgjAMRf+lz8MIEYH9ijFmw6pNRkdGMRKyf3fDF5+Mj23uPbe3K1g34xiIBfQK1HueQJ9WmOjOxuWdLCOCBhIcQAGbIU9ZJ4al6P1giY34AFEB8RVfoMt4VoAsJIQf3DYsF54HiyEJfoIUjH5KXs85P/GK+ljvagUL6OpY7uqUdKWA/UdyUJkiwbuLxYd5UkIk342cYPirjQTD0+iDFBad5CK9n/NHyu9KMbfajPrrawqeKWU7pGrLQ9NVTVt1zb7tYnwDHB11ag==";

/// A signal with how often it is to be sent: its name, its quality, its
/// count.
pub open spec fn signals_view(signals: Seq<((String, Quality), i64)>) -> Seq<
    ((Seq<char>, Option<Seq<char>>), i64),
> {
    signals.map_values(|signal: ((String, Quality), i64)| ((signal.0.0@, signal.0.1@), signal.1))
}

/// A count as a number of a document.
pub open spec fn count_number(count: i64) -> NumberView {
    if count >= 0 {
        NumberView::PosInt(count as u64)
    } else {
        NumberView::NegInt(count)
    }
}

/// The signal of a filter: an item by its name, with its quality where it
/// has one.
pub open spec fn signal_of(name: Seq<char>, quality: Option<Seq<char>>) -> JsonView {
    let item = seq![("type"@, JsonView::String("item"@)), ("name"@, JsonView::String(name))];
    match quality {
        Some(quality) => JsonView::Object(item.push(("quality"@, JsonView::String(quality)))),
        None => JsonView::Object(item),
    }
}

/// The filter at a place of a combinator: places are counted from one.
pub open spec fn filter_of(place: int, signal: ((Seq<char>, Option<Seq<char>>), i64)) -> JsonView {
    JsonView::Object(
        seq![
            ("index"@, JsonView::Number(NumberView::PosInt((place + 1) as u64))),
            ("count"@, JsonView::Number(count_number(signal.1))),
            ("signal"@, signal_of(signal.0.0, signal.0.1)),
        ],
    )
}

/// The filters that send the signals, in their order.
pub open spec fn filters_of(signals: Seq<((Seq<char>, Option<Seq<char>>), i64)>) -> Seq<JsonView> {
    Seq::new(signals.len(), |i: int| filter_of(i, signals[i]))
}

/// The blueprint of a combinator with the given filters in the place of
/// its own. `None` where the document is not the blueprint of exactly one
/// entity that has filters under `control_behavior`.
pub open spec fn with_filters(template: JsonView, filters: Seq<JsonView>) -> Option<JsonView> {
    match template.get("blueprint"@) {
        Some(blueprint) => match blueprint.get("entities"@) {
            Some(JsonView::Array(entities)) => if entities.len() == 1 {
                match entities[0].get("control_behavior"@) {
                    Some(control) => match control.get("filters"@) {
                        Some(JsonView::Array(_)) => Some(
                            template.with(
                                "blueprint"@,
                                blueprint.with(
                                    "entities"@,
                                    JsonView::Array(
                                        seq![
                                            entities[0].with(
                                                "control_behavior"@,
                                                control.with("filters"@, JsonView::Array(filters)),
                                            ),
                                        ],
                                    ),
                                ),
                            ),
                        ),
                        _ => None,
                    },
                    None => None,
                }
            } else {
                None
            },
            _ => None,
        },
        None => None,
    }
}

/// The document that the blueprint of the constant combinator decodes to.
pub open spec fn combinator_template() -> Option<JsonView> {
    match decoded(COMBINATOR@) {
        Ok(text) => json_parsed(text),
        Err(_) => None,
    }
}

/// A text as a string of a document.
fn text_json(text: &str) -> (json: Json)
    ensures
        json@ == JsonView::String(text@),
{
    Json::String(text.to_owned())
}

/// One entry of an object.
fn entry(key: &str, value: Json) -> (entry: (String, Json))
    ensures
        entry.0@ == key@,
        entry.1@ == value@,
{
    (key.to_owned(), value)
}

/// The filter that sends a signal from a place of a combinator.
pub fn make_filter(place: usize, name: &str, quality: &Quality, count: i64) -> (filter: Json)
    requires
        place < usize::MAX,
    ensures
        filter@ == filter_of(place as int, ((name@, quality@), count)),
{
    let mut signal: Vec<(String, Json)> = Vec::new();
    signal.push(entry("type", text_json("item")));
    signal.push(entry("name", text_json(name)));
    if let Some(quality) = &quality.0 {
        signal.push(entry("quality", text_json(quality.as_str())));
    }
    let number = if count >= 0 {
        Number::PosInt(count as u64)
    } else {
        Number::NegInt(count)
    };
    let mut filter: Vec<(String, Json)> = Vec::new();
    proof {
        lemma_object_view(signal);
        assert(entries_view(signal@) =~= signal_of(name@, quality@)->Object_0);
    }
    filter.push(entry("index", Json::Number(Number::PosInt((place + 1) as u64))));
    filter.push(entry("count", Json::Number(number)));
    filter.push(entry("signal", Json::Object(signal)));
    proof {
        lemma_object_view(filter);
        assert(entries_view(filter@) =~= filter_of(
            place as int,
            ((name@, quality@), count),
        )->Object_0);
    }
    Json::Object(filter)
}

/// The filters that send the signals, in their order.
pub fn make_filters(signals: &Vec<((String, Quality), i64)>) -> (filters: Vec<Json>)
    ensures
        items_view(filters@) == filters_of(signals_view(signals@)),
{
    let mut filters: Vec<Json> = Vec::new();
    let mut i: usize = 0;
    while i < signals.len()
        invariant
            i <= signals@.len(),
            filters@.len() == i,
            forall|j: int|
                0 <= j < i ==> (#[trigger] filters@[j])@ == filter_of(j, signals_view(signals@)[j]),
        decreases signals@.len() - i,
    {
        let signal = &signals[i];
        filters.push(make_filter(i, signal.0.0.as_str(), &signal.0.1, signal.1));
        i += 1;
    }
    proof {
        assert(items_view(filters@) =~= filters_of(signals_view(signals@)));
    }
    filters
}

/// Puts filters into the blueprint of a combinator, in the place of its
/// own.
pub fn set_filters(template: Json, filters: Vec<Json>) -> (blueprint: Option<Json>)
    ensures
        owned(blueprint) == with_filters(template@, items_view(filters@)),
{
    let ghost whole = template@;
    let mut template = template;
    let mut blueprint = match template.take("blueprint") {
        Some(blueprint) => blueprint,
        None => {
            return None;
        },
    };
    let ghost blueprint_before = blueprint@;
    let mut entities = match blueprint.take("entities") {
        Some(Json::Array(entities)) => entities,
        _ => {
            return None;
        },
    };
    proof {
        lemma_array_view(entities);
    }
    if entities.len() != 1 {
        return None;
    }
    let ghost entity_before = entities@[0]@;
    let mut entity = match entities.pop() {
        Some(entity) => entity,
        None => {
            return None;
        },
    };
    let mut control = match entity.take("control_behavior") {
        Some(control) => control,
        None => {
            return None;
        },
    };
    let ghost control_before = control@;
    let has_filters = match control.get("filters") {
        Some(filters) => filters.as_array().is_some(),
        None => false,
    };
    if !has_filters {
        return None;
    }
    proof {
        lemma_array_view(filters);
    }
    control.insert("filters", Json::Array(filters));
    proof {
        crate::value::lemma_with_twice(
            entity_before,
            "control_behavior"@,
            JsonView::Null,
            control@,
        );
    }
    entity.insert("control_behavior", control);
    entities.push(entity);
    proof {
        lemma_array_view(entities);
        assert(items_view(entities@) =~= seq![entity@]);
        crate::value::lemma_with_twice(
            blueprint_before,
            "entities"@,
            JsonView::Null,
            JsonView::Array(seq![entity@]),
        );
        crate::value::lemma_with_twice(
            whole,
            "blueprint"@,
            JsonView::Null,
            blueprint_before.with("entities"@, JsonView::Array(seq![entity@])),
        );
    }
    blueprint.insert("entities", Json::Array(entities));
    template.insert("blueprint", blueprint);
    Some(template)
}

/// The blueprint of a constant combinator that sends the given signals,
/// each from the place of its rank. `None` where the blueprint of the
/// combinator cannot be read.
pub fn make_constant_combinator_json(signals: Vec<((String, Quality), i64)>) -> (blueprint: Option<
    Json,
>)
    ensures
        owned(blueprint) == match combinator_template() {
            Some(template) => with_filters(template, filters_of(signals_view(signals@))),
            None => None,
        },
{
    let text = match blueprint_to_json(COMBINATOR) {
        Ok(text) => text,
        Err(_) => {
            return None;
        },
    };
    match parse_json(text.as_str()) {
        Some(template) => set_filters(template, make_filters(&signals)),
        None => None,
    }
}

/// The quality of an entity; `None` stands for the default quality.
#[derive(Debug, PartialEq, Eq, PartialOrd, Ord, Hash)]
pub struct Quality(pub Option<String>);

/// What a quality adds behind a name: the quality in brackets behind a
/// space, or nothing for the default quality.
pub open spec fn quality_label(quality: Option<Seq<char>>) -> Seq<char> {
    match quality {
        Some(name) => seq![' ', '('] + name + seq![')'],
        None => Seq::empty(),
    }
}

impl View for Quality {
    type V = Option<Seq<char>>;

    open spec fn view(&self) -> Option<Seq<char>> {
        match self.0 {
            Some(name) => Some(name@),
            None => None,
        }
    }
}

impl Quality {
    /// What the quality adds behind a name.
    pub fn fmt_suffix(&self) -> (suffix: String)
        ensures
            suffix@ == quality_label(self@),
    {
        let mut suffix = String::new();
        if let Some(name) = &self.0 {
            suffix.push(' ');
            suffix.push('(');
            suffix.append(name.as_str());
            suffix.push(')');
            proof {
                assert(suffix@ =~= seq![' ', '('] + name@ + seq![')']);
            }
        }
        suffix
    }
}

} // verus!
