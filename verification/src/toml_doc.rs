//! What the metadata parser reads from a TOML document, obtained through the
//! `toml` crate.
use crate::text::opt_string_view;
use vstd::prelude::*;

verus! {

/// The `features` entry of a metadata document.
#[derive(Debug, Clone, PartialEq, Eq)]
pub enum FeaturesField {
    /// The document has no top-level `features` key.
    Absent,
    /// The key's value, serialised back to TOML.
    Rendered(String),
    /// The key's value could not be serialised; the serialiser's message.
    Unrenderable(String),
}

/// The two entries of a parsed metadata document that the tool uses.
#[derive(Debug, Clone, PartialEq, Eq)]
pub struct TomlFields {
    /// The top-level `edition` value, when it is a string.
    pub edition: Option<String>,
    pub features: FeaturesField,
}

/// Where `toml::from_str::<toml::Value>` refuses `text`, the text of its
/// error (its `Display`); `None` where it accepts `text`.
pub uninterp spec fn toml_parse_error(text: Seq<char>) -> Option<Seq<char>>;

/// The value of the top-level entry `key` of the document `text`, when that
/// value is a string.
pub uninterp spec fn toml_string_entry(text: Seq<char>, key: Seq<char>) -> Option<Seq<char>>;

/// For a document `text` with a top-level entry `key`, `toml::to_string` of
/// that entry's value: `Ok` of the rendering, or `Err` of the text of the
/// serialiser's error; `None` where there is no such entry.
pub uninterp spec fn toml_entry_rendering(text: Seq<char>, key: Seq<char>) -> Option<
    Result<Seq<char>, Seq<char>>,
>;

pub open spec fn features_view(f: FeaturesField) -> Option<Result<Seq<char>, Seq<char>>> {
    match f {
        FeaturesField::Absent => None,
        FeaturesField::Rendered(s) => Some(Ok(s@)),
        FeaturesField::Unrenderable(m) => Some(Err(m@)),
    }
}

/// Parses `text` with `toml::from_str::<toml::Value>`, then reads the
/// document's entry `edition_key` with `Value::get` and `Value::as_str`, and
/// serialises its entry `features_key` with `toml::to_string`.
///
/// Trusted: the contract claims that the outcome, error texts included, is a
/// function of the arguments alone (the three names above).
#[verifier::external_body]
pub(crate) fn read_toml_fields(text: &str, edition_key: &str, features_key: &str) -> (r: Result<
    TomlFields,
    String,
>)
    ensures
        r is Ok <==> toml_parse_error(text@) is None,
        r matches Err(e) ==> toml_parse_error(text@) == Some(e@),
        r matches Ok(f) ==> opt_string_view(f.edition) == toml_string_entry(text@, edition_key@)
            && features_view(f.features) == toml_entry_rendering(text@, features_key@),
{
    let doc: toml::Value = match toml::from_str(text) {
        Ok(v) => v,
        Err(e) => return Err(e.to_string()),
    };
    let edition = doc.get(edition_key).and_then(toml::Value::as_str).map(String::from);
    let features = match doc.get(features_key) {
        None => FeaturesField::Absent,
        Some(f) => match toml::to_string(f) {
            Ok(s) => FeaturesField::Rendered(s),
            Err(e) => FeaturesField::Unrenderable(e.to_string()),
        },
    };
    Ok(TomlFields { edition, features })
}

} // verus!
