//! The transcription document that prattl prints: a JSON object whose keys
//! are the transcribed files and whose values are their transcriptions.
use vstd::prelude::*;

verus! {

#[verifier::external_type_specification]
#[verifier::external_body]
pub struct ExJsonError(serde_json::Error);

/// Why the transcription output could not be turned into a document.
#[derive(Debug, Clone, Copy, PartialEq, Eq, Structural)]
pub enum TranscriptionError {
    /// The output holds nothing but whitespace.
    EmptyTranscription,
    /// The output holds no `{`.
    MissingOpeningBrace,
    /// The output holds no `}`.
    MissingClosingBrace,
    /// The span cut out of the output is not a valid piece of the text.
    InvalidRange,
    /// The span cut out of the output is not JSON.
    InvalidJson,
}

/// A parsed JSON document, reduced to what the library reads of it: when
/// the document is an object, its entries in the order the object lists
/// them, each as the key and the compact JSON text of the value.
pub struct Transcriptions {
    pub entries: Option<Vec<(String, String)>>,
}

/// The entries of a document as text: each key with the JSON text of its value.
pub open spec fn entries_view(entries: Seq<(String, String)>) -> Seq<(Seq<char>, Seq<char>)> {
    entries.map_values(|e: (String, String)| (e.0@, e.1@))
}

impl View for Transcriptions {
    type V = Option<Seq<(Seq<char>, Seq<char>)>>;

    open spec fn view(&self) -> Self::V {
        match self.entries {
            Some(v) => Some(entries_view(v@)),
            None => None,
        }
    }
}

impl Transcriptions {
    /// Whether the document is a JSON object.
    pub fn is_object(&self) -> (b: bool)
        ensures
            b == (self@ is Some),
    {
        self.entries.is_some()
    }
}

/// What parsing `text` as JSON gives: `None` when it is not JSON; otherwise
/// `Some(None)` for a document that is not an object, and `Some(Some(es))`
/// for an object with entries `es` (key, compact JSON text of the value).
pub uninterp spec fn json_document(text: Seq<char>) -> Option<Option<Seq<(Seq<char>, Seq<char>)>>>;

/// Calls `serde_json::from_str::<serde_json::Value>` on `text`. When the
/// value is an object, its entries are listed in the order of serde_json's
/// `Map` (sorted by key unless serde_json's `preserve_order` feature is on,
/// then in document order), each value turned into its compact JSON text by
/// `Value`'s `to_string`. The contract claims only that the outcome is a
/// function of the text, named `json_document`; the JSON grammar, the entry
/// order and the value serialization are not stated.
#[verifier::external_body]
fn parse_json_document(text: &str) -> (r: Result<Transcriptions, serde_json::Error>)
    ensures
        match r {
            Ok(t) => json_document(text@) == Some(t@),
            Err(_) => json_document(text@) is None,
        },
{
    match serde_json::from_str::<serde_json::Value>(text) {
        Ok(serde_json::Value::Object(map)) => Ok(
            Transcriptions { entries: Some(map.into_iter().map(|(k, v)| (k, v.to_string())).collect()) },
        ),
        Ok(_) => Ok(Transcriptions { entries: None }),
        Err(e) => Err(e),
    }
}

/// Parses a JSON document; a text that is not JSON is an `InvalidJson` error.
pub fn transcriptions_from_json(text: &str) -> (r: Result<Transcriptions, TranscriptionError>)
    ensures
        match r {
            Ok(t) => json_document(text@) == Some(t@),
            Err(e) => json_document(text@) is None && e == TranscriptionError::InvalidJson,
        },
{
    match parse_json_document(text) {
        Ok(t) => Ok(t),
        Err(_) => Err(TranscriptionError::InvalidJson),
    }
}

} // verus!
