//! Working with the `prattl` transcription tool: judging its state from what
//! its commands report, deciding what to do about that state, and reading
//! the transcription document out of what `prattl transcribe` prints.
use vstd::prelude::*;
use vstd::string::StringSliceAdditionalSpecFns;
use vstd::utf8::*;

use crate::text::{
    char_vec, contains_chars, contains_text, find_first, find_last, first_index_of, is_blank,
    last_index_of, lossy_utf8_text, lowercase_text, opt_text, to_lowercase, trim, utf8_lossy,
};
use crate::transcriptions::{
    json_document, transcriptions_from_json, TranscriptionError, Transcriptions,
};

verus! {

broadcast use {vstd::utf8::group_utf8_lib, vstd::string::group_string_axioms};

// ---------------------------------------------------------------------------
// The state of the prattl installation
// ---------------------------------------------------------------------------

/// The state in which prattl was found.
#[derive(Debug, Clone, Copy, PartialEq, Eq, Structural)]
pub enum PrattlStatus {
    NotInstalled,
    NotPrepared,
    Compressed,
    Ready,
}

/// Whether `which prattl` found the program: it must exit with code 0.
pub fn is_prattl_installed(which_exit_code: Option<i32>) -> (b: bool)
    ensures
        b == (which_exit_code == Some(0i32)),
{
    match which_exit_code {
        Some(code) => code == 0,
        None => false,
    }
}

/// The state told by the (lower-cased) output of `prattl report`: a report
/// that a model "doesn't exist" means prattl is not prepared; otherwise
/// "compressed: true" means it is compressed; otherwise it is ready.
pub open spec fn status_of_report(report: Seq<char>) -> PrattlStatus {
    if contains_text(report, "doesn't exist"@) {
        PrattlStatus::NotPrepared
    } else if contains_text(report, "compressed: true"@) {
        PrattlStatus::Compressed
    } else {
        PrattlStatus::Ready
    }
}

/// A report that a model "doesn't exist" always means not prepared, whatever
/// else it says; compression counts only without that; a report that says
/// neither means ready.
pub proof fn lemma_report_precedence(report: Seq<char>)
    ensures
        contains_text(report, "doesn't exist"@) ==> status_of_report(report)
            == PrattlStatus::NotPrepared,
        status_of_report(report) == PrattlStatus::NotPrepared ==> contains_text(
            report,
            "doesn't exist"@,
        ),
        status_of_report(report) == PrattlStatus::Compressed <==> (contains_text(
            report,
            "compressed: true"@,
        ) && !contains_text(report, "doesn't exist"@)),
        status_of_report(report) == PrattlStatus::Ready <==> (!contains_text(
            report,
            "compressed: true"@,
        ) && !contains_text(report, "doesn't exist"@)),
        status_of_report(report) != PrattlStatus::NotInstalled,
{
}

/// The state of an installed prattl, judged from the bytes that
/// `prattl report` printed, decoded and lower-cased.
pub fn status_from_report(report_stdout: &[u8]) -> (s: PrattlStatus)
    ensures
        s == status_of_report(lowercase_text(lossy_utf8_text(report_stdout@))),
{
    let text = utf8_lossy(report_stdout);
    let lower = to_lowercase(text.as_str());
    let report = char_vec(lower.as_str());
    let not_prepared = char_vec("doesn't exist");
    let compressed = char_vec("compressed: true");
    if contains_chars(&report, &not_prepared) {
        PrattlStatus::NotPrepared
    } else if contains_chars(&report, &compressed) {
        PrattlStatus::Compressed
    } else {
        PrattlStatus::Ready
    }
}

// ---------------------------------------------------------------------------
// Handling a state
// ---------------------------------------------------------------------------

/// What handling a state comes to: the prattl sub-command to run, if any,
/// and whether the program may go on (or the reason it may not).
pub struct HandleStep {
    pub command: Option<String>,
    pub outcome: Result<(), String>,
}

/// The reason carried by an outcome, if it is an error.
pub open spec fn outcome_error(r: Result<(), String>) -> Option<Seq<char>> {
    match r {
        Ok(_) => None,
        Err(e) => Some(e@),
    }
}

impl PrattlStatus {
    /// The message shown to the user for this state.
    pub open spec fn spec_prompt(self) -> Seq<char> {
        match self {
            PrattlStatus::Ready => "prattl is ready"@,
            PrattlStatus::Compressed => "prattl is compressed, run prattl decompress? (Y/n)"@,
            PrattlStatus::NotPrepared => "prattl is not prepared, run prattl prepare? (Y/n)"@,
            PrattlStatus::NotInstalled =>
                "prattl is not installed, you can find instructions on installation here: https://www.prattl.co"@,
        }
    }

    /// The prattl sub-command that repairs this state, if one does.
    pub open spec fn spec_fix_command(self) -> Option<Seq<char>> {
        match self {
            PrattlStatus::Compressed => Some("decompress"@),
            PrattlStatus::NotPrepared => Some("prepare"@),
            _ => None,
        }
    }

    /// The sub-command run when the user answered `confirmed`.
    pub open spec fn spec_handle_command(self, confirmed: bool) -> Option<Seq<char>> {
        if confirmed {
            self.spec_fix_command()
        } else {
            None
        }
    }

    /// Why the program may not go on, if it may not.
    pub open spec fn spec_handle_error(self, confirmed: bool) -> Option<Seq<char>> {
        match self {
            PrattlStatus::Ready => None,
            PrattlStatus::Compressed => if confirmed {
                None
            } else {
                Some("User did not want program to decompress prattl"@)
            },
            PrattlStatus::NotPrepared => if confirmed {
                None
            } else {
                Some("User did not want program to prepare prattl"@)
            },
            PrattlStatus::NotInstalled => Some("prattl not installed"@),
        }
    }

    /// The message shown to the user for this state.
    pub fn prompt(&self) -> (m: String)
        ensures
            m@ == self.spec_prompt(),
    {
        match self {
            PrattlStatus::Ready => String::from_str("prattl is ready"),
            PrattlStatus::Compressed => String::from_str(
                "prattl is compressed, run prattl decompress? (Y/n)",
            ),
            PrattlStatus::NotPrepared => String::from_str(
                "prattl is not prepared, run prattl prepare? (Y/n)",
            ),
            PrattlStatus::NotInstalled => String::from_str(
                "prattl is not installed, you can find instructions on installation here: https://www.prattl.co",
            ),
        }
    }

    /// The prattl sub-command that repairs this state, if one does; the user
    /// is asked for confirmation exactly in these states.
    pub fn fix_command(&self) -> (c: Option<String>)
        ensures
            opt_text(c) == self.spec_fix_command(),
    {
        match self {
            PrattlStatus::Compressed => Some(String::from_str("decompress")),
            PrattlStatus::NotPrepared => Some(String::from_str("prepare")),
            _ => None,
        }
    }

    /// Handles the state given the user's answer (`confirmed` is ignored in
    /// the states that ask nothing): the repair command to run, and whether
    /// the program may go on.
    pub fn handle(self, confirmed: bool) -> (step: HandleStep)
        ensures
            opt_text(step.command) == self.spec_handle_command(confirmed),
            outcome_error(step.outcome) == self.spec_handle_error(confirmed),
    {
        match self {
            PrattlStatus::Ready => HandleStep { command: None, outcome: Ok(()) },
            PrattlStatus::Compressed => {
                if confirmed {
                    HandleStep { command: Some(String::from_str("decompress")), outcome: Ok(()) }
                } else {
                    HandleStep {
                        command: None,
                        outcome: Err(
                            String::from_str("User did not want program to decompress prattl"),
                        ),
                    }
                }
            },
            PrattlStatus::NotPrepared => {
                if confirmed {
                    HandleStep { command: Some(String::from_str("prepare")), outcome: Ok(()) }
                } else {
                    HandleStep {
                        command: None,
                        outcome: Err(
                            String::from_str("User did not want program to prepare prattl"),
                        ),
                    }
                }
            },
            PrattlStatus::NotInstalled => HandleStep {
                command: None,
                outcome: Err(String::from_str("prattl not installed")),
            },
        }
    }
}

/// Checks the state of prattl and handles it, for a state in which the
/// program may go on: returns the repair command to run, if any.
pub fn check_prattl_and_handle_status(status: PrattlStatus, confirmed: bool) -> (c: Option<
    String,
>)
    requires
        status.spec_handle_error(confirmed) is None,
    ensures
        opt_text(c) == status.spec_handle_command(confirmed),
{
    let step = status.handle(confirmed);
    step.command
}

/// Handling a state lets the program go on exactly when prattl is ready or
/// the user agreed to the repair; a repair command is issued exactly when
/// the program goes on from a state that needs repair.
pub proof fn lemma_handle_outcome(status: PrattlStatus, confirmed: bool)
    ensures
        status.spec_handle_error(confirmed) is None <==> (status == PrattlStatus::Ready || (
        confirmed && status.spec_fix_command() is Some)),
        status.spec_handle_command(confirmed) is Some <==> (status.spec_handle_error(confirmed) is None
            && status != PrattlStatus::Ready),
        status == PrattlStatus::NotInstalled ==> status.spec_handle_error(confirmed) is Some,
{
}

/// The state found by probing prattl: not installed unless `which prattl`
/// exited with code 0, and otherwise the state told by the bytes that
/// `prattl report` printed (what `is_prattl_installed` and
/// `status_from_report` decide).
pub open spec fn probed_status(which_exit_code: Option<i32>, report_stdout: Seq<u8>) -> PrattlStatus {
    if which_exit_code == Some(0i32) {
        status_of_report(lowercase_text(lossy_utf8_text(report_stdout)))
    } else {
        PrattlStatus::NotInstalled
    }
}

/// After probing, the program goes on exactly when prattl is installed and
/// either its (decoded, lower-cased) report mentions neither a missing model
/// nor compression, or the user agreed to the repair; otherwise it stops.
pub proof fn lemma_check_goes_on(
    which_exit_code: Option<i32>,
    report_stdout: Seq<u8>,
    confirmed: bool,
)
    ensures
        ({
            let report = lowercase_text(lossy_utf8_text(report_stdout));
            probed_status(which_exit_code, report_stdout).spec_handle_error(confirmed) is None <==> (
            which_exit_code == Some(0i32) && (!(contains_text(report, "doesn't exist"@)
                || contains_text(report, "compressed: true"@)) || confirmed))
        }),
{
}

// ---------------------------------------------------------------------------
// Reading the transcription document
// ---------------------------------------------------------------------------

/// The arguments of the prattl command that transcribes the given files.
pub fn transcribe_command_args(files: &Vec<String>) -> (args: Vec<String>)
    ensures
        args@.len() == files@.len() + 1,
        args@[0]@ == "transcribe"@,
        forall|i: int| 0 <= i < files@.len() ==> args@[i + 1] == files@[i],
{
    let mut args: Vec<String> = Vec::new();
    args.push(String::from_str("transcribe"));
    for i in 0..files.len()
        invariant
            args@.len() == i + 1,
            args@[0]@ == "transcribe"@,
            forall|k: int| 0 <= k < i ==> args@[k + 1] == files@[k],
    {
        args.push(files[i].clone());
    }
    args
}

/// The span of the printed `text` taken as the JSON document. The text must
/// not be blank and must hold a `{` and a `}`. The span starts at the UTF-8
/// byte offset equal to the character position of the first `{`, and ends
/// (exclusive) at the byte offset two past the character position of the
/// last `}`; both offsets must lie on character boundaries within the text,
/// and the start may not lie after the end. For text whose characters before
/// the last `}` are ASCII, this is the text from the first `{` through the
/// character that follows the last `}`.
pub open spec fn json_span(text: Seq<char>) -> Result<Seq<char>, TranscriptionError> {
    if is_blank(text) {
        Err(TranscriptionError::EmptyTranscription)
    } else {
        match first_index_of(text, '{') {
            None => Err(TranscriptionError::MissingOpeningBrace),
            Some(start) => match last_index_of(text, '}') {
                None => Err(TranscriptionError::MissingClosingBrace),
                Some(last) => {
                    let bytes = encode_utf8(text);
                    let end: int = last + 2;
                    if start <= end && end <= bytes.len() && is_char_boundary(bytes, start)
                        && is_char_boundary(bytes, end) {
                        Ok(decode_utf8(bytes.subrange(start, end)))
                    } else {
                        Err(TranscriptionError::InvalidRange)
                    }
                },
            },
        }
    }
}

/// What reading the bytes printed by `prattl transcribe` gives: the span of
/// the decoded text parsed as JSON.
pub open spec fn transcription_outcome(stdout: Seq<u8>) -> Result<
    Option<Seq<(Seq<char>, Seq<char>)>>,
    TranscriptionError,
> {
    match json_span(lossy_utf8_text(stdout)) {
        Err(e) => Err(e),
        Ok(span) => match json_document(span) {
            Some(doc) => Ok(doc),
            None => Err(TranscriptionError::InvalidJson),
        },
    }
}

/// A character boundary of valid UTF-8 stays one in a prefix that ends at a
/// later boundary.
proof fn lemma_boundary_in_prefix(bytes: Seq<u8>, i: int, j: int)
    requires
        valid_utf8(bytes),
        0 <= i <= j,
        is_char_boundary(bytes, i),
        is_char_boundary(bytes, j),
    ensures
        valid_utf8(bytes.subrange(0, j)),
        is_char_boundary(bytes.subrange(0, j), i),
{
    let p = bytes.subrange(0, j);
    valid_utf8_split(bytes, j);
    if i == j {
        is_char_boundary_start_end_of_seq(p);
    } else {
        if j > bytes.len() {
            reveal_with_fuel(is_char_boundary, 1);
        }
        assert(j <= bytes.len());
        is_char_boundary_iff_not_is_continuation_byte(bytes, i);
        is_char_boundary_iff_not_is_continuation_byte(p, i);
        assert(p[i] == bytes[i]);
    }
}

/// In an ASCII text every byte offset up to its length is a character
/// boundary, and each span of bytes decodes to the same span of characters.
proof fn lemma_ascii_span(text: Seq<char>, start: int, end: int)
    requires
        is_ascii_chars(text),
        0 <= start <= end <= text.len(),
    ensures
        encode_utf8(text).len() == text.len(),
        is_char_boundary(encode_utf8(text), start),
        is_char_boundary(encode_utf8(text), end),
        decode_utf8(encode_utf8(text).subrange(start, end)) == text.subrange(start, end),
{
    let bytes = encode_utf8(text);
    is_ascii_chars_encode_utf8(text);
    encode_utf8_valid_utf8(text);
    is_char_boundary_start_end_of_seq(bytes);
    assert forall|k: int| 0 <= k < bytes.len() implies is_char_boundary(bytes, k) by {
        is_char_boundary_iff_not_is_continuation_byte(bytes, k);
        assert(text[k] as u8 == bytes[k]);
        assert((text[k] as u32) < 128) by {
            assert('\0' <= text[k] <= '\u{7f}');
        }
        let b: u8 = bytes[k];
        let u: u32 = text[k] as u32;
        assert(b < 128) by (bit_vector)
            requires
                b == u as u8,
                u < 128,
        ;
    }
    let span = text.subrange(start, end);
    assert(is_ascii_chars(span)) by {
        assert forall|i: int| 0 <= i < span.len() implies '\0' <= #[trigger] span[i] <= '\u{7f}' by {
            assert(span[i] == text[start + i]);
        }
    }
    is_ascii_chars_encode_utf8(span);
    assert(encode_utf8(span) =~= bytes.subrange(start, end)) by {
        assert forall|i: int| 0 <= i < span.len() implies encode_utf8(span)[i] == bytes.subrange(
            start,
            end,
        )[i] by {
            assert(span[i] == text[start + i]);
        }
    }
    encode_utf8_decode_utf8(span);
}

/// In ASCII output made of a prefix without `{`, a `{`, a body, a `}`, one
/// more character and a rest without `}`, the document read is the text
/// from the `{` through that one character after the `}` (unless the output
/// is blank).
pub proof fn lemma_json_span_ascii(prefix: Seq<char>, body: Seq<char>, after: char, rest: Seq<char>)
    requires
        is_ascii_chars(prefix + seq!['{'] + body + seq!['}', after] + rest),
        !prefix.contains('{'),
        after != '}',
        !rest.contains('}'),
    ensures
        ({
            let text = prefix + seq!['{'] + body + seq!['}', after] + rest;
            !is_blank(text) ==> json_span(text) == Ok::<Seq<char>, TranscriptionError>(
                seq!['{'] + body + seq!['}', after],
            )
        }),
{
    let text = prefix + seq!['{'] + body + seq!['}', after] + rest;
    let start: int = prefix.len() as int;
    let last: int = (prefix.len() + 1 + body.len()) as int;
    assert(text[start] == '{');
    assert forall|j: int| 0 <= j < start implies text[j] != '{' by {
        assert(text[j] == prefix[j]);
    }
    crate::text::lemma_first_index_unique(text, '{', start);
    assert(text[last] == '}');
    assert forall|j: int| last < j < text.len() implies text[j] != '}' by {
        if j == last + 1 {
            assert(text[j] == after);
        } else {
            assert(text[j] == rest[j - last - 2]);
        }
    }
    crate::text::lemma_last_index_unique(text, '}', last);
    lemma_ascii_span(text, start, last + 2);
    assert(text.subrange(start, last + 2) =~= seq!['{'] + body + seq!['}', after]);
}

/// ASCII output that ends with the last `}` is refused: the span would run
/// one byte past the end (unless the output is blank).
pub proof fn lemma_json_span_ends_at_brace(prefix: Seq<char>, body: Seq<char>)
    requires
        is_ascii_chars(prefix + seq!['{'] + body + seq!['}']),
        !prefix.contains('{'),
    ensures
        ({
            let text = prefix + seq!['{'] + body + seq!['}'];
            !is_blank(text) ==> json_span(text) == Err::<Seq<char>, TranscriptionError>(
                TranscriptionError::InvalidRange,
            )
        }),
{
    let text = prefix + seq!['{'] + body + seq!['}'];
    let start: int = prefix.len() as int;
    let last: int = (prefix.len() + 1 + body.len()) as int;
    assert(text[start] == '{');
    assert forall|j: int| 0 <= j < start implies text[j] != '{' by {
        assert(text[j] == prefix[j]);
    }
    crate::text::lemma_first_index_unique(text, '{', start);
    assert(text[last] == '}');
    crate::text::lemma_last_index_unique(text, '}', last);
    is_ascii_chars_encode_utf8(text);
}

/// Cuts the JSON document out of the printed text (see `json_span`).
pub fn json_span_of(text: &str) -> (r: Result<&str, TranscriptionError>)
    ensures
        match r {
            Ok(s) => json_span(text@) == Ok::<Seq<char>, TranscriptionError>(s@),
            Err(e) => json_span(text@) == Err::<Seq<char>, TranscriptionError>(e),
        },
{
    if trim(text).is_empty() {
        return Err(TranscriptionError::EmptyTranscription);
    }
    let chars = char_vec(text);
    let start: usize = match find_first(&chars, '{') {
        Some(i) => i,
        None => {
            return Err(TranscriptionError::MissingOpeningBrace);
        },
    };
    let last: usize = match find_last(&chars, '}') {
        Some(i) => i,
        None => {
            return Err(TranscriptionError::MissingClosingBrace);
        },
    };
    let bytes = text.as_bytes();
    let n: usize = bytes.len();
    let ghost b = encode_utf8(text@);
    assert(bytes@ == b);
    if last >= n || n - last < 2 {
        return Err(TranscriptionError::InvalidRange);
    }
    let end: usize = last + 2;
    if start > end || !text.is_char_boundary(start) || !text.is_char_boundary(end) {
        return Err(TranscriptionError::InvalidRange);
    }
    proof {
        lemma_boundary_in_prefix(b, start as int, end as int);
    }
    let (head, _) = text.split_at(end);
    assert(head.spec_bytes() == b.subrange(0, end as int));
    let (_, mid) = head.split_at(start);
    proof {
        assert(mid.spec_bytes() =~= b.subrange(start as int, end as int));
        encode_utf8_decode_utf8(mid@);
    }
    Ok(mid)
}

/// Reads the transcription document out of the printed bytes, or says why
/// it cannot be read.
fn read_transcriptions(stdout: &[u8]) -> (r: Result<Transcriptions, TranscriptionError>)
    ensures
        match r {
            Ok(t) => transcription_outcome(stdout@) == Ok::<
                Option<Seq<(Seq<char>, Seq<char>)>>,
                TranscriptionError,
            >(t@),
            Err(e) => transcription_outcome(stdout@) == Err::<
                Option<Seq<(Seq<char>, Seq<char>)>>,
                TranscriptionError,
            >(e),
        },
{
    let text = utf8_lossy(stdout);
    match json_span_of(text.as_str()) {
        Err(e) => Err(e),
        Ok(span) => transcriptions_from_json(span),
    }
}

/// The transcription document printed by `prattl transcribe`, for output
/// from which a document can be read.
pub fn transcribe_output_to_json(stdout: &[u8]) -> (t: Transcriptions)
    requires
        transcription_outcome(stdout@) is Ok,
    ensures
        transcription_outcome(stdout@) == Ok::<
            Option<Seq<(Seq<char>, Seq<char>)>>,
            TranscriptionError,
        >(t@),
{
    match read_transcriptions(stdout) {
        Ok(t) => t,
        Err(_) => {
            proof {
                assert(false);
            }
            Transcriptions { entries: None }
        },
    }
}

/// The transcription document printed by `prattl transcribe`, or why none
/// can be read from the output.
pub fn checked_transcribe_output_to_json(stdout: &[u8]) -> (r: Result<
    Transcriptions,
    TranscriptionError,
>)
    ensures
        match r {
            Ok(t) => transcription_outcome(stdout@) == Ok::<
                Option<Seq<(Seq<char>, Seq<char>)>>,
                TranscriptionError,
            >(t@),
            Err(e) => transcription_outcome(stdout@) == Err::<
                Option<Seq<(Seq<char>, Seq<char>)>>,
                TranscriptionError,
            >(e),
        },
{
    match read_transcriptions(stdout) {
        Err(e) => Err(e),
        Ok(_) => Ok(transcribe_output_to_json(stdout)),
    }
}

} // verus!
