use transcription_analyzer::prattl::{
    check_prattl_and_handle_status, checked_transcribe_output_to_json, is_prattl_installed,
    json_span_of, status_from_report, transcribe_command_args, transcribe_output_to_json,
    PrattlStatus,
};
use transcription_analyzer::transcriptions::{transcriptions_from_json, TranscriptionError};

#[test]
fn installed_only_when_which_succeeds() {
    assert!(is_prattl_installed(Some(0)));
    assert!(!is_prattl_installed(Some(1)));
    assert!(!is_prattl_installed(None));
}

#[test]
fn report_classification() {
    assert_eq!(status_from_report(b"Model Doesn't Exist\n"), PrattlStatus::NotPrepared);
    assert_eq!(status_from_report(b"COMPRESSED: TRUE"), PrattlStatus::Compressed);
    assert_eq!(status_from_report(b"compressed: false\n"), PrattlStatus::Ready);
    assert_eq!(status_from_report(b""), PrattlStatus::Ready);
    // the "not prepared" report wins over the "compressed" one
    assert_eq!(
        status_from_report(b"compressed: true; model doesn't exist"),
        PrattlStatus::NotPrepared
    );
    // invalid bytes are replaced, the rest is still read
    assert_eq!(status_from_report(b"\xff compressed: true"), PrattlStatus::Compressed);
}

#[test]
fn prompts_and_fix_commands() {
    assert_eq!(PrattlStatus::Ready.prompt(), "prattl is ready");
    assert_eq!(
        PrattlStatus::Compressed.prompt(),
        "prattl is compressed, run prattl decompress? (Y/n)"
    );
    assert_eq!(
        PrattlStatus::NotPrepared.prompt(),
        "prattl is not prepared, run prattl prepare? (Y/n)"
    );
    assert_eq!(
        PrattlStatus::NotInstalled.prompt(),
        "prattl is not installed, you can find instructions on installation here: https://www.prattl.co"
    );
    assert_eq!(PrattlStatus::Compressed.fix_command(), Some("decompress".to_string()));
    assert_eq!(PrattlStatus::NotPrepared.fix_command(), Some("prepare".to_string()));
    assert_eq!(PrattlStatus::Ready.fix_command(), None);
    assert_eq!(PrattlStatus::NotInstalled.fix_command(), None);
}

#[test]
fn handling_each_state() {
    let s = PrattlStatus::Ready.handle(false);
    assert_eq!(s.command, None);
    assert_eq!(s.outcome, Ok(()));

    let s = PrattlStatus::Compressed.handle(true);
    assert_eq!(s.command, Some("decompress".to_string()));
    assert_eq!(s.outcome, Ok(()));
    let s = PrattlStatus::Compressed.handle(false);
    assert_eq!(s.command, None);
    assert_eq!(s.outcome, Err("User did not want program to decompress prattl".to_string()));

    let s = PrattlStatus::NotPrepared.handle(true);
    assert_eq!(s.command, Some("prepare".to_string()));
    assert_eq!(s.outcome, Ok(()));
    let s = PrattlStatus::NotPrepared.handle(false);
    assert_eq!(s.command, None);
    assert_eq!(s.outcome, Err("User did not want program to prepare prattl".to_string()));

    let s = PrattlStatus::NotInstalled.handle(true);
    assert_eq!(s.command, None);
    assert_eq!(s.outcome, Err("prattl not installed".to_string()));
}

#[test]
fn check_returns_the_repair_command() {
    assert_eq!(check_prattl_and_handle_status(PrattlStatus::Ready, false), None);
    assert_eq!(check_prattl_and_handle_status(PrattlStatus::Ready, true), None);
    assert_eq!(
        check_prattl_and_handle_status(PrattlStatus::Compressed, true),
        Some("decompress".to_string())
    );
    assert_eq!(
        check_prattl_and_handle_status(PrattlStatus::NotPrepared, true),
        Some("prepare".to_string())
    );
}

#[test]
fn transcribe_arguments() {
    let files = vec!["tmp/a.mp3".to_string(), "b.mp3".to_string()];
    assert_eq!(transcribe_command_args(&files), vec!["transcribe", "tmp/a.mp3", "b.mp3"]);
    assert_eq!(transcribe_command_args(&vec![]), vec!["transcribe"]);
}

#[test]
fn span_runs_from_first_open_brace_to_one_past_last_close_brace() {
    assert_eq!(json_span_of("loading...\n{\"a\": 1}\n"), Ok("{\"a\": 1}\n"));
    assert_eq!(json_span_of("x{a}{b}yz"), Ok("{a}{b}y"));
    assert_eq!(json_span_of("{}}x"), Ok("{}}x"));
}

#[test]
fn span_errors() {
    assert_eq!(json_span_of(" \n\t"), Err(TranscriptionError::EmptyTranscription));
    assert_eq!(json_span_of(""), Err(TranscriptionError::EmptyTranscription));
    assert_eq!(json_span_of("no json}\n"), Err(TranscriptionError::MissingOpeningBrace));
    assert_eq!(json_span_of("{ unterminated\n"), Err(TranscriptionError::MissingClosingBrace));
    // ending right at the closing brace runs one byte past the text
    assert_eq!(json_span_of("{\"a\": 1}"), Err(TranscriptionError::InvalidRange));
    // a closing brace before the opening one leaves the start after the end
    assert_eq!(json_span_of("}ab{c"), Err(TranscriptionError::InvalidRange));
    // character positions are used as byte offsets: a non-ASCII character
    // before the brace moves the cut inside a character
    assert_eq!(json_span_of("é{\"a\":1}\n"), Err(TranscriptionError::InvalidRange));
}

#[test]
fn json_documents() {
    let t = transcriptions_from_json("{\"b.mp3\": \"second\", \"a.mp3\": \"first\"}").unwrap();
    assert!(t.is_object());
    let entries = t.entries.unwrap();
    assert_eq!(entries.len(), 2);
    assert!(entries.contains(&("a.mp3".to_string(), "\"first\"".to_string())));
    assert!(entries.contains(&("b.mp3".to_string(), "\"second\"".to_string())));

    let t = transcriptions_from_json("[1, 2]").unwrap();
    assert!(!t.is_object());
    assert_eq!(t.entries, None);

    assert_eq!(
        transcriptions_from_json("{not json").err(),
        Some(TranscriptionError::InvalidJson)
    );
}

#[test]
fn transcription_output_is_read() {
    let out = b"Transcribing 1 file\n{\"tmp/IMG.mp3\": \"hello there\"}\n";
    let t = transcribe_output_to_json(out);
    assert_eq!(
        t.entries,
        Some(vec![("tmp/IMG.mp3".to_string(), "\"hello there\"".to_string())])
    );
    let c = checked_transcribe_output_to_json(out).unwrap();
    assert_eq!(c.entries, t.entries);
}

#[test]
fn checked_transcription_errors() {
    assert_eq!(
        checked_transcribe_output_to_json(b"   \n").err(),
        Some(TranscriptionError::EmptyTranscription)
    );
    assert_eq!(
        checked_transcribe_output_to_json(b"nothing here}\n").err(),
        Some(TranscriptionError::MissingOpeningBrace)
    );
    assert_eq!(
        checked_transcribe_output_to_json(b"{ nothing\n").err(),
        Some(TranscriptionError::MissingClosingBrace)
    );
    assert_eq!(
        checked_transcribe_output_to_json(b"{\"a\": \"b\"}").err(),
        Some(TranscriptionError::InvalidRange)
    );
    assert_eq!(
        checked_transcribe_output_to_json(b"{\"a\": }\n").err(),
        Some(TranscriptionError::InvalidJson)
    );
    // an invalid byte becomes U+FFFD, three bytes long, so the cut starts
    // inside that character
    assert_eq!(
        checked_transcribe_output_to_json(b"\xff{\"a\": \"b\"}\n").err(),
        Some(TranscriptionError::InvalidRange)
    );
}
