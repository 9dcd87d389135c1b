use transcription_analyzer::text::{
    char_vec, contains_chars, find_first, find_last, rsplit_once_char, split_once_char, trim,
};
use transcription_analyzer::{is_quit_event, parse_confirmation};

#[test]
fn trim_removes_surrounding_whitespace() {
    assert_eq!(trim("  a b \n\t"), "a b");
    assert_eq!(trim("\u{A0}x\u{3000}"), "x");
    assert_eq!(trim(" \n\t "), "");
    assert_eq!(trim(""), "");
}

#[test]
fn rsplit_once_splits_at_last_char() {
    assert_eq!(rsplit_once_char("a.b.c", '.'), Some(("a.b", "c")));
    assert_eq!(rsplit_once_char(".hidden", '.'), Some(("", "hidden")));
    assert_eq!(rsplit_once_char("name.", '.'), Some(("name", "")));
    assert_eq!(rsplit_once_char("plain", '.'), None);
}

#[test]
fn split_once_splits_at_first_char() {
    assert_eq!(split_once_char("tmp/dir/file", '/'), Some(("tmp", "dir/file")));
    assert_eq!(split_once_char("/abs", '/'), Some(("", "abs")));
    assert_eq!(split_once_char("none", '/'), None);
}

#[test]
fn find_first_and_last_positions() {
    let v = char_vec("x{y}z}");
    assert_eq!(find_first(&v, '{'), Some(1));
    assert_eq!(find_last(&v, '}'), Some(5));
    assert_eq!(find_first(&v, 'q'), None);
    assert_eq!(find_last(&v, 'q'), None);
}

#[test]
fn char_vec_counts_characters_not_bytes() {
    assert_eq!(char_vec("héllo").len(), 5);
    assert_eq!(char_vec(""), Vec::<char>::new());
}

#[test]
fn contains_finds_substrings() {
    let hay = char_vec("model doesn't exist yet");
    assert!(contains_chars(&hay, &char_vec("doesn't exist")));
    assert!(contains_chars(&hay, &char_vec("")));
    assert!(!contains_chars(&hay, &char_vec("compressed: true")));
    assert!(!contains_chars(&char_vec("ab"), &char_vec("abc")));
}

#[test]
fn confirmation_answers() {
    assert_eq!(parse_confirmation("y\n"), Some(true));
    assert_eq!(parse_confirmation("  Yes please\n"), Some(true));
    assert_eq!(parse_confirmation("Y"), Some(true));
    assert_eq!(parse_confirmation("n\n"), Some(false));
    assert_eq!(parse_confirmation("whatever"), Some(false));
    assert_eq!(parse_confirmation("\n"), None);
    assert_eq!(parse_confirmation(""), None);
}

#[test]
fn quit_event_is_a_q_press() {
    assert!(is_quit_event(true, Some('q')));
    assert!(!is_quit_event(false, Some('q')));
    assert!(!is_quit_event(true, Some('Q')));
    assert!(!is_quit_event(true, None));
}

#[test]
fn confirmation_replies() {
    assert_eq!(transcription_analyzer::confirmation_reply("yes\n"), Ok(true));
    assert_eq!(transcription_analyzer::confirmation_reply("No\n"), Ok(false));
    assert_eq!(
        transcription_analyzer::confirmation_reply(" \n"),
        Err(" \n is not valid input (Y/N)".to_string())
    );
}

#[test]
fn every_nonblank_line_is_an_answer() {
    assert_eq!(parse_confirmation("\u{2003}\u{85}\u{3000}\n"), None);
    assert_eq!(parse_confirmation("\u{200b}"), Some(false));
    assert_eq!(parse_confirmation("\u{2003}y\u{3000}"), Some(true));
}

#[test]
fn asking_stops_at_the_first_nonblank_line() {
    let lines = ["\n", "   \n", "Yep\n", "n\n"];
    let mut read = 0;
    let mut answer = None;
    for line in lines {
        read += 1;
        if let Ok(b) = transcription_analyzer::confirmation_reply(line) {
            answer = Some(b);
            break;
        }
    }
    assert_eq!(read, 3);
    assert_eq!(answer, Some(true));
}

#[test]
fn screen_ends_at_first_q_press() {
    let events = [(true, Some('Q')), (false, Some('q')), (true, None), (true, Some('q'))];
    let stop = events.iter().position(|(p, k)| is_quit_event(*p, *k));
    assert_eq!(stop, Some(3));
}
