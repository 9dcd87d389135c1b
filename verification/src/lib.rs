//! Transcribing recorded videos with the `prattl` tool and summarizing the
//! transcriptions: the decisions and text handling behind the program.
use vstd::prelude::*;

pub mod convert;
pub mod prattl;
pub mod summarize;
pub mod text;
pub mod transcriptions;

use crate::text::{
    char_vec, is_blank, lemma_trim_empty_iff_blank, lowercase_text, to_lowercase, trim, trim_text,
};

verus! {

/// The answer given by a line typed at a yes/no question: the first
/// character of the trimmed, lower-cased line says yes when there is one and
/// it is `y`, and no otherwise; a line with nothing in it but whitespace is no answer.
pub open spec fn confirmation_of(input: Seq<char>) -> Option<bool> {
    let trimmed = trim_text(input);
    if trimmed.len() == 0 {
        None
    } else {
        let answer = lowercase_text(trimmed);
        Some(answer.len() > 0 && answer[0] == 'y')
    }
}

/// Reads the answer to a yes/no question from a typed line; every line that
/// is not blank is an answer.
pub fn parse_confirmation(input: &str) -> (r: Option<bool>)
    ensures
        r == confirmation_of(input@),
        r is Some <==> !is_blank(input@),
{
    let trimmed = trim(input);
    let lower = to_lowercase(trimmed);
    let chars = char_vec(lower.as_str());
    proof {
        lemma_trim_empty_iff_blank(input@);
    }
    if chars.len() == 0 {
        None
    } else {
        Some(chars[0] == 'y')
    }
}

/// A line answers exactly when it is not blank, and its answer is yes
/// exactly when the trimmed, lower-cased line begins with `y`: only the first
/// character counts, whatever follows it.
pub proof fn lemma_confirmation_reads_first_char(input: Seq<char>)
    ensures
        confirmation_of(input) is Some <==> !is_blank(input),
        !is_blank(input) ==> (confirmation_of(input) == Some(true) <==> ({
            let answer = lowercase_text(trim_text(input));
            answer.len() > 0 && answer[0] == 'y'
        })),
        !is_blank(input) ==> (confirmation_of(input) == Some(false) <==> ({
            let answer = lowercase_text(trim_text(input));
            answer.len() == 0 || answer[0] != 'y'
        })),
{
    lemma_trim_empty_iff_blank(input);
}

/// Two lines that are not blank and whose trimmed, lower-cased texts begin
/// with the same character get the same answer.
pub proof fn lemma_confirmation_same_first_char(a: Seq<char>, b: Seq<char>)
    requires
        !is_blank(a),
        !is_blank(b),
        lowercase_text(trim_text(a)).len() > 0,
        lowercase_text(trim_text(b)).len() > 0,
        lowercase_text(trim_text(a))[0] == lowercase_text(trim_text(b))[0],
    ensures
        confirmation_of(a) == confirmation_of(b),
{
    lemma_trim_empty_iff_blank(a);
    lemma_trim_empty_iff_blank(b);
}

/// The reply to a typed line: the answer, or the message that asks again.
pub open spec fn confirmation_reply_of(input: Seq<char>) -> Result<bool, Seq<char>> {
    match confirmation_of(input) {
        Some(b) => Ok(b),
        None => Err(input + " is not valid input (Y/N)"@),
    }
}

/// Replies to a line typed at a yes/no question: its answer, or, for a line
/// that is no answer, the message to show before asking again.
pub fn confirmation_reply(input: &str) -> (r: Result<bool, String>)
    ensures
        match r {
            Ok(b) => confirmation_reply_of(input@) == Ok::<bool, Seq<char>>(b),
            Err(m) => confirmation_reply_of(input@) == Err::<bool, Seq<char>>(m@),
        },
{
    match parse_confirmation(input) {
        Some(b) => Ok(b),
        None => Err(String::from_str(input).concat(" is not valid input (Y/N)")),
    }
}

/// What asking gives when the user types `lines` one after another: the
/// position of the line that answers and its answer, or nothing when no
/// line answers.
pub open spec fn confirmation_loop(lines: Seq<Seq<char>>) -> Option<(int, bool)>
    decreases lines.len(),
{
    if lines.len() == 0 {
        None
    } else {
        match confirmation_of(lines[0]) {
            Some(b) => Some((0, b)),
            None => match confirmation_loop(lines.drop_first()) {
                Some((i, b)) => Some((i + 1, b)),
                None => None,
            },
        }
    }
}

/// Asking reads up to and including the first line that is not blank, and
/// that line's answer is the answer; blank lines before it are asked again.
pub proof fn lemma_confirmation_first_nonblank(lines: Seq<Seq<char>>, i: int)
    requires
        0 <= i < lines.len(),
        !is_blank(lines[i]),
        forall|j: int| 0 <= j < i ==> is_blank(#[trigger] lines[j]),
    ensures
        confirmation_of(lines[i]) is Some,
        confirmation_loop(lines) == Some((i, confirmation_of(lines[i])->0)),
        forall|j: int| 0 <= j < i ==> confirmation_reply_of(#[trigger] lines[j]) is Err,
    decreases i,
{
    lemma_trim_empty_iff_blank(lines[i]);
    assert forall|j: int| 0 <= j < i implies confirmation_reply_of(#[trigger] lines[j]) is Err by {
        lemma_trim_empty_iff_blank(lines[j]);
    }
    if i > 0 {
        lemma_trim_empty_iff_blank(lines[0]);
        let rest = lines.drop_first();
        assert forall|j: int| 0 <= j < i - 1 implies is_blank(#[trigger] rest[j]) by {
            assert(rest[j] == lines[j + 1]);
        }
        lemma_confirmation_first_nonblank(rest, i - 1);
        assert(rest[i - 1] == lines[i]);
    }
}

/// While every typed line is blank, asking gives no answer.
pub proof fn lemma_confirmation_all_blank(lines: Seq<Seq<char>>)
    requires
        forall|j: int| 0 <= j < lines.len() ==> is_blank(#[trigger] lines[j]),
    ensures
        confirmation_loop(lines) is None,
    decreases lines.len(),
{
    if lines.len() > 0 {
        lemma_trim_empty_iff_blank(lines[0]);
        let rest = lines.drop_first();
        assert forall|j: int| 0 <= j < rest.len() implies is_blank(#[trigger] rest[j]) by {
            assert(rest[j] == lines[j + 1]);
        }
        lemma_confirmation_all_blank(rest);
    }
}

/// Whether a terminal key event ends the interactive screen: a press of the
/// `q` key (`key` is the character of a character key, `None` for others).
pub fn is_quit_event(is_press: bool, key: Option<char>) -> (b: bool)
    ensures
        b == (is_press && key == Some('q')),
{
    match key {
        Some(c) => is_press && c == 'q',
        None => false,
    }
}

/// Where the interactive screen ends for a run of key events (each a press
/// flag and the character of a character key): at the first press of `q`.
pub open spec fn quit_position(events: Seq<(bool, Option<char>)>) -> Option<int>
    decreases events.len(),
{
    if events.len() == 0 {
        None
    } else if events[0].0 && events[0].1 == Some('q') {
        Some(0)
    } else {
        match quit_position(events.drop_first()) {
            Some(i) => Some(i + 1),
            None => None,
        }
    }
}

/// The screen ends at the first press of `q`; no other event ends it.
pub proof fn lemma_quit_at_first_q_press(events: Seq<(bool, Option<char>)>, i: int)
    requires
        0 <= i < events.len(),
        events[i] == (true, Some('q')),
        forall|j: int|
            0 <= j < i ==> !(#[trigger] events[j].0 && events[j].1 == Some('q')),
    ensures
        quit_position(events) == Some(i),
    decreases i,
{
    if i > 0 {
        let rest = events.drop_first();
        assert forall|j: int| 0 <= j < i - 1 implies !(#[trigger] rest[j].0 && rest[j].1 == Some(
            'q',
        )) by {
            assert(rest[j] == events[j + 1]);
        }
        lemma_quit_at_first_q_press(rest, i - 1);
    }
}

} // verus!
