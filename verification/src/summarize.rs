//! Planning the summaries of a transcription document: which transcriptions
//! get summarized, the markdown file each summary is saved under, and how a
//! summary and its transcription are laid out in that file.
use vstd::prelude::*;

use crate::text::{
    is_blank, lowercase_text, main_separator, rsplit_once, rsplit_once_char, split_once,
    split_once_char, to_lowercase, trim,
};
use crate::convert::{lemma_mov_target, mov_audio_target_of, TMP_DIR};
use crate::transcriptions::{entries_view, Transcriptions};

verus! {

// ---------------------------------------------------------------------------
// File names
// ---------------------------------------------------------------------------

/// The markdown file name for a transcription key (a path such as
/// `tmp/IMG_0001.mp3`): drop what follows the last `.`, then drop what
/// precedes the first path separator `sep`, lower-case the rest and add
/// `.md`.
pub open spec fn name_from_key(key: Seq<char>, sep: char) -> Seq<char> {
    let stem = match rsplit_once(key, '.') {
        Some((before, _)) => before,
        None => key,
    };
    let name = match split_once(stem, sep) {
        Some((_, after)) => after,
        None => stem,
    };
    lowercase_text(name) + ".md"@
}

/// The markdown file name for a transcription key, with `sep` as the path
/// separator.
pub fn name_from_key_with_separator(key: &str, sep: char) -> (r: String)
    ensures
        r@ == name_from_key(key@, sep),
{
    let stem: &str = match rsplit_once_char(key, '.') {
        Some((before, _)) => before,
        None => key,
    };
    let name: &str = match split_once_char(stem, sep) {
        Some((_, after)) => after,
        None => stem,
    };
    to_lowercase(name).concat(".md")
}

/// The markdown file name for a transcription key, with the platform's path
/// separator.
pub fn get_name_from_key(key: &str) -> (r: String)
    ensures
        exists|sep: char| r@ == name_from_key(key@, sep),
{
    let sep = main_separator();
    name_from_key_with_separator(key, sep)
}

/// A key made of a directory without separators, a separator, a stem, a dot
/// and an extension without dots is saved as the lower-cased stem with `.md`.
pub proof fn lemma_name_from_path_key(dir: Seq<char>, stem: Seq<char>, ext: Seq<char>, sep: char)
    requires
        !dir.contains(sep),
        !ext.contains('.'),
        sep != '.',
    ensures
        name_from_key(dir + seq![sep] + stem + seq!['.'] + ext, sep) == lowercase_text(stem)
            + ".md"@,
{
    let key = dir + seq![sep] + stem + seq!['.'] + ext;
    let dot: int = (dir.len() + 1 + stem.len()) as int;
    assert(key[dot] == '.');
    assert forall|j: int| dot < j < key.len() implies key[j] != '.' by {
        assert(key[j] == ext[j - dot - 1]);
    }
    crate::text::lemma_last_index_unique(key, '.', dot);
    let before = key.take(dot);
    assert(before =~= dir + seq![sep] + stem);
    let s: int = dir.len() as int;
    assert(before[s] == sep);
    assert forall|j: int| 0 <= j < s implies before[j] != sep by {
        assert(before[j] == dir[j]);
    }
    crate::text::lemma_first_index_unique(before, sep, s);
    assert(before.skip(s + 1) =~= stem);
}

/// A key without dots or separators is saved under its lower-cased self.
pub proof fn lemma_name_from_plain_key(key: Seq<char>, sep: char)
    requires
        !key.contains('.'),
        !key.contains(sep),
    ensures
        name_from_key(key, sep) == lowercase_text(key) + ".md"@,
{
}

// ---------------------------------------------------------------------------
// Summary documents
// ---------------------------------------------------------------------------

/// A summary followed by its transcription as a footnote, indented by four
/// spaces.
pub open spec fn summary_and_transcription(sum: Seq<char>, trans: Seq<char>) -> Seq<char> {
    "\n    "@ + sum + "\n\n    [^Recording]:\n    <small>\n    "@ + trans + "\n    </small>"@
}

/// A summary followed by its transcription as a footnote, unindented.
pub open spec fn summary_document(sum: Seq<char>, trans: Seq<char>) -> Seq<char> {
    "\n"@ + sum + "\n\n[^Recording]:\n<small>\n"@ + trans + "\n</small>"@
}

/// The unindented document holds, in order and each whole: a newline, the
/// summary, the footnote header, the transcription and the closing tag.
pub proof fn lemma_summary_document_layout(sum: Seq<char>, trans: Seq<char>)
    ensures
        ({
            let d = summary_document(sum, trans);
            let s: int = sum.len() as int;
            let t: int = trans.len() as int;
            &&& d.len() == s + t + 34
            &&& d[0] == '\n'
            &&& d.subrange(1, 1 + s) == sum
            &&& d.subrange(1 + s, 25 + s) == "\n\n[^Recording]:\n<small>\n"@
            &&& d.subrange(25 + s, 25 + s + t) == trans
            &&& d.subrange(25 + s + t, d.len() as int) == "\n</small>"@
        }),
{
    reveal_strlit("\n");
    reveal_strlit("\n\n[^Recording]:\n<small>\n");
    reveal_strlit("\n</small>");
    let d = summary_document(sum, trans);
    let s: int = sum.len() as int;
    let t: int = trans.len() as int;
    assert(d.subrange(1, 1 + s) =~= sum);
    assert(d.subrange(1 + s, 25 + s) =~= "\n\n[^Recording]:\n<small>\n"@);
    assert(d.subrange(25 + s, 25 + s + t) =~= trans);
    assert(d.subrange(25 + s + t, d.len() as int) =~= "\n</small>"@);
}

/// The indented document holds, in order and each whole: a newline and
/// indent, the summary, the indented footnote header, the transcription and
/// the indented closing tag.
pub proof fn lemma_summary_and_transcription_layout(sum: Seq<char>, trans: Seq<char>)
    ensures
        ({
            let d = summary_and_transcription(sum, trans);
            let s: int = sum.len() as int;
            let t: int = trans.len() as int;
            &&& d.len() == s + t + 54
            &&& d.subrange(0, 5) == "\n    "@
            &&& d.subrange(5, 5 + s) == sum
            &&& d.subrange(5 + s, 41 + s) == "\n\n    [^Recording]:\n    <small>\n    "@
            &&& d.subrange(41 + s, 41 + s + t) == trans
            &&& d.subrange(41 + s + t, d.len() as int) == "\n    </small>"@
        }),
{
    reveal_strlit("\n    ");
    reveal_strlit("\n\n    [^Recording]:\n    <small>\n    ");
    reveal_strlit("\n    </small>");
    let d = summary_and_transcription(sum, trans);
    let s: int = sum.len() as int;
    let t: int = trans.len() as int;
    assert(d.subrange(0, 5) =~= "\n    "@);
    assert(d.subrange(5, 5 + s) =~= sum);
    assert(d.subrange(5 + s, 41 + s) =~= "\n\n    [^Recording]:\n    <small>\n    "@);
    assert(d.subrange(41 + s, 41 + s + t) =~= trans);
    assert(d.subrange(41 + s + t, d.len() as int) =~= "\n    </small>"@);
}

/// Lays out a summary with its transcription as a footnote, indented.
pub fn format_summary_and_transcription(sum: &str, trans: &str) -> (r: String)
    ensures
        r@ == summary_and_transcription(sum@, trans@),
{
    String::from_str("\n    ").concat(sum).concat("\n\n    [^Recording]:\n    <small>\n    ").concat(
        trans,
    ).concat("\n    </small>")
}

/// Lays out a summary with its transcription as a footnote, unindented.
pub fn format_summary_document(sum: &str, trans: &str) -> (r: String)
    ensures
        r@ == summary_document(sum@, trans@),
{
    String::from_str("\n").concat(sum).concat("\n\n[^Recording]:\n<small>\n").concat(trans).concat(
        "\n</small>",
    )
}

// ---------------------------------------------------------------------------
// Summary jobs
// ---------------------------------------------------------------------------

/// One transcription to summarize, and the file name its summary is saved
/// under.
pub struct SummaryJob {
    pub file_name: String,
    pub transcript: String,
}

pub open spec fn job_view(job: SummaryJob) -> (Seq<char>, Seq<char>) {
    (job.file_name@, job.transcript@)
}

/// The jobs for the entries of a document, in order: every entry whose
/// transcription text is not blank, saved under the name of its key.
pub open spec fn summary_jobs_of(entries: Seq<(Seq<char>, Seq<char>)>, sep: char) -> Seq<
    (Seq<char>, Seq<char>),
>
    decreases entries.len(),
{
    if entries.len() == 0 {
        seq![]
    } else {
        let rest = summary_jobs_of(entries.drop_last(), sep);
        let (key, text) = entries.last();
        if is_blank(text) {
            rest
        } else {
            rest.push((name_from_key(key, sep), text))
        }
    }
}

/// The summary jobs of an object document, with `sep` as the path separator.
pub fn plan_summaries(doc: &Transcriptions, sep: char) -> (jobs: Vec<SummaryJob>)
    requires
        doc@ is Some,
    ensures
        jobs@.map_values(|j: SummaryJob| job_view(j)) == summary_jobs_of(doc@->0, sep),
{
    let entries = match &doc.entries {
        Some(es) => es,
        None => {
            proof {
                assert(false);
            }
            return Vec::new();
        },
    };
    let ghost all = entries_view(entries@);
    let mut jobs: Vec<SummaryJob> = Vec::new();
    for i in 0..entries.len()
        invariant
            all == entries_view(entries@),
            all.len() == entries@.len(),
            jobs@.map_values(|j: SummaryJob| job_view(j)) == summary_jobs_of(all.take(i as int), sep),
    {
        let key: &str = entries[i].0.as_str();
        let text: &str = entries[i].1.as_str();
        let ghost before = jobs@.map_values(|j: SummaryJob| job_view(j));
        assert(all.take(i + 1).drop_last() =~= all.take(i as int));
        assert(all.take(i + 1).last() == (key@, text@));
        if !trim(text).is_empty() {
            let job = SummaryJob {
                file_name: name_from_key_with_separator(key, sep),
                transcript: String::from_str(text),
            };
            jobs.push(job);
            assert(jobs@.map_values(|j: SummaryJob| job_view(j)) =~= before.push(job_view(job)));
        }
    }
    assert(all.take(entries@.len() as int) =~= all);
    jobs
}

/// The summary jobs of an object document, with the platform's path
/// separator.
pub fn summary_jobs(doc: &Transcriptions) -> (jobs: Vec<SummaryJob>)
    requires
        doc@ is Some,
    ensures
        exists|sep: char|
            jobs@.map_values(|j: SummaryJob| job_view(j)) == summary_jobs_of(doc@->0, sep),
{
    let sep = main_separator();
    plan_summaries(doc, sep)
}

/// There is never more than one job per entry, and there is exactly one per
/// entry when no transcription is blank.
pub proof fn lemma_jobs_count(entries: Seq<(Seq<char>, Seq<char>)>, sep: char)
    ensures
        summary_jobs_of(entries, sep).len() <= entries.len(),
        (forall|i: int| 0 <= i < entries.len() ==> !is_blank(#[trigger] entries[i].1))
            ==> summary_jobs_of(entries, sep).len() == entries.len(),
    decreases entries.len(),
{
    if entries.len() > 0 {
        lemma_jobs_count(entries.drop_last(), sep);
        if forall|i: int| 0 <= i < entries.len() ==> !is_blank(#[trigger] entries[i].1) {
            assert forall|i: int| 0 <= i < entries.drop_last().len() implies !is_blank(
                #[trigger] entries.drop_last()[i].1,
            ) by {
                assert(entries.drop_last()[i] == entries[i]);
            }
            assert(!is_blank(entries[entries.len() - 1].1));
        }
    }
}

/// Every job saves a transcription that is not blank, under a file name
/// that ends with `.md`.
pub proof fn lemma_jobs_are_markdown(entries: Seq<(Seq<char>, Seq<char>)>, sep: char)
    ensures
        forall|i: int|
            0 <= i < summary_jobs_of(entries, sep).len() ==> {
                let (name, text) = #[trigger] summary_jobs_of(entries, sep)[i];
                &&& !is_blank(text)
                &&& name.len() >= 3
                &&& name.subrange(name.len() - 3, name.len() as int) == ".md"@
            },
    decreases entries.len(),
{
    reveal_strlit(".md");
    if entries.len() > 0 {
        lemma_jobs_are_markdown(entries.drop_last(), sep);
        let rest = summary_jobs_of(entries.drop_last(), sep);
        let (key, text) = entries.last();
        let name = name_from_key(key, sep);
        assert(name.subrange(name.len() - 3, name.len() as int) =~= ".md"@);
        if !is_blank(text) {
            assert forall|i: int| 0 <= i < rest.len() implies rest.push((name, text))[i] == rest[i] by {}
        }
    }
}

/// A `.mov` recording `<stem>.<ext>` is converted to audio whose
/// transcription, keyed by the audio's path, is summarized into
/// `<lower-cased stem>.md` (with `/` as the path separator).
pub proof fn lemma_mov_recording_summary_name(stem: Seq<char>, ext: Seq<char>)
    requires
        !ext.contains('.'),
        lowercase_text(ext) == "mov"@,
    ensures
        mov_audio_target_of(stem + seq!['.'] + ext) matches Some(target) && name_from_key(
            target,
            '/',
        ) == lowercase_text(stem) + ".md"@,
{
    lemma_mov_target(stem, ext);
    reveal_strlit("tmp");
    reveal_strlit("/");
    reveal_strlit(".mp3");
    reveal_strlit("mp3");
    let dir = "tmp"@;
    let audio_ext = "mp3"@;
    assert(TMP_DIR@ + "/"@ + stem + ".mp3"@ =~= dir + seq!['/'] + stem + seq!['.'] + audio_ext);
    assert(!dir.contains('/')) by {
        assert forall|i: int| 0 <= i < dir.len() implies dir[i] != '/' by {}
    }
    assert(!audio_ext.contains('.')) by {
        assert forall|i: int| 0 <= i < audio_ext.len() implies audio_ext[i] != '.' by {}
    }
    lemma_name_from_path_key(dir, stem, audio_ext, '/');
}

/// The jobs are exactly the entries whose transcription is not blank, each
/// saved under the name of its key: so the summary files are the names of
/// the keys of those entries.
pub proof fn lemma_jobs_cover_entries(entries: Seq<(Seq<char>, Seq<char>)>, sep: char)
    ensures
        forall|k: int|
            #![trigger summary_jobs_of(entries, sep)[k]]
            0 <= k < summary_jobs_of(entries, sep).len() ==> exists|i: int|
                #![trigger entries[i]]
                0 <= i < entries.len() && !is_blank(entries[i].1) && summary_jobs_of(entries, sep)[k]
                    == (name_from_key(entries[i].0, sep), entries[i].1),
        forall|i: int|
            #![trigger entries[i]]
            0 <= i < entries.len() && !is_blank(entries[i].1) ==> exists|k: int|
                #![trigger summary_jobs_of(entries, sep)[k]]
                0 <= k < summary_jobs_of(entries, sep).len() && summary_jobs_of(entries, sep)[k]
                    == (name_from_key(entries[i].0, sep), entries[i].1),
    decreases entries.len(),
{
    if entries.len() > 0 {
        let prev = entries.drop_last();
        lemma_jobs_cover_entries(prev, sep);
        let rest = summary_jobs_of(prev, sep);
        let all = summary_jobs_of(entries, sep);
        let last: int = entries.len() - 1;
        assert forall|k: int| 0 <= k < rest.len() implies all[k] == rest[k] by {}
        assert forall|k: int| #![trigger all[k]] 0 <= k < all.len() implies exists|i: int|
            #![trigger entries[i]]
            0 <= i < entries.len() && !is_blank(entries[i].1) && all[k] == (
                name_from_key(entries[i].0, sep),
                entries[i].1,
            ) by {
            if k < rest.len() {
                let i: int = choose|i: int|
                    #![trigger prev[i]]
                    0 <= i < prev.len() && !is_blank(prev[i].1) && rest[k] == (
                        name_from_key(prev[i].0, sep),
                        prev[i].1,
                    );
                assert(prev[i] == entries[i]);
                assert(all[k] == rest[k]);
            } else {
                assert(all[k] == (name_from_key(entries[last].0, sep), entries[last].1));
            }
        }
        assert forall|i: int|
            #![trigger entries[i]]
            0 <= i < entries.len() && !is_blank(entries[i].1) implies exists|k: int|
            #![trigger all[k]]
            0 <= k < all.len() && all[k] == (name_from_key(entries[i].0, sep), entries[i].1) by {
            if i < last {
                assert(prev[i] == entries[i]);
                let k: int = choose|k: int|
                    #![trigger rest[k]]
                    0 <= k < rest.len() && rest[k] == (name_from_key(prev[i].0, sep), prev[i].1);
                assert(all[k] == rest[k]);
            } else {
                assert(all[all.len() - 1] == (name_from_key(entries[i].0, sep), entries[i].1));
            }
        }
    }
}

} // verus!
