use transcription_analyzer::summarize::{
    format_summary_and_transcription, format_summary_document, get_name_from_key,
    name_from_key_with_separator, plan_summaries, summary_jobs,
};
use transcription_analyzer::transcriptions::Transcriptions;

#[test]
fn names_from_keys() {
    assert_eq!(get_name_from_key("tmp/IMG_0001.mp3"), "img_0001.md");
    assert_eq!(get_name_from_key("Recording.MP3"), "recording.md");
    assert_eq!(get_name_from_key("plain"), "plain.md");
    assert_eq!(get_name_from_key("a/b/c.d.mp3"), "b/c.d.md");
    assert_eq!(get_name_from_key("/abs/File.mp3"), "abs/file.md");
}

#[test]
fn names_with_a_given_separator() {
    assert_eq!(name_from_key_with_separator("tmp\\Clip.mp3", '\\'), "clip.md");
    assert_eq!(name_from_key_with_separator("tmp/Clip.mp3", '\\'), "tmp/clip.md");
    assert_eq!(name_from_key_with_separator("", '/'), ".md");
}

#[test]
fn indented_layout() {
    assert_eq!(
        format_summary_and_transcription("## Sum", "words"),
        "\n    ## Sum\n\n    [^Recording]:\n    <small>\n    words\n    </small>"
    );
}

#[test]
fn unindented_layout() {
    assert_eq!(
        format_summary_document("## Sum", "\"words\""),
        "\n## Sum\n\n[^Recording]:\n<small>\n\"words\"\n</small>"
    );
}

fn doc(entries: &[(&str, &str)]) -> Transcriptions {
    Transcriptions {
        entries: Some(entries.iter().map(|(k, v)| (k.to_string(), v.to_string())).collect()),
    }
}

#[test]
fn jobs_skip_blank_transcriptions() {
    let d = doc(&[("tmp/A.mp3", "\"one\""), ("tmp/B.mp3", "  \n"), ("C.mp3", "\"three\"")]);
    let jobs = plan_summaries(&d, '/');
    assert_eq!(jobs.len(), 2);
    assert_eq!(jobs[0].file_name, "a.md");
    assert_eq!(jobs[0].transcript, "\"one\"");
    assert_eq!(jobs[1].file_name, "c.md");
    assert_eq!(jobs[1].transcript, "\"three\"");
}

#[test]
fn jobs_with_platform_separator() {
    let d = doc(&[("tmp/X.mp3", "\"x\"")]);
    let jobs = summary_jobs(&d);
    assert_eq!(jobs.len(), 1);
    assert_eq!(jobs[0].file_name, "x.md");
    let empty = doc(&[]);
    assert!(summary_jobs(&empty).is_empty());
}

#[test]
fn recording_is_summarized_under_its_lowercased_stem() {
    let target = transcription_analyzer::convert::mov_audio_target("Clip 3.MOV").unwrap();
    assert_eq!(target, "tmp/Clip 3.mp3");
    assert_eq!(name_from_key_with_separator(&target, '/'), "clip 3.md");
}

#[test]
fn one_job_per_nonblank_entry() {
    let d = doc(&[("a.mp3", "\"a\""), ("b.mp3", "\"b\""), ("c.mp3", "\"c\"")]);
    let jobs = plan_summaries(&d, '/');
    assert_eq!(jobs.len(), 3);
    assert!(jobs.iter().all(|j| j.file_name.ends_with(".md")));
}

#[test]
fn jobs_name_exactly_the_nonblank_keys() {
    let d = doc(&[("k/One.mp3", "\"1\""), ("k/Two.mp3", "\t"), ("k/Three.mp3", "\"3\"")]);
    let mut names: Vec<String> = plan_summaries(&d, '/').into_iter().map(|j| j.file_name).collect();
    names.sort();
    assert_eq!(names, vec!["one.md".to_string(), "three.md".to_string()]);
}
