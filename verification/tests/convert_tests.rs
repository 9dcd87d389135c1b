use transcription_analyzer::convert::{
    conversion_succeeded, ffmpeg_mov_to_mp3_args, is_mp3_file_name, mov_audio_target, TMP_DIR,
};

#[test]
fn mov_files_get_an_mp3_target() {
    assert_eq!(mov_audio_target("IMG_0001.MOV"), Some("tmp/IMG_0001.mp3".to_string()));
    assert_eq!(mov_audio_target("clip.mov"), Some("tmp/clip.mp3".to_string()));
    assert_eq!(mov_audio_target("a.b.Mov"), Some("tmp/a.b.mp3".to_string()));
    assert_eq!(mov_audio_target(".mov"), Some("tmp/.mp3".to_string()));
}

#[test]
fn other_files_are_not_converted() {
    assert_eq!(mov_audio_target("song.mp3"), None);
    assert_eq!(mov_audio_target("mov"), None);
    assert_eq!(mov_audio_target("clip.mov.txt"), None);
}

#[test]
fn mp3_files_are_recognized() {
    assert!(is_mp3_file_name("a.mp3"));
    assert!(is_mp3_file_name("A.MP3"));
    assert!(is_mp3_file_name("x.y.Mp3"));
    assert!(!is_mp3_file_name("mp3"));
    assert!(!is_mp3_file_name("a.mp3.bak"));
    assert!(!is_mp3_file_name("a.mov"));
}

#[test]
fn ffmpeg_arguments() {
    let args = ffmpeg_mov_to_mp3_args("in/a.MOV", "tmp/a.mp3");
    assert_eq!(
        args,
        vec!["-i", "in/a.MOV", "-vn", "-acodec", "libmp3lame", "-q:a", "2", "tmp/a.mp3"]
    );
}

#[test]
fn conversion_success_needs_exit_code_zero() {
    assert!(conversion_succeeded(Some(0)));
    assert!(!conversion_succeeded(Some(1)));
    assert!(!conversion_succeeded(Some(-1)));
    assert!(!conversion_succeeded(None));
}

#[test]
fn tmp_dir_name() {
    assert_eq!(TMP_DIR, "tmp");
}

use transcription_analyzer::convert::{mp3_file_indices, plan_mov_conversions, ListedEntry};

fn listing(entries: &[(bool, &str)]) -> Vec<ListedEntry> {
    entries
        .iter()
        .map(|(f, n)| ListedEntry { is_file: *f, file_name: n.to_string() })
        .collect()
}

#[test]
fn conversions_of_a_listing() {
    let l = listing(&[
        (true, "A.MOV"),
        (false, "dir.mov"),
        (true, "b.mp3"),
        (true, "c.mov"),
        (true, "notes"),
    ]);
    assert_eq!(
        plan_mov_conversions(&l),
        vec![(0, "tmp/A.mp3".to_string()), (3, "tmp/c.mp3".to_string())]
    );
    assert!(plan_mov_conversions(&listing(&[])).is_empty());
}

#[test]
fn mp3_files_of_a_listing() {
    let l = listing(&[
        (true, "a.mp3"),
        (false, "d.mp3"),
        (true, "B.MP3"),
        (true, "c.mov"),
        (true, "mp3"),
    ]);
    assert_eq!(mp3_file_indices(&l), vec![0, 2]);
}

use transcription_analyzer::convert::{last_conversions, succeeded_conversions};

fn strings(v: &[&str]) -> Vec<String> {
    v.iter().map(|s| s.to_string()).collect()
}

#[test]
fn only_the_last_conversion_of_a_target_is_waited_for() {
    let targets = strings(&["tmp/a.mp3", "tmp/b.mp3", "tmp/a.mp3", "tmp/c.mp3", "tmp/b.mp3"]);
    assert_eq!(last_conversions(&targets), vec![2, 3, 4]);
    assert_eq!(last_conversions(&strings(&["tmp/x.mp3", "tmp/y.mp3"])), vec![0, 1]);
    assert!(last_conversions(&vec![]).is_empty());
}

#[test]
fn converted_files_are_those_exiting_with_zero() {
    let results = vec![
        ("tmp/a.mp3".to_string(), Some(0)),
        ("tmp/b.mp3".to_string(), Some(1)),
        ("tmp/c.mp3".to_string(), None),
        ("tmp/d.mp3".to_string(), Some(0)),
    ];
    assert_eq!(succeeded_conversions(&results), strings(&["tmp/a.mp3", "tmp/d.mp3"]));
}
