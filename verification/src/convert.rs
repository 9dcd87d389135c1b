//! Choosing the video files to convert to audio, where their audio goes,
//! and how ffmpeg is asked to do the conversion.
use vstd::prelude::*;

use crate::text::{lowercase_text, opt_text, rsplit_once, rsplit_once_char, to_lowercase};

verus! {

/// The directory the converted audio files are written to.
pub const TMP_DIR: &'static str = "tmp";

/// The extension of a file name (what follows its last `.`), lower-cased,
/// if it has one.
pub open spec fn lower_extension(file_name: Seq<char>) -> Option<Seq<char>> {
    match rsplit_once(file_name, '.') {
        Some((_, ext)) => Some(lowercase_text(ext)),
        None => None,
    }
}

/// Where the audio of a `.mov` file goes: `<TMP_DIR>/<stem>.mp3`, for a file name
/// whose extension is `mov` in any case; other files are not converted.
pub open spec fn mov_audio_target_of(file_name: Seq<char>) -> Option<Seq<char>> {
    match rsplit_once(file_name, '.') {
        Some((stem, ext)) => if lowercase_text(ext) == "mov"@ {
            Some(TMP_DIR@ + "/"@ + stem + ".mp3"@)
        } else {
            None
        },
        None => None,
    }
}

/// Where the audio of a video file goes, if it is a `.mov` file.
pub fn mov_audio_target(file_name: &str) -> (r: Option<String>)
    ensures
        opt_text(r) == mov_audio_target_of(file_name@),
{
    match rsplit_once_char(file_name, '.') {
        Some((stem, ext)) => {
            let lower = to_lowercase(ext);
            if lower == String::from_str("mov") {
                Some(String::from_str(TMP_DIR).concat("/").concat(stem).concat(".mp3"))
            } else {
                None
            }
        },
        None => None,
    }
}

/// Whether a file name has the extension `mp3`, in any case.
pub fn is_mp3_file_name(file_name: &str) -> (b: bool)
    ensures
        b == (lower_extension(file_name@) == Some("mp3"@)),
{
    match rsplit_once_char(file_name, '.') {
        Some((_, ext)) => {
            let lower = to_lowercase(ext);
            lower == String::from_str("mp3")
        },
        None => false,
    }
}

/// A file whose name is a stem, a dot and an extension without dots that
/// lower-cases to `mov` has its audio written to `<TMP_DIR>/<stem>.mp3`.
pub proof fn lemma_mov_target(stem: Seq<char>, ext: Seq<char>)
    requires
        !ext.contains('.'),
        lowercase_text(ext) == "mov"@,
    ensures
        mov_audio_target_of(stem + seq!['.'] + ext) == Some(TMP_DIR@ + "/"@ + stem + ".mp3"@),
{
    let name = stem + seq!['.'] + ext;
    let dot: int = stem.len() as int;
    assert(name[dot] == '.');
    assert forall|j: int| dot < j < name.len() implies name[j] != '.' by {
        assert(name[j] == ext[j - dot - 1]);
    }
    crate::text::lemma_last_index_unique(name, '.', dot);
    assert(name.take(dot) =~= stem);
    assert(name.skip(dot + 1) =~= ext);
}

/// A file is converted exactly when its lower-cased extension is `mov`.
pub proof fn lemma_mov_target_iff_extension(file_name: Seq<char>)
    ensures
        mov_audio_target_of(file_name) is Some <==> lower_extension(file_name) == Some("mov"@),
{
}

/// The ffmpeg arguments that extract the audio of `mov` into `target` as
/// variable-bit-rate MP3 (quality 2), dropping the video.
pub fn ffmpeg_mov_to_mp3_args(mov: &str, target: &str) -> (args: Vec<String>)
    ensures
        args@.len() == 8,
        args@[0]@ == "-i"@,
        args@[1]@ == mov@,
        args@[2]@ == "-vn"@,
        args@[3]@ == "-acodec"@,
        args@[4]@ == "libmp3lame"@,
        args@[5]@ == "-q:a"@,
        args@[6]@ == "2"@,
        args@[7]@ == target@,
{
    let mut args: Vec<String> = Vec::new();
    args.push(String::from_str("-i"));
    args.push(String::from_str(mov));
    args.push(String::from_str("-vn"));
    args.push(String::from_str("-acodec"));
    args.push(String::from_str("libmp3lame"));
    args.push(String::from_str("-q:a"));
    args.push(String::from_str("2"));
    args.push(String::from_str(target));
    args
}

/// Whether a conversion succeeded: ffmpeg was waited for and exited with
/// code 0.
pub fn conversion_succeeded(exit_code: Option<i32>) -> (b: bool)
    ensures
        b == (exit_code == Some(0i32)),
{
    match exit_code {
        Some(code) => code == 0,
        None => false,
    }
}

// ---------------------------------------------------------------------------
// Directory listings
// ---------------------------------------------------------------------------

/// An entry of a directory listing: whether it is a file, and its name.
pub struct ListedEntry {
    pub is_file: bool,
    pub file_name: String,
}

pub open spec fn listed_view(e: ListedEntry) -> (bool, Seq<char>) {
    (e.is_file, e.file_name@)
}

pub open spec fn listing_view(entries: Seq<ListedEntry>) -> Seq<(bool, Seq<char>)> {
    entries.map_values(|e: ListedEntry| listed_view(e))
}

/// The conversions for a listing, in listing order: each file whose name is
/// a `.mov` file, by its position in the listing, with its audio target.
pub open spec fn mov_conversions_of(entries: Seq<(bool, Seq<char>)>) -> Seq<(int, Seq<char>)>
    decreases entries.len(),
{
    if entries.len() == 0 {
        seq![]
    } else {
        let rest = mov_conversions_of(entries.drop_last());
        let i: int = entries.len() - 1;
        let (is_file, name) = entries.last();
        match mov_audio_target_of(name) {
            Some(target) => if is_file {
                rest.push((i, target))
            } else {
                rest
            },
            None => rest,
        }
    }
}

/// The positions of the `.mp3` files of a listing, in listing order.
pub open spec fn mp3_files_of(entries: Seq<(bool, Seq<char>)>) -> Seq<int>
    decreases entries.len(),
{
    if entries.len() == 0 {
        seq![]
    } else {
        let rest = mp3_files_of(entries.drop_last());
        let (is_file, name) = entries.last();
        if is_file && lower_extension(name) == Some("mp3"@) {
            rest.push(entries.len() - 1)
        } else {
            rest
        }
    }
}

/// The `.mov` files of a directory listing to convert, with their targets.
pub fn plan_mov_conversions(entries: &Vec<ListedEntry>) -> (plan: Vec<(usize, String)>)
    ensures
        plan@.map_values(|p: (usize, String)| (p.0 as int, p.1@)) == mov_conversions_of(
            listing_view(entries@),
        ),
{
    let ghost all = listing_view(entries@);
    let mut plan: Vec<(usize, String)> = Vec::new();
    for i in 0..entries.len()
        invariant
            all == listing_view(entries@),
            all.len() == entries@.len(),
            plan@.map_values(|p: (usize, String)| (p.0 as int, p.1@)) == mov_conversions_of(
                all.take(i as int),
            ),
    {
        let ghost before = plan@.map_values(|p: (usize, String)| (p.0 as int, p.1@));
        assert(all.take(i + 1).drop_last() =~= all.take(i as int));
        assert(all.take(i + 1).last() == listed_view(entries@[i as int]));
        if entries[i].is_file {
            match mov_audio_target(entries[i].file_name.as_str()) {
                Some(target) => {
                    let ghost t = target@;
                    plan.push((i, target));
                    assert(plan@.map_values(|p: (usize, String)| (p.0 as int, p.1@)) =~= before.push(
                        (i as int, t),
                    ));
                },
                None => {},
            }
        }
    }
    assert(all.take(entries@.len() as int) =~= all);
    plan
}

/// The positions of the `.mp3` files of a directory listing.
pub fn mp3_file_indices(entries: &Vec<ListedEntry>) -> (found: Vec<usize>)
    ensures
        found@.map_values(|i: usize| i as int) == mp3_files_of(listing_view(entries@)),
{
    let ghost all = listing_view(entries@);
    let mut found: Vec<usize> = Vec::new();
    for i in 0..entries.len()
        invariant
            all == listing_view(entries@),
            all.len() == entries@.len(),
            found@.map_values(|k: usize| k as int) == mp3_files_of(all.take(i as int)),
    {
        let ghost before = found@.map_values(|k: usize| k as int);
        assert(all.take(i + 1).drop_last() =~= all.take(i as int));
        assert(all.take(i + 1).last() == listed_view(entries@[i as int]));
        if entries[i].is_file && is_mp3_file_name(entries[i].file_name.as_str()) {
            found.push(i);
            assert(found@.map_values(|k: usize| k as int) =~= before.push(i as int));
        }
    }
    assert(all.take(entries@.len() as int) =~= all);
    found
}

/// Every conversion is of a file in the listing whose name is a `.mov` file,
/// and every such file is converted; positions only grow.
pub proof fn lemma_mov_conversions_complete(entries: Seq<(bool, Seq<char>)>)
    ensures
        forall|k: int|
            0 <= k < mov_conversions_of(entries).len() ==> {
                let (i, target) = #[trigger] mov_conversions_of(entries)[k];
                &&& 0 <= i < entries.len()
                &&& entries[i].0
                &&& mov_audio_target_of(entries[i].1) == Some(target)
            },
        forall|i: int|
            0 <= i < entries.len() && entries[i].0 && #[trigger] mov_audio_target_of(entries[i].1)
                is Some ==> exists|k: int|
                0 <= k < mov_conversions_of(entries).len() && #[trigger] mov_conversions_of(
                    entries,
                )[k].0 == i,
        forall|k: int, l: int|
            0 <= k < l < mov_conversions_of(entries).len() ==> #[trigger] mov_conversions_of(
                entries,
            )[k].0 < #[trigger] mov_conversions_of(entries)[l].0,
    decreases entries.len(),
{
    if entries.len() > 0 {
        let prev = entries.drop_last();
        lemma_mov_conversions_complete(prev);
        let rest = mov_conversions_of(prev);
        let all = mov_conversions_of(entries);
        assert forall|k: int| 0 <= k < rest.len() implies all[k] == rest[k] by {}
        assert forall|i: int| 0 <= i < prev.len() implies prev[i] == entries[i] by {}
        assert forall|k: int| 0 <= k < rest.len() implies #[trigger] rest[k].0 < entries.len() - 1 by {}
        assert forall|i: int|
            0 <= i < entries.len() && entries[i].0 && #[trigger] mov_audio_target_of(
                entries[i].1,
            ) is Some implies exists|k: int|
            0 <= k < all.len() && #[trigger] all[k].0 == i by {
            if i < entries.len() - 1 {
                assert(prev[i] == entries[i]);
                let k: int = choose|k: int| 0 <= k < rest.len() && #[trigger] rest[k].0 == i;
                assert(all[k] == rest[k]);
            } else {
                assert(all[all.len() - 1].0 == i);
            }
        }
    }
}

/// A file name without what follows its last `.`.
pub open spec fn file_stem(file_name: Seq<char>) -> Seq<char> {
    match rsplit_once(file_name, '.') {
        Some((stem, _)) => stem,
        None => file_name,
    }
}

/// The `.mp3` files found are exactly the positions of the listing that hold
/// a file whose lower-cased extension is `mp3`, each once, in increasing
/// order.
pub proof fn lemma_mp3_files_exact(entries: Seq<(bool, Seq<char>)>)
    ensures
        forall|k: int|
            0 <= k < mp3_files_of(entries).len() ==> {
                let i: int = #[trigger] mp3_files_of(entries)[k];
                &&& 0 <= i < entries.len()
                &&& entries[i].0
                &&& lower_extension(entries[i].1) == Some("mp3"@)
            },
        forall|i: int|
            0 <= i < entries.len() && entries[i].0 && #[trigger] lower_extension(entries[i].1)
                == Some("mp3"@) ==> exists|k: int|
                0 <= k < mp3_files_of(entries).len() && #[trigger] mp3_files_of(entries)[k] == i,
        forall|k: int, l: int|
            0 <= k < l < mp3_files_of(entries).len() ==> #[trigger] mp3_files_of(entries)[k]
                < #[trigger] mp3_files_of(entries)[l],
    decreases entries.len(),
{
    if entries.len() > 0 {
        let prev = entries.drop_last();
        lemma_mp3_files_exact(prev);
        let rest = mp3_files_of(prev);
        let all = mp3_files_of(entries);
        assert forall|k: int| 0 <= k < rest.len() implies all[k] == rest[k] by {}
        assert forall|i: int| 0 <= i < prev.len() implies prev[i] == entries[i] by {}
        assert forall|k: int| 0 <= k < rest.len() implies #[trigger] rest[k] < entries.len() - 1 by {}
        assert forall|i: int|
            0 <= i < entries.len() && entries[i].0 && #[trigger] lower_extension(entries[i].1)
                == Some("mp3"@) implies exists|k: int|
            0 <= k < all.len() && #[trigger] all[k] == i by {
            if i < entries.len() - 1 {
                assert(prev[i] == entries[i]);
                let k: int = choose|k: int| 0 <= k < rest.len() && #[trigger] rest[k] == i;
                assert(all[k] == rest[k]);
            } else {
                assert(all[all.len() - 1] == i);
            }
        }
    }
}

/// Two conversions with the same target convert files of the same stem.
pub proof fn lemma_mov_targets_distinct(a: Seq<char>, b: Seq<char>)
    requires
        mov_audio_target_of(a) is Some,
        mov_audio_target_of(a) == mov_audio_target_of(b),
    ensures
        file_stem(a) == file_stem(b),
{
    let sa = file_stem(a);
    let sb = file_stem(b);
    let ta = TMP_DIR@ + "/"@ + sa + ".mp3"@;
    let tb = TMP_DIR@ + "/"@ + sb + ".mp3"@;
    assert(ta == tb);
    let p: int = (TMP_DIR@ + "/"@).len() as int;
    assert(sa.len() == sb.len());
    assert(sa =~= ta.subrange(p, p + sa.len()));
    assert(sb =~= tb.subrange(p, p + sb.len()));
}

// ---------------------------------------------------------------------------
// Waiting for the conversions
// ---------------------------------------------------------------------------

pub open spec fn texts(v: Seq<String>) -> Seq<Seq<char>> {
    v.map_values(|t: String| t@)
}

/// `i` is the last position that holds its target.
pub open spec fn is_last_occurrence(targets: Seq<Seq<char>>, i: int) -> bool {
    &&& 0 <= i < targets.len()
    &&& forall|j: int| i < j < targets.len() ==> targets[j] != targets[i]
}

/// The conversions that are waited for, in order: for each target only the
/// last conversion that writes it, since a later conversion of a target
/// replaces an earlier one.
pub fn last_conversions(targets: &Vec<String>) -> (kept: Vec<usize>)
    ensures
        forall|k: int| 0 <= k < kept@.len() ==> is_last_occurrence(texts(targets@), #[trigger] kept@[k] as int),
        forall|k: int, l: int| 0 <= k < l < kept@.len() ==> #[trigger] kept@[k] < #[trigger] kept@[l],
        forall|i: int|
            #[trigger] is_last_occurrence(texts(targets@), i) ==> exists|k: int|
                0 <= k < kept@.len() && kept@[k] == i,
        forall|k: int, l: int|
            0 <= k < l < kept@.len() ==> texts(targets@)[#[trigger] kept@[k] as int] != texts(
                targets@,
            )[#[trigger] kept@[l] as int],
{
    let ghost ts = texts(targets@);
    let n: usize = targets.len();
    let mut kept: Vec<usize> = Vec::new();
    for i in 0..n
        invariant
            n == targets@.len(),
            ts == texts(targets@),
            ts.len() == n,
            forall|k: int| 0 <= k < kept@.len() ==> is_last_occurrence(ts, #[trigger] kept@[k] as int),
            forall|k: int| 0 <= k < kept@.len() ==> #[trigger] kept@[k] < i,
            forall|k: int, l: int| 0 <= k < l < kept@.len() ==> #[trigger] kept@[k] < #[trigger] kept@[l],
            forall|m: int|
                0 <= m < i && #[trigger] is_last_occurrence(ts, m) ==> exists|k: int|
                    0 <= k < kept@.len() && kept@[k] == m,
    {
        let mut j: usize = i + 1;
        while j < n && !(targets[j] == targets[i])
            invariant
                n == targets@.len(),
                ts == texts(targets@),
                ts.len() == n,
                i < n,
                i + 1 <= j <= n,
                forall|m: int| i < m < j ==> ts[m] != ts[i as int],
            decreases n - j,
        {
            assert(ts[j as int] == targets@[j as int]@);
            j = j + 1;
        }
        if j == n {
            let ghost before = kept@;
            kept.push(i);
            assert(kept@[kept@.len() - 1] == i);
            assert forall|k: int| 0 <= k < kept@.len() - 1 implies kept@[k] == before[k] by {}
        } else {
            assert(ts[j as int] == ts[i as int]);
            assert(!is_last_occurrence(ts, i as int));
        }
        assert forall|m: int|
            0 <= m < i + 1 && #[trigger] is_last_occurrence(ts, m) implies exists|k: int|
            0 <= k < kept@.len() && kept@[k] == m by {
            if m == i {
                assert(kept@[kept@.len() - 1] == i);
            } else {
                let k: int = choose|k: int| 0 <= k < kept@.len() && kept@[k] == m;
            }
        }
    }
    assert forall|k: int, l: int| 0 <= k < l < kept@.len() implies ts[#[trigger] kept@[k] as int]
        != ts[#[trigger] kept@[l] as int] by {
        assert(is_last_occurrence(ts, kept@[k] as int));
    }
    kept
}

/// The targets whose conversion exited with code 0, in order.
pub open spec fn succeeded_of(results: Seq<(Seq<char>, Option<i32>)>) -> Seq<Seq<char>>
    decreases results.len(),
{
    if results.len() == 0 {
        seq![]
    } else {
        let rest = succeeded_of(results.drop_last());
        let (target, code) = results.last();
        if code == Some(0i32) {
            rest.push(target)
        } else {
            rest
        }
    }
}

pub open spec fn results_view(results: Seq<(String, Option<i32>)>) -> Seq<(Seq<char>, Option<i32>)> {
    results.map_values(|r: (String, Option<i32>)| (r.0@, r.1))
}

/// The converted files: the targets of the waited conversions whose ffmpeg
/// exited with code 0.
pub fn succeeded_conversions(results: &Vec<(String, Option<i32>)>) -> (done: Vec<String>)
    ensures
        texts(done@) == succeeded_of(results_view(results@)),
{
    let ghost all = results_view(results@);
    let mut done: Vec<String> = Vec::new();
    for i in 0..results.len()
        invariant
            all == results_view(results@),
            all.len() == results@.len(),
            texts(done@) == succeeded_of(all.take(i as int)),
    {
        let ghost before = texts(done@);
        assert(all.take(i + 1).drop_last() =~= all.take(i as int));
        assert(all.take(i + 1).last() == (results@[i as int].0@, results@[i as int].1));
        if conversion_succeeded(results[i].1) {
            let t = results[i].0.clone();
            done.push(t);
            assert(texts(done@) =~= before.push(results@[i as int].0@));
        }
    }
    assert(all.take(results@.len() as int) =~= all);
    done
}

/// A target is among the converted files exactly when some waited
/// conversion of it exited with code 0.
pub proof fn lemma_succeeded_members(results: Seq<(Seq<char>, Option<i32>)>, t: Seq<char>)
    ensures
        succeeded_of(results).contains(t) <==> exists|i: int|
            0 <= i < results.len() && #[trigger] results[i] == (t, Some(0i32)),
    decreases results.len(),
{
    if results.len() > 0 {
        let prev = results.drop_last();
        lemma_succeeded_members(prev, t);
        let rest = succeeded_of(prev);
        let last: int = results.len() - 1;
        if exists|i: int| 0 <= i < results.len() && #[trigger] results[i] == (t, Some(0i32)) {
            let i: int = choose|i: int| 0 <= i < results.len() && #[trigger] results[i] == (t, Some(0i32));
            if i < last {
                assert(prev[i] == results[i]);
                let k: int = choose|k: int| 0 <= k < rest.len() && rest[k] == t;
                assert(succeeded_of(results)[k] == t);
            } else {
                assert(succeeded_of(results)[succeeded_of(results).len() - 1] == t);
            }
        }
        if succeeded_of(results).contains(t) {
            let k: int = choose|k: int| 0 <= k < succeeded_of(results).len() && succeeded_of(results)[k] == t;
            if k < rest.len() {
                assert(succeeded_of(results)[k] == rest[k]);
                assert(rest.contains(t));
                let i: int = choose|i: int| 0 <= i < prev.len() && #[trigger] prev[i] == (t, Some(0i32));
                assert(results[i] == prev[i]);
            } else {
                assert(results[last] == (t, Some(0i32)));
            }
        }
    }
}

/// When the waited conversions have distinct targets, the converted files
/// have no duplicates.
pub proof fn lemma_succeeded_distinct(results: Seq<(Seq<char>, Option<i32>)>)
    requires
        forall|i: int, j: int|
            0 <= i < j < results.len() ==> #[trigger] results[i].0 != #[trigger] results[j].0,
    ensures
        succeeded_of(results).no_duplicates(),
    decreases results.len(),
{
    if results.len() > 0 {
        let prev = results.drop_last();
        assert forall|i: int, j: int| 0 <= i < j < prev.len() implies #[trigger] prev[i].0
            != #[trigger] prev[j].0 by {
            assert(prev[i] == results[i]);
            assert(prev[j] == results[j]);
        }
        lemma_succeeded_distinct(prev);
        let rest = succeeded_of(prev);
        let (t, code) = results.last();
        if code == Some(0i32) {
            lemma_succeeded_members(prev, t);
            if rest.contains(t) {
                let i: int = choose|i: int| 0 <= i < prev.len() && #[trigger] prev[i] == (t, Some(0i32));
                assert(results[i] == prev[i]);
                assert(results[i].0 != results[results.len() - 1].0);
            }
            let all = rest.push(t);
            assert forall|a: int, b: int| 0 <= a < all.len() && 0 <= b < all.len() && a != b implies all[a]
                != all[b] by {
                if a < rest.len() && b < rest.len() {
                } else if a < rest.len() {
                    assert(rest[a] != t);
                } else if b < rest.len() {
                    assert(rest[b] != t);
                }
            }
        }
    }
}

/// When all targets are distinct, every conversion is waited for.
pub proof fn lemma_distinct_targets_all_waited(targets: Seq<Seq<char>>)
    requires
        targets.no_duplicates(),
    ensures
        forall|i: int| 0 <= i < targets.len() ==> #[trigger] is_last_occurrence(targets, i),
{
}

/// The converted files have no duplicates, and a target is among them
/// exactly when the last conversion writing it exited with code 0; with
/// distinct targets, that is every target whose conversion exited with 0.
pub proof fn lemma_conversion_results(
    targets: Seq<Seq<char>>,
    kept: Seq<int>,
    results: Seq<(Seq<char>, Option<i32>)>,
    t: Seq<char>,
)
    requires
        forall|k: int| 0 <= k < kept.len() ==> is_last_occurrence(targets, #[trigger] kept[k]),
        forall|k: int, l: int| 0 <= k < l < kept.len() ==> #[trigger] kept[k] < #[trigger] kept[l],
        forall|i: int| #[trigger] is_last_occurrence(targets, i) ==> exists|k: int|
            0 <= k < kept.len() && kept[k] == i,
        results.len() == kept.len(),
        forall|k: int| 0 <= k < kept.len() ==> #[trigger] results[k].0 == targets[kept[k]],
    ensures
        succeeded_of(results).no_duplicates(),
        succeeded_of(results).contains(t) <==> exists|k: int|
            0 <= k < results.len() && #[trigger] results[k] == (t, Some(0i32)),
        targets.contains(t) ==> exists|k: int|
            0 <= k < results.len() && #[trigger] results[k].0 == t,
{
    assert forall|i: int, j: int| 0 <= i < j < results.len() implies #[trigger] results[i].0
        != #[trigger] results[j].0 by {
        let a: int = kept[i];
        let b: int = kept[j];
        assert(is_last_occurrence(targets, a));
        assert(is_last_occurrence(targets, b));
        assert(a < b);
        assert(targets[b] != targets[a]);
    }
    lemma_succeeded_distinct(results);
    lemma_succeeded_members(results, t);
    if targets.contains(t) {
        let i: int = choose|i: int| 0 <= i < targets.len() && targets[i] == t;
        let last: int = lemma_last_of(targets, i);
        let k: int = choose|k: int| 0 <= k < kept.len() && kept[k] == last;
        assert(results[k].0 == t);
    }
}

/// The last position holding the same target as position `i`.
proof fn lemma_last_of(targets: Seq<Seq<char>>, i: int) -> (last: int)
    requires
        0 <= i < targets.len(),
    ensures
        is_last_occurrence(targets, last),
        targets[last] == targets[i],
    decreases targets.len() - i,
{
    if exists|j: int| i < j < targets.len() && targets[j] == targets[i] {
        let j: int = choose|j: int| i < j < targets.len() && targets[j] == targets[i];
        lemma_last_of(targets, j)
    } else {
        i
    }
}

} // verus!
