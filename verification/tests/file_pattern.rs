//! Grouping files by the names that recorders and cameras give them.

use std::collections::BTreeMap;

use ltc_timecode::file_pattern::{
    builtin_patterns, camera_patterns, default_output_filename, group_display_key,
    group_key_prefix, match_name, FileMatch, FileNamingPattern, MatchedGroup,
};
use ltc_timecode::paths::{file_stem, join_path};
use ltc_timecode::scan::{EntryKind, FolderEntry, Scan};
use ltc_timecode::settings::RecordingType;

/// A folder with everything below it.
struct Tree {
    entries: Vec<(String, String, EntryKind)>,
}

const ROOT: &str = "/card";

impl Tree {
    fn new() -> Tree {
        Tree { entries: Vec::new() }
    }

    fn put(&mut self, folder: &str, name: &str, kind: EntryKind) {
        let folder = if folder.is_empty() { ROOT.to_string() } else { join_path(ROOT, folder) };
        self.entries.push((folder, name.to_string(), kind));
    }

    fn file(&mut self, name: &str) {
        self.put("", name, EntryKind::File);
    }

    fn file_in(&mut self, folder: &str, name: &str) {
        self.put(folder, name, EntryKind::File);
    }

    fn folder(&mut self, name: &str) {
        self.put("", name, EntryKind::Folder);
    }

    fn symlink(&mut self, name: &str) {
        self.put("", name, EntryKind::Symlink);
    }

    fn files(&self) -> Vec<String> {
        let mut scan = Scan::new(ROOT);
        while let Some(folder) = scan.next_folder() {
            let entries = self
                .entries
                .iter()
                .filter(|e| e.0 == folder)
                .map(|e| FolderEntry { name: e.1.clone(), kind: e.2 })
                .collect();
            scan.take_entries(entries);
        }
        scan.files().clone()
    }
}

fn match_files_to_groups(tree: &Tree, pattern: &FileNamingPattern) -> BTreeMap<String, Vec<String>> {
    ltc_timecode::file_pattern::match_files_to_groups(ROOT, pattern, &tree.files())
        .into_iter()
        .map(|g| (g.key, g.files))
        .collect()
}

fn match_files_all_patterns(tree: &Tree) -> Vec<MatchedGroup> {
    ltc_timecode::file_pattern::match_files_all_patterns(ROOT, &tree.files())
}

fn wrap_user_selected_files(files: Vec<String>) -> BTreeMap<String, Vec<String>> {
    ltc_timecode::file_pattern::wrap_user_selected_files(files)
        .into_iter()
        .map(|g| (g.key, g.files))
        .collect()
}

/// A camera pattern with a given regular expression.
struct CameraName(FileNamingPattern);

impl CameraName {
    fn new(regex: &'static str) -> Option<CameraName> {
        Some(CameraName(FileNamingPattern {
            name: "camera",
            description: "a camera",
            regex,
            prefix_group: "prefix",
            channel_group: None,
        }))
    }

    fn is_match(&self, name: &str) -> bool {
        match_name(&self.0, name).is_some()
    }

    fn captures(&self, name: &str) -> Option<FileMatch> {
        match_name(&self.0, name)
    }
}

#[test]
fn test_default_output_filename_mkv() {
    assert_eq!(
        default_output_filename("myrecording", "mkv"),
        "myrecording-multi-audio-vid.mkv"
    );
}

#[test]
fn test_default_output_filename_mov() {
    assert_eq!(
        default_output_filename("test123", "mov"),
        "test123-multi-audio-vid.mov"
    );
}

#[test]
fn test_default_output_filename_mp4() {
    assert_eq!(
        default_output_filename("clip_A", "mp4"),
        "clip_A-multi-audio-vid.mp4"
    );
}

#[test]
fn test_default_output_filename_empty_group() {
    assert_eq!(
        default_output_filename("", "mkv"),
        "-multi-audio-vid.mkv"
    );
}

#[test]
fn test_default_output_filename_unknown_container() {
    assert_eq!(
        default_output_filename("rec", "webm"),
        "rec-multi-audio-vid.webm"
    );
}

// ── wrap_user_selected_files ──────────────────────────────────────────

#[test]
fn test_wrap_empty_files() {
    let result = wrap_user_selected_files(vec![]);
    assert!(result.is_empty());
}

#[test]
fn test_wrap_single_file() {
    let files = vec!["/tmp/recording_S01.wav".to_string()];
    let result = wrap_user_selected_files(files);
    assert_eq!(result.len(), 1);
    let key = result.keys().next().unwrap();
    assert_eq!(key, "recording_S01");
    let vals = result.values().next().unwrap();
    assert_eq!(vals.len(), 1);
}

#[test]
fn test_wrap_multiple_files_sorted() {
    let files = vec![
        "/tmp/ch3.wav".to_string(),
        "/tmp/ch1.wav".to_string(),
        "/tmp/ch2.wav".to_string(),
    ];
    let result = wrap_user_selected_files(files);
    assert_eq!(result.len(), 1);
    let vals = result.values().next().unwrap();
    assert_eq!(vals.len(), 3);
    assert_eq!(file_stem(&vals[0]).unwrap(), "ch1");
    assert_eq!(file_stem(&vals[1]).unwrap(), "ch2");
    assert_eq!(file_stem(&vals[2]).unwrap(), "ch3");
}

#[test]
fn test_wrap_same_prefix_used() {
    let files = vec![
        "/data/take1_A.wav".to_string(),
        "/data/take1_B.wav".to_string(),
    ];
    let result = wrap_user_selected_files(files);
    assert_eq!(result.len(), 1);
    assert!(result.contains_key("take1_A"));
}

// ── group_display_key / group_key_prefix ──────────────────────────────

#[test]
fn test_group_display_key_root_level() {
    assert_eq!(group_display_key("take1_", ""), "take1_");
    assert_eq!(group_display_key("C0001", ""), "C0001");
}

#[test]
fn test_group_display_key_nested() {
    assert_eq!(
        group_display_key("take1_", "subdir"),
        "take1_ (subdir)"
    );
    assert_eq!(
        group_display_key("C0001", "day1/card2"),
        "C0001 (day1/card2)"
    );
}

#[test]
fn test_group_key_prefix_root_level() {
    assert_eq!(group_key_prefix("take1_"), "take1_");
    assert_eq!(group_key_prefix("C0001"), "C0001");
}

#[test]
fn test_group_key_prefix_nested() {
    assert_eq!(group_key_prefix("take1_ (subdir)"), "take1_");
    assert_eq!(
        group_key_prefix("C0001 (day1/card2)"),
        "C0001"
    );
}

#[test]
fn test_group_key_prefix_no_false_positive() {
    // A key ending without a closing paren after the last " (" should
    // be treated as the whole string.
    assert_eq!(group_key_prefix("take1_ (no end"), "take1_ (no end");
    assert_eq!(group_key_prefix("plain"), "plain");
    assert_eq!(group_key_prefix("foo (bar) baz"), "foo (bar) baz");
}

#[test]
fn a_prefix_is_told_from_a_folder_with_brackets() {
    assert_eq!(group_key_prefix("C0001 (day (1))"), "C0001");
    for (prefix, folder) in [
        ("C0001", "day (1)"),
        ("C0001", "day (1)/card (2)"),
        ("take (1)", "day1"),
        ("take (1)", "day (1)"),
        ("C0001", "day)1"),
        ("C(1", "day)1"),
        ("take)", ""),
        ("C0001", ""),
    ] {
        assert_eq!(group_key_prefix(&group_display_key(prefix, folder)), prefix);
    }
}

#[test]
fn a_folder_that_closes_a_bracket_of_the_prefix_hides_it() {
    assert_eq!(group_key_prefix(&group_display_key("a (b", "c)d")), "a");
    assert_eq!(group_key_prefix(&group_display_key("C0001", "a (b")), "C0001 (a");
}

// ── match_files_to_groups (needs temp dir) ────────────────────────────

#[test]
fn test_match_files_empty_directory() {
    let dir = Tree::new();
    let result = match_files_to_groups(&dir, &builtin_patterns()[0]);
    assert!(result.is_empty());
}

#[test]
fn test_match_files_tascam_pattern() {
    let mut base = Tree::new();
    base.file("take1_S01.wav");
    base.file("take1_S02.wav");
    base.file("take1_S03.wav");
    base.file("unrelated.txt");

    let result = match_files_to_groups(&base, &builtin_patterns()[0]);
    assert_eq!(result.len(), 1, "expected 1 group, got {:?}", result.keys());
    let group = result.get("take1_").unwrap();
    assert_eq!(group.len(), 3, "expected 3 files in group");
    assert!(group[0].ends_with("take1_S01.wav"));
}

#[test]
fn test_match_files_tascam_multiple_prefixes() {
    let mut base = Tree::new();
    base.file("scene1_S01.wav");
    base.file("scene1_S02.wav");
    base.file("scene2_S01.wav");
    base.file("scene2_S02.wav");

    let result = match_files_to_groups(&base, &builtin_patterns()[0]);
    assert_eq!(result.len(), 2);
    assert!(result.contains_key("scene1_"));
    assert!(result.contains_key("scene2_"));
    assert_eq!(result.get("scene1_").unwrap().len(), 2);
    assert_eq!(result.get("scene2_").unwrap().len(), 2);
}

#[test]
fn test_match_files_any_pattern() {
    let mut base = Tree::new();
    base.file("anything.wav");
    base.file("foo.bar");
    base.file("no_ext");

    let result = match_files_to_groups(&base, &builtin_patterns()[1]);
    assert_eq!(result.len(), 1);
    assert_eq!(result.values().next().unwrap().len(), 3);
}

#[test]
fn test_match_files_sorted_by_channel() {
    let mut base = Tree::new();
    base.file("take_S03.wav");
    base.file("take_S01.wav");
    base.file("take_S02.wav");

    let result = match_files_to_groups(&base, &builtin_patterns()[0]);
    let files = result.get("take_").unwrap();
    assert_eq!(files.len(), 3);
    assert!(files[0].ends_with("take_S01.wav"));
    assert!(files[1].ends_with("take_S02.wav"));
    assert!(files[2].ends_with("take_S03.wav"));
}

#[test]
fn test_match_files_bad_pattern_regex() {
    let bad_pattern = FileNamingPattern {
        name: "bad",
        description: "broken regex",
        regex: r"[invalid",
        prefix_group: "prefix",
        channel_group: Some("channel"),
    };
    let dir = Tree::new();
    let result = match_files_to_groups(&dir, &bad_pattern);
    assert!(result.is_empty());
}

#[test]
fn test_match_files_nonexistent_directory() {
    // A folder that cannot be read has no entries
    let result = match_files_to_groups(&Tree::new(), &builtin_patterns()[0]);
    assert!(result.is_empty());
}

// ── Recursive match_files_to_groups tests ─────────────────────────────

#[test]
fn test_recursive_nested_tascam() {
    let mut base = Tree::new();
    // Root-level files
    base.file("take1_S01.wav");
    base.file("take1_S02.wav");
    // Nested files
    let sub = "card2";
    base.folder(sub);
    base.file_in(sub, "take1_S01.wav");
    base.file_in(sub, "take1_S02.wav");

    let result = match_files_to_groups(&base, &builtin_patterns()[0]);

    // Two groups: root-level "take1_" and nested "take1_ (card2)"
    assert_eq!(result.len(), 2, "expected 2 separate groups, got {:?}", result.keys());
    let root_group = result.get("take1_").expect("missing root group");
    assert_eq!(root_group.len(), 2);
    assert!(root_group[0].ends_with("take1_S01.wav"));

    let nested_key = "take1_ (card2)";
    let nested_group = result.get(nested_key).expect("missing nested group");
    assert_eq!(nested_group.len(), 2);
}

#[test]
fn test_recursive_same_prefix_across_deep_dirs() {
    let mut base = Tree::new();
    let sub1 = "day1";
    let sub2 = "day2";
    base.folder(sub1);
    base.folder(sub2);
    base.file_in(sub1, "scene_S01.wav");
    base.file_in(sub2, "scene_S01.wav");

    let result = match_files_to_groups(&base, &builtin_patterns()[0]);
    assert_eq!(result.len(), 2, "expected two separate groups");
    assert!(result.contains_key("scene_ (day1)"));
    assert!(result.contains_key("scene_ (day2)"));
}

#[test]
fn test_recursive_flat_dir_backward_compat() {
    // A flat directory (no subdirs) must produce the same keys as before.
    let mut base = Tree::new();
    base.file("take1_S01.wav");
    base.file("take1_S02.wav");
    base.file("scene1_S01.wav");

    let result = match_files_to_groups(&base, &builtin_patterns()[0]);
    assert_eq!(result.len(), 2);
    assert!(result.contains_key("take1_"), "expected plain key 'take1_'");
    assert!(result.contains_key("scene1_"), "expected plain key 'scene1_'");
}

#[test]
fn test_recursive_skips_hidden_dirs() {
    let mut base = Tree::new();
    let hidden = ".hidden";
    base.folder(hidden);
    base.file_in(hidden, "take1_S01.wav");

    let result = match_files_to_groups(&base, &builtin_patterns()[0]);
    assert!(result.is_empty(), "files in hidden dirs must be skipped");
}

#[test]
fn test_recursive_skips_junk_dirs() {
    let mut base = Tree::new();
    let junk = "__MACOSX";
    base.folder(junk);
    base.file_in(junk, "take1_S01.wav");

    let result = match_files_to_groups(&base, &builtin_patterns()[0]);
    assert!(result.is_empty(), "files in junk dirs must be skipped");
}

#[test]
fn test_recursive_skips_symlinked_dirs() {
    let mut base = Tree::new();
    let real = "real";
    base.folder(real);
    base.file_in(real, "take1_S01.wav");
    let link = "link";
    base.symlink(link);

    let result = match_files_to_groups(&base, &builtin_patterns()[0]);
    // The file in `real/` is found through the recursive scan.
    // The symlink `link` (pointing to `real`) must NOT be followed,
    // otherwise the files would be collected twice.
    assert_eq!(result.len(), 1, "expected 1 group from real/ subdir");
    let key = "take1_ (real)";
    let group = result.get(key).expect("missing group in real/ subdir");
    assert_eq!(group.len(), 1);
    // Also ensure the symlink was not followed: there should be no
    // group keyed as "take1_" at root level.
    assert!(
        !result.contains_key("take1_"),
        "symlinked dir content must not appear at root level"
    );
}

// ── Camera pattern regex tests ──────────────────────────────────────────

#[test]
fn test_sony_handycam_pattern_matches() {
    let re = CameraName::new(r"^(?P<prefix>C\d{4})\.(?:mp4|MP4|MTS|mts)$").unwrap();
    assert!(re.is_match("C0001.MP4"));
    assert!(re.is_match("C0002.mp4"));
    assert!(re.is_match("C0123.MTS"));
    assert!(re.is_match("C9999.mts"));
    let caps = re.captures("C0042.MP4").unwrap();
    assert_eq!(caps.prefix, "C0042");
}

#[test]
fn test_sony_handycam_pattern_rejects() {
    let re = CameraName::new(r"^(?P<prefix>C\d{4})\.(?:mp4|MP4|MTS|mts)$").unwrap();
    assert!(!re.is_match("C00001.MP4"));   // 5 digits
    assert!(!re.is_match("C001.MP4"));      // 3 digits
    assert!(!re.is_match("D0001.MP4"));     // wrong prefix
    assert!(!re.is_match("C0001.AVI"));     // wrong extension
}

#[test]
fn test_sony_fs100_pattern_matches() {
    let re = CameraName::new(r"^(?P<prefix>\d{5})\.(?:MTS|mts)$").unwrap();
    assert!(re.is_match("00001.MTS"));
    assert!(re.is_match("12345.mts"));
    assert!(re.is_match("99999.MTS"));
    assert!(!re.is_match("00001.mp4"));
    assert!(!re.is_match("0001.MTS"));
}

#[test]
fn test_canon_pattern_matches() {
    let re = CameraName::new(r"^(?P<prefix>MVI_\d{4})\.(?:mp4|MP4)$").unwrap();
    assert!(re.is_match("MVI_0001.mp4"));
    assert!(re.is_match("MVI_9999.MP4"));
    let caps = re.captures("MVI_0123.mp4").unwrap();
    assert_eq!(caps.prefix, "MVI_0123");
    assert!(!re.is_match("MVI_00001.mp4"));
    assert!(!re.is_match("MVI_000.MP4"));
    assert!(!re.is_match("MVX_0001.mp4"));
}

#[test]
fn test_panasonic_pattern_matches() {
    let re = CameraName::new(r"^(?P<prefix>GH\d{5})\.(?:mp4|MP4)$").unwrap();
    assert!(re.is_match("GH00001.mp4"));
    assert!(re.is_match("GH12345.MP4"));
    let caps = re.captures("GH00001.mp4").unwrap();
    assert_eq!(caps.prefix, "GH00001");
    assert!(!re.is_match("GH0001.mp4"));
    assert!(!re.is_match("GH00001.mov"));
}

#[test]
fn test_gopro_pattern_matches() {
    let re = CameraName::new(r"^(?P<prefix>(?:GOPR\d{4}|GP\d{6}))\.(?:mp4|MP4)$").unwrap();
    assert!(re.is_match("GOPR0001.mp4"));
    assert!(re.is_match("GOPR9999.MP4"));
    assert!(re.is_match("GP000001.mp4"));
    assert!(re.is_match("GP123456.MP4"));
    let caps = re.captures("GOPR0042.mp4").unwrap();
    assert_eq!(caps.prefix, "GOPR0042");
    let caps = re.captures("GP000042.mp4").unwrap();
    assert_eq!(caps.prefix, "GP000042");
    assert!(!re.is_match("GOPR00001.mp4"));
    assert!(!re.is_match("GP00001.mp4"));
}

// ── match_files_all_patterns tests ──────────────────────────────────────

#[test]
fn test_match_all_empty_directory() {
    let dir = Tree::new();
    let result = match_files_all_patterns(&dir);
    assert!(result.is_empty());
}

#[test]
fn test_match_all_tascam_audio() {
    let mut base = Tree::new();
    base.file("take1_S01.wav");
    base.file("take1_S02.wav");
    base.file("take2_S01.wav");

    let result = match_files_all_patterns(&base);
    assert_eq!(result.len(), 2, "expected 2 TASCAM groups");
    for group in &result {
        assert_eq!(
            group.recording_type,
            RecordingType::MultiTrackAudio
        );
        assert_eq!(group.pattern_name, "TASCAM");
    }
}

#[test]
fn test_match_all_sony_video_clips() {
    let mut base = Tree::new();
    base.file("C0001.MP4");
    base.file("C0002.MP4");
    base.file("unrelated.txt");

    let result = match_files_all_patterns(&base);
    assert_eq!(result.len(), 1, "expected 1 Sony group");
    let group = &result[0];
    assert_eq!(
        group.recording_type,
        RecordingType::VideoClipSequence
    );
    assert_eq!(group.files.len(), 2, "expected 2 video clips merged");
}

#[test]
fn test_match_all_sony_fs100() {
    let mut base = Tree::new();
    base.file("00001.MTS");
    base.file("00002.MTS");
    base.file("00003.MTS");

    let result = match_files_all_patterns(&base);
    assert_eq!(result.len(), 1, "expected 1 FS100 group");
    let group = &result[0];
    assert_eq!(
        group.recording_type,
        RecordingType::VideoClipSequence
    );
    assert_eq!(group.files.len(), 3);
}

#[test]
fn test_match_all_mixed_gear() {
    let mut base = Tree::new();
    // TASCAM audio
    base.file("scene1_S01.wav");
    base.file("scene1_S02.wav");
    // Sony video
    base.file("C0001.MP4");
    base.file("C0002.MP4");

    let result = match_files_all_patterns(&base);
    assert_eq!(result.len(), 2, "expected 2 groups: TASCAM + Sony");
    let audio_groups: Vec<_> = result
        .iter()
        .filter(|g| g.recording_type == RecordingType::MultiTrackAudio)
        .collect();
    let video_groups: Vec<_> = result
        .iter()
        .filter(|g| g.recording_type == RecordingType::VideoClipSequence)
        .collect();
    assert_eq!(audio_groups.len(), 1);
    assert_eq!(video_groups.len(), 1);
}

#[test]
fn test_match_all_gopro() {
    let mut base = Tree::new();
    base.file("GOPR0001.mp4");
    base.file("GOPR0002.mp4");

    let result = match_files_all_patterns(&base);
    assert_eq!(result.len(), 1, "expected 1 GoPro group");
    assert_eq!(result[0].files.len(), 2);
}

#[test]
fn test_match_all_ignores_unmatched_files() {
    let mut base = Tree::new();
    base.file("readme.txt");
    base.file("image.jpg");
    base.file("data.bin");

    let result = match_files_all_patterns(&base);
    assert!(result.is_empty(), "no files should match any pattern");
}

// ── Recursive match_files_all_patterns tests ──────────────────────────

#[test]
fn test_recursive_all_patterns_nested_video() {
    let mut base = Tree::new();
    let sub = "day1";
    base.folder(sub);
    base.file_in(sub, "C0001.MP4");
    base.file_in(sub, "C0002.MP4");

    let result = match_files_all_patterns(&base);
    assert_eq!(result.len(), 1, "expected 1 Sony group in subdir");
    let group = &result[0];
    assert_eq!(group.rel_dir, "day1");
    assert_eq!(group.files.len(), 2);
}

#[test]
fn test_recursive_all_patterns_camera_merge_within_dir() {
    let mut base = Tree::new();
    let sub1 = "card1";
    let sub2 = "card2";
    base.folder(sub1);
    base.folder(sub2);
    // card1: C0001, C0002 → should merge into one group
    base.file_in(sub1, "C0001.MP4");
    base.file_in(sub1, "C0002.MP4");
    // card2: C0001, C0002 → separate group (different rel_dir)
    base.file_in(sub2, "C0001.MP4");
    base.file_in(sub2, "C0002.MP4");

    let result = match_files_all_patterns(&base);
    assert_eq!(result.len(), 2, "expected 2 groups (one per card dir)");
    for group in &result {
        assert_eq!(group.files.len(), 2);
    }
}

#[test]
fn test_recursive_all_patterns_mixed_gear_nested() {
    let mut base = Tree::new();
    // TASCAM audio in root
    base.file("scene1_S01.wav");
    base.file("scene1_S02.wav");
    // Sony video in subdir
    let sub = "video";
    base.folder(sub);
    base.file_in(sub, "C0001.MP4");
    base.file_in(sub, "C0002.MP4");

    let result = match_files_all_patterns(&base);
    assert_eq!(result.len(), 2, "expected 2 groups: TASCAM + Sony");
    let audio: Vec<_> = result
        .iter()
        .filter(|g| g.recording_type == RecordingType::MultiTrackAudio)
        .collect();
    let video: Vec<_> = result
        .iter()
        .filter(|g| g.recording_type == RecordingType::VideoClipSequence)
        .collect();
    assert_eq!(audio.len(), 1);
    assert_eq!(video.len(), 1);
    assert!(audio[0].rel_dir.is_empty());
    assert_eq!(video[0].rel_dir, "video");
}

#[test]
fn test_recursive_all_patterns_skips_hidden() {
    let mut base = Tree::new();
    let hidden = ".hidden";
    base.folder(hidden);
    base.file_in(hidden, "take1_S01.wav");

    let result = match_files_all_patterns(&base);
    assert!(result.is_empty());
}

#[test]
fn test_recursive_all_patterns_skips_junk() {
    let mut base = Tree::new();
    let junk = "__MACOSX";
    base.folder(junk);
    base.file_in(junk, "GOPR0001.MP4");

    let result = match_files_all_patterns(&base);
    assert!(result.is_empty());
}

#[test]
fn the_walk_ends_at_its_depth() {
    let mut scan = Scan::new(ROOT);
    let mut depth = 0;
    while let Some(_folder) = scan.next_folder() {
        depth += 1;
        scan.take_entries(vec![
            FolderEntry { name: "below".to_string(), kind: EntryKind::Folder },
            FolderEntry { name: format!("f{}", depth), kind: EntryKind::File },
        ]);
    }
    assert_eq!(depth, 9);
    assert_eq!(scan.files().len(), 9);
}

#[test]
fn every_camera_knows_its_own_names() {
    let names = ["C0001.MP4", "00001.MTS", "MVI_0001.mp4", "GH00001.mp4", "GOPR0001.mp4"];
    for (pattern, name) in camera_patterns().iter().zip(names) {
        let stem = name.split('.').next().unwrap();
        assert_eq!(match_name(pattern, name).unwrap().prefix, stem);
        assert!(match_name(pattern, "readme.txt").is_none());
    }
}

#[test]
fn a_key_gives_its_prefix_back() {
    for (prefix, folder) in [("take1_", ""), ("take1_", "day1"), ("C0001", "day1/card2")] {
        assert_eq!(group_key_prefix(&group_display_key(prefix, folder)), prefix);
    }
}
