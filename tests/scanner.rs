use music_index::order::{component_le, path_less_eq};
use music_index::scanner::{
    classify, extension, is_ignorable_extension, is_music_extension_bytes, scan, EntryKind,
    Finding, Oddity, WalkEntry,
};

fn path(parts: &[&[u8]]) -> Vec<Vec<u8>> {
    parts.iter().map(|p| p.to_vec()).collect()
}

fn entry(parts: &[&[u8]], kind: EntryKind) -> WalkEntry {
    WalkEntry { path: path(parts), kind }
}

fn sample_tree() -> Vec<WalkEntry> {
    vec![
        entry(&[b"a"], EntryKind::Directory),
        entry(&[b"a", b"song.mp3"], EntryKind::File),
        entry(&[b"a", b"cover.jpg"], EntryKind::File),
        entry(&[b"b"], EntryKind::Directory),
        entry(&[b"b", b"track.FLAC"], EntryKind::File),
        entry(&[b"notes.txt"], EntryKind::File),
    ]
}

#[test]
fn scan_mixed_tree_keeps_only_exact_extensions() {
    let result = scan(&sample_tree());
    assert_eq!(result.files, vec![path(&[b"a", b"song.mp3"])]);
    let reported: Vec<Vec<Vec<u8>>> = result.unexpected.iter().map(|u| u.path.clone()).collect();
    assert!(reported.contains(&path(&[b"notes.txt"])));
    assert!(!reported.contains(&path(&[b"a", b"cover.jpg"])));
}

#[test]
fn scan_reports_uppercase_music_extension_as_unknown() {
    let result = scan(&sample_tree());
    assert_eq!(result.unexpected.len(), 2);
    assert_eq!(result.unexpected[0].path, path(&[b"b", b"track.FLAC"]));
    assert_eq!(result.unexpected[0].oddity, Oddity::UnknownExtension);
    assert_eq!(result.unexpected[1].path, path(&[b"notes.txt"]));
    assert_eq!(result.unexpected[1].oddity, Oddity::UnknownExtension);
}

#[test]
fn scan_sorts_files_by_component() {
    let entries = vec![
        entry(&[b"z.ogg"], EntryKind::File),
        entry(&[b"a-b.mp3"], EntryKind::File),
        entry(&[b"a", b"b.flac"], EntryKind::File),
        entry(&[b"A.mp3"], EntryKind::File),
        entry(&[b"a", b"a.mp3"], EntryKind::File),
    ];
    let result = scan(&entries);
    assert_eq!(
        result.files,
        vec![
            path(&[b"A.mp3"]),
            path(&[b"a", b"a.mp3"]),
            path(&[b"a", b"b.flac"]),
            path(&[b"a-b.mp3"]),
            path(&[b"z.ogg"]),
        ]
    );
    assert!(result.unexpected.is_empty());
}

#[test]
fn rescan_in_other_order_gives_same_index() {
    let mut entries = sample_tree();
    entries.push(entry(&[b"b", b"x.ogg"], EntryKind::File));
    entries.push(entry(&[b"0.flac"], EntryKind::File));
    let first = scan(&entries);
    entries.reverse();
    let second = scan(&entries);
    assert_eq!(first.files, second.files);
    assert_eq!(
        first.files,
        vec![path(&[b"0.flac"]), path(&[b"a", b"song.mp3"]), path(&[b"b", b"x.ogg"])]
    );
}

#[test]
fn scan_of_empty_tree_is_empty() {
    let result = scan(&Vec::new());
    assert!(result.files.is_empty());
    assert!(result.unexpected.is_empty());
}

#[test]
fn ignorable_extensions_any_case_not_reported() {
    let entries = vec![
        entry(&[b"x", b"cover.JPG"], EntryKind::File),
        entry(&[b"x", b"album.Cue"], EntryKind::File),
        entry(&[b"x", b"art.webp"], EntryKind::File),
        entry(&[b"x", b"sums.md5"], EntryKind::File),
        entry(&[b"x", b"link.png"], EntryKind::Other),
    ];
    let result = scan(&entries);
    assert!(result.files.is_empty());
    assert!(result.unexpected.is_empty());
}

#[test]
fn unknown_file_reported_once_per_entry() {
    let entries = vec![
        entry(&[b"a.txt"], EntryKind::File),
        entry(&[b"b.mp3"], EntryKind::File),
        entry(&[b"c.txt"], EntryKind::File),
    ];
    let result = scan(&entries);
    assert_eq!(result.unexpected.len(), 2);
    assert_eq!(result.unexpected[0].path, path(&[b"a.txt"]));
    assert_eq!(result.unexpected[1].path, path(&[b"c.txt"]));
}

#[test]
fn classify_directory_and_music() {
    assert_eq!(classify(&entry(&[b"dir.mp3"], EntryKind::Directory)), Finding::Directory);
    assert_eq!(classify(&entry(&[b"d", b"t.flac"], EntryKind::File)), Finding::Music);
    assert_eq!(classify(&entry(&[b"t.ogg"], EntryKind::File)), Finding::Music);
}

#[test]
fn classify_symlink_with_music_extension_is_unexpected() {
    assert_eq!(
        classify(&entry(&[b"t.mp3"], EntryKind::Other)),
        Finding::Unexpected(Oddity::UnknownExtension)
    );
}

#[test]
fn classify_missing_extension() {
    assert_eq!(
        classify(&entry(&[b"README"], EntryKind::File)),
        Finding::Unexpected(Oddity::NoExtension)
    );
    assert_eq!(
        classify(&entry(&[b".hidden"], EntryKind::File)),
        Finding::Unexpected(Oddity::NoExtension)
    );
    assert_eq!(classify(&entry(&[], EntryKind::File)), Finding::Unexpected(Oddity::NoExtension));
}

#[test]
fn classify_undecodable_extension() {
    assert_eq!(
        classify(&entry(&[b"x.\xff\xfe"], EntryKind::File)),
        Finding::Unexpected(Oddity::UndecodableExtension)
    );
}

#[test]
fn classify_lowercases_before_ignore_check() {
    assert_eq!(classify(&entry(&[b"COVER.PNG"], EntryKind::File)), Finding::Ignored);
    assert_eq!(classify(&entry(&[b"cover.JpEg"], EntryKind::File)), Finding::Ignored);
    assert_eq!(
        classify(&entry(&[b"cover.bmp"], EntryKind::File)),
        Finding::Unexpected(Oddity::UnknownExtension)
    );
}

#[test]
fn extension_edge_cases() {
    assert_eq!(extension(&b"song.mp3".to_vec()), Some(b"mp3".to_vec()));
    assert_eq!(extension(&b"a.b.ogg".to_vec()), Some(b"ogg".to_vec()));
    assert_eq!(extension(&b"trailing.".to_vec()), Some(Vec::new()));
    assert_eq!(extension(&b".hidden".to_vec()), None);
    assert_eq!(extension(&b"..".to_vec()), None);
    assert_eq!(extension(&b"..x".to_vec()), Some(b"x".to_vec()));
    assert_eq!(extension(&b"plain".to_vec()), None);
    assert_eq!(extension(&Vec::new()), None);
}

#[test]
fn music_extension_is_case_sensitive() {
    assert!(is_music_extension_bytes(&b"mp3".to_vec()));
    assert!(is_music_extension_bytes(&b"flac".to_vec()));
    assert!(is_music_extension_bytes(&b"ogg".to_vec()));
    assert!(!is_music_extension_bytes(&b"FLAC".to_vec()));
    assert!(!is_music_extension_bytes(&b"mp4".to_vec()));
    assert!(!is_music_extension_bytes(&Vec::new()));
}

#[test]
fn ignorable_extension_list() {
    for ext in ["cue", "gif", "jpeg", "jpg", "m3u", "m4a", "md5", "ffp", "png", "webp"] {
        assert!(is_ignorable_extension(ext), "{}", ext);
    }
    assert!(!is_ignorable_extension("JPG"));
    assert!(!is_ignorable_extension("txt"));
    assert!(!is_ignorable_extension(""));
}

#[test]
fn path_order_is_component_wise() {
    assert!(component_le(&b"a".to_vec(), &b"a-b".to_vec()));
    assert!(!component_le(&b"b".to_vec(), &b"a".to_vec()));
    assert!(component_le(&b"".to_vec(), &b"".to_vec()));
    assert!(path_less_eq(&path(&[b"a", b"b"]), &path(&[b"a-b"])));
    assert!(!path_less_eq(&path(&[b"a-b"]), &path(&[b"a", b"b"])));
    assert!(path_less_eq(&path(&[b"a"]), &path(&[b"a", b"b"])));
    assert!(path_less_eq(&path(&[b"a", b"b"]), &path(&[b"a", b"b"])));
}
