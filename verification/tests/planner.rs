use music_manager::error::Error;
use music_manager::path::SongPath;
use music_manager::song::{ProbeData, SongRecord};
use music_manager::sort::{sort_songs_transactions, FsView, Transaction};

fn path(s: &str) -> SongPath {
    SongPath::new(s.as_bytes().to_vec())
}

fn rec(p: &str, artist: Option<&str>, title: Option<&str>) -> SongRecord {
    SongRecord {
        path: path(p),
        probe: Ok(ProbeData {
            artist: artist.map(|a| a.as_bytes().to_vec()),
            title: title.map(|t| t.as_bytes().to_vec()),
            codec: String::from("test codec"),
            packets: Ok(vec![]),
        }),
    }
}

fn fs(paths: &[&str]) -> FsView {
    FsView { existing: paths.iter().map(|p| path(p)).collect() }
}

#[test]
fn already_sorted_song_emits_nothing() {
    let songs = vec![rec("/music/X/Song.mp3", Some("X"), Some("Song"))];
    let snapshot = fs(&["/music/X/Song.mp3", "/music/X"]);
    let batch = sort_songs_transactions(&path("/music"), &songs, &snapshot).unwrap();
    assert!(batch.is_empty());
}

#[test]
fn unplannable_song_is_silently_skipped() {
    let songs = vec![rec("/music/unknown.mp3", None, None)];
    let batch = sort_songs_transactions(&path("/music"), &songs, &fs(&[])).unwrap();
    assert!(batch.is_empty());
}

#[test]
fn new_artist_gets_one_mkdir_then_the_move() {
    let songs = vec![rec("/music/a.mp3", Some("X"), Some("Song"))];
    let batch = sort_songs_transactions(&path("/music"), &songs, &fs(&[])).unwrap();
    assert_eq!(batch.len(), 2);
    match &batch[0] {
        Transaction::Mkdir(dir) => assert_eq!(dir.bytes, b"/music/X".to_vec()),
        _ => panic!("first transaction should create the artist directory"),
    }
    match &batch[1] {
        Transaction::Move { src, dest } => {
            assert_eq!(src.bytes, b"/music/a.mp3".to_vec());
            assert_eq!(dest.bytes, b"/music/X/Song.mp3".to_vec());
        },
        _ => panic!("second transaction should move the song"),
    }
}

#[test]
fn existing_artist_directory_needs_no_mkdir() {
    let songs = vec![rec("/music/a.mp3", Some("X"), Some("Song"))];
    let snapshot = fs(&["/music/X"]);
    let batch = sort_songs_transactions(&path("/music"), &songs, &snapshot).unwrap();
    assert_eq!(batch.len(), 1);
    assert!(matches!(&batch[0], Transaction::Move { .. }));
}

#[test]
fn shared_new_artist_directory_is_created_once() {
    let songs = vec![
        rec("/music/a.opus", Some("Y"), Some("First")),
        rec("/music/b.opus", Some("Y"), Some("Second")),
    ];
    let batch = sort_songs_transactions(&path("/music"), &songs, &fs(&[])).unwrap();
    let mkdirs: Vec<&Transaction> =
        batch.iter().filter(|t| matches!(t, Transaction::Mkdir(_))).collect();
    assert_eq!(mkdirs.len(), 1, "the shared directory is deduplicated");
    match mkdirs[0] {
        Transaction::Mkdir(dir) => assert_eq!(dir.bytes, b"/music/Y".to_vec()),
        _ => unreachable!(),
    }
    assert_eq!(batch.len(), 3);
}

#[test]
fn every_mkdir_precedes_every_move() {
    let songs = vec![
        rec("/music/a.mp3", Some("A"), Some("One")),
        rec("/music/b.mp3", Some("B"), Some("Two")),
        rec("/music/c.mp3", Some("A"), Some("Three")),
    ];
    let batch = sort_songs_transactions(&path("/music"), &songs, &fs(&[])).unwrap();
    let first_move = batch.iter().position(|t| matches!(t, Transaction::Move { .. })).unwrap();
    for t in &batch[first_move..] {
        assert!(matches!(t, Transaction::Move { .. }));
    }
    assert_eq!(batch.len(), 5);
}

#[test]
fn occupied_destination_reports_a_conflict() {
    let songs = vec![rec("/music/a.mp3", Some("X"), Some("Song"))];
    let snapshot = fs(&["/music/X", "/music/X/Song.mp3"]);
    let err = sort_songs_transactions(&path("/music"), &songs, &snapshot).unwrap_err();
    match err {
        Error::AlreadyExists { src, dest } => {
            assert_eq!(src.bytes, b"/music/a.mp3".to_vec());
            assert_eq!(dest.bytes, b"/music/X/Song.mp3".to_vec());
        },
        other => panic!("expected a conflict, got {other:?}"),
    }
}

#[test]
fn conflict_aborts_the_whole_batch() {
    let songs = vec![
        rec("/music/a.mp3", Some("A"), Some("One")),
        rec("/music/b.mp3", Some("X"), Some("Song")),
    ];
    let snapshot = fs(&["/music/X", "/music/X/Song.mp3"]);
    assert!(sort_songs_transactions(&path("/music"), &songs, &snapshot).is_err());
}

#[test]
fn probe_failure_aborts_planning() {
    let songs = vec![
        rec("/music/a.mp3", Some("A"), Some("One")),
        SongRecord { path: path("/music/bad.mp3"), probe: Err(Error::Probe) },
    ];
    let err = sort_songs_transactions(&path("/music"), &songs, &fs(&[])).unwrap_err();
    assert!(matches!(err, Error::Probe));
}

#[test]
fn tags_are_sanitized_in_the_plan() {
    let songs = vec![rec("/music/a.mp3", Some("A/C"), Some("So:ng?"))];
    let batch = sort_songs_transactions(&path("/music"), &songs, &fs(&[])).unwrap();
    match &batch[0] {
        Transaction::Mkdir(dir) => assert_eq!(dir.bytes, b"/music/AC".to_vec()),
        _ => panic!("expected a directory creation first"),
    }
    match &batch[1] {
        Transaction::Move { dest, .. } => {
            assert_eq!(dest.bytes, b"/music/AC/So:ng?.mp3".to_vec())
        },
        _ => panic!("expected the move second"),
    }
}
