use music_manager::duplicates::{detect_duplicates, find_duplicates, Strategy};
use music_manager::error::Error;
use music_manager::fingerprint::{hash_filename, hash_metadata, hash_stream};
use music_manager::path::SongPath;
use music_manager::song::{ProbeData, SongRecord};

fn path(s: &str) -> SongPath {
    SongPath::new(s.as_bytes().to_vec())
}

fn rec(p: &str, artist: Option<&str>, title: Option<&str>, payload: &[u8]) -> SongRecord {
    SongRecord {
        path: path(p),
        probe: Ok(ProbeData {
            artist: artist.map(|a| a.as_bytes().to_vec()),
            title: title.map(|t| t.as_bytes().to_vec()),
            codec: String::from("test codec"),
            packets: Ok(vec![payload.to_vec()]),
        }),
    }
}

fn broken(p: &str) -> SongRecord {
    SongRecord { path: path(p), probe: Err(Error::Probe) }
}

#[test]
fn digest_is_32_bytes_and_not_the_input() {
    let fp = hash_stream(&vec![b"0123456789abcdef0123456789abcdef".to_vec()]);
    assert_eq!(fp.bytes.len(), 32);
    assert_ne!(fp.bytes, b"0123456789abcdef0123456789abcdef".to_vec());
}

#[test]
fn equal_payloads_hash_equal() {
    let a = hash_stream(&vec![b"payload".to_vec()]);
    let b = hash_stream(&vec![b"payload".to_vec()]);
    assert!(a.same_as(&b));
}

#[test]
fn packet_boundaries_do_not_matter() {
    let a = hash_stream(&vec![b"pay".to_vec(), b"load".to_vec()]);
    let b = hash_stream(&vec![b"payload".to_vec()]);
    assert!(a.same_as(&b));
}

#[test]
fn one_differing_byte_changes_the_digest() {
    let a = hash_stream(&vec![b"payloaX".to_vec()]);
    let b = hash_stream(&vec![b"payload".to_vec()]);
    assert!(!a.same_as(&b));
}

#[test]
fn missing_title_has_no_metadata_fingerprint() {
    assert!(hash_metadata(&None).is_none());
}

#[test]
fn titles_decide_the_metadata_fingerprint() {
    let a = hash_metadata(&Some(b"Song".to_vec())).unwrap();
    let b = hash_metadata(&Some(b"Song".to_vec())).unwrap();
    let c = hash_metadata(&Some(b"Other".to_vec())).unwrap();
    assert!(a.same_as(&b));
    assert!(!a.same_as(&c));
}

#[test]
fn filename_fingerprint_ignores_the_directory() {
    let a = hash_filename(&path("/one/x.mp3"));
    let b = hash_filename(&path("/two/x.mp3"));
    assert!(a.same_as(&b));
}

#[test]
fn identical_songs_grouped_by_stream_and_metadata() {
    let songs = vec![
        rec("/music/a.mp3", Some("X"), Some("Song"), b"same-bytes"),
        rec("/music/b.mp3", Some("X"), Some("Song"), b"same-bytes"),
    ];
    let d = detect_duplicates(&songs, true, false, true).unwrap();
    assert_eq!(d.stream.len(), 1);
    assert_eq!(d.stream[0].len(), 2);
    assert_eq!(d.stream[0][0].bytes, b"/music/a.mp3".to_vec());
    assert_eq!(d.stream[0][1].bytes, b"/music/b.mp3".to_vec());
    assert_eq!(d.metadata.len(), 1);
    assert_eq!(d.metadata[0].len(), 2);
    assert_eq!(d.metadata[0][0].bytes, b"/music/a.mp3".to_vec());
    assert_eq!(d.metadata[0][1].bytes, b"/music/b.mp3".to_vec());
    assert!(d.filename.is_empty());
}

#[test]
fn differing_payload_splits_the_stream_group() {
    let songs = vec![
        rec("/music/a.mp3", Some("X"), Some("Song"), b"same-bytes"),
        rec("/music/b.mp3", Some("X"), Some("Song"), b"Same-bytes"),
    ];
    let groups = find_duplicates(&songs, Strategy::Stream).unwrap();
    assert!(groups.is_empty());
}

#[test]
fn untagged_song_excluded_from_metadata_groups() {
    let songs = vec![
        rec("/music/a.mp3", Some("X"), Some("Song"), b"one"),
        rec("/music/unknown.mp3", None, None, b"two"),
        rec("/music/b.mp3", Some("X"), Some("Song"), b"three"),
    ];
    let groups = find_duplicates(&songs, Strategy::Metadata).unwrap();
    assert_eq!(groups.len(), 1);
    assert_eq!(groups[0].len(), 2);
    assert_eq!(groups[0][0].bytes, b"/music/a.mp3".to_vec());
    assert_eq!(groups[0][1].bytes, b"/music/b.mp3".to_vec());
}

#[test]
fn lone_song_makes_no_group() {
    let songs = vec![rec("/music/a.mp3", Some("X"), Some("Song"), b"one")];
    let groups = find_duplicates(&songs, Strategy::Metadata).unwrap();
    assert!(groups.is_empty());
}

#[test]
fn duplicate_filenames_grouped() {
    let songs = vec![
        rec("/one/x.mp3", None, None, b"a"),
        rec("/two/y.mp3", None, None, b"b"),
        rec("/three/x.mp3", None, None, b"c"),
    ];
    let groups = find_duplicates(&songs, Strategy::Filename).unwrap();
    assert_eq!(groups.len(), 1);
    assert_eq!(groups[0].len(), 2);
    assert_eq!(groups[0][0].bytes, b"/one/x.mp3".to_vec());
    assert_eq!(groups[0][1].bytes, b"/three/x.mp3".to_vec());
}

#[test]
fn probe_failure_aborts_the_stream_run() {
    let songs = vec![
        rec("/music/a.mp3", Some("X"), Some("Song"), b"one"),
        broken("/music/bad.mp3"),
    ];
    let err = find_duplicates(&songs, Strategy::Stream).unwrap_err();
    assert!(matches!(err, Error::Probe));
}

#[test]
fn probe_failure_does_not_disturb_the_filename_run() {
    let songs = vec![broken("/one/x.mp3"), broken("/two/x.mp3")];
    let groups = find_duplicates(&songs, Strategy::Filename).unwrap();
    assert_eq!(groups.len(), 1);
    assert_eq!(groups[0].len(), 2);
}

#[test]
fn pathological_path_fails_the_filename_run() {
    let songs = vec![
        SongRecord { path: path("/music/dir/"), probe: Err(Error::Io) },
    ];
    let err = find_duplicates(&songs, Strategy::Filename).unwrap_err();
    assert!(matches!(err, Error::MissingMetadata));
}

#[test]
fn three_way_duplicates_form_one_group() {
    let songs = vec![
        rec("/m/a.mp3", None, Some("T"), b"x"),
        rec("/m/b.mp3", None, Some("T"), b"x"),
        rec("/m/c.mp3", None, Some("T"), b"x"),
    ];
    let groups = find_duplicates(&songs, Strategy::Metadata).unwrap();
    assert_eq!(groups.len(), 1);
    assert_eq!(groups[0].len(), 3);
}
