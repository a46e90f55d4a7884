use music_manager::path::{is_song, SongPath};

fn path(s: &str) -> SongPath {
    SongPath::new(s.as_bytes().to_vec())
}

#[test]
fn file_name_of_plain_path() {
    assert_eq!(path("/music/a.mp3").file_name(), Some(b"a.mp3".to_vec()));
}

#[test]
fn file_name_without_directory() {
    assert_eq!(path("song.ogg").file_name(), Some(b"song.ogg".to_vec()));
}

#[test]
fn file_name_missing_for_trailing_separator() {
    assert_eq!(path("/music/").file_name(), None);
    assert_eq!(path("").file_name(), None);
}

#[test]
fn extension_of_plain_path() {
    assert_eq!(path("/music/a.mp3").extension(), Some(b"mp3".to_vec()));
}

#[test]
fn extension_uses_last_dot() {
    assert_eq!(path("/music/a.tar.flac").extension(), Some(b"flac".to_vec()));
}

#[test]
fn extension_missing_without_dot() {
    assert_eq!(path("/music/song").extension(), None);
}

#[test]
fn extension_missing_for_hidden_file() {
    assert_eq!(path("/music/.config").extension(), None);
}

#[test]
fn extension_empty_for_trailing_dot() {
    assert_eq!(path("/music/song.").extension(), Some(b"".to_vec()));
}

#[test]
fn join_inserts_separator() {
    assert_eq!(path("/music").join(&b"X".to_vec()).bytes, b"/music/X".to_vec());
}

#[test]
fn join_keeps_existing_separator() {
    assert_eq!(path("/music/").join(&b"X".to_vec()).bytes, b"/music/X".to_vec());
}

#[test]
fn join_onto_empty_prefix() {
    assert_eq!(path("").join(&b"X".to_vec()).bytes, b"X".to_vec());
}

#[test]
fn same_as_compares_bytes() {
    assert!(path("/a/b.mp3").same_as(&path("/a/b.mp3")));
    assert!(!path("/a/b.mp3").same_as(&path("/a/c.mp3")));
}

#[test]
fn duplicate_copies_bytes() {
    let p = path("/a/b.mp3");
    let q = p.duplicate();
    assert_eq!(p.bytes, q.bytes);
}

#[test]
fn song_extensions_accepted() {
    for name in ["a.mp1", "a.mp2", "a.mp3", "a.ogg", "a.opus", "a.flac", "a.aac"] {
        assert!(is_song(&path(name)), "{name} should be a song");
    }
}

#[test]
fn non_song_extensions_rejected() {
    for name in ["a.txt", "a.wav", "a", "a.", ".mp3", "dir/"] {
        assert!(!is_song(&path(name)), "{name} should not be a song");
    }
}
