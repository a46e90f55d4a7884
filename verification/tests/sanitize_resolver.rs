use music_manager::path::SongPath;
use music_manager::sort::{sanitize, target_location};

fn path(s: &str) -> SongPath {
    SongPath::new(s.as_bytes().to_vec())
}

#[test]
fn sanitize_keeps_alphanumerics_and_allowed_punctuation() {
    let input = b"Don't Stop! (Live), Vol. 2: why? a-b_c=d&e \"q\"".to_vec();
    assert_eq!(sanitize(&input), input);
}

#[test]
fn sanitize_drops_path_separators() {
    assert_eq!(sanitize(&b"AC/DC".to_vec()), b"ACDC".to_vec());
}

#[test]
fn sanitize_drops_control_and_high_bytes() {
    let input = vec![b'a', 0x00, b'b', 0x07, 0xC3, 0xA9, b'c'];
    assert_eq!(sanitize(&input), b"abc".to_vec());
}

#[test]
fn sanitize_maps_misencoded_apostrophe() {
    let mut input = b"Don".to_vec();
    input.extend_from_slice(&[0xE2, 0x80, 0x99]);
    input.extend_from_slice(b"t");
    assert_eq!(sanitize(&input), b"Don't".to_vec());
}

#[test]
fn sanitize_is_idempotent_on_samples() {
    let samples: Vec<Vec<u8>> = vec![
        b"plain words".to_vec(),
        b"AC/DC".to_vec(),
        vec![0xE2, 0x80, 0x99, 0xE2, 0x80, 0x99],
        vec![0xFF, 0xFE, b'x'],
        b"".to_vec(),
    ];
    for s in samples {
        let once = sanitize(&s);
        assert_eq!(sanitize(&once), once);
    }
}

#[test]
fn target_location_builds_canonical_path() {
    let dest = target_location(
        &path("/music"),
        &b"X".to_vec(),
        &b"Song".to_vec(),
        &b"mp3".to_vec(),
    );
    assert_eq!(dest.bytes, b"/music/X/Song.mp3".to_vec());
}

#[test]
fn target_location_sanitizes_both_components() {
    let dest = target_location(
        &path("/music"),
        &b"A/B".to_vec(),
        &b"So/ng".to_vec(),
        &b"ogg".to_vec(),
    );
    assert_eq!(dest.bytes, b"/music/AB/Song.ogg".to_vec());
}
