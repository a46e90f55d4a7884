use music_manager::error::Error;
use music_manager::path::SongPath;
use music_manager::song::{ProbeData, SongRecord};
use music_manager::stats::{get_stats, Stats};

fn path(s: &str) -> SongPath {
    SongPath::new(s.as_bytes().to_vec())
}

fn rec(p: &str, artist: Option<&str>, title: Option<&str>) -> SongRecord {
    SongRecord {
        path: path(p),
        probe: Ok(ProbeData {
            artist: artist.map(|a| a.as_bytes().to_vec()),
            title: title.map(|t| t.as_bytes().to_vec()),
            codec: String::from("test codec"),
            packets: Ok(vec![]),
        }),
    }
}

#[test]
fn census_classifies_every_song() {
    let songs = vec![
        rec("/music/X/Song.mp3", Some("X"), Some("Song")),
        rec("/music/stray.mp3", Some("X"), Some("Song")),
        rec("/music/unknown.mp3", None, None),
    ];
    let stats = get_stats(&path("/music"), &songs).unwrap();
    let numbers = stats.numbers();
    assert_eq!(numbers.total, 3);
    assert_eq!(numbers.tagged, 2);
    assert_eq!(numbers.untagged, 1);
    assert_eq!(numbers.sorted, 1);
    assert_eq!(numbers.unsorted, 1);
    assert_eq!(stats.untagged[0].bytes, b"/music/unknown.mp3".to_vec());
    assert_eq!(stats.sorted[0].bytes, b"/music/X/Song.mp3".to_vec());
    assert_eq!(stats.unsorted[0].bytes, b"/music/stray.mp3".to_vec());
}

#[test]
fn sorted_song_counted_sorted() {
    let songs = vec![rec("/music/X/Song.mp3", Some("X"), Some("Song"))];
    let stats = get_stats(&path("/music"), &songs).unwrap();
    assert_eq!(stats.numbers().sorted, 1);
    assert_eq!(stats.numbers().unsorted, 0);
}

#[test]
fn missing_one_tag_counts_untagged() {
    let songs = vec![rec("/music/half.mp3", Some("X"), None)];
    let stats = get_stats(&path("/music"), &songs).unwrap();
    assert_eq!(stats.numbers().tagged, 0);
    assert_eq!(stats.numbers().untagged, 1);
}

#[test]
fn probe_failure_aborts_the_census() {
    let songs = vec![SongRecord { path: path("/music/bad.mp3"), probe: Err(Error::Io) }];
    let err = get_stats(&path("/music"), &songs).unwrap_err();
    assert!(matches!(err, Error::Io));
}

#[test]
fn stats_new_counts_its_lists() {
    let stats = Stats::new(
        vec![path("/m/a.mp3"), path("/m/b.mp3")],
        vec![path("/m/a.mp3")],
        vec![path("/m/b.mp3")],
        vec![],
        vec![path("/m/a.mp3")],
    );
    assert_eq!(stats.stats.total, 2);
    assert_eq!(stats.stats.tagged, 1);
    assert_eq!(stats.stats.untagged, 1);
    assert_eq!(stats.stats.sorted, 0);
    assert_eq!(stats.stats.unsorted, 1);
}
