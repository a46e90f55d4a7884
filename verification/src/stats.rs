use vstd::prelude::*;

use crate::error::{Error, ErrorView};
use crate::path::{extension_of, path_views, SongPath};
use crate::song::SongRecord;
use crate::sort::{dest_of, plannable, target_location};

verus! {

/// The size of each census category.
#[derive(Debug)]
pub struct StatNumbers {
    pub total: usize,
    pub tagged: usize,
    pub untagged: usize,
    pub sorted: usize,
    pub unsorted: usize,
}

impl Default for StatNumbers {
    /// An empty census: every count is zero.
    fn default() -> (r: StatNumbers)
        ensures
            r.total == 0 && r.tagged == 0 && r.untagged == 0 && r.sorted == 0 && r.unsorted == 0,
    {
        StatNumbers { total: 0, tagged: 0, untagged: 0, sorted: 0, unsorted: 0 }
    }
}

/// A library census: the songs of each category, with their counts.
/// `tagged` and `untagged` partition the library by whether both
/// artist and title are present; `sorted` and `unsorted` partition the
/// tagged songs by whether they already sit at their canonical
/// location.
#[derive(Debug)]
pub struct Stats {
    pub stats: StatNumbers,
    pub total: Vec<SongPath>,
    pub tagged: Vec<SongPath>,
    pub untagged: Vec<SongPath>,
    pub sorted: Vec<SongPath>,
    pub unsorted: Vec<SongPath>,
}

impl Stats {
    /// Builds the census from the categorized songs, filling in the
    /// counts from the lists' lengths.
    pub fn new(
        total: Vec<SongPath>,
        tagged: Vec<SongPath>,
        untagged: Vec<SongPath>,
        sorted: Vec<SongPath>,
        unsorted: Vec<SongPath>,
    ) -> (r: Stats)
        ensures
            r.total@ == total@,
            r.tagged@ == tagged@,
            r.untagged@ == untagged@,
            r.sorted@ == sorted@,
            r.unsorted@ == unsorted@,
            r.stats.total == total@.len(),
            r.stats.tagged == tagged@.len(),
            r.stats.untagged == untagged@.len(),
            r.stats.sorted == sorted@.len(),
            r.stats.unsorted == unsorted@.len(),
    {
        let mut s = Stats {
            stats: StatNumbers::default(),
            total,
            tagged,
            untagged,
            sorted,
            unsorted,
        };
        s.update_numbers();
        s
    }

    /// Refreshes the counts from the lists' lengths.
    fn update_numbers(&mut self)
        ensures
            final(self).total@ == old(self).total@,
            final(self).tagged@ == old(self).tagged@,
            final(self).untagged@ == old(self).untagged@,
            final(self).sorted@ == old(self).sorted@,
            final(self).unsorted@ == old(self).unsorted@,
            final(self).stats.total == old(self).total@.len(),
            final(self).stats.tagged == old(self).tagged@.len(),
            final(self).stats.untagged == old(self).untagged@.len(),
            final(self).stats.sorted == old(self).sorted@.len(),
            final(self).stats.unsorted == old(self).unsorted@.len(),
    {
        self.stats = StatNumbers {
            total: self.total.len(),
            tagged: self.tagged.len(),
            untagged: self.untagged.len(),
            sorted: self.sorted.len(),
            unsorted: self.unsorted.len(),
        };
    }

    /// The counts of the census, one per category.
    pub fn numbers(&self) -> (r: StatNumbers)
        ensures
            r.total == self.total@.len(),
            r.tagged == self.tagged@.len(),
            r.untagged == self.untagged@.len(),
            r.sorted == self.sorted@.len(),
            r.unsorted == self.unsorted@.len(),
    {
        StatNumbers {
            total: self.total.len(),
            tagged: self.tagged.len(),
            untagged: self.untagged.len(),
            sorted: self.sorted.len(),
            unsorted: self.unsorted.len(),
        }
    }
}

/// Every song's path, in input order.
pub open spec fn all_paths(songs: Seq<SongRecord>) -> Seq<Seq<u8>> {
    songs.map_values(|r: SongRecord| r.path@)
}

/// The paths of the songs that carry both artist and title.
pub open spec fn tagged_paths(songs: Seq<SongRecord>) -> Seq<Seq<u8>>
    decreases songs.len(),
{
    if songs.len() == 0 {
        Seq::empty()
    } else {
        let rest = tagged_paths(songs.drop_last());
        if plannable(songs.last()) {
            rest.push(songs.last().path@)
        } else {
            rest
        }
    }
}

/// The paths of the songs missing artist or title.
pub open spec fn untagged_paths(songs: Seq<SongRecord>) -> Seq<Seq<u8>>
    decreases songs.len(),
{
    if songs.len() == 0 {
        Seq::empty()
    } else {
        let rest = untagged_paths(songs.drop_last());
        if !plannable(songs.last()) {
            rest.push(songs.last().path@)
        } else {
            rest
        }
    }
}

/// The paths of the tagged songs already at their canonical location.
pub open spec fn sorted_paths(prefix: Seq<u8>, songs: Seq<SongRecord>) -> Seq<Seq<u8>>
    decreases songs.len(),
{
    if songs.len() == 0 {
        Seq::empty()
    } else {
        let rest = sorted_paths(prefix, songs.drop_last());
        if plannable(songs.last()) && dest_of(prefix, songs.last()) == songs.last().path@ {
            rest.push(songs.last().path@)
        } else {
            rest
        }
    }
}

/// The paths of the tagged songs not at their canonical location.
pub open spec fn unsorted_paths(prefix: Seq<u8>, songs: Seq<SongRecord>) -> Seq<Seq<u8>>
    decreases songs.len(),
{
    if songs.len() == 0 {
        Seq::empty()
    } else {
        let rest = unsorted_paths(prefix, songs.drop_last());
        if plannable(songs.last()) && dest_of(prefix, songs.last()) != songs.last().path@ {
            rest.push(songs.last().path@)
        } else {
            rest
        }
    }
}

/// Whether some song's probe failed.
pub open spec fn any_probe_failure(songs: Seq<SongRecord>) -> bool {
    exists|i: int| 0 <= i < songs.len() && songs[i].probe is Err
}

/// The error of the first song whose probe failed.
pub open spec fn first_probe_failure(songs: Seq<SongRecord>) -> ErrorView
    decreases songs.len(),
{
    if songs.len() == 0 {
        arbitrary()
    } else if songs.first().probe is Err {
        songs.first().probe->Err_0@
    } else {
        first_probe_failure(songs.drop_first())
    }
}

proof fn lemma_first_probe_failure(songs: Seq<SongRecord>, i: int)
    requires
        0 <= i < songs.len(),
        forall|j: int| 0 <= j < i ==> !((#[trigger] songs[j]).probe is Err),
        songs[i].probe is Err,
    ensures
        first_probe_failure(songs) == songs[i].probe->Err_0@,
    decreases i,
{
    if i == 0 {
        assert(songs.first() == songs[0]);
    } else {
        assert(songs.first() == songs[0]);
        let rest = songs.drop_first();
        assert forall|j: int| 0 <= j < i - 1 implies !((#[trigger] rest[j]).probe is Err) by {
            assert(rest[j] == songs[j + 1]);
        }
        assert(rest[i - 1] == songs[i]);
        lemma_first_probe_failure(rest, i - 1);
    }
}

/// Takes the census of a library: every song, the tagged and untagged
/// ones, and among the tagged ones those already at their canonical
/// location under `prefix` and those elsewhere. The first failed probe
/// aborts the run with its error.
pub fn get_stats(prefix: &SongPath, songs: &Vec<SongRecord>) -> (r: Result<Stats, Error>)
    requires
        forall|i: int|
            0 <= i < songs@.len() && #[trigger] plannable(songs@[i]) ==> extension_of(
                songs@[i].path@,
            ) is Some,
    ensures
        r is Ok <==> !any_probe_failure(songs@),
        r matches Err(e) ==> e@ == first_probe_failure(songs@),
        r matches Ok(stats) ==> {
            &&& path_views(stats.total@) == all_paths(songs@)
            &&& path_views(stats.tagged@) == tagged_paths(songs@)
            &&& path_views(stats.untagged@) == untagged_paths(songs@)
            &&& path_views(stats.sorted@) == sorted_paths(prefix@, songs@)
            &&& path_views(stats.unsorted@) == unsorted_paths(prefix@, songs@)
            &&& stats.stats.total == songs@.len()
        },
{
    let n = songs.len();
    let mut total: Vec<SongPath> = Vec::new();
    let mut tagged: Vec<SongPath> = Vec::new();
    let mut untagged: Vec<SongPath> = Vec::new();
    let mut sorted: Vec<SongPath> = Vec::new();
    let mut unsorted: Vec<SongPath> = Vec::new();
    let mut i: usize = 0;
    proof {
        assert(path_views(total@) =~= all_paths(songs@.take(0)));
        assert(path_views(tagged@) =~= tagged_paths(songs@.take(0)));
        assert(path_views(untagged@) =~= untagged_paths(songs@.take(0)));
        assert(path_views(sorted@) =~= sorted_paths(prefix@, songs@.take(0)));
        assert(path_views(unsorted@) =~= unsorted_paths(prefix@, songs@.take(0)));
    }
    while i < n
        invariant
            i <= n,
            n == songs@.len(),
            forall|j: int|
                0 <= j < songs@.len() && #[trigger] plannable(songs@[j]) ==> extension_of(
                    songs@[j].path@,
                ) is Some,
            forall|j: int| 0 <= j < i ==> !((#[trigger] songs@[j]).probe is Err),
            path_views(total@) == all_paths(songs@.take(i as int)),
            path_views(tagged@) == tagged_paths(songs@.take(i as int)),
            path_views(untagged@) == untagged_paths(songs@.take(i as int)),
            path_views(sorted@) == sorted_paths(prefix@, songs@.take(i as int)),
            path_views(unsorted@) == unsorted_paths(prefix@, songs@.take(i as int)),
        decreases n - i,
    {
        let ghost rec_spec = songs@[i as int];
        let ghost t0 = path_views(total@);
        let ghost t1 = path_views(tagged@);
        let ghost t2 = path_views(untagged@);
        let ghost t3 = path_views(sorted@);
        let ghost t4 = path_views(unsorted@);
        let rec = &songs[i];
        match &rec.probe {
            Err(e) => {
                proof {
                    lemma_first_probe_failure(songs@, i as int);
                }
                return Err(e.duplicate());
            },
            Ok(data) => {
                total.push(rec.path.duplicate());
                match (&data.artist, &data.title) {
                    (Some(artist), Some(title)) => {
                        proof {
                            assert(plannable(rec_spec));
                        }
                        tagged.push(rec.path.duplicate());
                        let ext = match rec.path.extension() {
                            Some(e) => e,
                            None => unreached(),
                        };
                        let dest = target_location(prefix, artist, title, &ext);
                        proof {
                            assert(dest@ == dest_of(prefix@, rec_spec));
                        }
                        if dest.same_as(&rec.path) {
                            sorted.push(rec.path.duplicate());
                        } else {
                            unsorted.push(rec.path.duplicate());
                        }
                    },
                    _ => {
                        proof {
                            assert(!plannable(rec_spec));
                        }
                        untagged.push(rec.path.duplicate());
                    },
                }
            },
        }
        i = i + 1;
        proof {
            let taken = songs@.take(i as int);
            assert(taken.drop_last() =~= songs@.take(i - 1));
            assert(taken.last() == songs@[i - 1]);
            assert(path_views(total@) =~= t0.push(rec_spec.path@));
            if plannable(rec_spec) {
                assert(path_views(tagged@) =~= t1.push(rec_spec.path@));
                if dest_of(prefix@, rec_spec) == rec_spec.path@ {
                    assert(path_views(sorted@) =~= t3.push(rec_spec.path@));
                } else {
                    assert(path_views(unsorted@) =~= t4.push(rec_spec.path@));
                }
            } else {
                assert(path_views(untagged@) =~= t2.push(rec_spec.path@));
            }
            assert(all_paths(taken) =~= all_paths(songs@.take(i - 1)).push(rec_spec.path@));
        }
    }
    proof {
        assert(songs@.take(n as int) =~= songs@);
    }
    Ok(Stats::new(total, tagged, untagged, sorted, unsorted))
}

} // verus!
