use vstd::prelude::*;

use crate::error::{Error, ErrorView};
use crate::fingerprint::{concat_of, digest_of, hash_filename, hash_metadata, hash_stream,
    Fingerprint};
use crate::path::{filename_of, path_views, SongPath};
use crate::song::SongRecord;

verus! {

/// The three duplicate-detection strategies. Exactly these exist; none
/// are added at runtime.
#[derive(Clone, Copy, Debug)]
pub enum Strategy {
    Filename,
    Metadata,
    Stream,
}

/// What one strategy yields for one song: a fingerprint, a skip
/// (a missing prerequisite, not an error), or a failure that aborts the
/// whole run for that strategy.
#[derive(Debug)]
pub enum StrategyResult {
    Found(Fingerprint),
    Skipped,
    Failed(Error),
}

/// The abstract value of a [`StrategyResult`].
pub enum OutcomeView {
    Found(Seq<u8>),
    Skipped,
    Failed(ErrorView),
}

pub open spec fn outcome_view(r: StrategyResult) -> OutcomeView {
    match r {
        StrategyResult::Found(fp) => OutcomeView::Found(fp@),
        StrategyResult::Skipped => OutcomeView::Skipped,
        StrategyResult::Failed(e) => OutcomeView::Failed(e@),
    }
}

/// What a strategy is defined to yield for a song.
///
/// - Filename: the digest of the file name; a path without a file-name
///   component is a contract violation and fails the run.
/// - Metadata: the digest of the title tag; a song without a title is
///   skipped, and a probe failure propagates.
/// - Stream: the digest of the concatenated packet payloads; a probe or
///   decode failure propagates.
pub open spec fn outcome_spec(strategy: Strategy, rec: SongRecord) -> OutcomeView {
    match strategy {
        Strategy::Filename => match filename_of(rec.path@) {
            Some(name) => OutcomeView::Found(digest_of(name)),
            None => OutcomeView::Failed(ErrorView::MissingMetadata),
        },
        Strategy::Metadata => match rec.probe {
            Ok(data) => match data.title {
                Some(t) => OutcomeView::Found(digest_of(t@)),
                None => OutcomeView::Skipped,
            },
            Err(e) => OutcomeView::Failed(e@),
        },
        Strategy::Stream => match rec.probe {
            Ok(data) => match data.packets {
                Ok(ps) => OutcomeView::Found(digest_of(concat_of(ps.deep_view()))),
                Err(e) => OutcomeView::Failed(e@),
            },
            Err(e) => OutcomeView::Failed(e@),
        },
    }
}

/// Whether some song fails under the strategy.
pub open spec fn any_failure(strategy: Strategy, songs: Seq<SongRecord>) -> bool {
    exists|i: int| 0 <= i < songs.len() && outcome_spec(strategy, songs[i]) is Failed
}

/// The error of the first song that fails under the strategy.
pub open spec fn first_failure(strategy: Strategy, songs: Seq<SongRecord>) -> ErrorView
    decreases songs.len(),
{
    if songs.len() == 0 {
        arbitrary()
    } else {
        match outcome_spec(strategy, songs.first()) {
            OutcomeView::Failed(e) => e,
            _ => first_failure(strategy, songs.drop_first()),
        }
    }
}

/// The `(path, fingerprint)` pairs of the songs the strategy
/// fingerprinted, in input order; skipped songs contribute nothing.
pub open spec fn found_pairs(strategy: Strategy, songs: Seq<SongRecord>) -> Seq<(Seq<u8>, Seq<u8>)>
    decreases songs.len(),
{
    if songs.len() == 0 {
        Seq::empty()
    } else {
        let rest = found_pairs(strategy, songs.drop_last());
        match outcome_spec(strategy, songs.last()) {
            OutcomeView::Found(fp) => rest.push((songs.last().path@, fp)),
            _ => rest,
        }
    }
}

/// The paths among `pairs` that carry the fingerprint `fp`, in order.
pub open spec fn paths_with_fp(pairs: Seq<(Seq<u8>, Seq<u8>)>, fp: Seq<u8>) -> Seq<Seq<u8>>
    decreases pairs.len(),
{
    if pairs.len() == 0 {
        Seq::empty()
    } else {
        let rest = paths_with_fp(pairs.drop_last(), fp);
        if pairs.last().1 == fp {
            rest.push(pairs.last().0)
        } else {
            rest
        }
    }
}

/// The distinct fingerprints among `pairs`, in first-appearance order.
pub open spec fn distinct_fps(pairs: Seq<(Seq<u8>, Seq<u8>)>) -> Seq<Seq<u8>>
    decreases pairs.len(),
{
    if pairs.len() == 0 {
        Seq::empty()
    } else {
        let rest = distinct_fps(pairs.drop_last());
        if rest.contains(pairs.last().1) {
            rest
        } else {
            rest.push(pairs.last().1)
        }
    }
}

/// The groups of size two or more among the classes that the
/// fingerprints `fps` induce on `pairs`.
pub open spec fn big_groups(pairs: Seq<(Seq<u8>, Seq<u8>)>, fps: Seq<Seq<u8>>) -> Seq<
    Seq<Seq<u8>>,
>
    decreases fps.len(),
{
    if fps.len() == 0 {
        Seq::empty()
    } else {
        let rest = big_groups(pairs, fps.drop_last());
        let g = paths_with_fp(pairs, fps.last());
        if g.len() >= 2 {
            rest.push(g)
        } else {
            rest
        }
    }
}

/// The duplicate groups that `pairs` induce: one class per distinct
/// fingerprint, in first-appearance order, keeping classes of size two
/// or more.
pub open spec fn groups_of(pairs: Seq<(Seq<u8>, Seq<u8>)>) -> Seq<Seq<Seq<u8>>> {
    big_groups(pairs, distinct_fps(pairs))
}

pub open spec fn group_views(gs: Seq<Vec<SongPath>>) -> Seq<Seq<Seq<u8>>> {
    gs.map_values(|g: Vec<SongPath>| path_views(g@))
}

pub open spec fn pair_views(ps: Seq<(SongPath, Fingerprint)>) -> Seq<(Seq<u8>, Seq<u8>)> {
    ps.map_values(|pr: (SongPath, Fingerprint)| (pr.0@, pr.1@))
}

/// Computes what the strategy yields for one song.
pub fn strategy_outcome(strategy: Strategy, rec: &SongRecord) -> (r: StrategyResult)
    ensures
        outcome_view(r) == outcome_spec(strategy, *rec),
{
    match strategy {
        Strategy::Filename => match rec.path.file_name() {
            Some(_) => StrategyResult::Found(hash_filename(&rec.path)),
            None => StrategyResult::Failed(Error::MissingMetadata),
        },
        Strategy::Metadata => match &rec.probe {
            Ok(data) => match hash_metadata(&data.title) {
                Some(fp) => StrategyResult::Found(fp),
                None => StrategyResult::Skipped,
            },
            Err(e) => StrategyResult::Failed(e.duplicate()),
        },
        Strategy::Stream => match &rec.probe {
            Ok(data) => match &data.packets {
                Ok(ps) => StrategyResult::Found(hash_stream(ps)),
                Err(e) => StrategyResult::Failed(e.duplicate()),
            },
            Err(e) => StrategyResult::Failed(e.duplicate()),
        },
    }
}

proof fn lemma_first_failure(strategy: Strategy, songs: Seq<SongRecord>, i: int)
    requires
        0 <= i < songs.len(),
        forall|j: int| 0 <= j < i ==> !(outcome_spec(strategy, songs[j]) is Failed),
        outcome_spec(strategy, songs[i]) is Failed,
    ensures
        first_failure(strategy, songs) == outcome_spec(strategy, songs[i])->Failed_0,
    decreases i,
{
    if i == 0 {
        assert(songs.first() == songs[0]);
    } else {
        assert(songs.first() == songs[0]);
        assert(!(outcome_spec(strategy, songs[0]) is Failed));
        let rest = songs.drop_first();
        assert forall|j: int| 0 <= j < i - 1 implies !(outcome_spec(strategy, rest[j]) is Failed) by {
            assert(rest[j] == songs[j + 1]);
        }
        assert(rest[i - 1] == songs[i]);
        lemma_first_failure(strategy, rest, i - 1);
    }
}

proof fn lemma_distinct_fps_distinct(pairs: Seq<(Seq<u8>, Seq<u8>)>)
    ensures
        forall|a: int, b: int|
            0 <= a < b < distinct_fps(pairs).len() ==> distinct_fps(pairs)[a] != distinct_fps(
                pairs,
            )[b],
    decreases pairs.len(),
{
    if pairs.len() > 0 {
        lemma_distinct_fps_distinct(pairs.drop_last());
        let rest = distinct_fps(pairs.drop_last());
        if !rest.contains(pairs.last().1) {
            assert forall|a: int| 0 <= a < rest.len() implies rest[a] != pairs.last().1 by {
                if rest[a] == pairs.last().1 {
                    assert(rest.contains(pairs.last().1));
                }
            }
        }
    }
}

proof fn lemma_absent_fp_no_paths(pairs: Seq<(Seq<u8>, Seq<u8>)>, fp: Seq<u8>)
    requires
        !distinct_fps(pairs).contains(fp),
    ensures
        paths_with_fp(pairs, fp) == Seq::<Seq<u8>>::empty(),
    decreases pairs.len(),
{
    if pairs.len() > 0 {
        let rest = distinct_fps(pairs.drop_last());
        assert(distinct_fps(pairs).contains(pairs.last().1)) by {
            if rest.contains(pairs.last().1) {
                let u = choose|u: int| 0 <= u < rest.len() && rest[u] == pairs.last().1;
                assert(distinct_fps(pairs)[u] == pairs.last().1);
            } else {
                assert(distinct_fps(pairs).last() == pairs.last().1);
            }
        }
        assert(pairs.last().1 != fp);
        assert(!rest.contains(fp)) by {
            if rest.contains(fp) {
                let u = choose|u: int| 0 <= u < rest.len() && rest[u] == fp;
                assert(distinct_fps(pairs)[u] == fp);
            }
        }
        lemma_absent_fp_no_paths(pairs.drop_last(), fp);
    }
}

struct Bucket {
    rep: Fingerprint,
    members: Vec<SongPath>,
}

spec fn bucket_reps(bs: Seq<Bucket>) -> Seq<Seq<u8>> {
    bs.map_values(|b: Bucket| b.rep@)
}

fn find_bucket(buckets: &Vec<Bucket>, fp: &Fingerprint) -> (r: Option<usize>)
    ensures
        match r {
            Some(t) => t < buckets@.len() && buckets@[t as int].rep@ == fp@,
            None => forall|u: int| 0 <= u < buckets@.len() ==> buckets@[u].rep@ != fp@,
        },
{
    let n = buckets.len();
    let mut t: usize = 0;
    while t < n
        invariant
            t <= n,
            n == buckets@.len(),
            forall|u: int| 0 <= u < t ==> buckets@[u].rep@ != fp@,
        decreases n - t,
    {
        if buckets[t].rep.same_as(fp) {
            return Some(t);
        }
        t = t + 1;
    }
    None
}

/// Runs one strategy over the candidate set and partitions the songs
/// into duplicate groups by equal fingerprint.
///
/// The run aborts on the first failing song with that song's error and
/// yields no partial result; skipped songs belong to no group. On
/// success the groups are exactly the equivalence classes of size two
/// or more, one per distinct fingerprint in first-appearance order,
/// each listing its members' paths in input order.
pub fn find_duplicates(songs: &Vec<SongRecord>, strategy: Strategy) -> (r: Result<
    Vec<Vec<SongPath>>,
    Error,
>)
    ensures
        r is Ok <==> !any_failure(strategy, songs@),
        r matches Ok(groups) ==> group_views(groups@) == groups_of(
            found_pairs(strategy, songs@),
        ),
        r matches Err(e) ==> e@ == first_failure(strategy, songs@),
{
    let n = songs.len();
    let mut pairs: Vec<(SongPath, Fingerprint)> = Vec::new();
    let mut i: usize = 0;
    proof {
        assert(songs@.take(0) =~= Seq::<SongRecord>::empty());
    }
    while i < n
        invariant
            i <= n,
            n == songs@.len(),
            forall|j: int| 0 <= j < i ==> !(outcome_spec(strategy, songs@[j]) is Failed),
            pair_views(pairs@) == found_pairs(strategy, songs@.take(i as int)),
        decreases n - i,
    {
        let ghost before = pair_views(pairs@);
        let rec = &songs[i];
        let outcome = strategy_outcome(strategy, rec);
        match outcome {
            StrategyResult::Found(fp) => {
                pairs.push((rec.path.duplicate(), fp));
            },
            StrategyResult::Skipped => {},
            StrategyResult::Failed(e) => {
                proof {
                    lemma_first_failure(strategy, songs@, i as int);
                }
                return Err(e);
            },
        }
        i = i + 1;
        proof {
            let taken = songs@.take(i as int);
            assert(taken.drop_last() =~= songs@.take(i - 1));
            assert(taken.last() == songs@[i - 1]);
            match outcome_spec(strategy, songs@[i - 1]) {
                OutcomeView::Found(fp) => {
                    assert(pair_views(pairs@) =~= before.push((songs@[i - 1].path@, fp)));
                },
                _ => {},
            }
        }
    }
    proof {
        assert(songs@.take(n as int) =~= songs@);
    }
    let ghost pv = pair_views(pairs@);

    let m = pairs.len();
    let mut buckets: Vec<Bucket> = Vec::new();
    let mut k: usize = 0;
    proof {
        assert(pv.take(0) =~= Seq::<(Seq<u8>, Seq<u8>)>::empty());
    }
    while k < m
        invariant
            k <= m,
            m == pairs@.len(),
            pv == pair_views(pairs@),
            bucket_reps(buckets@) == distinct_fps(pv.take(k as int)),
            forall|t: int|
                0 <= t < buckets@.len() ==> path_views(#[trigger] buckets@[t].members@)
                    == paths_with_fp(pv.take(k as int), buckets@[t].rep@),
        decreases m - k,
    {
        let ghost old_buckets = buckets@;
        let ghost taken = pv.take(k + 1);
        let ghost fp = pv[k as int].1;
        proof {
            assert(taken.drop_last() =~= pv.take(k as int));
            assert(taken.last() == pv[k as int]);
        }
        let path = pairs[k].0.duplicate();
        match find_bucket(&buckets, &pairs[k].1) {
            Some(t) => {
                buckets[t].members.push(path);
                proof {
                    assert(bucket_reps(buckets@) =~= bucket_reps(old_buckets));
                    assert(bucket_reps(old_buckets)[t as int] == fp);
                    assert(distinct_fps(pv.take(k as int)).contains(fp));
                    assert(distinct_fps(taken) == distinct_fps(pv.take(k as int)));
                    lemma_distinct_fps_distinct(pv.take(k as int));
                    assert forall|u: int| 0 <= u < buckets@.len() implies path_views(
                        #[trigger] buckets@[u].members@,
                    ) == paths_with_fp(taken, buckets@[u].rep@) by {
                        if u == t as int {
                            assert(buckets@[u].members@ == old_buckets[u].members@.push(path));
                            assert(path@ == pv[k as int].0);
                            assert(path_views(buckets@[u].members@) =~= path_views(
                                old_buckets[u].members@,
                            ).push(pv[k as int].0));
                            assert(paths_with_fp(taken, fp) == paths_with_fp(
                                pv.take(k as int),
                                fp,
                            ).push(pv[k as int].0));
                        } else {
                            assert(buckets@[u] == old_buckets[u]);
                            if buckets@[u].rep@ == fp {
                                assert(bucket_reps(old_buckets)[u] == fp);
                                assert(bucket_reps(old_buckets)[t as int] == bucket_reps(
                                    old_buckets,
                                )[u]);
                                assert(false);
                            }
                            assert(paths_with_fp(taken, buckets@[u].rep@) == paths_with_fp(
                                pv.take(k as int),
                                buckets@[u].rep@,
                            ));
                        }
                    }
                }
            },
            None => {
                let rep = pairs[k].1.duplicate();
                let mut members: Vec<SongPath> = Vec::new();
                members.push(path);
                buckets.push(Bucket { rep, members });
                proof {
                    if distinct_fps(pv.take(k as int)).contains(fp) {
                        let u = choose|u: int|
                            0 <= u < distinct_fps(pv.take(k as int)).len() && distinct_fps(
                                pv.take(k as int),
                            )[u] == fp;
                        assert(bucket_reps(old_buckets)[u] == fp);
                        assert(false);
                    }
                    assert(bucket_reps(buckets@) =~= distinct_fps(pv.take(k as int)).push(fp));
                    assert(distinct_fps(taken) == distinct_fps(pv.take(k as int)).push(fp));
                    lemma_absent_fp_no_paths(pv.take(k as int), fp);
                    assert forall|u: int| 0 <= u < buckets@.len() implies path_views(
                        #[trigger] buckets@[u].members@,
                    ) == paths_with_fp(taken, buckets@[u].rep@) by {
                        if u < old_buckets.len() {
                            assert(buckets@[u] == old_buckets[u]);
                            assert(buckets@[u].rep@ != fp);
                            assert(paths_with_fp(taken, buckets@[u].rep@) == paths_with_fp(
                                pv.take(k as int),
                                buckets@[u].rep@,
                            ));
                        } else {
                            assert(buckets@[u].rep@ == fp);
                            assert(buckets@[u].members@ =~= Seq::<SongPath>::empty().push(path));
                            assert(paths_with_fp(taken, fp) == paths_with_fp(
                                pv.take(k as int),
                                fp,
                            ).push(pv[k as int].0));
                            assert(path_views(buckets@[u].members@) =~= Seq::<
                                Seq<u8>,
                            >::empty().push(pv[k as int].0));
                        }
                    }
                }
            },
        }
        k = k + 1;
        proof {
            assert(pv.take(k as int) == taken);
        }
    }
    proof {
        assert(pv.take(m as int) =~= pv);
    }

    let ghost bfull = buckets@;
    let ghost fps = distinct_fps(pv);
    let total = buckets.len();
    let mut out: Vec<Vec<SongPath>> = Vec::new();
    let mut processed: usize = 0;
    proof {
        assert(fps.take(0) =~= Seq::<Seq<u8>>::empty());
        assert(bfull.skip(0) =~= bfull);
    }
    while buckets.len() > 0
        invariant
            total == bfull.len(),
            processed <= total,
            processed + buckets@.len() == bfull.len(),
            buckets@ == bfull.skip(processed as int),
            bucket_reps(bfull) == fps,
            forall|t: int|
                0 <= t < bfull.len() ==> path_views(#[trigger] bfull[t].members@) == paths_with_fp(
                    pv,
                    bfull[t].rep@,
                ),
            group_views(out@) == big_groups(pv, fps.take(processed as int)),
        decreases buckets@.len(),
    {
        let ghost out_before = group_views(out@);
        let b = buckets.remove(0);
        proof {
            assert(bfull.skip(processed as int)[0] == bfull[processed as int]);
            assert(b == bfull[processed as int]);
            assert(buckets@ =~= bfull.skip(processed + 1));
        }
        let keep = b.members.len() >= 2;
        let ghost members = b.members@;
        if keep {
            out.push(b.members);
        }
        processed = processed + 1;
        proof {
            let taken = fps.take(processed as int);
            assert(taken.drop_last() =~= fps.take(processed - 1));
            assert(taken.last() == fps[processed - 1]);
            assert(fps[processed - 1] == bucket_reps(bfull)[processed - 1]);
            let g = paths_with_fp(pv, bfull[processed - 1].rep@);
            assert(path_views(members) == g);
            assert(g.len() == members.len());
            if keep {
                assert(group_views(out@) =~= out_before.push(path_views(members)));
            }
        }
    }
    proof {
        assert(fps.take(bfull.len() as int) =~= fps);
        assert(group_views(out@) == groups_of(pv));
    }
    Ok(out)
}

/// The duplicate groups of one invocation, reported under each
/// strategy's own label. A strategy that was not requested reports no
/// groups; a song may appear in several strategies' groups at once.
#[derive(Debug)]
pub struct Duplicates {
    pub metadata: Vec<Vec<SongPath>>,
    pub filename: Vec<Vec<SongPath>>,
    pub stream: Vec<Vec<SongPath>>,
}

/// Runs each requested strategy independently over the same candidate
/// set and reports the duplicate groups each one finds.
///
/// The strategies run in the order metadata, filename, stream; the
/// first failing run aborts the whole invocation with its error, and
/// no partial result is returned.
pub fn detect_duplicates(
    songs: &Vec<SongRecord>,
    metadata: bool,
    filename: bool,
    stream: bool,
) -> (r: Result<Duplicates, Error>)
    ensures
        r is Ok <==> {
            &&& metadata ==> !any_failure(Strategy::Metadata, songs@)
            &&& filename ==> !any_failure(Strategy::Filename, songs@)
            &&& stream ==> !any_failure(Strategy::Stream, songs@)
        },
        r matches Ok(d) ==> {
            &&& group_views(d.metadata@) == if metadata {
                groups_of(found_pairs(Strategy::Metadata, songs@))
            } else {
                Seq::<Seq<Seq<u8>>>::empty()
            }
            &&& group_views(d.filename@) == if filename {
                groups_of(found_pairs(Strategy::Filename, songs@))
            } else {
                Seq::<Seq<Seq<u8>>>::empty()
            }
            &&& group_views(d.stream@) == if stream {
                groups_of(found_pairs(Strategy::Stream, songs@))
            } else {
                Seq::<Seq<Seq<u8>>>::empty()
            }
        },
        r matches Err(e) ==> {
            if metadata && any_failure(Strategy::Metadata, songs@) {
                e@ == first_failure(Strategy::Metadata, songs@)
            } else if filename && any_failure(Strategy::Filename, songs@) {
                e@ == first_failure(Strategy::Filename, songs@)
            } else {
                stream && any_failure(Strategy::Stream, songs@) && e@ == first_failure(
                    Strategy::Stream,
                    songs@,
                )
            }
        },
{
    let mut found = Duplicates { metadata: Vec::new(), filename: Vec::new(), stream: Vec::new() };
    proof {
        assert(group_views(Seq::<Vec<SongPath>>::empty()) =~= Seq::<Seq<Seq<u8>>>::empty());
    }
    if metadata {
        match find_duplicates(songs, Strategy::Metadata) {
            Ok(groups) => {
                found.metadata = groups;
            },
            Err(e) => {
                return Err(e);
            },
        }
    }
    if filename {
        match find_duplicates(songs, Strategy::Filename) {
            Ok(groups) => {
                found.filename = groups;
            },
            Err(e) => {
                return Err(e);
            },
        }
    }
    if stream {
        match find_duplicates(songs, Strategy::Stream) {
            Ok(groups) => {
                found.stream = groups;
            },
            Err(e) => {
                return Err(e);
            },
        }
    }
    Ok(found)
}

proof fn lemma_found_path_in_class(
    strategy: Strategy,
    songs: Seq<SongRecord>,
    fp: Seq<u8>,
    i: int,
)
    requires
        0 <= i < songs.len(),
        outcome_spec(strategy, songs[i]) == OutcomeView::Found(fp),
    ensures
        paths_with_fp(found_pairs(strategy, songs), fp).contains(songs[i].path@),
        paths_with_fp(found_pairs(strategy, songs), fp).len() >= 1,
    decreases songs.len(),
{
    let pairs = found_pairs(strategy, songs);
    let cls = paths_with_fp(pairs, fp);
    if i == songs.len() - 1 {
        let prev = found_pairs(strategy, songs.drop_last());
        assert(pairs == prev.push((songs.last().path@, fp)));
        assert(pairs.drop_last() =~= prev);
        assert(cls == paths_with_fp(prev, fp).push(songs[i].path@));
        assert(cls[cls.len() - 1] == songs[i].path@);
        assert(cls.contains(songs[i].path@));
    } else {
        assert(songs.drop_last()[i] == songs[i]);
        lemma_found_path_in_class(strategy, songs.drop_last(), fp, i);
        let prev = found_pairs(strategy, songs.drop_last());
        let prev_cls = paths_with_fp(prev, fp);
        let a = choose|a: int| 0 <= a < prev_cls.len() && prev_cls[a] == songs[i].path@;
        match outcome_spec(strategy, songs.last()) {
            OutcomeView::Found(lfp) => {
                assert(pairs == prev.push((songs.last().path@, lfp)));
                assert(pairs.drop_last() =~= prev);
                if lfp == fp {
                    assert(cls == prev_cls.push(songs.last().path@));
                } else {
                    assert(cls == prev_cls);
                }
            },
            _ => {
                assert(pairs == prev);
            },
        }
        assert(cls[a] == songs[i].path@);
        assert(cls.contains(songs[i].path@));
    }
}

proof fn lemma_found_class_two(
    strategy: Strategy,
    songs: Seq<SongRecord>,
    fp: Seq<u8>,
    i: int,
    j: int,
)
    requires
        0 <= i < j < songs.len(),
        outcome_spec(strategy, songs[i]) == OutcomeView::Found(fp),
        outcome_spec(strategy, songs[j]) == OutcomeView::Found(fp),
    ensures
        paths_with_fp(found_pairs(strategy, songs), fp).len() >= 2,
    decreases songs.len(),
{
    let pairs = found_pairs(strategy, songs);
    let cls = paths_with_fp(pairs, fp);
    let prev = found_pairs(strategy, songs.drop_last());
    let prev_cls = paths_with_fp(prev, fp);
    if j == songs.len() - 1 {
        assert(songs.drop_last()[i] == songs[i]);
        lemma_found_path_in_class(strategy, songs.drop_last(), fp, i);
        assert(pairs == prev.push((songs.last().path@, fp)));
        assert(pairs.drop_last() =~= prev);
        assert(cls == prev_cls.push(songs.last().path@));
    } else {
        assert(songs.drop_last()[i] == songs[i]);
        assert(songs.drop_last()[j] == songs[j]);
        lemma_found_class_two(strategy, songs.drop_last(), fp, i, j);
        match outcome_spec(strategy, songs.last()) {
            OutcomeView::Found(lfp) => {
                assert(pairs == prev.push((songs.last().path@, lfp)));
                assert(pairs.drop_last() =~= prev);
            },
            _ => {
                assert(pairs == prev);
            },
        }
    }
}

proof fn lemma_present_fp_in_distinct(pairs: Seq<(Seq<u8>, Seq<u8>)>, fp: Seq<u8>)
    requires
        paths_with_fp(pairs, fp).len() >= 1,
    ensures
        distinct_fps(pairs).contains(fp),
{
    if !distinct_fps(pairs).contains(fp) {
        lemma_absent_fp_no_paths(pairs, fp);
    }
}

proof fn lemma_big_groups_has_class(pairs: Seq<(Seq<u8>, Seq<u8>)>, fps: Seq<Seq<u8>>, d: int)
    requires
        0 <= d < fps.len(),
        paths_with_fp(pairs, fps[d]).len() >= 2,
    ensures
        big_groups(pairs, fps).contains(paths_with_fp(pairs, fps[d])),
    decreases fps.len(),
{
    let gs = big_groups(pairs, fps);
    if d == fps.len() - 1 {
        assert(gs == big_groups(pairs, fps.drop_last()).push(paths_with_fp(pairs, fps[d])));
        assert(gs[gs.len() - 1] == paths_with_fp(pairs, fps[d]));
        assert(gs.contains(paths_with_fp(pairs, fps[d])));
    } else {
        assert(fps.drop_last()[d] == fps[d]);
        lemma_big_groups_has_class(pairs, fps.drop_last(), d);
        let prev = big_groups(pairs, fps.drop_last());
        let a = choose|a: int| 0 <= a < prev.len() && prev[a] == paths_with_fp(pairs, fps[d]);
        if paths_with_fp(pairs, fps.last()).len() >= 2 {
            assert(gs == prev.push(paths_with_fp(pairs, fps.last())));
        } else {
            assert(gs == prev);
        }
        assert(gs[a] == paths_with_fp(pairs, fps[d]));
        assert(gs.contains(paths_with_fp(pairs, fps[d])));
    }
}

/// Byte-identical audio payloads place two songs in the same group
/// under the Stream strategy: whenever the decoded packet payloads of
/// two candidate songs concatenate to the same bytes, some duplicate
/// group of a successful Stream run contains both their paths.
pub proof fn lemma_identical_streams_same_group(
    songs: Seq<SongRecord>,
    groups: Seq<Seq<Seq<u8>>>,
    i: int,
    j: int,
)
    requires
        groups == groups_of(found_pairs(Strategy::Stream, songs)),
        0 <= i < j < songs.len(),
        songs[i].probe is Ok,
        songs[j].probe is Ok,
        songs[i].probe->Ok_0.packets is Ok,
        songs[j].probe->Ok_0.packets is Ok,
        concat_of(songs[i].probe->Ok_0.packets->Ok_0.deep_view()) == concat_of(
            songs[j].probe->Ok_0.packets->Ok_0.deep_view(),
        ),
    ensures
        exists|g: int|
            0 <= g < groups.len() && #[trigger] groups[g].contains(songs[i].path@)
                && groups[g].contains(songs[j].path@),
{
    let fp = digest_of(concat_of(songs[i].probe->Ok_0.packets->Ok_0.deep_view()));
    assert(outcome_spec(Strategy::Stream, songs[i]) == OutcomeView::Found(fp));
    assert(outcome_spec(Strategy::Stream, songs[j]) == OutcomeView::Found(fp));
    let pairs = found_pairs(Strategy::Stream, songs);
    lemma_found_path_in_class(Strategy::Stream, songs, fp, i);
    lemma_found_path_in_class(Strategy::Stream, songs, fp, j);
    lemma_found_class_two(Strategy::Stream, songs, fp, i, j);
    lemma_present_fp_in_distinct(pairs, fp);
    let fps = distinct_fps(pairs);
    let d = choose|d: int| 0 <= d < fps.len() && fps[d] == fp;
    lemma_big_groups_has_class(pairs, fps, d);
    let g = choose|g: int| 0 <= g < groups.len() && groups[g] == paths_with_fp(pairs, fp);
    assert(groups[g].contains(songs[i].path@) && groups[g].contains(songs[j].path@));
}

proof fn lemma_class_member_pair(pairs: Seq<(Seq<u8>, Seq<u8>)>, fp: Seq<u8>, m: int)
    requires
        0 <= m < paths_with_fp(pairs, fp).len(),
    ensures
        exists|a: int|
            0 <= a < pairs.len() && #[trigger] pairs[a] == (paths_with_fp(pairs, fp)[m], fp),
    decreases pairs.len(),
{
    let cls = paths_with_fp(pairs, fp);
    let prev = paths_with_fp(pairs.drop_last(), fp);
    if pairs.last().1 == fp && m == cls.len() - 1 {
        assert(cls == prev.push(pairs.last().0));
        assert(pairs[pairs.len() - 1] == (cls[m], fp));
    } else {
        if pairs.last().1 == fp {
            assert(cls == prev.push(pairs.last().0));
        } else {
            assert(cls == prev);
        }
        assert(prev[m] == cls[m]);
        lemma_class_member_pair(pairs.drop_last(), fp, m);
        let a = choose|a: int|
            0 <= a < pairs.drop_last().len() && #[trigger] pairs.drop_last()[a] == (prev[m], fp);
        assert(pairs[a] == (cls[m], fp));
    }
}

proof fn lemma_pair_from_song(strategy: Strategy, songs: Seq<SongRecord>, a: int)
    requires
        0 <= a < found_pairs(strategy, songs).len(),
    ensures
        exists|k: int|
            0 <= k < songs.len() && #[trigger] outcome_spec(strategy, songs[k])
                == OutcomeView::Found(found_pairs(strategy, songs)[a].1) && songs[k].path@
                == found_pairs(strategy, songs)[a].0,
    decreases songs.len(),
{
    let pairs = found_pairs(strategy, songs);
    let prev = found_pairs(strategy, songs.drop_last());
    match outcome_spec(strategy, songs.last()) {
        OutcomeView::Found(lfp) => {
            assert(pairs == prev.push((songs.last().path@, lfp)));
            if a == pairs.len() - 1 {
                let k = songs.len() - 1;
                assert(outcome_spec(strategy, songs[k]) == OutcomeView::Found(pairs[a].1)
                    && songs[k].path@ == pairs[a].0);
            } else {
                lemma_pair_from_song(strategy, songs.drop_last(), a);
                let k = choose|k: int|
                    0 <= k < songs.drop_last().len() && #[trigger] outcome_spec(
                        strategy,
                        songs.drop_last()[k],
                    ) == OutcomeView::Found(prev[a].1) && songs.drop_last()[k].path@ == prev[a].0;
                assert(songs[k] == songs.drop_last()[k]);
                assert(pairs[a] == prev[a]);
            }
        },
        _ => {
            assert(pairs == prev);
            lemma_pair_from_song(strategy, songs.drop_last(), a);
            let k = choose|k: int|
                0 <= k < songs.drop_last().len() && #[trigger] outcome_spec(
                    strategy,
                    songs.drop_last()[k],
                ) == OutcomeView::Found(prev[a].1) && songs.drop_last()[k].path@ == prev[a].0;
            assert(songs[k] == songs.drop_last()[k]);
        },
    }
}

proof fn lemma_big_groups_member_class(
    pairs: Seq<(Seq<u8>, Seq<u8>)>,
    fps: Seq<Seq<u8>>,
    g: int,
)
    requires
        0 <= g < big_groups(pairs, fps).len(),
    ensures
        exists|d: int|
            0 <= d < fps.len() && big_groups(pairs, fps)[g] == paths_with_fp(
                pairs,
                #[trigger] fps[d],
            ),
    decreases fps.len(),
{
    let gs = big_groups(pairs, fps);
    let prev = big_groups(pairs, fps.drop_last());
    if paths_with_fp(pairs, fps.last()).len() >= 2 {
        assert(gs == prev.push(paths_with_fp(pairs, fps.last())));
        if g == gs.len() - 1 {
            assert(gs[g] == paths_with_fp(pairs, fps[fps.len() - 1]));
        } else {
            lemma_big_groups_member_class(pairs, fps.drop_last(), g);
            let d = choose|d: int|
                0 <= d < fps.drop_last().len() && prev[g] == paths_with_fp(
                    pairs,
                    #[trigger] fps.drop_last()[d],
                );
            assert(fps[d] == fps.drop_last()[d]);
            assert(gs[g] == prev[g]);
        }
    } else {
        assert(gs == prev);
        lemma_big_groups_member_class(pairs, fps.drop_last(), g);
        let d = choose|d: int|
            0 <= d < fps.drop_last().len() && prev[g] == paths_with_fp(
                pairs,
                #[trigger] fps.drop_last()[d],
            );
        assert(fps[d] == fps.drop_last()[d]);
    }
}

/// No song lacking a title tag is ever grouped under the Metadata
/// strategy: every member of every Metadata group is the path of some
/// candidate song whose probe succeeded and carries a title tag.
pub proof fn lemma_metadata_groups_titled(
    songs: Seq<SongRecord>,
    groups: Seq<Seq<Seq<u8>>>,
    g: int,
    m: int,
)
    requires
        groups == groups_of(found_pairs(Strategy::Metadata, songs)),
        0 <= g < groups.len(),
        0 <= m < groups[g].len(),
    ensures
        exists|k: int|
            0 <= k < songs.len() && (#[trigger] songs[k].probe) is Ok
                && songs[k].probe->Ok_0.title is Some && songs[k].path@ == groups[g][m],
{
    let pairs = found_pairs(Strategy::Metadata, songs);
    let fps = distinct_fps(pairs);
    lemma_big_groups_member_class(pairs, fps, g);
    let d = choose|d: int|
        0 <= d < fps.len() && big_groups(pairs, fps)[g] == paths_with_fp(pairs, #[trigger] fps[d]);
    let fp = fps[d];
    lemma_class_member_pair(pairs, fp, m);
    let a = choose|a: int|
        0 <= a < pairs.len() && #[trigger] pairs[a] == (paths_with_fp(pairs, fp)[m], fp);
    lemma_pair_from_song(Strategy::Metadata, songs, a);
    let k = choose|k: int|
        0 <= k < songs.len() && #[trigger] outcome_spec(Strategy::Metadata, songs[k])
            == OutcomeView::Found(pairs[a].1) && songs[k].path@ == pairs[a].0;
    assert(songs[k].probe is Ok && songs[k].probe->Ok_0.title is Some);
    assert(songs[k].path@ == groups[g][m]);
}

} // verus!
