use vstd::prelude::*;

use crate::error::{Error, ErrorView};
use crate::path::{copy_bytes, extension_of, join_spec, path_views, SongPath};
use crate::song::SongRecord;

verus! {

/// The first byte of the mis-encoded typographic apostrophe.
pub const BAD_APOSTROPHE_0: u8 = 0xe2;

/// The second byte of the mis-encoded typographic apostrophe.
pub const BAD_APOSTROPHE_1: u8 = 0x80;

/// The third byte of the mis-encoded typographic apostrophe.
pub const BAD_APOSTROPHE_2: u8 = 0x99;

/// Whether a byte survives sanitization: ASCII alphanumeric or one of
/// the allowed punctuation marks.
pub open spec fn keep_byte(b: u8) -> bool {
    ||| ('0' as u8) <= b <= ('9' as u8)
    ||| ('A' as u8) <= b <= ('Z' as u8)
    ||| ('a' as u8) <= b <= ('z' as u8)
    ||| b == ('.' as u8)
    ||| b == (',' as u8)
    ||| b == ('!' as u8)
    ||| b == ('(' as u8)
    ||| b == (')' as u8)
    ||| b == (':' as u8)
    ||| b == ('?' as u8)
    ||| b == (' ' as u8)
    ||| b == ('\'' as u8)
    ||| b == ('"' as u8)
    ||| b == ('-' as u8)
    ||| b == ('_' as u8)
    ||| b == ('=' as u8)
    ||| b == ('&' as u8)
}

/// What sanitizing a byte string yields: ASCII alphanumerics and the
/// allowed punctuation survive, the three-byte sequence of a
/// mis-encoded typographic apostrophe becomes a plain apostrophe, and
/// every other byte is dropped.
pub open spec fn sanitize_spec(s: Seq<u8>) -> Seq<u8>
    decreases s.len(),
{
    if s.len() == 0 {
        s
    } else if s.len() >= 3 && s[0] == BAD_APOSTROPHE_0 && s[1] == BAD_APOSTROPHE_1 && s[2]
        == BAD_APOSTROPHE_2 {
        seq![('\'' as u8)] + sanitize_spec(s.skip(3))
    } else if keep_byte(s.first()) {
        seq![s.first()] + sanitize_spec(s.drop_first())
    } else {
        sanitize_spec(s.drop_first())
    }
}

fn byte_kept(b: u8) -> (r: bool)
    ensures
        r == keep_byte(b),
{
    (('0' as u8) <= b && b <= ('9' as u8)) || (('A' as u8) <= b && b <= ('Z' as u8)) || (('a'
        as u8) <= b && b <= ('z' as u8)) || b == ('.' as u8) || b == (',' as u8) || b == ('!'
        as u8) || b == ('(' as u8) || b == (')' as u8) || b == (':' as u8) || b == ('?' as u8) || b
        == (' ' as u8) || b == ('\'' as u8) || b == ('"' as u8) || b == ('-' as u8) || b == ('_'
        as u8) || b == ('=' as u8) || b == ('&' as u8)
}

/// Drops every byte that is not ASCII-alphanumeric or on the fixed
/// punctuation allow-list, mapping the mis-encoded apostrophe sequence
/// to a plain apostrophe on the way.
pub fn sanitize(s: &Vec<u8>) -> (r: Vec<u8>)
    ensures
        r@ == sanitize_spec(s@),
{
    let n = s.len();
    let mut out: Vec<u8> = Vec::new();
    let mut i: usize = 0;
    proof {
        assert(s@.skip(0) =~= s@);
    }
    while i < n
        invariant
            i <= n,
            n == s@.len(),
            sanitize_spec(s@) == out@ + sanitize_spec(s@.skip(i as int)),
        decreases n - i,
    {
        let ghost rem = s@.skip(i as int);
        let ghost out_before = out@;
        if n - i >= 3 && s[i] == BAD_APOSTROPHE_0 && s[i + 1] == BAD_APOSTROPHE_1 && s[i + 2]
            == BAD_APOSTROPHE_2 {
            out.push('\'' as u8);
            proof {
                assert(rem[0] == s@[i as int]);
                assert(rem[1] == s@[i + 1]);
                assert(rem[2] == s@[i + 2]);
                assert(rem.skip(3) =~= s@.skip(i + 3));
                assert(sanitize_spec(rem) == seq![('\'' as u8)] + sanitize_spec(rem.skip(3)));
                assert(out@ + sanitize_spec(s@.skip(i + 3)) =~= out_before + sanitize_spec(rem));
            }
            i = i + 3;
        } else {
            let b = s[i];
            proof {
                assert(rem.first() == s@[i as int]);
                assert(rem.drop_first() =~= s@.skip(i + 1));
                if rem.len() >= 3 && rem[0] == BAD_APOSTROPHE_0 && rem[1] == BAD_APOSTROPHE_1
                    && rem[2] == BAD_APOSTROPHE_2 {
                    assert(false);
                }
            }
            if byte_kept(b) {
                out.push(b);
                proof {
                    assert(sanitize_spec(rem) == seq![rem.first()] + sanitize_spec(
                        rem.drop_first(),
                    ));
                    assert(out@ + sanitize_spec(s@.skip(i + 1)) =~= out_before + sanitize_spec(
                        rem,
                    ));
                }
            } else {
                proof {
                    assert(sanitize_spec(rem) == sanitize_spec(rem.drop_first()));
                }
            }
            i = i + 1;
        }
    }
    proof {
        assert(s@.skip(n as int) =~= Seq::<u8>::empty());
        assert(out@ =~= sanitize_spec(s@));
    }
    out
}

proof fn lemma_sanitize_kept(s: Seq<u8>)
    ensures
        forall|x: int| 0 <= x < sanitize_spec(s).len() ==> keep_byte(#[trigger] sanitize_spec(s)[x]),
    decreases s.len(),
{
    if s.len() == 0 {
    } else if s.len() >= 3 && s[0] == BAD_APOSTROPHE_0 && s[1] == BAD_APOSTROPHE_1 && s[2]
        == BAD_APOSTROPHE_2 {
        lemma_sanitize_kept(s.skip(3));
        assert forall|x: int| 0 <= x < sanitize_spec(s).len() implies keep_byte(
            #[trigger] sanitize_spec(s)[x],
        ) by {
            if x == 0 {
                assert(sanitize_spec(s)[0] == ('\'' as u8));
            } else {
                assert(sanitize_spec(s)[x] == sanitize_spec(s.skip(3))[x - 1]);
            }
        }
    } else if keep_byte(s.first()) {
        lemma_sanitize_kept(s.drop_first());
        assert forall|x: int| 0 <= x < sanitize_spec(s).len() implies keep_byte(
            #[trigger] sanitize_spec(s)[x],
        ) by {
            if x == 0 {
                assert(sanitize_spec(s)[0] == s.first());
            } else {
                assert(sanitize_spec(s)[x] == sanitize_spec(s.drop_first())[x - 1]);
            }
        }
    } else {
        lemma_sanitize_kept(s.drop_first());
        assert forall|x: int| 0 <= x < sanitize_spec(s).len() implies keep_byte(
            #[trigger] sanitize_spec(s)[x],
        ) by {
            assert(sanitize_spec(s)[x] == sanitize_spec(s.drop_first())[x]);
        }
    }
}

proof fn lemma_sanitize_kept_identity(s: Seq<u8>)
    requires
        forall|x: int| 0 <= x < s.len() ==> keep_byte(#[trigger] s[x]),
    ensures
        sanitize_spec(s) == s,
    decreases s.len(),
{
    if s.len() > 0 {
        assert(keep_byte(s[0]));
        assert(s[0] != BAD_APOSTROPHE_0);
        lemma_sanitize_kept_identity(s.drop_first());
        assert(sanitize_spec(s) =~= s);
    }
}

/// Sanitizing is idempotent: a string that has already been sanitized
/// passes through `sanitize` unchanged.
pub proof fn lemma_sanitize_idempotent(s: Seq<u8>)
    ensures
        sanitize_spec(sanitize_spec(s)) == sanitize_spec(s),
{
    lemma_sanitize_kept(s);
    lemma_sanitize_kept_identity(sanitize_spec(s));
}

/// The canonical location of a song:
/// `root/sanitize(artist)/sanitize(title.extension)`.
pub open spec fn target_location_spec(
    prefix: Seq<u8>,
    artist: Seq<u8>,
    title: Seq<u8>,
    extension: Seq<u8>,
) -> Seq<u8> {
    join_spec(
        join_spec(prefix, sanitize_spec(artist)),
        sanitize_spec(title + seq![('.' as u8)] + extension),
    )
}

/// Computes the one correct location for a song with the given tags:
/// the root, then the sanitized artist as a directory, then the
/// sanitized `title.extension` as the file name. Pure: no filesystem is
/// consulted.
pub fn target_location(
    prefix: &SongPath,
    artist: &Vec<u8>,
    title: &Vec<u8>,
    extension: &Vec<u8>,
) -> (r: SongPath)
    ensures
        r@ == target_location_spec(prefix@, artist@, title@, extension@),
{
    let dir = prefix.join(&sanitize(artist));
    let mut file = copy_bytes(title);
    file.push('.' as u8);
    let ghost base = file@;
    let m = extension.len();
    let mut j: usize = 0;
    while j < m
        invariant
            j <= m,
            m == extension@.len(),
            file@ == base + extension@.take(j as int),
        decreases m - j,
    {
        file.push(extension[j]);
        j = j + 1;
        proof {
            assert(file@ =~= base + extension@.take(j as int));
        }
    }
    proof {
        assert(extension@.take(m as int) =~= extension@);
        assert(file@ =~= title@ + seq![('.' as u8)] + extension@);
    }
    dir.join(&sanitize(&file))
}

/// The abstract value of a [`Transaction`].
pub enum TransactionView {
    Mkdir(Seq<u8>),
    Move { src: Seq<u8>, dest: Seq<u8> },
}

/// One filesystem mutation of a sort plan: create a directory, or move
/// a file to its canonical location. Applying a batch is the caller's
/// job and must follow batch order strictly: later transactions assume
/// earlier ones completed.
#[derive(Debug)]
pub enum Transaction {
    Mkdir(SongPath),
    Move { src: SongPath, dest: SongPath },
}

impl View for Transaction {
    type V = TransactionView;

    open spec fn view(&self) -> TransactionView {
        match self {
            Transaction::Mkdir(p) => TransactionView::Mkdir(p@),
            Transaction::Move { src, dest } => TransactionView::Move { src: src@, dest: dest@ },
        }
    }
}

pub open spec fn trans_views(ts: Seq<Transaction>) -> Seq<TransactionView> {
    ts.map_values(|t: Transaction| t@)
}

pub open spec fn move_views(ms: Seq<(SongPath, SongPath)>) -> Seq<(Seq<u8>, Seq<u8>)> {
    ms.map_values(|mv: (SongPath, SongPath)| (mv.0@, mv.1@))
}

/// A snapshot of which paths existed on disk when planning ran,
/// supplied by the caller for the paths planning asks about: each
/// song's canonical destination and that destination's parent
/// directory. Planning consults only this snapshot, never the disk.
#[derive(Debug)]
pub struct FsView {
    pub existing: Vec<SongPath>,
}

impl FsView {
    /// Whether the snapshot holds the path `p`.
    pub open spec fn spec_contains(&self, p: Seq<u8>) -> bool {
        exists|i: int| 0 <= i < self.existing@.len() && self.existing@[i]@ == p
    }

    /// Whether the snapshot holds the path `p`.
    pub fn contains(&self, p: &SongPath) -> (r: bool)
        ensures
            r == self.spec_contains(p@),
    {
        let n = self.existing.len();
        let mut i: usize = 0;
        while i < n
            invariant
                i <= n,
                n == self.existing@.len(),
                forall|j: int| 0 <= j < i ==> self.existing@[j]@ != p@,
            decreases n - i,
        {
            if self.existing[i].same_as(p) {
                return true;
            }
            i = i + 1;
        }
        false
    }
}

/// Whether a song carries everything planning needs: a successful
/// probe with both an artist and a title tag.
pub open spec fn plannable(rec: SongRecord) -> bool {
    rec.probe is Ok && rec.probe->Ok_0.artist is Some && rec.probe->Ok_0.title is Some
}

/// The canonical destination of a plannable song.
pub open spec fn dest_of(prefix: Seq<u8>, rec: SongRecord) -> Seq<u8> {
    target_location_spec(
        prefix,
        rec.probe->Ok_0.artist->Some_0@,
        rec.probe->Ok_0.title->Some_0@,
        extension_of(rec.path@)->Some_0,
    )
}

/// The parent directory of a plannable song's canonical destination.
pub open spec fn dir_of(prefix: Seq<u8>, rec: SongRecord) -> Seq<u8> {
    join_spec(prefix, sanitize_spec(rec.probe->Ok_0.artist->Some_0@))
}

/// The per-song planning decision.
pub enum Decision {
    /// The probe failed; the failure propagates.
    Failed(ErrorView),
    /// Artist or title is missing: unsorted, not plannable — skipped.
    Unplannable,
    /// The song already sits at its canonical location.
    Sorted,
    /// The destination exists and holds a different file.
    Conflict { src: Seq<u8>, dest: Seq<u8> },
    /// Create `dir` if needed, then move `src` to `dest`.
    Emit { dir: Seq<u8>, src: Seq<u8>, dest: Seq<u8> },
}

pub open spec fn decision_of(prefix: Seq<u8>, fs: FsView, rec: SongRecord) -> Decision {
    match rec.probe {
        Err(e) => Decision::Failed(e@),
        Ok(data) => {
            if !(data.artist is Some && data.title is Some) {
                Decision::Unplannable
            } else {
                let dest = dest_of(prefix, rec);
                if dest == rec.path@ {
                    Decision::Sorted
                } else if fs.spec_contains(dest) {
                    Decision::Conflict { src: rec.path@, dest }
                } else {
                    Decision::Emit { dir: dir_of(prefix, rec), src: rec.path@, dest }
                }
            }
        },
    }
}

/// The accumulated plan of a run: the directories to create, in
/// first-need order and without repetition, and the moves to perform,
/// in song order.
pub struct PlanState {
    pub dirs: Seq<Seq<u8>>,
    pub moves: Seq<(Seq<u8>, Seq<u8>)>,
}

/// How one song's decision extends the plan. A directory already on
/// disk, or already scheduled, is not scheduled again.
pub open spec fn plan_step(prefix: Seq<u8>, fs: FsView, st: PlanState, rec: SongRecord) -> Result<
    PlanState,
    ErrorView,
> {
    match decision_of(prefix, fs, rec) {
        Decision::Failed(e) => Err(e),
        Decision::Unplannable => Ok(st),
        Decision::Sorted => Ok(st),
        Decision::Conflict { src, dest } => Err(ErrorView::AlreadyExists { src, dest }),
        Decision::Emit { dir, src, dest } => Ok(
            PlanState {
                dirs: if fs.spec_contains(dir) || st.dirs.contains(dir) {
                    st.dirs
                } else {
                    st.dirs.push(dir)
                },
                moves: st.moves.push((src, dest)),
            },
        ),
    }
}

/// The plan after the first `k` songs, or the error of the first song
/// that blocked the batch.
pub open spec fn plan_run(prefix: Seq<u8>, fs: FsView, songs: Seq<SongRecord>, k: int) -> Result<
    PlanState,
    ErrorView,
>
    decreases k,
{
    if k <= 0 {
        Ok(PlanState { dirs: Seq::empty(), moves: Seq::empty() })
    } else {
        match plan_run(prefix, fs, songs, k - 1) {
            Err(e) => Err(e),
            Ok(st) => plan_step(prefix, fs, st, songs[k - 1]),
        }
    }
}

pub open spec fn mkdir_views(ds: Seq<Seq<u8>>) -> Seq<TransactionView> {
    ds.map_values(|d: Seq<u8>| TransactionView::Mkdir(d))
}

pub open spec fn move_trans_views(ms: Seq<(Seq<u8>, Seq<u8>)>) -> Seq<TransactionView> {
    ms.map_values(|mv: (Seq<u8>, Seq<u8>)| TransactionView::Move { src: mv.0, dest: mv.1 })
}

/// The batch a plan state describes: every directory creation, in
/// order, followed by every move, in order.
pub open spec fn batch_views(st: PlanState) -> Seq<TransactionView> {
    mkdir_views(st.dirs) + move_trans_views(st.moves)
}

fn contains_path(v: &Vec<SongPath>, p: &SongPath) -> (r: bool)
    ensures
        r == path_views(v@).contains(p@),
{
    let n = v.len();
    let mut i: usize = 0;
    while i < n
        invariant
            i <= n,
            n == v@.len(),
            forall|j: int| 0 <= j < i ==> path_views(v@)[j] != p@,
        decreases n - i,
    {
        if v[i].same_as(p) {
            proof {
                assert(path_views(v@)[i as int] == p@);
            }
            return true;
        }
        i = i + 1;
    }
    proof {
        if path_views(v@).contains(p@) {
            let j = choose|j: int| 0 <= j < path_views(v@).len() && path_views(v@)[j] == p@;
            assert(false);
        }
    }
    false
}

/// Plans the batch of transactions that sorts `songs` under `prefix`.
///
/// Policy, by choice: a song with missing artist or title is silently
/// skipped ("unsorted, not plannable"); a probe failure or a
/// destination conflict aborts the whole batch with the first blocked
/// song's error, and nothing is ever overwritten. Each needed parent
/// directory is scheduled once: Mkdir targets are deduplicated within
/// the batch. Every Mkdir precedes every Move, and within each kind
/// the songs' input order is preserved.
pub fn sort_songs_transactions(prefix: &SongPath, songs: &Vec<SongRecord>, fs: &FsView) -> (r:
    Result<Vec<Transaction>, Error>)
    requires
        forall|i: int|
            0 <= i < songs@.len() && #[trigger] plannable(songs@[i]) ==> extension_of(
                songs@[i].path@,
            ) is Some,
    ensures
        r is Ok <==> plan_run(prefix@, *fs, songs@, songs@.len() as int) is Ok,
        r matches Ok(batch) ==> trans_views(batch@) == batch_views(
            plan_run(prefix@, *fs, songs@, songs@.len() as int)->Ok_0,
        ),
        r matches Ok(batch) ==> forall|a: int, b: int|
            0 <= a < b < batch@.len() && (#[trigger] batch@[b]@) is Mkdir ==> (
            #[trigger] batch@[a]@) is Mkdir,
        r matches Err(e) ==> e@ == plan_run(prefix@, *fs, songs@, songs@.len() as int)->Err_0,
{
    let n = songs.len();
    let mut dirs: Vec<SongPath> = Vec::new();
    let mut moves: Vec<(SongPath, SongPath)> = Vec::new();
    let mut i: usize = 0;
    proof {
        assert(path_views(dirs@) =~= Seq::<Seq<u8>>::empty());
        assert(move_views(moves@) =~= Seq::<(Seq<u8>, Seq<u8>)>::empty());
    }
    while i < n
        invariant
            i <= n,
            n == songs@.len(),
            forall|j: int|
                0 <= j < songs@.len() && #[trigger] plannable(songs@[j]) ==> extension_of(
                    songs@[j].path@,
                ) is Some,
            plan_run(prefix@, *fs, songs@, i as int) == Ok::<PlanState, ErrorView>(
                PlanState { dirs: path_views(dirs@), moves: move_views(moves@) },
            ),
        decreases n - i,
    {
        let ghost st = plan_run(prefix@, *fs, songs@, i as int)->Ok_0;
        let ghost rec_spec = songs@[i as int];
        let rec = &songs[i];
        match &rec.probe {
            Err(e) => {
                proof {
                    assert(decision_of(prefix@, *fs, rec_spec) == Decision::Failed(e@));
                    lemma_plan_run_err(prefix@, *fs, songs@, i as int, n as int);
                }
                return Err(e.duplicate());
            },
            Ok(data) => {
                match (&data.artist, &data.title) {
                    (Some(artist), Some(title)) => {
                        proof {
                            assert(plannable(rec_spec));
                        }
                        let ext = match rec.path.extension() {
                            Some(e) => e,
                            None => unreached(),
                        };
                        let dest = target_location(prefix, artist, title, &ext);
                        proof {
                            assert(dest@ == dest_of(prefix@, rec_spec));
                        }
                        if dest.same_as(&rec.path) {
                            proof {
                                assert(decision_of(prefix@, *fs, rec_spec) == Decision::Sorted);
                            }
                        } else if fs.contains(&dest) {
                            proof {
                                assert(decision_of(prefix@, *fs, rec_spec)
                                    == Decision::Conflict { src: rec_spec.path@, dest: dest@ });
                                lemma_plan_run_err(prefix@, *fs, songs@, i as int, n as int);
                            }
                            return Err(Error::AlreadyExists { src: rec.path.duplicate(), dest });
                        } else {
                            let dir = prefix.join(&sanitize(artist));
                            proof {
                                assert(dir@ == dir_of(prefix@, rec_spec));
                                assert(decision_of(prefix@, *fs, rec_spec) == Decision::Emit {
                                    dir: dir@,
                                    src: rec_spec.path@,
                                    dest: dest@,
                                });
                            }
                            let ghost old_dirs = path_views(dirs@);
                            if !fs.contains(&dir) && !contains_path(&dirs, &dir) {
                                dirs.push(dir);
                                proof {
                                    assert(path_views(dirs@) =~= old_dirs.push(
                                        dir_of(prefix@, rec_spec),
                                    ));
                                }
                            }
                            let ghost old_moves = move_views(moves@);
                            moves.push((rec.path.duplicate(), dest));
                            proof {
                                assert(move_views(moves@) =~= old_moves.push(
                                    (rec_spec.path@, dest_of(prefix@, rec_spec)),
                                ));
                            }
                        }
                    },
                    _ => {
                        proof {
                            assert(decision_of(prefix@, *fs, rec_spec) == Decision::Unplannable);
                        }
                    },
                }
            },
        }
        i = i + 1;
        proof {
            assert(plan_run(prefix@, *fs, songs@, i as int) == plan_step(
                prefix@,
                *fs,
                st,
                songs@[i - 1],
            ));
            assert(path_views(dirs@) =~= plan_run(prefix@, *fs, songs@, i as int)->Ok_0.dirs);
            assert(move_views(moves@) =~= plan_run(prefix@, *fs, songs@, i as int)->Ok_0.moves);
        }
    }
    let ghost st = plan_run(prefix@, *fs, songs@, n as int)->Ok_0;
    let ghost dirs_full = path_views(dirs@);
    let ghost moves_full = move_views(moves@);
    let ghost odirs = dirs@;
    let ghost omoves = moves@;

    let mut batch: Vec<Transaction> = Vec::new();
    let dn = dirs.len();
    let mut done: usize = 0;
    proof {
        assert(dirs_full.take(0) =~= Seq::<Seq<u8>>::empty());
        assert(mkdir_views(dirs_full.take(0)) =~= Seq::<TransactionView>::empty());
        assert(trans_views(batch@) =~= mkdir_views(dirs_full.take(0)));
        assert(odirs.skip(0) =~= odirs);
    }
    while dirs.len() > 0
        invariant
            done + dirs@.len() == dn,
            dn == odirs.len(),
            dirs_full == path_views(odirs),
            dirs@ == odirs.skip(done as int),
            trans_views(batch@) == mkdir_views(dirs_full.take(done as int)),
        decreases dirs@.len(),
    {
        let ghost batch_before = trans_views(batch@);
        let d = dirs.remove(0);
        proof {
            assert(odirs.skip(done as int)[0] == odirs[done as int]);
            assert(d == odirs[done as int]);
            assert(d@ == dirs_full[done as int]);
            assert(dirs@ =~= odirs.skip(done + 1));
        }
        batch.push(Transaction::Mkdir(d));
        done = done + 1;
        proof {
            assert(dirs_full.take(done as int).drop_last() =~= dirs_full.take(done - 1));
            assert(trans_views(batch@) =~= batch_before.push(
                TransactionView::Mkdir(dirs_full[done - 1]),
            ));
            assert(mkdir_views(dirs_full.take(done as int)) =~= mkdir_views(
                dirs_full.take(done - 1),
            ).push(TransactionView::Mkdir(dirs_full[done - 1])));
        }
    }
    proof {
        assert(dirs_full.take(dn as int) =~= dirs_full);
    }

    let mn = moves.len();
    let mut done_m: usize = 0;
    proof {
        assert(moves_full.take(0) =~= Seq::<(Seq<u8>, Seq<u8>)>::empty());
        assert(move_trans_views(moves_full.take(0)) =~= Seq::<TransactionView>::empty());
        assert(trans_views(batch@) =~= mkdir_views(dirs_full) + move_trans_views(
            moves_full.take(0),
        ));
        assert(omoves.skip(0) =~= omoves);
    }
    while moves.len() > 0
        invariant
            done_m + moves@.len() == mn,
            mn == omoves.len(),
            moves_full == move_views(omoves),
            moves@ == omoves.skip(done_m as int),
            trans_views(batch@) == mkdir_views(dirs_full) + move_trans_views(
                moves_full.take(done_m as int),
            ),
        decreases moves@.len(),
    {
        let ghost batch_before = trans_views(batch@);
        let mv = moves.remove(0);
        proof {
            assert(omoves.skip(done_m as int)[0] == omoves[done_m as int]);
            assert(mv == omoves[done_m as int]);
            assert((mv.0@, mv.1@) == moves_full[done_m as int]);
            assert(moves@ =~= omoves.skip(done_m + 1));
        }
        batch.push(Transaction::Move { src: mv.0, dest: mv.1 });
        done_m = done_m + 1;
        proof {
            assert(moves_full.take(done_m as int).drop_last() =~= moves_full.take(done_m - 1));
            assert(trans_views(batch@) =~= batch_before.push(
                TransactionView::Move {
                    src: moves_full[done_m - 1].0,
                    dest: moves_full[done_m - 1].1,
                },
            ));
            assert(move_trans_views(moves_full.take(done_m as int)) =~= move_trans_views(
                moves_full.take(done_m - 1),
            ).push(
                TransactionView::Move {
                    src: moves_full[done_m - 1].0,
                    dest: moves_full[done_m - 1].1,
                },
            ));
        }
    }
    proof {
        assert(moves_full.take(mn as int) =~= moves_full);
        assert(trans_views(batch@) == batch_views(st));
        assert forall|a: int, b: int|
            0 <= a < b < batch@.len() && (#[trigger] batch@[b]@) is Mkdir implies (
        #[trigger] batch@[a]@) is Mkdir by {
            assert(batch@[a]@ == trans_views(batch@)[a]);
            assert(batch@[b]@ == trans_views(batch@)[b]);
            if b >= dn {
                assert(trans_views(batch@)[b] == move_trans_views(moves_full)[b - dn]);
                assert(!(trans_views(batch@)[b] is Mkdir));
            }
            assert(trans_views(batch@)[a] == mkdir_views(dirs_full)[a]);
        }
    }
    Ok(batch)
}

proof fn lemma_plan_run_err(prefix: Seq<u8>, fs: FsView, songs: Seq<SongRecord>, i: int, n: int)
    requires
        0 <= i < n <= songs.len(),
        plan_run(prefix, fs, songs, i) is Ok,
        plan_step(prefix, fs, plan_run(prefix, fs, songs, i)->Ok_0, songs[i]) is Err,
    ensures
        plan_run(prefix, fs, songs, n) is Err,
        plan_run(prefix, fs, songs, n)->Err_0 == plan_step(
            prefix,
            fs,
            plan_run(prefix, fs, songs, i)->Ok_0,
            songs[i],
        )->Err_0,
    decreases n,
{
    if n > i + 1 {
        lemma_plan_run_err(prefix, fs, songs, i, n - 1);
    }
}

/// A song that already sits at its canonical location contributes no
/// transaction: planning it leaves the plan state unchanged.
pub proof fn lemma_sorted_song_no_transactions(
    prefix: Seq<u8>,
    fs: FsView,
    st: PlanState,
    rec: SongRecord,
)
    requires
        plannable(rec),
        dest_of(prefix, rec) == rec.path@,
    ensures
        plan_step(prefix, fs, st, rec) == Ok::<PlanState, ErrorView>(st),
{
}

/// A conflicting song aborts the whole batch: when no earlier song
/// blocked the run and a song's canonical destination exists on disk
/// while differing from its current path, planning reports the
/// conflict naming that song's path and its destination, and plans no
/// transactions at all.
pub proof fn lemma_conflict_aborts(
    prefix: Seq<u8>,
    fs: FsView,
    songs: Seq<SongRecord>,
    i: int,
    n: int,
)
    requires
        0 <= i < n <= songs.len(),
        plan_run(prefix, fs, songs, i) is Ok,
        plannable(songs[i]),
        fs.spec_contains(dest_of(prefix, songs[i])),
        dest_of(prefix, songs[i]) != songs[i].path@,
    ensures
        plan_run(prefix, fs, songs, n) == Err::<PlanState, ErrorView>(
            ErrorView::AlreadyExists {
                src: songs[i].path@,
                dest: dest_of(prefix, songs[i]),
            },
        ),
{
    assert(decision_of(prefix, fs, songs[i]) == Decision::Conflict {
        src: songs[i].path@,
        dest: dest_of(prefix, songs[i]),
    });
    lemma_plan_run_err(prefix, fs, songs, i, n);
}

/// What every successfully planned state guarantees:
/// - Mkdir targets are pairwise distinct (each directory is created
///   once) and name directories that did not exist at planning time;
/// - every move's destination was unoccupied at planning time and
///   differs from its source, so applying the batch overwrites
///   nothing it knew about;
/// - every move's destination lies directly beneath a directory that
///   either existed at planning time or is created by a Mkdir of the
///   same batch, so no move targets a missing directory.
pub proof fn lemma_plan_state_safe(prefix: Seq<u8>, fs: FsView, songs: Seq<SongRecord>, k: int)
    requires
        0 <= k <= songs.len(),
        plan_run(prefix, fs, songs, k) is Ok,
    ensures
        forall|a: int, b: int|
            0 <= a < b < plan_run(prefix, fs, songs, k)->Ok_0.dirs.len() ==> plan_run(
                prefix,
                fs,
                songs,
                k,
            )->Ok_0.dirs[a] != plan_run(prefix, fs, songs, k)->Ok_0.dirs[b],
        forall|a: int|
            0 <= a < plan_run(prefix, fs, songs, k)->Ok_0.dirs.len() ==> !fs.spec_contains(
                #[trigger] plan_run(prefix, fs, songs, k)->Ok_0.dirs[a],
            ),
        forall|x: int|
            0 <= x < plan_run(prefix, fs, songs, k)->Ok_0.moves.len() ==> !fs.spec_contains(
                (#[trigger] plan_run(prefix, fs, songs, k)->Ok_0.moves[x]).1,
            ) && plan_run(prefix, fs, songs, k)->Ok_0.moves[x].1 != plan_run(
                prefix,
                fs,
                songs,
                k,
            )->Ok_0.moves[x].0,
        forall|x: int|
            0 <= x < plan_run(prefix, fs, songs, k)->Ok_0.moves.len() ==> exists|d: Seq<u8>, f: Seq<u8>|
                (#[trigger] plan_run(prefix, fs, songs, k)->Ok_0.moves[x]).1 == join_spec(d, f)
                    && (fs.spec_contains(d) || plan_run(prefix, fs, songs, k)->Ok_0.dirs.contains(
                    d,
                )),
    decreases k,
{
    if k == 0 {
    } else {
        let st0 = plan_run(prefix, fs, songs, k - 1)->Ok_0;
        let st1 = plan_run(prefix, fs, songs, k)->Ok_0;
        assert(plan_run(prefix, fs, songs, k - 1) is Ok);
        lemma_plan_state_safe(prefix, fs, songs, k - 1);
        match decision_of(prefix, fs, songs[k - 1]) {
            Decision::Failed(_) => {
                assert(false);
            },
            Decision::Unplannable => {
                assert(st1 == st0);
            },
            Decision::Sorted => {
                assert(st1 == st0);
            },
            Decision::Conflict { .. } => {
                assert(false);
            },
            Decision::Emit { dir, src, dest } => {
                let rec = songs[k - 1];
                assert(dest == dest_of(prefix, rec));
                assert(dir == dir_of(prefix, rec));
                assert(!fs.spec_contains(dest));
                assert(dest != src);
                assert(st1.moves == st0.moves.push((src, dest)));
                let fresh_dir = !(fs.spec_contains(dir) || st0.dirs.contains(dir));
                if fresh_dir {
                    assert(st1.dirs == st0.dirs.push(dir));
                    assert forall|a: int, b: int|
                        0 <= a < b < st1.dirs.len() implies st1.dirs[a] != st1.dirs[b] by {
                        if b == st1.dirs.len() - 1 {
                            if st1.dirs[a] == dir {
                                assert(st0.dirs[a] == dir);
                                assert(st0.dirs.contains(dir));
                            }
                        }
                    }
                } else {
                    assert(st1.dirs == st0.dirs);
                }
                assert forall|x: int|
                    0 <= x < st1.moves.len() implies exists|d: Seq<u8>, f: Seq<u8>|
                        (#[trigger] st1.moves[x]).1 == join_spec(d, f) && (fs.spec_contains(d)
                            || st1.dirs.contains(d)) by {
                    if x < st0.moves.len() {
                        assert(st1.moves[x] == st0.moves[x]);
                        let (d, f) = choose|d: Seq<u8>, f: Seq<u8>|
                            (#[trigger] st0.moves[x]).1 == join_spec(d, f) && (fs.spec_contains(d)
                                || st0.dirs.contains(d));
                        if st0.dirs.contains(d) {
                            let u = choose|u: int|
                                0 <= u < st0.dirs.len() && st0.dirs[u] == d;
                            assert(st1.dirs[u] == d);
                            assert(st1.dirs.contains(d));
                        }
                        assert(st1.moves[x].1 == join_spec(d, f) && (fs.spec_contains(d)
                            || st1.dirs.contains(d)));
                    } else {
                        let file = sanitize_spec(
                            rec.probe->Ok_0.title->Some_0@ + seq![('.' as u8)] + extension_of(
                                rec.path@,
                            )->Some_0,
                        );
                        assert(dest == join_spec(dir, file));
                        if !fs.spec_contains(dir) {
                            if fresh_dir {
                                assert(st1.dirs[st1.dirs.len() - 1] == dir);
                                assert(st1.dirs.contains(dir));
                            } else {
                                let u = choose|u: int|
                                    0 <= u < st0.dirs.len() && st0.dirs[u] == dir;
                                assert(st1.dirs[u] == dir);
                                assert(st1.dirs.contains(dir));
                            }
                        }
                        assert(st1.moves[x].1 == join_spec(dir, file) && (fs.spec_contains(dir)
                            || st1.dirs.contains(dir)));
                    }
                }
            },
        }
    }
}

} // verus!
