use vstd::prelude::*;

verus! {

/// A song's location, held as the bytes of its path with `/` as the
/// separator. Paths are opaque byte strings: two locations are the same
/// exactly when their bytes are equal. The caller is expected to hand in
/// paths in a normalized spelling (no doubled separators).
#[derive(Debug)]
pub struct SongPath {
    pub bytes: Vec<u8>,
}

impl View for SongPath {
    type V = Seq<u8>;

    open spec fn view(&self) -> Seq<u8> {
        self.bytes@
    }
}

/// The suffix of `s` that follows the last occurrence of `sep`;
/// all of `s` when `sep` does not occur.
pub open spec fn after_last_byte(s: Seq<u8>, sep: u8) -> Seq<u8>
    decreases s.len(),
{
    if s.len() == 0 {
        s
    } else if s.last() == sep {
        Seq::empty()
    } else {
        after_last_byte(s.drop_last(), sep).push(s.last())
    }
}

/// The final component of a path: the bytes after the last `/`.
/// Empty paths and paths that end in a separator have no file name.
pub open spec fn filename_of(p: Seq<u8>) -> Option<Seq<u8>> {
    let name = after_last_byte(p, ('/' as u8));
    if name.len() == 0 {
        None
    } else {
        Some(name)
    }
}

/// The extension of a path: the bytes of its file name after the last `.`.
/// A file name without a dot has none, and a leading dot alone (a hidden
/// file such as `.config`) introduces no extension.
pub open spec fn extension_of(p: Seq<u8>) -> Option<Seq<u8>> {
    let name = after_last_byte(p, ('/' as u8));
    let ext = after_last_byte(name, ('.' as u8));
    if ext.len() == name.len() {
        None
    } else if name.len() - ext.len() == 1 {
        None
    } else {
        Some(ext)
    }
}

/// `a` extended by the component `b`, inserting a separator unless `a`
/// is empty or already ends in one.
pub open spec fn join_spec(a: Seq<u8>, b: Seq<u8>) -> Seq<u8> {
    if a.len() == 0 {
        b
    } else if a.last() == ('/' as u8) {
        a + b
    } else {
        a + seq![('/' as u8)] + b
    }
}

/// The views of a sequence of locations.
pub open spec fn path_views(ps: Seq<SongPath>) -> Seq<Seq<u8>> {
    ps.map_values(|p: SongPath| p@)
}

/// The view of an optional byte buffer.
pub open spec fn opt_bytes_view(o: Option<Vec<u8>>) -> Option<Seq<u8>> {
    match o {
        Some(v) => Some(v@),
        None => None,
    }
}

/// Copies a byte buffer.
pub(crate) fn copy_bytes(v: &Vec<u8>) -> (r: Vec<u8>)
    ensures
        r@ == v@,
{
    let mut out: Vec<u8> = Vec::new();
    let n = v.len();
    let mut j: usize = 0;
    while j < n
        invariant
            j <= n,
            n == v@.len(),
            out@ == v@.take(j as int),
        decreases n - j,
    {
        out.push(v[j]);
        j = j + 1;
        proof {
            assert(out@ =~= v@.take(j as int));
        }
    }
    proof {
        assert(v@.take(n as int) =~= v@);
    }
    out
}

/// Compares two byte buffers for equality of their contents.
pub(crate) fn bytes_eq(a: &Vec<u8>, b: &Vec<u8>) -> (r: bool)
    ensures
        r == (a@ == b@),
{
    if a.len() != b.len() {
        proof {
            assert(a@ != b@);
        }
        return false;
    }
    let n = a.len();
    let mut j: usize = 0;
    while j < n
        invariant
            j <= n,
            n == a@.len(),
            n == b@.len(),
            forall|k: int| 0 <= k < j ==> a@[k] == b@[k],
        decreases n - j,
    {
        if a[j] != b[j] {
            proof {
                assert(a@[j as int] != b@[j as int]);
            }
            return false;
        }
        j = j + 1;
    }
    proof {
        assert(a@ =~= b@);
    }
    true
}

/// The position just past the last occurrence of `sep` in `v`
/// (0 when `sep` does not occur), so that the suffix from that
/// position onward is exactly `after_last_byte(v@, sep)`.
fn cut_after_last(v: &Vec<u8>, sep: u8) -> (i: usize)
    ensures
        i <= v@.len(),
        after_last_byte(v@, sep) == v@.skip(i as int),
{
    let n = v.len();
    let mut i: usize = n;
    proof {
        assert(v@.take(n as int) =~= v@);
        assert(after_last_byte(v@, sep) =~= after_last_byte(v@.take(i as int), sep) + v@.skip(
            i as int,
        ));
    }
    while i > 0 && v[i - 1] != sep
        invariant
            i <= n,
            n == v@.len(),
            after_last_byte(v@, sep) == after_last_byte(v@.take(i as int), sep) + v@.skip(i as int),
        decreases i,
    {
        proof {
            let t = v@.take(i as int);
            assert(t.last() == v@[i - 1]);
            assert(t.drop_last() =~= v@.take(i - 1));
            assert(after_last_byte(t, sep) == after_last_byte(v@.take(i - 1), sep).push(
                v@[i - 1],
            ));
            assert(after_last_byte(v@.take(i - 1), sep).push(v@[i - 1]) + v@.skip(i as int)
                =~= after_last_byte(v@.take(i - 1), sep) + v@.skip(i - 1));
        }
        i = i - 1;
    }
    proof {
        if i > 0 {
            let t = v@.take(i as int);
            assert(t.last() == sep);
            assert(after_last_byte(t, sep) == Seq::<u8>::empty());
        } else {
            assert(v@.take(0) =~= Seq::<u8>::empty());
        }
        assert(after_last_byte(v@, sep) =~= v@.skip(i as int));
    }
    i
}

/// Copies `v[i..]` into a fresh buffer.
fn tail_from(v: &Vec<u8>, i: usize) -> (r: Vec<u8>)
    requires
        i <= v@.len(),
    ensures
        r@ == v@.skip(i as int),
{
    let n = v.len();
    let mut out: Vec<u8> = Vec::new();
    let mut j: usize = i;
    while j < n
        invariant
            i <= j <= n,
            n == v@.len(),
            out@ == v@.subrange(i as int, j as int),
        decreases n - j,
    {
        out.push(v[j]);
        j = j + 1;
        proof {
            assert(out@ =~= v@.subrange(i as int, j as int));
        }
    }
    proof {
        assert(v@.subrange(i as int, n as int) =~= v@.skip(i as int));
    }
    out
}

impl SongPath {
    /// Builds a location from path bytes.
    pub fn new(bytes: Vec<u8>) -> (r: SongPath)
        ensures
            r@ == bytes@,
    {
        SongPath { bytes }
    }

    /// An owned copy of this location.
    pub fn duplicate(&self) -> (r: SongPath)
        ensures
            r@ == self@,
    {
        SongPath { bytes: copy_bytes(&self.bytes) }
    }

    /// Whether the two locations are the same path.
    pub fn same_as(&self, other: &SongPath) -> (r: bool)
        ensures
            r == (self@ == other@),
    {
        bytes_eq(&self.bytes, &other.bytes)
    }

    /// The final component of the path, if there is one.
    pub fn file_name(&self) -> (r: Option<Vec<u8>>)
        ensures
            opt_bytes_view(r) == filename_of(self@),
    {
        let i = cut_after_last(&self.bytes, ('/' as u8));
        if i == self.bytes.len() {
            proof {
                assert(self@.skip(i as int) =~= Seq::<u8>::empty());
            }
            None
        } else {
            Some(tail_from(&self.bytes, i))
        }
    }

    /// The extension of the final component, if there is one.
    pub fn extension(&self) -> (r: Option<Vec<u8>>)
        ensures
            opt_bytes_view(r) == extension_of(self@),
    {
        match self.file_name() {
            None => {
                proof {
                    let name = after_last_byte(self@, ('/' as u8));
                    assert(after_last_byte(name, ('.' as u8)) =~= name);
                }
                None
            },
            Some(name) => {
                let i = cut_after_last(&name, ('.' as u8));
                if i == 0 {
                    proof {
                        assert(name@.skip(0) =~= name@);
                    }
                    None
                } else if i == 1 {
                    None
                } else {
                    Some(tail_from(&name, i))
                }
            },
        }
    }

    /// This path extended by one component.
    pub fn join(&self, component: &Vec<u8>) -> (r: SongPath)
        ensures
            r@ == join_spec(self@, component@),
    {
        let mut out = copy_bytes(&self.bytes);
        let n = self.bytes.len();
        if n > 0 && self.bytes[n - 1] != ('/' as u8) {
            out.push(('/' as u8));
        }
        let mut j: usize = 0;
        let m = component.len();
        let ghost base = out@;
        while j < m
            invariant
                j <= m,
                m == component@.len(),
                out@ == base + component@.take(j as int),
            decreases m - j,
        {
            out.push(component[j]);
            j = j + 1;
            proof {
                assert(out@ =~= base + component@.take(j as int));
            }
        }
        proof {
            assert(component@.take(m as int) =~= component@);
            if n == 0 {
                assert(base + component@ =~= component@);
            } else if self@.last() == ('/' as u8) {
                assert(base + component@ =~= self@ + component@);
            } else {
                assert(base =~= self@ + seq![('/' as u8)]);
                assert(base + component@ =~= self@ + seq![('/' as u8)] + component@);
            }
        }
        SongPath { bytes: out }
    }
}

/// The extensions that mark a file as a song.
pub open spec fn is_song_ext(e: Seq<u8>) -> bool {
    ||| (e.len() == 3 && e[0] == ('m' as u8) && e[1] == ('p' as u8) && (e[2] == ('1' as u8) || e[2] == ('2' as u8) || e[2]
        == ('3' as u8)))
    ||| (e.len() == 3 && e[0] == ('o' as u8) && e[1] == ('g' as u8) && e[2] == ('g' as u8))
    ||| (e.len() == 3 && e[0] == ('a' as u8) && e[1] == ('a' as u8) && e[2] == ('c' as u8))
    ||| (e.len() == 4 && e[0] == ('o' as u8) && e[1] == ('p' as u8) && e[2] == ('u' as u8) && e[3] == ('s' as u8))
    ||| (e.len() == 4 && e[0] == ('f' as u8) && e[1] == ('l' as u8) && e[2] == ('a' as u8) && e[3] == ('c' as u8))
}

/// Whether a path carries one of the supported audio extensions.
pub open spec fn is_song_spec(p: Seq<u8>) -> bool {
    match extension_of(p) {
        Some(e) => is_song_ext(e),
        None => false,
    }
}

/// Whether the file at `path` is a candidate song: it has an extension
/// on the fixed audio allow-list. Anything else is silently skipped by
/// discovery.
pub fn is_song(path: &SongPath) -> (r: bool)
    ensures
        r == is_song_spec(path@),
{
    match path.extension() {
        None => false,
        Some(e) => {
            if e.len() == 3 {
                let a = e[0];
                let b = e[1];
                let c = e[2];
                (a == ('m' as u8) && b == ('p' as u8) && (c == ('1' as u8) || c == ('2' as u8) || c == ('3' as u8))) || (a == ('o' as u8) && b
                    == ('g' as u8) && c == ('g' as u8)) || (a == ('a' as u8) && b == ('a' as u8) && c == ('c' as u8))
            } else if e.len() == 4 {
                let a = e[0];
                let b = e[1];
                let c = e[2];
                let d = e[3];
                (a == ('o' as u8) && b == ('p' as u8) && c == ('u' as u8) && d == ('s' as u8)) || (a == ('f' as u8) && b == ('l' as u8) && c
                    == ('a' as u8) && d == ('c' as u8))
            } else {
                false
            }
        },
    }
}

} // verus!
