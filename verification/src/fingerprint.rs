use vstd::prelude::*;

use crate::path::{bytes_eq, copy_bytes, filename_of, SongPath};

verus! {

/// A fixed-size (256-bit) content digest. Two songs are duplicates
/// under a strategy exactly when the strategy assigns them equal
/// fingerprints.
#[derive(Debug)]
pub struct Fingerprint {
    pub bytes: Vec<u8>,
}

impl View for Fingerprint {
    type V = Seq<u8>;

    open spec fn view(&self) -> Seq<u8> {
        self.bytes@
    }
}

/// The digest that the BLAKE3 hash assigns to a byte string: a 32-byte
/// function of the input alone, the same in every run and on every
/// machine.
pub uninterp spec fn digest_of(data: Seq<u8>) -> Seq<u8>;

/// Relies on `blake3::hash`: the digest is 32 bytes long and depends on
/// the input bytes alone.
#[verifier::external_body]
fn blake3_digest(data: &[u8]) -> (r: Vec<u8>)
    ensures
        r@ == digest_of(data@),
        r@.len() == 32,
{
    blake3::hash(data).as_bytes().to_vec()
}

impl Fingerprint {
    /// Whether the two fingerprints are the same digest.
    pub fn same_as(&self, other: &Fingerprint) -> (r: bool)
        ensures
            r == (self@ == other@),
    {
        bytes_eq(&self.bytes, &other.bytes)
    }

    /// An owned copy of this fingerprint.
    pub fn duplicate(&self) -> (r: Fingerprint)
        ensures
            r@ == self@,
    {
        Fingerprint { bytes: copy_bytes(&self.bytes) }
    }
}

/// The concatenation, in order, of a sequence of packet payloads.
pub open spec fn concat_of(ps: Seq<Seq<u8>>) -> Seq<u8>
    decreases ps.len(),
{
    if ps.len() == 0 {
        Seq::empty()
    } else {
        ps.first() + concat_of(ps.drop_first())
    }
}

/// The Filename strategy's digest: the file name's bytes, hashed.
/// A path with no file-name component is a contract violation.
pub fn hash_filename(path: &SongPath) -> (r: Fingerprint)
    requires
        filename_of(path@) is Some,
    ensures
        r@ == digest_of(filename_of(path@)->Some_0),
        r@.len() == 32,
{
    let name = match path.file_name() {
        Some(name) => name,
        None => unreached(),
    };
    Fingerprint { bytes: blake3_digest(name.as_slice()) }
}

/// The Metadata strategy's digest: the title tag's bytes, hashed.
/// A song without a title has no metadata fingerprint.
pub fn hash_metadata(title: &Option<Vec<u8>>) -> (r: Option<Fingerprint>)
    ensures
        match title {
            Some(t) => r matches Some(fp) && fp@ == digest_of(t@) && fp@.len() == 32,
            None => r is None,
        },
{
    match title {
        Some(t) => Some(Fingerprint { bytes: blake3_digest(t.as_slice()) }),
        None => None,
    }
}

/// The Stream strategy's digest: every decoded packet payload, in read
/// order, concatenated and hashed.
pub fn hash_stream(packets: &Vec<Vec<u8>>) -> (r: Fingerprint)
    ensures
        r@ == digest_of(concat_of(packets.deep_view())),
        r@.len() == 32,
{
    let ghost full = packets.deep_view();
    let mut data: Vec<u8> = Vec::new();
    let n = packets.len();
    proof {
        assert(full.len() == n);
        assert(full.skip(0) =~= full);
    }
    let mut i: usize = 0;
    while i < n
        invariant
            i <= n,
            n == packets@.len(),
            full == packets.deep_view(),
            concat_of(full) =~= data@ + concat_of(full.skip(i as int)),
        decreases n - i,
    {
        let ghost before = data@;
        let packet = &packets[i];
        proof {
            assert(packet@ == full[i as int]);
        }
        let m = packet.len();
        let mut j: usize = 0;
        while j < m
            invariant
                j <= m,
                m == packet@.len(),
                data@ == before + packet@.take(j as int),
            decreases m - j,
        {
            data.push(packet[j]);
            j = j + 1;
            proof {
                assert(data@ =~= before + packet@.take(j as int));
            }
        }
        i = i + 1;
        proof {
            assert(packet@.take(m as int) =~= packet@);
            let rest = full.skip(i - 1);
            assert(rest.first() == full[i - 1]);
            assert(rest.drop_first() =~= full.skip(i as int));
            assert(concat_of(rest) == rest.first() + concat_of(rest.drop_first()));
            assert(data@ + concat_of(full.skip(i as int)) =~= before + concat_of(full.skip(
                i - 1,
            )));
        }
    }
    proof {
        assert(full.skip(n as int) =~= Seq::<Seq<u8>>::empty());
        assert(concat_of(full.skip(n as int)) == Seq::<u8>::empty());
        assert(data@ =~= concat_of(full));
    }
    Fingerprint { bytes: blake3_digest(data.as_slice()) }
}

} // verus!
