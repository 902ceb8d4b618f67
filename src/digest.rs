//! Content digests: an MD5 accumulator fed in chunks, and its hex rendering.
use vstd::prelude::*;
use md5::Digest as _;

verus! {

/// An MD5 hasher of the `md-5` crate, held opaquely: Verus cannot declare
/// `md5::Md5`, which is an alias of a generic wrapper.
#[verifier::external_body]
pub struct Md5State {
    inner: md5::Md5,
}

/// The bytes that an MD5 hasher has absorbed so far.
pub uninterp spec fn md5_absorbed(h: Md5State) -> Seq<u8>;

/// The MD5 digest of a byte sequence.
pub uninterp spec fn md5_of(bytes: Seq<u8>) -> Seq<u8>;

/// Relies on `md5::Md5::new` (via `digest::Digest`): a fresh hasher has absorbed nothing.
#[verifier::external_body]
fn md5_new() -> (r: Md5State)
    ensures
        md5_absorbed(r) == Seq::<u8>::empty(),
{
    Md5State { inner: md5::Md5::new() }
}

/// Relies on `md5::Md5::update` (via `digest::Digest`): the chunk is appended to what was absorbed.
#[verifier::external_body]
fn md5_update(h: &mut Md5State, chunk: &[u8])
    ensures
        md5_absorbed(*final(h)) == md5_absorbed(*old(h)) + chunk@,
{
    h.inner.update(chunk)
}

/// Relies on `md5::Md5::finalize` (via `digest::Digest`): the 16-byte digest of all absorbed bytes.
#[verifier::external_body]
fn md5_finalize(h: Md5State) -> (r: Vec<u8>)
    ensures
        r@ == md5_of(md5_absorbed(h)),
        r@.len() == 16,
{
    h.inner.finalize().to_vec()
}

/// The lowercase hexadecimal digit for a value below 16.
pub open spec fn hex_digit(n: u8) -> u8 {
    if n < 10 {
        (48 + n) as u8
    } else {
        (87 + n) as u8
    }
}

/// Two lowercase hex digits per byte, high nibble first, as ASCII bytes.
pub open spec fn hex_of(bytes: Seq<u8>) -> Seq<u8> {
    Seq::new(
        2 * bytes.len(),
        |i: int|
            if i % 2 == 0 {
                hex_digit(bytes[i / 2] / 16)
            } else {
                hex_digit(bytes[i / 2] % 16)
            },
    )
}

/// All chunks laid end to end.
pub open spec fn concat_chunks(chunks: Seq<Seq<u8>>) -> Seq<u8>
    decreases chunks.len(),
{
    if chunks.len() == 0 {
        Seq::empty()
    } else {
        concat_chunks(chunks.drop_last()) + chunks.last()
    }
}

/// A content digest: the MD5 of a file's whole byte stream.
#[derive(Debug)]
pub struct FileDigest {
    pub bytes: Vec<u8>,
}

impl View for FileDigest {
    type V = Seq<u8>;

    open spec fn view(&self) -> Seq<u8> {
        self.bytes@
    }
}

fn hex_digit_exec(n: u8) -> (r: u8)
    requires
        n < 16,
    ensures
        r == hex_digit(n),
{
    if n < 10 {
        48 + n
    } else {
        87 + n
    }
}

impl FileDigest {
    /// The digest as raw bytes.
    pub fn as_bytes(&self) -> (r: &[u8])
        ensures
            r@ == self@,
    {
        self.bytes.as_slice()
    }

    /// A copy of this digest.
    pub fn copy(&self) -> (r: FileDigest)
        ensures
            r@ == self@,
    {
        FileDigest { bytes: self.bytes.clone() }
    }

    /// Whether two digests are equal, byte for byte.
    pub fn same_as(&self, other: &FileDigest) -> (r: bool)
        ensures
            r == (self@ == other@),
    {
        let n = self.bytes.len();
        if n != other.bytes.len() {
            return false;
        }
        let mut i: usize = 0;
        while i < n
            invariant
                n == self@.len(),
                n == other@.len(),
                i <= n,
                forall|j: int| 0 <= j < i ==> self@[j] == other@[j],
            decreases n - i,
        {
            if self.bytes[i] != other.bytes[i] {
                return false;
            }
            i = i + 1;
        }
        assert(self@ =~= other@);
        true
    }

    /// The digest rendered as lowercase hexadecimal ASCII.
    pub fn to_hex(&self) -> (r: Vec<u8>)
        requires
            self@.len() <= usize::MAX / 2,
        ensures
            r@ == hex_of(self@),
    {
        let mut r: Vec<u8> = Vec::new();
        let mut i: usize = 0;
        while i < self.bytes.len()
            invariant
                i <= self@.len(),
                self@.len() <= usize::MAX / 2,
                r@.len() == 2 * i,
                forall|j: int| 0 <= j < 2 * i ==> r@[j] == hex_of(self@)[j],
            decreases self@.len() - i,
        {
            let b = self.bytes[i];
            r.push(hex_digit_exec(b / 16));
            r.push(hex_digit_exec(b % 16));
            i = i + 1;
        }
        assert(r@ =~= hex_of(self@));
        r
    }
}

/// A streaming MD5 accumulator: bytes go in chunk by chunk, so memory use
/// does not grow with the size of the file.
pub struct ContentHasher {
    state: Md5State,
}

impl ContentHasher {
    /// The bytes absorbed so far.
    pub closed spec fn absorbed(&self) -> Seq<u8> {
        md5_absorbed(self.state)
    }

    /// A hasher that has absorbed nothing.
    pub fn new() -> (r: ContentHasher)
        ensures
            r.absorbed() == Seq::<u8>::empty(),
    {
        ContentHasher { state: md5_new() }
    }

    /// Feeds one chunk of the stream.
    pub fn absorb(&mut self, chunk: &[u8])
        ensures
            final(self).absorbed() == old(self).absorbed() + chunk@,
    {
        md5_update(&mut self.state, chunk);
    }

    /// Ends the stream and gives the digest of everything absorbed.
    pub fn finish(self) -> (r: FileDigest)
        ensures
            r@ == md5_of(self.absorbed()),
            r@.len() == 16,
    {
        FileDigest { bytes: md5_finalize(self.state) }
    }
}

/// The digest of a stream given as its successive chunks.
pub fn digest_of_chunks(chunks: &Vec<Vec<u8>>) -> (r: FileDigest)
    ensures
        r@ == md5_of(concat_chunks(chunks@.map_values(|c: Vec<u8>| c@))),
        r@.len() == 16,
{
    let mut h = ContentHasher::new();
    let mut i: usize = 0;
    while i < chunks.len()
        invariant
            i <= chunks@.len(),
            h.absorbed() == concat_chunks(chunks@.map_values(|c: Vec<u8>| c@).take(i as int)),
        decreases chunks@.len() - i,
    {
        proof {
            let all = chunks@.map_values(|c: Vec<u8>| c@);
            assert(all.take(i + 1).drop_last() =~= all.take(i as int));
        }
        h.absorb(chunks[i].as_slice());
        i = i + 1;
    }
    proof {
        let all = chunks@.map_values(|c: Vec<u8>| c@);
        assert(all.take(i as int) =~= all);
    }
    h.finish()
}

} // verus!
