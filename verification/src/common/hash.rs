//! The content digest of a file: SHA-256, computed over the file's bytes as
//! they are read, chunk by chunk.

use sha2::Digest;
use vstd::prelude::*;
use vstd::slice::slice_subrange;
use vstd::string::StringExecFns;

verus! {

/// The number of bytes of a digest.
pub const DIGEST_SIZE: usize = 32;

/// The number of bytes that are read from a file and hashed at a time.
pub const HASH_CHUNK_SIZE: usize = 8192;

/// The state of a SHA-256 computation: the hasher `Sha256` of the `sha2`
/// crate. It is opaque here: what it has taken in is spoken of through
/// `absorbed` alone.
#[verifier::external_body]
pub struct Sha256State {
    inner: sha2::Sha256,
}

/// The SHA-256 digest of `data`: 32 bytes that depend on nothing but
/// `data`.
pub uninterp spec fn sha256(data: Seq<u8>) -> Seq<u8>;

/// The bytes that a computation has been fed so far, in their order.
pub uninterp spec fn absorbed(state: Sha256State) -> Seq<u8>;

/// `Sha256::new`: a computation that has been fed nothing.
#[verifier::external_body]
fn sha256_new() -> (state: Sha256State)
    ensures
        absorbed(state) == Seq::<u8>::empty(),
{
    Sha256State { inner: sha2::Sha256::new() }
}

/// `Digest::update`: the computation has been fed `data` after what it had
/// been fed before.
#[verifier::external_body]
fn sha256_update(state: &mut Sha256State, data: &[u8])
    ensures
        absorbed(*final(state)) == absorbed(*old(state)) + data@,
{
    state.inner.update(data);
}

/// `Digest::finalize`: the digest of all that the computation has been fed.
#[verifier::external_body]
fn sha256_finalize(state: Sha256State) -> (digest: [u8; 32])
    ensures
        digest@ == sha256(absorbed(state)),
{
    state.inner.finalize().into()
}

/// The digest of a file in the making. The file's bytes are handed over as
/// they are read; the digest is that of all of them in their order, however
/// they were cut into chunks.
pub struct FileHasher {
    state: Sha256State,
}

impl View for FileHasher {
    type V = Seq<u8>;

    /// The bytes handed over so far.
    closed spec fn view(&self) -> Seq<u8> {
        absorbed(self.state)
    }
}

impl FileHasher {
    /// A hasher that has seen no byte yet.
    pub fn new() -> (hasher: Self)
        ensures
            hasher@ == Seq::<u8>::empty(),
    {
        FileHasher { state: sha256_new() }
    }

    /// Hands the next bytes of the file over.
    pub fn update(&mut self, chunk: &[u8])
        ensures
            final(self)@ == old(self)@ + chunk@,
    {
        sha256_update(&mut self.state, chunk);
    }

    /// The digest of the bytes handed over.
    pub fn finalize(self) -> (digest: [u8; 32])
        ensures
            digest@ == sha256(self@),
    {
        sha256_finalize(self.state)
    }
}

/// The digest of `data`, computed as that of a file is: in chunks of
/// [`HASH_CHUNK_SIZE`] bytes.
pub fn hash_bytes_sha256(data: &[u8]) -> (digest: [u8; 32])
    ensures
        digest@ == sha256(data@),
{
    let mut hasher = FileHasher::new();
    let mut done: usize = 0;
    assert(data@.take(0) =~= Seq::<u8>::empty());
    while done < data.len()
        invariant
            done <= data.len(),
            hasher@ == data@.take(done as int),
        decreases data.len() - done,
    {
        let end: usize = if data.len() - done > HASH_CHUNK_SIZE {
            done + HASH_CHUNK_SIZE
        } else {
            data.len()
        };
        hasher.update(slice_subrange(data, done, end));
        assert(data@.take(end as int) =~= data@.take(done as int) + data@.subrange(
            done as int,
            end as int,
        ));
        done = end;
    }
    assert(data@.take(done as int) =~= data@);
    hasher.finalize()
}

/// Whether two digests are the same.
pub fn same_digest(a: &[u8; 32], b: &[u8; 32]) -> (same: bool)
    ensures
        same == (a@ == b@),
{
    let mut i: usize = 0;
    while i < 32
        invariant
            i <= 32,
            forall|j: int| 0 <= j < i ==> a@[j] == b@[j],
        decreases 32 - i,
    {
        if a[i] != b[i] {
            return false;
        }
        i += 1;
    }
    assert(a@ =~= b@);
    true
}

/// The hexadecimal digit for `n`, in lower case.
pub open spec fn hex_char(n: int) -> char {
    if n == 0 {
        '0'
    } else if n == 1 {
        '1'
    } else if n == 2 {
        '2'
    } else if n == 3 {
        '3'
    } else if n == 4 {
        '4'
    } else if n == 5 {
        '5'
    } else if n == 6 {
        '6'
    } else if n == 7 {
        '7'
    } else if n == 8 {
        '8'
    } else if n == 9 {
        '9'
    } else if n == 10 {
        'a'
    } else if n == 11 {
        'b'
    } else if n == 12 {
        'c'
    } else if n == 13 {
        'd'
    } else if n == 14 {
        'e'
    } else {
        'f'
    }
}

/// `bytes` in hexadecimal: two digits for each byte, the higher first.
pub open spec fn hex_text(bytes: Seq<u8>) -> Seq<char> {
    Seq::new(
        2 * bytes.len(),
        |i: int|
            if i % 2 == 0 {
                hex_char(bytes[i / 2] as int / 16)
            } else {
                hex_char(bytes[i / 2] as int % 16)
            },
    )
}

/// The hexadecimal digit for `n`.
fn hex_digit(n: u8) -> (digit: &'static str)
    requires
        n < 16,
    ensures
        digit@ == seq![hex_char(n as int)],
{
    proof {
        reveal_strlit("0");
        reveal_strlit("1");
        reveal_strlit("2");
        reveal_strlit("3");
        reveal_strlit("4");
        reveal_strlit("5");
        reveal_strlit("6");
        reveal_strlit("7");
        reveal_strlit("8");
        reveal_strlit("9");
        reveal_strlit("a");
        reveal_strlit("b");
        reveal_strlit("c");
        reveal_strlit("d");
        reveal_strlit("e");
        reveal_strlit("f");
    }
    let digit = if n == 0 {
        "0"
    } else if n == 1 {
        "1"
    } else if n == 2 {
        "2"
    } else if n == 3 {
        "3"
    } else if n == 4 {
        "4"
    } else if n == 5 {
        "5"
    } else if n == 6 {
        "6"
    } else if n == 7 {
        "7"
    } else if n == 8 {
        "8"
    } else if n == 9 {
        "9"
    } else if n == 10 {
        "a"
    } else if n == 11 {
        "b"
    } else if n == 12 {
        "c"
    } else if n == 13 {
        "d"
    } else if n == 14 {
        "e"
    } else {
        "f"
    };
    assert(digit@ =~= seq![hex_char(n as int)]);
    digit
}

/// Writes `bytes` in hexadecimal, as a digest is shown to a reader.
pub fn bytes_to_hex(bytes: &[u8]) -> (text: String)
    ensures
        text@ == hex_text(bytes@),
{
    let mut text = String::new();
    let mut i: usize = 0;
    while i < bytes.len()
        invariant
            i <= bytes.len(),
            text@ == hex_text(bytes@.take(i as int)),
        decreases bytes.len() - i,
    {
        let ghost before = text@;
        let b = bytes[i];
        text.append(hex_digit(b / 16));
        text.append(hex_digit(b % 16));
        proof {
            let now = bytes@.take(i + 1);
            assert(text@ =~= hex_text(now)) by {
                assert(text@.len() == 2 * i + 2);
                assert forall|k: int| 0 <= k < 2 * i + 2 implies text@[k] == hex_text(now)[k] by {
                    if k < 2 * i {
                        assert(text@[k] == before[k]);
                        assert(now[k / 2] == bytes@.take(i as int)[k / 2]);
                    } else {
                        assert(now[k / 2] == b);
                    }
                }
            }
        }
        i += 1;
    }
    assert(bytes@.take(i as int) =~= bytes@);
    text
}

} // verus!
