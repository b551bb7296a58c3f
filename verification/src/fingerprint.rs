use sha2::Digest;
use vstd::prelude::*;
use vstd::string::StringExecFns;

verus! {

/// The SHA-256 digest of a byte string.  The digest is computed by an
/// outside library; nothing here states what it is on given bytes, only
/// that it depends on the bytes alone.
pub uninterp spec fn sha256_of(data: Seq<u8>) -> Seq<u8>;

/// Relies on sha2's `Sha256` hasher via `Digest::digest`: the SHA-256
/// digest is a pure function of the input bytes and is 32 bytes long.
#[verifier::external_body]
fn sha256_digest(data: &[u8]) -> (r: Vec<u8>)
    ensures
        r@ == sha256_of(data@),
        r@.len() == 32,
{
    sha2::Sha256::digest(data).as_slice().to_vec()
}

/// The lowercase hex digit for a value below 16.
pub open spec fn hex_digit(n: u8) -> char {
    if n < 10 {
        ((n + 48) as u8) as char
    } else {
        ((n + 87) as u8) as char
    }
}

/// Lowercase hex encoding: two digits for every byte, in order.
pub open spec fn hex_of(bytes: Seq<u8>) -> Seq<char> {
    Seq::new(
        bytes.len() * 2,
        |i: int|
            if i % 2 == 0 {
                hex_digit(bytes[i / 2] / 16)
            } else {
                hex_digit(bytes[i / 2] % 16)
            },
    )
}

/// Relies on hex::encode: each input byte becomes exactly two lowercase
/// hex digits, most significant first.
#[verifier::external_body]
pub(crate) fn hex_encode(data: &[u8]) -> (r: String)
    ensures
        r@ == hex_of(data@),
{
    hex::encode(data)
}

/// The hex digests of the readable inputs, in order; unreadable inputs
/// (`None`) are skipped.
pub open spec fn digests_of(contents: Seq<Option<Vec<u8>>>) -> Seq<Seq<char>>
    decreases contents.len(),
{
    if contents.len() == 0 {
        Seq::empty()
    } else {
        let rest = digests_of(contents.drop_last());
        match contents.last() {
            Some(b) => rest.push(hex_of(sha256_of(b@))),
            None => rest,
        }
    }
}

/// The fingerprint string: the hashes joined with commas.
pub open spec fn join_comma(parts: Seq<Seq<char>>) -> Seq<char>
    decreases parts.len(),
{
    if parts.len() == 0 {
        Seq::empty()
    } else if parts.len() == 1 {
        parts[0]
    } else {
        join_comma(parts.drop_last()) + seq![','] + parts.last()
    }
}

/// A content fingerprint: one hash per declared input file, joined into a
/// single string for the cache.
#[derive(Debug)]
pub struct Fingerprint {
    pub hashes: Vec<String>,
}

impl Fingerprint {
    /// The hashes as character sequences.
    pub open spec fn hashes_view(self) -> Seq<Seq<char>> {
        self.hashes@.map_values(|s: String| s@)
    }

    pub fn new() -> (r: Fingerprint)
        ensures
            r.hashes@.len() == 0,
    {
        Fingerprint { hashes: Vec::new() }
    }

    /// Fills the fingerprint from the contents of the declared input files:
    /// one hex SHA-256 digest per readable file, in order.  A fingerprint
    /// that was already computed is left as it is.
    pub fn compute_from_contents(&mut self, contents: &Vec<Option<Vec<u8>>>)
        ensures
            old(self).hashes@.len() > 0 ==> *final(self) == *old(self),
            old(self).hashes@.len() == 0 ==> final(self).hashes_view() == digests_of(contents@),
    {
        if self.hashes.len() > 0 {
            return ;
        }
        let mut i: usize = 0;
        while i < contents.len()
            invariant
                i <= contents@.len(),
                self.hashes_view() == digests_of(contents@.take(i as int)),
            decreases contents@.len() - i,
        {
            let ghost prev = self.hashes_view();
            proof {
                assert(contents@.take(i + 1).drop_last() =~= contents@.take(i as int));
                assert(contents@.take(i + 1).last() == contents@[i as int]);
            }
            match &contents[i] {
                Some(bytes) => {
                    let digest = sha256_digest(bytes.as_slice());
                    let hexed = hex_encode(digest.as_slice());
                    self.hashes.push(hexed);
                    proof {
                        assert(self.hashes_view() =~= prev.push(
                            hex_of(sha256_of(contents@[i as int]->Some_0@)),
                        ));
                    }
                },
                None => {},
            }
            i = i + 1;
        }
        proof {
            assert(contents@.take(contents@.len() as int) =~= contents@);
        }
    }

    /// The fingerprint as one string: the hashes joined with commas.
    pub fn string(&self) -> (r: String)
        ensures
            r@ == join_comma(self.hashes_view()),
    {
        let ghost parts = self.hashes_view();
        let mut out = String::new();
        let mut i: usize = 0;
        while i < self.hashes.len()
            invariant
                i <= self.hashes@.len(),
                parts == self.hashes_view(),
                out@ == join_comma(parts.take(i as int)),
            decreases self.hashes@.len() - i,
        {
            proof {
                assert(parts.take(i + 1).drop_last() =~= parts.take(i as int));
                assert(parts.take(i + 1).last() == parts[i as int]);
            }
            if i > 0 {
                out.append(",");
                proof {
                    reveal_strlit(",");
                    assert(","@ =~= seq![',']);
                }
            }
            out.append(self.hashes[i].as_str());
            proof {
                if i == 0 {
                    assert(out@ =~= join_comma(parts.take(1)));
                } else {
                    assert(out@ =~= join_comma(parts.take(i + 1)));
                }
            }
            i = i + 1;
        }
        proof {
            assert(parts.take(self.hashes@.len() as int) =~= parts);
        }
        out
    }
}

impl PartialEq for Fingerprint {
    /// Two fingerprints are equal when their joined strings are.
    fn eq(&self, other: &Fingerprint) -> (r: bool) {
        let a = self.string();
        let b = other.string();
        a == b
    }
}

impl vstd::std_specs::cmp::PartialEqSpecImpl for Fingerprint {
    open spec fn obeys_eq_spec() -> bool {
        true
    }

    open spec fn eq_spec(&self, other: &Fingerprint) -> bool {
        join_comma(self.hashes_view()) == join_comma(other.hashes_view())
    }
}

} // verus!
