//! Names for temporary directories.

use crate::error::TarError;
use crate::path::{extend, is_absolute, join, joined};
use vstd::prelude::*;
use vstd::slice::slice_to_vec;

verus! {

/// How many names are tried until an unused one is found.
pub const NUM_RETRIES: u32 = 2147483648;

/// How many random characters a name has.
pub const NUM_RAND_CHARS: usize = 12;

/// Whether a byte is an ASCII letter or digit.
pub open spec fn is_alphanumeric(b: u8) -> bool {
    48 <= b <= 57 || 65 <= b <= 90 || 97 <= b <= 122
}

/// Draws a random letter or digit.
///
/// Calls `rand::Rng::sample` on `rand::thread_rng()` with `rand::distributions::Alphanumeric`,
/// which gives an ASCII letter or digit. Nothing is said of which one. The generator panics if
/// the machine has no source of randomness to seed it from.
#[verifier::external_body]
fn random_char() -> (r: u8)
    ensures
        is_alphanumeric(r),
{
    rand::Rng::sample(&mut rand::thread_rng(), rand::distributions::Alphanumeric)
}

/// Whether some bytes can be the random part of a name.
pub open spec fn is_suffix(s: Seq<u8>) -> bool {
    s.len() == NUM_RAND_CHARS && forall|k: int| 0 <= k < s.len() ==> is_alphanumeric(#[trigger] s[k])
}

/// Draws the random part of a name.
fn random_suffix() -> (r: Vec<u8>)
    ensures
        is_suffix(r@),
{
    let mut r: Vec<u8> = Vec::new();
    while r.len() < NUM_RAND_CHARS
        invariant
            r@.len() <= NUM_RAND_CHARS,
            forall|k: int| 0 <= k < r@.len() ==> is_alphanumeric(#[trigger] r@[k]),
        decreases NUM_RAND_CHARS - r@.len(),
    {
        r.push(random_char());
    }
    r
}

/// The name with a prefix and a random part.
///
/// Without a prefix there is no dot, so that the directory is not hidden.
pub open spec fn leaf(prefix: Seq<u8>, suffix: Seq<u8>) -> Seq<u8> {
    if prefix.len() > 0 {
        prefix.push(46u8) + suffix
    } else {
        suffix
    }
}

/// Returns the name with a prefix and a random part.
pub fn leaf_name(prefix: &[u8], suffix: &[u8]) -> (r: Vec<u8>)
    ensures
        r@ == leaf(prefix@, suffix@),
{
    let mut r: Vec<u8> = slice_to_vec(prefix);
    if prefix.len() > 0 {
        r.push(46);
    }
    extend(&mut r, suffix);
    assert(r@ =~= leaf(prefix@, suffix@));
    r
}

/// A temporary directory for which an unused name is searched.
pub struct TempDirNames {
    /// Where the directory is to be.
    pub tmpdir: Vec<u8>,
    /// What its name starts with.
    pub prefix: Vec<u8>,
    /// How many more names are tried.
    pub left: u32,
}

impl TempDirNames {
    /// Starts to search a name inside of `tmpdir`, which must be absolute.
    pub fn new_in(tmpdir: &[u8], prefix: &[u8]) -> (r: TempDirNames)
        requires
            is_absolute(tmpdir@),
        ensures
            r.tmpdir@ == tmpdir@,
            r.prefix@ == prefix@,
            r.left == NUM_RETRIES,
    {
        TempDirNames {
            tmpdir: slice_to_vec(tmpdir),
            prefix: slice_to_vec(prefix),
            left: NUM_RETRIES,
        }
    }

    /// Returns the path with the given random part.
    ///
    /// Fails if too many names were tried.
    pub fn next_with(&mut self, suffix: &[u8]) -> (r: Result<Vec<u8>, TarError>)
        ensures
            final(self).tmpdir == old(self).tmpdir,
            final(self).prefix == old(self).prefix,
            if old(self).left == 0 {
                r == Err::<Vec<u8>, TarError>(TarError::TooManyTempDirs) && final(self).left == 0
            } else {
                &&& r matches Ok(p) && p@ == joined(
                    old(self).tmpdir@,
                    leaf(old(self).prefix@, suffix@),
                )
                &&& final(self).left == old(self).left - 1
            },
    {
        if self.left == 0 {
            return Err(TarError::TooManyTempDirs);
        }
        self.left = self.left - 1;
        let name: Vec<u8> = leaf_name(self.prefix.as_slice(), suffix);
        Ok(join(self.tmpdir.as_slice(), name.as_slice()))
    }

    /// Returns the path with the next random name.
    ///
    /// Fails if too many names were tried.
    pub fn next(&mut self) -> (r: Result<Vec<u8>, TarError>)
        ensures
            final(self).tmpdir == old(self).tmpdir,
            final(self).prefix == old(self).prefix,
            if old(self).left == 0 {
                r == Err::<Vec<u8>, TarError>(TarError::TooManyTempDirs) && final(self).left == 0
            } else {
                &&& r matches Ok(p) && exists|suffix: Seq<u8>| #[trigger]
                    is_suffix(suffix) && p@ == joined(
                        old(self).tmpdir@,
                        leaf(old(self).prefix@, suffix),
                    )
                &&& final(self).left == old(self).left - 1
            },
    {
        let suffix: Vec<u8> = random_suffix();
        let r: Result<Vec<u8>, TarError> = self.next_with(suffix.as_slice());
        assert(is_suffix(suffix@));
        r
    }
}

/// A temporary directory, which is removed when it is no longer used.
pub struct TempDir {
    /// Where it is.
    pub path: Option<Vec<u8>>,
}

impl TempDir {
    /// Returns where the directory is.
    pub fn path(&self) -> (r: &[u8])
        requires
            self.path is Some,
        ensures
            r@ == self.path->Some_0@,
    {
        self.path.as_ref().unwrap().as_slice()
    }

    /// Returns what is to be removed with all that is in it, if anything.
    pub fn cleanup_dir(&self) -> (r: Option<&[u8]>)
        ensures
            match self.path {
                Some(p) => r matches Some(q) && q@ == p@,
                None => r is None,
            },
    {
        match &self.path {
            Some(p) => Some(p.as_slice()),
            None => None,
        }
    }
}

} // verus!
