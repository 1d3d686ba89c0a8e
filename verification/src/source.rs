//! Locator dispatch for raster sources.
//!
//! A source is named by a locator of the shape `scheme:path`. The library
//! decides which backend a locator selects; actually opening the backing
//! raster is the caller's side of the boundary. Recognized schemes are
//! `file` (a local path) and `s3` (an object-store path); `wms` is reserved
//! for an upstream server and refused with an explicit unsupported error,
//! distinct from the generic invalid-path failure.

use crate::utils::{Error, ErrorView};
use vstd::prelude::*;
use vstd::string::StrSliceExecFns;

verus! {

/// Where a raster source lives, decided from its locator's scheme.
pub enum Locator {
    /// A local file path.
    File(String),
    /// An object-store path, opened through the store's virtual-filesystem
    /// prefix.
    S3(String),
}

/// The abstract value of a [`Locator`].
pub enum LocatorView {
    File(Seq<char>),
    S3(Seq<char>),
}

impl View for Locator {
    type V = LocatorView;

    open spec fn view(&self) -> LocatorView {
        match self {
            Locator::File(p) => LocatorView::File(p@),
            Locator::S3(p) => LocatorView::S3(p@),
        }
    }
}

/// `i` is the position of the first `:` in `s`.
pub open spec fn spec_is_first_colon(s: Seq<char>, i: int) -> bool {
    0 <= i < s.len() && s[i] == ':' && (forall|j: int| 0 <= j < i ==> s[j] != ':')
}

/// What a locator means: split at the first `:`, dispatch on the scheme.
/// `-1` stands for "no colon".
pub open spec fn spec_first_colon(s: Seq<char>) -> int
    decreases s.len(),
{
    if s.len() == 0 {
        -1
    } else if s[0] == ':' {
        0
    } else {
        let r = spec_first_colon(s.drop_first());
        if r < 0 {
            -1
        } else {
            r + 1
        }
    }
}

/// The meaning of a locator: the backend selected by the scheme before the
/// first `:`, carrying the path after it; or the error a malformed or
/// unserved locator is refused with.
pub open spec fn spec_parse_locator(s: Seq<char>) -> Result<LocatorView, ErrorView> {
    let i = spec_first_colon(s);
    if i < 0 {
        Err(ErrorView::InvalidPath(s))
    } else {
        let scheme = s.take(i);
        let rest = s.skip(i + 1);
        if scheme == "file"@ {
            Ok(LocatorView::File(rest))
        } else if scheme == "s3"@ {
            Ok(LocatorView::S3(rest))
        } else if scheme == "wms"@ {
            Err(ErrorView::UnsupportedScheme(rest))
        } else {
            Err(ErrorView::InvalidPath(s))
        }
    }
}

/// The first-colon index is what [`spec_is_first_colon`] describes.
proof fn lemma_first_colon(s: Seq<char>)
    ensures
        spec_first_colon(s) < 0 ==> (forall|j: int| 0 <= j < s.len() ==> s[j] != ':'),
        spec_first_colon(s) >= 0 ==> spec_is_first_colon(s, spec_first_colon(s)),
    decreases s.len(),
{
    if s.len() > 0 && s[0] != ':' {
        lemma_first_colon(s.drop_first());
        let d = s.drop_first();
        assert(forall|j: int| 0 < j < s.len() ==> s[j] == d[j - 1]);
    }
}

/// Resolves a locator: splits it at the first `:` and dispatches on the
/// scheme. Returns the selected backend for `file` and `s3`, refuses `wms`
/// as unsupported, and anything else — an unknown scheme or a locator with
/// no colon at all — as an invalid path.
pub fn parse_locator(path: &str) -> (r: Result<Locator, Error>)
    ensures
        match r {
            Ok(l) => spec_parse_locator(path@) == Ok::<LocatorView, ErrorView>(l@),
            Err(e) => spec_parse_locator(path@) == Err::<LocatorView, ErrorView>(e@),
        },
{
    proof {
        lemma_first_colon(path@);
    }
    let n: usize = path.unicode_len();
    let mut colon: usize = 0;
    while colon < n && path.get_char(colon) != ':'
        invariant
            n == path@.len(),
            colon <= n,
            forall|j: int| 0 <= j < colon ==> path@[j] != ':',
        decreases n - colon,
    {
        colon = colon + 1;
    }
    if colon == n {
        proof {
            assert(spec_first_colon(path@) < 0) by {
                if spec_first_colon(path@) >= 0 {
                    assert(spec_is_first_colon(path@, spec_first_colon(path@)));
                }
            }
        }
        return Err(Error::InvalidPath(path.to_owned()));
    }
    proof {
        assert(spec_is_first_colon(path@, colon as int));
        assert(spec_first_colon(path@) == colon as int) by {
            let f = spec_first_colon(path@);
            if f < 0 {
                assert(path@[colon as int] != ':');
            } else {
                assert(spec_is_first_colon(path@, f));
                if f < colon as int {
                    assert(path@[f] != ':');
                } else if f > colon as int {
                    assert(path@[colon as int] != ':');
                }
            }
        }
    }
    let scheme: &str = path.substring_char(0, colon);
    let rest: String = path.substring_char(colon + 1, n).to_owned();
    proof {
        assert(scheme@ == path@.take(colon as int));
        assert(rest@ == path@.skip(colon as int + 1));
    }
    if is_scheme(scheme, "file") {
        Ok(Locator::File(rest))
    } else if is_scheme(scheme, "s3") {
        Ok(Locator::S3(rest))
    } else if is_scheme(scheme, "wms") {
        Err(Error::UnsupportedScheme(rest))
    } else {
        Err(Error::InvalidPath(path.to_owned()))
    }
}

/// Character-for-character comparison of a scheme against an expected name.
fn is_scheme(scheme: &str, expected: &str) -> (r: bool)
    ensures
        r <==> scheme@ == expected@,
{
    let n: usize = scheme.unicode_len();
    let m: usize = expected.unicode_len();
    if n != m {
        proof {
            assert(scheme@ != expected@) by {
                if scheme@ == expected@ {
                    assert(scheme@.len() == expected@.len());
                }
            }
        }
        return false;
    }
    let mut k: usize = 0;
    while k < n
        invariant
            n == scheme@.len(),
            n == expected@.len(),
            k <= n,
            forall|j: int| 0 <= j < k ==> scheme@[j] == expected@[j],
        decreases n - k,
    {
        if scheme.get_char(k) != expected.get_char(k) {
            proof {
                assert(scheme@ != expected@);
            }
            return false;
        }
        k = k + 1;
    }
    proof {
        assert(scheme@ =~= expected@);
    }
    true
}

} // verus!
