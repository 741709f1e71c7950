//! The `yarn.lock` formats: classic (v1) and berry (v2 and later).
//!
//! Neither format tells direct dependencies from transitive ones, so both are
//! read together with the manifest of the workspace root.
use vstd::prelude::*;
use crate::graph::{LockfileGraph, LockfileGraphView};
use crate::manifest::{PackageJson, Ranges};
use crate::text::{chars, lines, starts_with, text_lines, texts, trim_start, trimmed_start};

pub mod berry;
pub mod berry_write;
pub mod canonical;
pub mod classic;
pub mod classic_write;
pub mod skipped;

pub use crate::yarn::berry_write::write_berry;
pub use crate::yarn::classic_write::write_classic;

verus! {

/// A line that starts the metadata of a berry lockfile.
pub open spec fn is_metadata_line(line: Seq<char>) -> bool {
    "__metadata:"@.is_prefix_of(trim_start(line))
}

/// A lockfile in the berry format: some line starts its metadata.
pub open spec fn is_berry_text(content: Seq<char>) -> bool {
    exists|i: int| 0 <= i < lines(content).len() && is_metadata_line(#[trigger] lines(content)[i])
}

/// Whether a lockfile is in the berry format.
pub fn is_berry(content: &str) -> (r: bool)
    ensures
        r == is_berry_text(content@),
{
    let all = text_lines(&chars(content));
    let mut i: usize = 0;
    while i < all.len()
        invariant
            texts(all@) == lines(content@),
            i <= all@.len(),
            forall|j: int| 0 <= j < i ==> !is_metadata_line(#[trigger] lines(content@)[j]),
        decreases all.len() - i,
    {
        proof {
            assert(lines(content@)[i as int] == all@[i as int]@);
        }
        if starts_with(trimmed_start(all[i].as_slice()), "__metadata:") {
            return true;
        }
        i = i + 1;
    }
    false
}

/// The bytes of `__metadata:`.
pub open spec fn metadata_bytes() -> Seq<u8> {
    seq![95u8, 95, 109, 101, 116, 97, 100, 97, 116, 97, 58]
}

/// Whether `__metadata:` stands at byte `i`, at the start of a line.
pub open spec fn is_metadata_at(bytes: Seq<u8>, i: int) -> bool {
    &&& 0 <= i
    &&& i + 11 <= bytes.len()
    &&& bytes.subrange(i, i + 11) == metadata_bytes()
    &&& i == 0 || bytes[i - 1] == 10
}

/// Whether the first bytes of a lockfile show the berry format: `__metadata:`
/// stands at the start of one of their lines.
pub fn is_berry_prefix(bytes: &[u8]) -> (r: bool)
    ensures
        r == exists|i: int| is_metadata_at(bytes@, i),
{
    let needle: [u8; 11] = [95, 95, 109, 101, 116, 97, 100, 97, 116, 97, 58];
    let n: usize = bytes.len();
    if n < 11 {
        return false;
    }
    let mut i: usize = 0;
    while i <= n - 11
        invariant
            n == bytes@.len(),
            n >= 11,
            i <= n - 10,
            needle@ == metadata_bytes(),
            forall|k: int| 0 <= k < i ==> !is_metadata_at(bytes@, k),
        decreases n - i,
    {
        if i == 0 || bytes[i - 1] == 10 {
            let mut j: usize = 0;
            while j < 11 && bytes[i + j] == needle[j]
                invariant
                    n == bytes@.len(),
                    i + 11 <= n,
                    j <= 11,
                    needle@ == metadata_bytes(),
                    forall|k: int| 0 <= k < j ==> bytes@[i + k] == needle@[k],
                decreases 11 - j,
            {
                j = j + 1;
            }
            if j == 11 {
                proof {
                    assert(bytes@.subrange(i as int, i + 11) =~= metadata_bytes());
                    assert(is_metadata_at(bytes@, i as int));
                }
                return true;
            }
            proof {
                assert(bytes@.subrange(i as int, i + 11)[j as int] == bytes@[i + j]);
                assert(metadata_bytes()[j as int] == needle@[j as int]);
                assert(!is_metadata_at(bytes@, i as int));
            }
        }
        i = i + 1;
    }
    false
}

/// Why a lockfile cannot be read.
#[derive(Debug, PartialEq)]
pub enum YarnError {
    Classic(classic::ClassicError),
    Berry(berry::BerryError),
}

/// Model of [`YarnError`].
pub enum YarnErrorView {
    Classic(classic::ClassicErrorView),
    Berry(berry::BerryErrorView),
}

impl DeepView for YarnError {
    type V = YarnErrorView;

    open spec fn deep_view(&self) -> YarnErrorView {
        match self {
            YarnError::Classic(e) => YarnErrorView::Classic(e.deep_view()),
            YarnError::Berry(e) => YarnErrorView::Berry(e.deep_view()),
        }
    }
}

impl YarnErrorView {
    /// The message for the user.
    pub open spec fn message(self) -> Seq<char> {
        match self {
            YarnErrorView::Classic(e) => e.message(),
            YarnErrorView::Berry(e) => e.message(),
        }
    }
}

impl YarnError {
    /// The message for the user.
    pub fn message(&self) -> (r: String)
        ensures
            r@ == self.deep_view().message(),
    {
        match self {
            YarnError::Classic(e) => e.message(),
            YarnError::Berry(e) => e.message(),
        }
    }
}

/// The graph that a lockfile records, in whichever format it is.
pub open spec fn yarn_graph(content: Seq<char>, ranges: Ranges) -> Result<
    LockfileGraphView,
    YarnErrorView,
> {
    if is_berry_text(content) {
        match berry::berry_graph(content, ranges) {
            Ok(g) => Ok(g),
            Err(e) => Err(YarnErrorView::Berry(e)),
        }
    } else {
        match classic::classic_graph(content, ranges) {
            Ok(g) => Ok(g),
            Err(e) => Err(YarnErrorView::Classic(e)),
        }
    }
}

/// Read a `yarn.lock` into a graph. The manifest tells which packages are
/// direct dependencies.
pub fn parse(content: &str, manifest: &PackageJson) -> (r: Result<LockfileGraph, YarnError>)
    ensures
        match r {
            Ok(g) => yarn_graph(content@, manifest.ranges()) == Ok::<
                LockfileGraphView,
                YarnErrorView,
            >(g.deep_view()),
            Err(e) => yarn_graph(content@, manifest.ranges()) == Err::<
                LockfileGraphView,
                YarnErrorView,
            >(e.deep_view()),
        },
{
    if is_berry(content) {
        match berry::parse_berry_str(content, manifest) {
            Ok(g) => Ok(g),
            Err(e) => Err(YarnError::Berry(e)),
        }
    } else {
        match classic::parse_classic_str(content, manifest) {
            Ok(g) => Ok(g),
            Err(e) => Err(YarnError::Classic(e)),
        }
    }
}

} // verus!
