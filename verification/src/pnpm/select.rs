//! Choosing the project lockfile among the documents of a `pnpm-lock.yaml`.
use vstd::prelude::*;
use crate::pnpm::document::{PnpmDepSpec, PnpmImporterView, PnpmLockfile, PnpmLockfileView};
use crate::strmap::{sorted_keys, StrMap};

verus! {

/// The most documents of a file that are looked at.
pub const MAX_DOCUMENTS: usize = 16;

/// The number of keys of a map that may be left out.
pub open spec fn size_of<V>(m: Option<Map<Seq<char>, V>>) -> nat {
    match m {
        Some(m) => sorted_keys(m.dom()).len(),
        None => 0,
    }
}

/// The number of direct dependencies of an importer.
pub open spec fn importer_size(importer: PnpmImporterView) -> nat {
    size_of(importer.dependencies) + size_of(importer.dev_dependencies) + size_of(
        importer.optional_dependencies,
    )
}

/// The number of direct dependencies of the importers under the given keys.
pub open spec fn importers_size(
    importers: Map<Seq<char>, PnpmImporterView>,
    keys: Seq<Seq<char>>,
) -> nat
    decreases keys.len(),
{
    if keys.len() == 0 {
        0
    } else {
        importers_size(importers, keys.drop_last()) + importer_size(importers[keys.last()])
    }
}

/// A hundred points for a block that is there.
pub open spec fn points(present: bool) -> nat {
    if present {
        100
    } else {
        0
    }
}

/// The number of direct dependencies in a document.
pub open spec fn direct_size(doc: PnpmLockfileView) -> nat {
    importers_size(doc.importers, sorted_keys(doc.importers.dom()))
}

/// What a document holds besides direct dependencies.
pub open spec fn other_size(doc: PnpmLockfileView) -> nat {
    points(doc.settings is Some) + points(size_of(doc.catalogs) > 0) + points(
        size_of(doc.overrides) > 0,
    ) + sorted_keys(doc.packages.dom()).len() + sorted_keys(doc.snapshots.dom()).len()
}

/// What a document holds. A direct dependency counts for a thousand other things.
pub open spec fn sum(doc: PnpmLockfileView) -> nat {
    direct_size(doc) * 1000 + other_size(doc)
}

/// What direct dependencies weigh, however many there are: more than all that a
/// document without any can hold.
pub const DIRECT_WEIGHT: u64 = 0x8000_0000_0000_0000;

/// A number, or the largest below `DIRECT_WEIGHT` for one that is larger.
pub open spec fn capped(n: nat) -> u64 {
    if n < DIRECT_WEIGHT {
        n as u64
    } else {
        (DIRECT_WEIGHT - 1) as u64
    }
}

/// How much a document looks like a project's lockfile. One with direct
/// dependencies does more than one without; otherwise what they hold counts.
pub open spec fn score(doc: PnpmLockfileView) -> u64 {
    if direct_size(doc) > 0 {
        (DIRECT_WEIGHT + capped(sum(doc))) as u64
    } else {
        capped(sum(doc))
    }
}

fn capped_sum(a: u64, b: usize, Ghost(n): Ghost<nat>) -> (r: u64)
    requires
        a == capped(n),
    ensures
        r == capped(n + b as nat),
{
    let b: u64 = b as u64;
    if b >= DIRECT_WEIGHT || a + b >= DIRECT_WEIGHT {
        DIRECT_WEIGHT - 1
    } else {
        a + b
    }
}

fn section_size(section: &Option<StrMap<PnpmDepSpec>>) -> (r: usize)
    ensures
        r == size_of(section.deep_view()),
{
    match section {
        Some(m) => m.len(),
        None => 0,
    }
}

/// How much a document looks like a project's lockfile.
pub fn project_lockfile_score(raw: &PnpmLockfile) -> (r: u64)
    ensures
        r == score(raw.deep_view()),
{
    let ghost d = raw.deep_view();
    let ghost keys = sorted_keys(raw.importers@.dom());
    let n: usize = raw.importers.len();
    let mut total: u64 = 0;
    let mut i: usize = 0;
    while i < n
        invariant
            keys == sorted_keys(raw.importers@.dom()),
            n == keys.len(),
            i <= n,
            total == capped(importers_size(raw.importers@, keys.take(i as int))),
        decreases n - i,
    {
        let importer = raw.importers.value_at(i);
        proof {
            assert(keys.take(i + 1).drop_last() == keys.take(i as int));
            assert(keys.take(i + 1).last() == keys[i as int]);
        }
        let ghost before = importers_size(raw.importers@, keys.take(i as int));
        let a: usize = section_size(&importer.dependencies);
        let b: usize = section_size(&importer.dev_dependencies);
        let c: usize = section_size(&importer.optional_dependencies);
        total = capped_sum(total, a, Ghost(before));
        total = capped_sum(total, b, Ghost(before + a as nat));
        total = capped_sum(total, c, Ghost(before + a as nat + b as nat));
        i = i + 1;
    }
    proof {
        assert(keys.take(n as int) == keys);
    }
    let base: u64 = if total > DIRECT_WEIGHT / 1000 {
        DIRECT_WEIGHT - 1
    } else {
        total * 1000
    };
    let has_settings = raw.settings.is_some();
    let has_catalogs = match &raw.catalogs {
        Some(c) => c.len() > 0,
        None => false,
    };
    let has_overrides = match &raw.overrides {
        Some(o) => o.len() > 0,
        None => false,
    };
    let s: usize = if has_settings { 100 } else { 0 };
    let c: usize = if has_catalogs { 100 } else { 0 };
    let o: usize = if has_overrides { 100 } else { 0 };
    let p: usize = raw.packages.len();
    let q: usize = raw.snapshots.len();
    let ghost whole = direct_size(d) * 1000;
    let mut r: u64 = capped_sum(base, s + c + o, Ghost(whole));
    r = capped_sum(r, p, Ghost(whole + (s + c + o) as nat));
    r = capped_sum(r, q, Ghost(whole + (s + c + o) as nat + p as nat));
    if total > 0 {
        r + DIRECT_WEIGHT
    } else {
        r
    }
}

/// Whether one more document of a file is read: not behind one that is no
/// lockfile, and no more than `MAX_DOCUMENTS` in all.
pub fn wants_document(seen: usize, failed: bool) -> (r: bool)
    ensures
        r == (seen < MAX_DOCUMENTS && !failed),
{
    seen < MAX_DOCUMENTS && !failed
}

/// The index of the project's lockfile among the documents of a file: the
/// first with the highest score. `None` where there is no document.
pub fn select_document(docs: &Vec<PnpmLockfile>) -> (r: Option<usize>)
    ensures
        match r {
            None => docs@.len() == 0,
            Some(k) => {
                &&& k < docs@.len()
                &&& forall|j: int|
                    0 <= j < docs@.len() ==> score((#[trigger] docs@[j]).deep_view()) <= score(
                        docs@[k as int].deep_view(),
                    )
                &&& forall|j: int|
                    0 <= j < k ==> score((#[trigger] docs@[j]).deep_view()) < score(
                        docs@[k as int].deep_view(),
                    )
            },
        },
{
    if docs.len() == 0 {
        return None;
    }
    let mut best: usize = 0;
    let mut best_score: u64 = project_lockfile_score(&docs[0]);
    let mut i: usize = 1;
    while i < docs.len()
        invariant
            1 <= i <= docs@.len(),
            best < i,
            best_score == score(docs@[best as int].deep_view()),
            forall|j: int|
                0 <= j < i ==> score((#[trigger] docs@[j]).deep_view()) <= best_score,
            forall|j: int|
                0 <= j < best ==> score((#[trigger] docs@[j]).deep_view()) < best_score,
        decreases docs.len() - i,
    {
        let s: u64 = project_lockfile_score(&docs[i]);
        if s > best_score {
            best = i;
            best_score = s;
        }
        i = i + 1;
    }
    Some(best)
}

} // verus!
