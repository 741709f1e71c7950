//! Which document of a `pnpm-lock.yaml` is taken for the project's lockfile.
use vstd::prelude::*;
use crate::pnpm::document::{PnpmDepSpecView, PnpmImporterView, PnpmLockfileView};
use crate::pnpm::select::{direct_size, importer_size, importers_size, score, sum, DIRECT_WEIGHT};
use crate::strmap::{
    before, is_listing, lemma_before_irreflexive, lemma_listing, lemma_sorted_keys, sorted_keys,
};

verus! {

/// A document with direct dependencies outweighs every document without any,
/// however many packages and settings that one holds.
pub proof fn law_direct_dependencies_outweigh(a: PnpmLockfileView, b: PnpmLockfileView)
    requires
        direct_size(a) > 0,
        direct_size(b) == 0,
    ensures
        score(a) > score(b),
{
}

/// Of two documents that both have direct dependencies, or both have none, the
/// one that holds more outweighs the other.
pub proof fn law_larger_documents_outweigh(a: PnpmLockfileView, b: PnpmLockfileView)
    requires
        direct_size(a) > 0 <==> direct_size(b) > 0,
        sum(b) < DIRECT_WEIGHT - 1,
    ensures
        score(a) > score(b) <==> sum(a) > sum(b),
{
}

proof fn lemma_size(keys: Set<Seq<char>>)
    requires
        keys.finite(),
    ensures
        sorted_keys(keys).len() == keys.len(),
{
    let q = sorted_keys(keys);
    lemma_listing(keys);
    assert(q.to_set() =~= keys) by {
        assert forall|k: Seq<char>| q.to_set().contains(k) <==> keys.contains(k) by {
            assert(keys.contains(k) <==> q.contains(k));
        }
    }
    assert(q.no_duplicates()) by {
        assert forall|i: int, j: int| 0 <= i < q.len() && 0 <= j < q.len() && i != j implies q[i]
            != q[j] by {
            if i < j {
                assert(before(q[i], q[j]));
                lemma_before_irreflexive(q[i]);
            } else {
                assert(before(q[j], q[i]));
                lemma_before_irreflexive(q[j]);
            }
        }
    }
    q.unique_seq_to_set();
}

/// What a document with one workspace package holds: a thousand for each of its direct
/// dependencies, a hundred for each of the settings, catalogs and overrides that are
/// there, and one for each package and each snapshot.
pub proof fn law_what_a_document_holds(
    doc: PnpmLockfileView,
    path: Seq<char>,
    i: PnpmImporterView,
    a: Map<Seq<char>, PnpmDepSpecView>,
    b: Map<Seq<char>, PnpmDepSpecView>,
    c: Map<Seq<char>, PnpmDepSpecView>,
)
    requires
        doc.importers == Map::<Seq<char>, PnpmImporterView>::empty().insert(path, i),
        i.dependencies == Some(a) && i.dev_dependencies == Some(b) && i.optional_dependencies
            == Some(c),
        a.dom().finite() && b.dom().finite() && c.dom().finite(),
        doc.packages.dom().finite() && doc.snapshots.dom().finite(),
        doc.catalogs matches Some(m) ==> m.dom().finite(),
        doc.overrides matches Some(m) ==> m.dom().finite(),
    ensures
        direct_size(doc) == a.dom().len() + b.dom().len() + c.dom().len(),
        sum(doc) == 1000 * (a.dom().len() + b.dom().len() + c.dom().len()) + (if doc.settings is Some {
            100nat
        } else {
            0nat
        }) + (if doc.catalogs is Some && doc.catalogs->0.dom().len() > 0 {
            100nat
        } else {
            0nat
        }) + (if doc.overrides is Some && doc.overrides->0.dom().len() > 0 {
            100nat
        } else {
            0nat
        }) + doc.packages.dom().len() + doc.snapshots.dom().len(),
{
    lemma_size(a.dom());
    lemma_size(b.dom());
    lemma_size(c.dom());
    lemma_size(doc.packages.dom());
    lemma_size(doc.snapshots.dom());
    if let Some(m) = doc.catalogs {
        lemma_size(m.dom());
    }
    if let Some(m) = doc.overrides {
        lemma_size(m.dom());
    }
    let q = seq![path];
    assert(is_listing(q, doc.importers.dom())) by {
        assert forall|k: Seq<char>| #[trigger] doc.importers.dom().contains(k) <==> q.contains(k) by {
            assert(q[0] == path);
        }
    }
    lemma_sorted_keys(q, doc.importers.dom());
    assert(q.drop_last() =~= Seq::empty());
    assert(importers_size(doc.importers, q.drop_last()) == 0);
    assert(q.last() == path);
}

/// The direct dependencies of several workspace packages add up.
pub proof fn law_workspace_packages_add_up(
    importers: Map<Seq<char>, PnpmImporterView>,
    keys: Seq<Seq<char>>,
    k: Seq<char>,
)
    ensures
        importers_size(importers, keys.push(k)) == importers_size(importers, keys) + importer_size(
            importers[k],
        ),
        importers_size(importers, Seq::empty()) == 0,
{
    assert(keys.push(k).drop_last() =~= keys);
    assert(keys.push(k).last() == k);
}

} // verus!
