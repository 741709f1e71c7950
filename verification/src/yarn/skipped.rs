//! The blocks of a berry `yarn.lock` that cannot be taken into a graph, for
//! callers that warn about them.
use vstd::prelude::*;
use crate::text::{chars, concat3, same, starts_with};
use crate::yaml::{
    entry_trees, get, get_value, mapping, parse_document, text, tree, yaml_document, Yaml, YamlView,
};
use crate::yarn::berry::{
    berry_header, berry_kind, berry_spec, is_skipped, parse_berry_spec, scalar_text,
    split_berry_header, yaml_scalar_as_string,
};

verus! {

/// A block that records no package: its header, and the protocol of its
/// resolution, from which no package can be had.
#[derive(Debug, PartialEq)]
pub struct SkippedBlock {
    pub header: String,
    pub protocol: String,
}

/// Model of [`SkippedBlock`].
#[verifier::ext_equal]
pub struct SkippedBlockView {
    pub header: Seq<char>,
    pub protocol: Seq<char>,
}

impl DeepView for SkippedBlock {
    type V = SkippedBlockView;

    open spec fn deep_view(&self) -> SkippedBlockView {
        SkippedBlockView { header: self.header@, protocol: self.protocol@ }
    }
}

/// Whether a protocol is known, though no package can be had from it.
pub open spec fn is_unsupported(protocol: Seq<char>) -> bool {
    protocol == "patch"@ || protocol == "portal"@ || protocol == "exec"@
}

impl SkippedBlockView {
    /// The warning for the user.
    pub open spec fn message(self) -> Seq<char> {
        if is_unsupported(self.protocol) {
            "yarn berry '"@ + self.protocol + "' protocol in block '"@ + self.header
                + "' is not supported — entry skipped"@
        } else {
            "yarn berry unrecognized protocol '"@ + self.protocol + "' in block '"@ + self.header
                + "' — entry skipped"@
        }
    }
}

impl SkippedBlock {
    /// The warning for the user.
    pub fn message(&self) -> (r: String)
        ensures
            r@ == self.deep_view().message(),
    {
        let p = self.protocol.as_str();
        if same(p, "patch") || same(p, "portal") || same(p, "exec") {
            let start = concat3("yarn berry '", p, "' protocol in block '");
            concat3(start.as_str(), self.header.as_str(), "' is not supported — entry skipped")
        } else {
            let start = concat3("yarn berry unrecognized protocol '", p, "' in block '");
            concat3(start.as_str(), self.header.as_str(), "' — entry skipped")
        }
    }
}

/// The block with the given header, where it is skipped for its protocol.
pub open spec fn skipped_block(header: Seq<char>, block: Seq<(YamlView, YamlView)>) -> Option<
    SkippedBlockView,
> {
    let version = match get(block, "version"@) {
        Some(v) => scalar_text(v),
        None => None,
    };
    let resolution = match get(block, "resolution"@) {
        Some(r) => text(r),
        None => None,
    };
    if berry_header(header).len() == 0 || version is None || resolution is None {
        None
    } else {
        match berry_spec(resolution->0) {
            Some((_, protocol, body)) => if berry_kind(protocol, body) is Skipped {
                Some(SkippedBlockView { header, protocol })
            } else {
                None
            },
            None => None,
        }
    }
}

/// An entry of the document, where it is a block that is skipped for its
/// protocol.
pub open spec fn skipped_entry(entry: (YamlView, YamlView)) -> Option<SkippedBlockView> {
    match (text(entry.0), mapping(entry.1)) {
        (Some(header), Some(block)) => if "__"@.is_prefix_of(header) {
            None
        } else {
            skipped_block(header, block)
        },
        _ => None,
    }
}

/// The blocks among the first `n` entries that are skipped, in their order.
pub open spec fn skipped_entries(entries: Seq<(YamlView, YamlView)>, n: int) -> Seq<
    SkippedBlockView,
>
    decreases n,
{
    if n <= 0 {
        Seq::empty()
    } else {
        let before = skipped_entries(entries, n - 1);
        match skipped_entry(entries[n - 1]) {
            Some(b) => before.push(b),
            None => before,
        }
    }
}

/// The skipped blocks of a document.
pub open spec fn skipped_in_tree(doc: YamlView) -> Seq<SkippedBlockView> {
    match mapping(doc) {
        Some(entries) => skipped_entries(entries, entries.len() as int),
        None => Seq::empty(),
    }
}

fn read_skipped_block(header: &str, block: &Vec<(Yaml, Yaml)>) -> (r: Option<SkippedBlock>)
    ensures
        r.deep_view() == skipped_block(header@, entry_trees(block@)),
{
    let specs = split_berry_header(header);
    proof {
        assert(specs.deep_view().len() == specs@.len());
    }
    let version = match get_value(block, "version") {
        Some(v) => yaml_scalar_as_string(v),
        None => None,
    };
    let resolution = match get_value(block, "resolution") {
        Some(v) => v.as_str(),
        None => None,
    };
    if specs.len() == 0 || version.is_none() {
        return None;
    }
    match resolution {
        None => None,
        Some(resolution) => match parse_berry_spec(resolution.as_str()) {
            Some((_, protocol, body)) => if is_skipped(protocol.as_str(), body.as_str()) {
                Some(SkippedBlock { header: header.to_owned(), protocol })
            } else {
                None
            },
            None => None,
        },
    }
}

fn read_skipped_entry(key: &Yaml, value: &Yaml) -> (r: Option<SkippedBlock>)
    ensures
        r.deep_view() == skipped_entry((tree(*key), tree(*value))),
{
    match (key.as_str(), value.as_mapping()) {
        (Some(header), Some(block)) => if starts_with(&chars(header.as_str()), "__") {
            None
        } else {
            read_skipped_block(header.as_str(), block)
        },
        _ => None,
    }
}

/// The blocks of a parsed berry lockfile that are skipped for their protocol.
pub fn skipped_blocks_in_tree(doc: &Yaml) -> (r: Vec<SkippedBlock>)
    ensures
        r.deep_view() == skipped_in_tree(tree(*doc)),
{
    let mut r: Vec<SkippedBlock> = Vec::new();
    let entries = match doc.as_mapping() {
        Some(e) => e,
        None => {
            proof {
                assert(r.deep_view() =~= Seq::<SkippedBlockView>::empty());
            }
            return r;
        },
    };
    let ghost all = entry_trees(entries@);
    proof {
        assert(r.deep_view() =~= skipped_entries(all, 0));
    }
    let mut i: usize = 0;
    while i < entries.len()
        invariant
            all == entry_trees(entries@),
            i <= entries@.len(),
            r.deep_view() == skipped_entries(all, i as int),
        decreases entries.len() - i,
    {
        let (key, value) = &entries[i];
        proof {
            assert(all[i as int] == (tree(*key), tree(*value)));
        }
        let ghost before = r.deep_view();
        if let Some(b) = read_skipped_entry(key, value) {
            let ghost v = b.deep_view();
            r.push(b);
            proof {
                assert(r.deep_view() =~= before.push(v));
            }
        }
        i = i + 1;
    }
    r
}

/// The blocks of a berry lockfile that are skipped for their protocol; none
/// where the lockfile is no document.
pub fn skipped_blocks(content: &str) -> (r: Vec<SkippedBlock>)
    ensures
        r.deep_view() == (match yaml_document(content@) {
            Ok(doc) => skipped_in_tree(doc),
            Err(_) => Seq::empty(),
        }),
{
    match parse_document(content) {
        Ok(doc) => skipped_blocks_in_tree(&doc),
        Err(_) => {
            let r: Vec<SkippedBlock> = Vec::new();
            proof {
                assert(r.deep_view() =~= Seq::<SkippedBlockView>::empty());
            }
            r
        },
    }
}

} // verus!
