//! Dep paths: the keys of packages in a pnpm lockfile, `name@version` with an
//! optional peer suffix in round brackets.
use vstd::prelude::*;
use crate::graph::{LockedPackage, LockedPackageView};
use crate::source::{local_source, LocalSource};
use crate::strmap::{is_listing, prefix_set, sorted_keys, StrMap};
use crate::text::{
    after_prefix, chars, concat, concat3, find_char, find_char_from, lemma_find_char, position,
    position_from, same, string, strip_prefix, substring, until, up_to,
};

verus! {

/// `name@version`.
pub open spec fn dep_path(name: Seq<char>, version: Seq<char>) -> Seq<char> {
    name + "@"@ + version
}

/// What stands behind `name@`, or the whole dep path if it has no such prefix.
pub open spec fn tail(dep_path: Seq<char>, name: Seq<char>) -> Seq<char> {
    match strip_prefix(dep_path, name + "@"@) {
        Some(rest) => rest,
        None => dep_path,
    }
}

/// The position of the `@` between name and version: the first one, or in a
/// scoped name the first one behind the slash.
pub open spec fn version_separator(s: Seq<char>) -> Option<int> {
    if s.len() > 0 && s[0] == '@' {
        match find_char(s, '/') {
            Some(slash) => find_char_from(s, '@', slash + 1),
            None => None,
        }
    } else {
        find_char(s, '@')
    }
}

/// A dep path without the slash that old lockfiles put in front.
pub open spec fn without_slash(s: Seq<char>) -> Seq<char> {
    if s.len() > 0 && s[0] == '/' {
        s.drop_first()
    } else {
        s
    }
}

/// Name and version of a dep path, without the peer suffix.
pub open spec fn dep_path_parts(s: Seq<char>) -> Option<(Seq<char>, Seq<char>)> {
    let t = without_slash(s);
    match version_separator(t) {
        Some(at) => Some((t.take(at), until(t.skip(at + 1), '('))),
        None => None,
    }
}

/// The peer suffix of a version, from the first round bracket on.
pub open spec fn peer_suffix(value: Seq<char>) -> Seq<char> {
    match find_char(value, '(') {
        Some(i) => value.skip(i),
        None => Seq::empty(),
    }
}

pub fn version_to_dep_path(name: &str, version: &str) -> (r: String)
    ensures
        r@ == dep_path(name@, version@),
{
    concat3(name, "@", version)
}

/// What stands behind `name@` in a dep path.
pub fn dep_path_tail(dep_path: &str, name: &str) -> (r: String)
    ensures
        r@ == tail(dep_path@, name@),
{
    match after_prefix(&chars(dep_path), concat(name, "@").as_str()) {
        Some(rest) => string(rest),
        None => dep_path.to_owned(),
    }
}

/// `name@version` for a version with a peer suffix.
pub fn peerless_dep_path(name: &str, value: &str) -> (r: String)
    ensures
        r@ == dep_path(name@, until(value@, '(')),
{
    version_to_dep_path(name, string(up_to(&chars(value), '(')).as_str())
}

pub(crate) fn find_separator(s: &[char]) -> (r: Option<usize>)
    ensures
        match r {
            Some(at) => version_separator(s@) == Some(at as int) && at < s@.len(),
            None => version_separator(s@) is None,
        },
{
    let n: usize = s.len();
    if n > 0 && s[0] == '@' {
        match position(s, '/') {
            Some(slash) => position_from(s, '@', slash + 1),
            None => None,
        }
    } else {
        position(s, '@')
    }
}

/// Name and version of a dep path such as `@scope/name@1.0.0(react@18.0.0)`.
pub fn parse_dep_path(dep_path: &str) -> (r: Option<(String, String)>)
    ensures
        r.deep_view() == dep_path_parts(dep_path@),
{
    let all = chars(dep_path);
    let n: usize = all.len();
    let start: usize = if n > 0 && all[0] == '/' {
        1
    } else {
        0
    };
    let s = vstd::slice::slice_subrange(all.as_slice(), start, n);
    let m: usize = s.len();
    proof {
        assert(s@ == without_slash(dep_path@));
    }
    match find_separator(s) {
        Some(at) => {
            let name = substring(s, 0, at);
            let rest = vstd::slice::slice_subrange(s, at + 1, m);
            proof {
                assert(name@ == s@.take(at as int));
                assert(rest@ == s@.skip(at as int + 1));
            }
            Some((name, string(up_to(rest, '('))))
        },
        None => None,
    }
}

/// The entry that a peer-free lookup of a dep path finds.
pub open spec fn peerless_target(
    packages: Map<Seq<char>, LockedPackageView>,
    path: Seq<char>,
) -> Option<LockedPackageView> {
    match dep_path_parts(path) {
        Some((name, version)) => if packages.dom().contains(dep_path(name, version)) {
            Some(packages[dep_path(name, version)])
        } else {
            None
        },
        None => None,
    }
}

/// The package under a dep path without its peer suffix.
pub fn peerless_alias_target<'a>(packages: &'a StrMap<LockedPackage>, real_dep_path: &str) -> (r:
    Option<&'a LockedPackage>)
    ensures
        match r {
            Some(p) => peerless_target(packages@, real_dep_path@) == Some(p.deep_view()),
            None => peerless_target(packages@, real_dep_path@) is None,
        },
{
    match parse_dep_path(real_dep_path) {
        Some((name, version)) => packages.get(
            version_to_dep_path(name.as_str(), version.as_str()).as_str(),
        ),
        None => None,
    }
}

/// A package that is installed under another name than its own.
pub struct AliasRemap {
    /// Dep path of the package under the alias.
    pub alias_dep_path: String,
    /// Dep path of the package under its own name.
    pub real_dep_path: String,
    pub alias_name: String,
    pub real_name: String,
}

/// Model of [`AliasRemap`].
pub struct AliasRemapView {
    pub alias_dep_path: Seq<char>,
    pub real_dep_path: Seq<char>,
    pub alias_name: Seq<char>,
    pub real_name: Seq<char>,
}

impl DeepView for AliasRemap {
    type V = AliasRemapView;

    open spec fn deep_view(&self) -> AliasRemapView {
        AliasRemapView {
            alias_dep_path: self.alias_dep_path@,
            real_dep_path: self.real_dep_path@,
            alias_name: self.alias_name@,
            real_name: self.real_name@,
        }
    }
}

/// The name and the version of the package from a registry whose dep path a
/// value is; `None` for a version, and for a git, URL or path specifier.
pub open spec fn registry_parts(value: Seq<char>) -> Option<(Seq<char>, Seq<char>)> {
    let bare = until(value, '(');
    match dep_path_parts(bare) {
        Some((name, version)) => if name.contains(':') || local_source(bare, false) is Some {
            None
        } else {
            Some((name, version))
        },
        None => None,
    }
}

/// The alias that a dependency `name: value` stands for: the value is the dep
/// path of a package with another name.
pub open spec fn alias_remap(name: Seq<char>, value: Seq<char>) -> Option<AliasRemapView> {
    match registry_parts(value) {
        Some((real_name, resolved)) => if real_name != name {
            Some(
                AliasRemapView {
                    alias_dep_path: dep_path(name, resolved + peer_suffix(value)),
                    real_dep_path: value,
                    alias_name: name,
                    real_name,
                },
            )
        } else {
            None
        },
        None => None,
    }
}

/// The version tail that a dependency `name: value` resolves to.
pub open spec fn resolved_tail(name: Seq<char>, value: Seq<char>) -> Seq<char> {
    match registry_parts(value) {
        Some((real_name, resolved)) => if real_name != name {
            resolved + peer_suffix(value)
        } else {
            value
        },
        None => value,
    }
}

/// Dependencies with each alias replaced by the version tail it resolves to.
pub open spec fn resolved_deps(deps: Map<Seq<char>, Seq<char>>) -> Map<Seq<char>, Seq<char>> {
    Map::new(|k: Seq<char>| deps.dom().contains(k), |k: Seq<char>| resolved_tail(k, deps[k]))
}

/// The aliases among the dependencies with the given names, in that order.
pub open spec fn aliases_among(
    names: Seq<Seq<char>>,
    deps: Map<Seq<char>, Seq<char>>,
) -> Seq<AliasRemapView>
    decreases names.len(),
{
    if names.len() == 0 {
        Seq::empty()
    } else {
        let before = aliases_among(names.drop_last(), deps);
        match alias_remap(names.last(), deps[names.last()]) {
            Some(a) => before.push(a),
            None => before,
        }
    }
}

/// The aliases among some dependencies, by name.
pub open spec fn aliases(deps: Map<Seq<char>, Seq<char>>) -> Seq<AliasRemapView> {
    aliases_among(sorted_keys(deps.dom()), deps)
}

fn parse_registry_parts(value: &str) -> (r: Option<(String, String)>)
    ensures
        r.deep_view() == registry_parts(value@),
{
    let bare = string(up_to(&chars(value), '('));
    match parse_dep_path(bare.as_str()) {
        Some((name, version)) => {
            let c = chars(name.as_str());
            let at = position(&c, ':');
            proof {
                lemma_find_char(name@, ':');
                if at is Some {
                    assert(name@.contains(name@[at->0 as int]));
                }
            }
            if at.is_some() || LocalSource::parse(bare.as_str(), false).is_some() {
                None
            } else {
                Some((name, version))
            }
        },
        None => None,
    }
}

/// The alias that a dependency stands for, and the version tail it resolves
/// to.
pub fn resolve_alias(name: &str, value: &str) -> (r: (Option<AliasRemap>, String))
    ensures
        r.0.deep_view() == alias_remap(name@, value@),
        r.1@ == resolved_tail(name@, value@),
{
    let v = chars(value);
    match parse_registry_parts(value) {
        Some((real_name, resolved)) => {
            if same(real_name.as_str(), name) {
                return (None, value.to_owned());
            }
            let suffix = match position(&v, '(') {
                Some(i) => substring(v.as_slice(), i, v.len()),
                None => String::new(),
            };
            proof {
                assert(suffix@ == peer_suffix(value@));
            }
            let tail = concat(resolved.as_str(), suffix.as_str());
            (
                Some(
                    AliasRemap {
                        alias_dep_path: version_to_dep_path(name, tail.as_str()),
                        real_dep_path: value.to_owned(),
                        alias_name: name.to_owned(),
                        real_name,
                    },
                ),
                tail,
            )
        },
        None => (None, value.to_owned()),
    }
}

/// Replace the aliases among the dependencies of a snapshot by the versions
/// they resolve to, and collect them.
pub fn rewrite_snapshot_alias_deps(
    deps: &mut StrMap<String>,
    alias_remaps: &mut Vec<AliasRemap>,
)
    ensures
        final(deps)@ == resolved_deps(old(deps)@),
        final(alias_remaps).deep_view() == old(alias_remaps).deep_view() + aliases(old(deps)@),
{
    let ghost deps0 = deps@;
    let ghost keys = sorted_keys(deps0.dom());
    let ghost remaps0 = alias_remaps.deep_view();
    let mut out: StrMap<String> = StrMap::new();
    let n: usize = deps.len();
    let mut i: usize = 0;
    proof {
        assert(out@ =~= resolved_deps(deps0).restrict(prefix_set(keys, 0)));
        assert(remaps0 + aliases_among(keys.take(0), deps0) =~= remaps0);
    }
    while i < n
        invariant
            deps@ == deps0,
            keys == sorted_keys(deps0.dom()),
            is_listing(keys, deps0.dom()),
            n == keys.len(),
            i <= n,
            out@ == resolved_deps(deps0).restrict(prefix_set(keys, i as int)),
            alias_remaps.deep_view() == remaps0 + aliases_among(keys.take(i as int), deps0),
        decreases n - i,
    {
        let name = deps.key_at(i);
        let value = deps.value_at(i);
        let (alias, tail) = resolve_alias(name.as_str(), value.as_str());
        proof {
            assert(keys.take(i as int + 1).drop_last() == keys.take(i as int));
            assert(keys.take(i as int + 1).last() == name@);
            assert(resolved_deps(deps0).restrict(prefix_set(keys, i as int + 1)) =~= resolved_deps(
                deps0,
            ).restrict(prefix_set(keys, i as int)).insert(name@, tail@));
        }
        let ghost remaps1 = alias_remaps.deep_view();
        out.insert(name.clone(), tail);
        match alias {
            Some(a) => {
                alias_remaps.push(a);
                proof {
                    assert(alias_remaps.deep_view() =~= remaps1.push(a.deep_view()));
                    assert(alias_remaps.deep_view() =~= remaps0 + aliases_among(
                        keys.take(i as int + 1),
                        deps0,
                    ));
                }
            },
            None => {},
        }
        i = i + 1;
    }
    proof {
        assert(keys.take(n as int) == keys);
        assert(resolved_deps(deps0).restrict(prefix_set(keys, n as int)) =~= resolved_deps(deps0));
    }
    *deps = out;
}

} // verus!
