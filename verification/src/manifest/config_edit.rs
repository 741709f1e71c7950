//! Writing settings to the file that they belong to: the workspace yaml where
//! there is one, or else the manifest.
use vstd::prelude::*;
use crate::json::{entry_trees, is_valid_object, Entries, Json, JsonView};
use crate::manifest::setting_edit::{
    upsert_setting_entries, upserted_text, EditError, EditErrorView,
};
use crate::manifest::workspace::ConfigWriteTarget;
use crate::manifest::yaml_edit::{
    rewritten, upsert_workspace_map_entry, with_allow_builds, with_map_entry,
    write_allow_builds_yaml, YamlEditError, YamlEditErrorView,
};
use crate::text::same;
use crate::yaml::{Yaml, YamlEntries};

verus! {

/// Why a setting cannot be written.
#[derive(Debug, PartialEq)]
pub enum ConfigEditError {
    Manifest(EditError),
    Workspace(YamlEditError),
}

/// Model of [`ConfigEditError`].
pub enum ConfigEditErrorView {
    Manifest(EditErrorView),
    Workspace(YamlEditErrorView),
}

impl DeepView for ConfigEditError {
    type V = ConfigEditErrorView;

    open spec fn deep_view(&self) -> ConfigEditErrorView {
        match self {
            ConfigEditError::Manifest(e) => ConfigEditErrorView::Manifest(e.deep_view()),
            ConfigEditError::Workspace(e) => ConfigEditErrorView::Workspace(e.deep_view()),
        }
    }
}

impl ConfigEditErrorView {
    /// The message for the user.
    pub open spec fn message(self) -> Seq<char> {
        match self {
            ConfigEditErrorView::Manifest(e) => e.message(),
            ConfigEditErrorView::Workspace(e) => e.message(),
        }
    }
}

impl ConfigEditError {
    /// The message for the user.
    pub fn message(&self) -> (r: String)
        ensures
            r@ == self.deep_view().message(),
    {
        match self {
            ConfigEditError::Manifest(e) => e.message(),
            ConfigEditError::Workspace(e) => e.message(),
        }
    }
}

/// The outcome of an edit of a manifest.
pub open spec fn of_manifest(r: Result<Option<Seq<char>>, EditErrorView>) -> Result<
    Option<Seq<char>>,
    ConfigEditErrorView,
> {
    match r {
        Ok(t) => Ok(t),
        Err(e) => Err(ConfigEditErrorView::Manifest(e)),
    }
}

/// The outcome of an edit of a workspace yaml.
pub open spec fn of_workspace(r: Result<Option<Seq<char>>, YamlEditErrorView>) -> Result<
    Option<Seq<char>>,
    ConfigEditErrorView,
> {
    match r {
        Ok(t) => Ok(t),
        Err(e) => Err(ConfigEditErrorView::Workspace(e)),
    }
}

/// The approvals of some names, without repeats.
pub open spec fn approvals(names: Seq<Seq<char>>) -> Entries
    decreases names.len(),
{
    if names.len() == 0 {
        Seq::empty()
    } else {
        let rest = approvals(names.drop_last());
        if names.drop_last().contains(names.last()) {
            rest
        } else {
            rest.push((names.last(), JsonView::Bool(true)))
        }
    }
}

/// The file that names are approved in, after the approval.
pub open spec fn approved_text(
    target: ConfigWriteTarget,
    text: Seq<char>,
    names: Seq<Seq<char>>,
) -> Result<Option<Seq<char>>, ConfigEditErrorView> {
    match target {
        ConfigWriteTarget::WorkspaceYaml(_) => of_workspace(
            rewritten(Some(text), |m: YamlEntries| with_allow_builds(m, names)),
        ),
        ConfigWriteTarget::PackageJson => of_manifest(
            upserted_text(text, "allowBuilds"@, approvals(names)),
        ),
    }
}

proof fn lemma_approvals(names: Seq<Seq<char>>)
    ensures
        is_valid_object(approvals(names)),
        forall|i: int|
            0 <= i < approvals(names).len() ==> names.contains((#[trigger] approvals(names)[i]).0),
    decreases names.len(),
{
    if names.len() > 0 {
        let front = names.drop_last();
        lemma_approvals(front);
        assert(names =~= front.push(names.last()));
        assert forall|i: int| 0 <= i < approvals(names).len() implies names.contains(
            (#[trigger] approvals(names)[i]).0,
        ) by {
            if i < approvals(front).len() {
                let j = front.index_of(approvals(front)[i].0);
                assert(front.contains(approvals(front)[i].0));
                assert(names[j] == approvals(front)[i].0);
            } else {
                assert(names[names.len() - 1] == names.last());
            }
        }
    }
}

fn approve(names: &Vec<String>) -> (r: Vec<(String, Json)>)
    ensures
        entry_trees(r@) == approvals(names.deep_view()),
{
    let ghost all = names.deep_view();
    let mut r: Vec<(String, Json)> = Vec::new();
    let mut i: usize = 0;
    proof {
        assert(entry_trees(r@) =~= approvals(all.take(0)));
    }
    while i < names.len()
        invariant
            all == names.deep_view(),
            i <= names@.len(),
            entry_trees(r@) == approvals(all.take(i as int)),
        decreases names.len() - i,
    {
        let mut j: usize = 0;
        while j < i && !same(names[j].as_str(), names[i].as_str())
            invariant
                j <= i < names@.len(),
                forall|k: int| 0 <= k < j ==> (#[trigger] names@[k])@ != names@[i as int]@,
            decreases i - j,
        {
            j = j + 1;
        }
        proof {
            let now = all.take(i + 1);
            assert(now.drop_last() =~= all.take(i as int));
            assert(now.last() == names@[i as int]@);
            if j < i {
                assert(all.take(i as int)[j as int] == names@[j as int]@);
            } else {
                assert forall|k: int| 0 <= k < i implies #[trigger] all.take(i as int)[k]
                    != names@[i as int]@ by {
                    assert(all[k] == names@[k]@);
                }
            }
        }
        if j == i {
            let ghost before = entry_trees(r@);
            r.push((names[i].clone(), Json::Bool(true)));
            proof {
                assert(entry_trees(r@) =~= before.push(
                    (names@[i as int]@, JsonView::Bool(true)),
                ));
            }
        }
        i = i + 1;
    }
    proof {
        assert(all.take(all.len() as int) =~= all);
    }
    r
}

/// Approve names in the `allowBuilds` of a project. `text` is what the file
/// that settings are written to holds. Gives its new text, or `None` where
/// nothing changes.
pub fn add_to_allow_builds(target: &ConfigWriteTarget, text: &str, names: &Vec<String>) -> (r:
    Result<Option<String>, ConfigEditError>)
    ensures
        match r {
            Ok(t) => approved_text(*target, text@, names.deep_view()) == Ok::<
                Option<Seq<char>>,
                ConfigEditErrorView,
            >(t.deep_view()),
            Err(e) => approved_text(*target, text@, names.deep_view()) == Err::<
                Option<Seq<char>>,
                ConfigEditErrorView,
            >(e.deep_view()),
        },
{
    match target {
        ConfigWriteTarget::WorkspaceYaml(_) => match write_allow_builds_yaml(Some(text), names) {
            Ok(t) => Ok(t),
            Err(e) => Err(ConfigEditError::Workspace(e)),
        },
        ConfigWriteTarget::PackageJson => {
            proof {
                lemma_approvals(names.deep_view());
            }
            let entries = approve(names);
            match upsert_setting_entries(text, "allowBuilds", &entries) {
                Ok(t) => Ok(t),
                Err(e) => Err(ConfigEditError::Manifest(e)),
            }
        },
    }
}

/// The file that a map entry is set in, after that.
pub open spec fn upserted(
    target: ConfigWriteTarget,
    text: Seq<char>,
    map: Seq<char>,
    key: Seq<char>,
    yaml: crate::yaml::YamlView,
    json: JsonView,
) -> Result<Option<Seq<char>>, ConfigEditErrorView> {
    match target {
        ConfigWriteTarget::WorkspaceYaml(_) => of_workspace(
            rewritten(Some(text), |m: YamlEntries| with_map_entry(m, map, key, yaml)),
        ),
        ConfigWriteTarget::PackageJson => of_manifest(upserted_text(text, map, seq![(key, json)])),
    }
}

/// Set an entry of a map setting of a project. `text` is what the file that
/// settings are written to holds; the value is given in the form of either
/// file. Gives the new text of the file, or `None` where nothing changes.
pub fn upsert_map_entry(
    target: &ConfigWriteTarget,
    text: &str,
    map_name: &str,
    entry_key: &str,
    yaml_value: Yaml,
    json_value: Json,
) -> (r: Result<Option<String>, ConfigEditError>)
    requires
        crate::yaml::is_valid(crate::yaml::tree(yaml_value)),
        crate::json::is_valid(crate::json::tree(json_value)),
    ensures
        match r {
            Ok(t) => upserted(
                *target,
                text@,
                map_name@,
                entry_key@,
                crate::yaml::tree(yaml_value),
                crate::json::tree(json_value),
            ) == Ok::<Option<Seq<char>>, ConfigEditErrorView>(t.deep_view()),
            Err(e) => upserted(
                *target,
                text@,
                map_name@,
                entry_key@,
                crate::yaml::tree(yaml_value),
                crate::json::tree(json_value),
            ) == Err::<Option<Seq<char>>, ConfigEditErrorView>(e.deep_view()),
        },
{
    match target {
        ConfigWriteTarget::WorkspaceYaml(_) => match upsert_workspace_map_entry(
            Some(text),
            map_name,
            entry_key,
            yaml_value,
        ) {
            Ok(t) => Ok(t),
            Err(e) => Err(ConfigEditError::Workspace(e)),
        },
        ConfigWriteTarget::PackageJson => {
            let mut entries: Vec<(String, Json)> = Vec::new();
            let ghost value = crate::json::tree(json_value);
            entries.push((entry_key.to_owned(), json_value));
            proof {
                assert(entry_trees(entries@) =~= seq![(entry_key@, value)]);
            }
            match upsert_setting_entries(text, map_name, &entries) {
                Ok(t) => Ok(t),
                Err(e) => Err(ConfigEditError::Manifest(e)),
            }
        },
    }
}

} // verus!
