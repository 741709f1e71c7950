//! Editing the map settings in a `package.json`.
//!
//! A map setting such as `allowBuilds` can stand under `pnpm` and under `aube`.
//! It is read as one map, and written back to one of the two places.
use vstd::prelude::*;
use crate::json::{
    entry_trees, equal_entries, find_key, get_object, get_object_value, get_value, is_valid_object,
    json_pretty_text, key_position, lemma_get_valid, lemma_object_tree, lemma_valid_object,
    lemma_with_key_valid, lemma_without_key_valid, object, pretty_text, remove_key, same_entries,
    set_key, tree, with_key, without_key, Entries, Json, JsonView,
};
use crate::manifest::parse_error::{json_value, parse_json, ParseError, ParseErrorView};
use crate::strmap::Dup;
use crate::text::{concat, concat3};

verus! {

/// Why a manifest cannot be edited.
#[derive(Debug, PartialEq)]
pub enum EditError {
    Parse(ParseError),
    /// The manifest is not an object.
    NotAnObject,
    /// A namespace is there, but is not an object.
    NamespaceNotObject(String),
    Serialize(String),
}

/// Model of [`EditError`].
pub enum EditErrorView {
    Parse(ParseErrorView),
    NotAnObject,
    NamespaceNotObject(Seq<char>),
    Serialize(Seq<char>),
}

impl DeepView for EditError {
    type V = EditErrorView;

    open spec fn deep_view(&self) -> EditErrorView {
        match self {
            EditError::Parse(e) => EditErrorView::Parse(e.deep_view()),
            EditError::NotAnObject => EditErrorView::NotAnObject,
            EditError::NamespaceNotObject(ns) => EditErrorView::NamespaceNotObject(ns@),
            EditError::Serialize(e) => EditErrorView::Serialize(e@),
        }
    }
}

impl EditErrorView {
    /// The message for the user.
    pub open spec fn message(self) -> Seq<char> {
        match self {
            EditErrorView::Parse(e) => e.message,
            EditErrorView::NotAnObject => "package.json is not an object"@,
            EditErrorView::NamespaceNotObject(ns) => "`"@ + ns + "` is not an object"@,
            EditErrorView::Serialize(e) => "failed to serialize: "@ + e,
        }
    }
}

impl EditError {
    /// The message for the user.
    pub fn message(&self) -> (r: String)
        ensures
            r@ == self.deep_view().message(),
    {
        match self {
            EditError::Parse(e) => e.message.clone(),
            EditError::NotAnObject => "package.json is not an object".to_owned(),
            EditError::NamespaceNotObject(ns) => concat3("`", ns.as_str(), "` is not an object"),
            EditError::Serialize(e) => concat("failed to serialize: ", e.as_str()),
        }
    }
}

/// An object with the first `n` entries of another set in it.
pub open spec fn with_all(base: Entries, more: Entries, n: int) -> Entries
    decreases n,
{
    if n <= 0 {
        base
    } else {
        with_key(with_all(base, more, n - 1), more[n - 1].0, more[n - 1].1)
    }
}

/// The setting under a namespace; without entries where there is none.
pub open spec fn ns_setting(obj: Entries, ns: Seq<char>, key: Seq<char>) -> Entries {
    match get_object(obj, ns) {
        Some(e) => match get_object(e, key) {
            Some(s) => s,
            None => Seq::empty(),
        },
        None => Seq::empty(),
    }
}

/// A map setting as one map: the entries under `pnpm`, and those under `aube`,
/// which win.
pub open spec fn merged_setting(obj: Entries, key: Seq<char>) -> Entries {
    let a = ns_setting(obj, "pnpm"@, key);
    let b = ns_setting(obj, "aube"@, key);
    with_all(with_all(Seq::empty(), a, a.len() as int), b, b.len() as int)
}

/// A manifest without a setting in one namespace. A namespace that is left
/// empty goes too.
pub open spec fn without_setting(obj: Entries, ns: Seq<char>, key: Seq<char>) -> Entries {
    match get_object(obj, ns) {
        Some(e) => if without_key(e, key).len() == 0 {
            without_key(obj, ns)
        } else {
            with_key(obj, ns, JsonView::Object(without_key(e, key)))
        },
        None => obj,
    }
}

/// The namespace that a setting is written to: `pnpm` where there is one.
pub open spec fn chosen_namespace(obj: Entries) -> Seq<char> {
    if find_key(obj, "pnpm"@) is Some {
        "pnpm"@
    } else {
        "aube"@
    }
}

/// The namespace that a setting is not written to.
pub open spec fn other_namespace(obj: Entries) -> Seq<char> {
    if find_key(obj, "pnpm"@) is Some {
        "aube"@
    } else {
        "pnpm"@
    }
}

/// A manifest in which a setting is `map`, in one namespace only; an empty
/// setting stands nowhere.
pub open spec fn with_setting(obj: Entries, key: Seq<char>, map: Entries) -> Result<
    Entries,
    EditErrorView,
> {
    let ns = chosen_namespace(obj);
    let rest = without_setting(obj, other_namespace(obj), key);
    if map.len() == 0 {
        Ok(without_setting(rest, ns, key))
    } else {
        match find_key(rest, ns) {
            None => Ok(
                with_key(
                    rest,
                    ns,
                    JsonView::Object(with_key(Seq::empty(), key, JsonView::Object(map))),
                ),
            ),
            Some(i) => match object(rest[i].1) {
                Some(e) => Ok(
                    with_key(rest, ns, JsonView::Object(with_key(e, key, JsonView::Object(map)))),
                ),
                None => Err(EditErrorView::NamespaceNotObject(ns)),
            },
        }
    }
}

/// The text of a manifest after an edit; `None` where nothing has changed.
pub open spec fn edited_text(before: Entries, after: Entries) -> Result<
    Option<Seq<char>>,
    EditErrorView,
> {
    if equal_entries(after, before) {
        Ok(None)
    } else {
        match json_pretty_text(JsonView::Object(after)) {
            Ok(s) => Ok(Some(s.push('\n'))),
            Err(e) => Err(EditErrorView::Serialize(e)),
        }
    }
}

/// The object that a manifest holds.
pub open spec fn manifest_object(raw: Seq<char>) -> Result<Entries, EditErrorView> {
    match json_value(raw) {
        Ok(v) => match object(v) {
            Some(e) => Ok(e),
            None => Err(EditErrorView::NotAnObject),
        },
        Err(e) => Err(EditErrorView::Parse(e)),
    }
}

/// A manifest without one entry of a setting in one namespace. A setting or a
/// namespace that is left empty goes too.
pub open spec fn without_entry(
    obj: Entries,
    ns: Seq<char>,
    key: Seq<char>,
    entry: Seq<char>,
) -> Entries {
    match get_object(obj, ns) {
        Some(e) => {
            let e2 = match get_object(e, key) {
                Some(inner) => if without_key(inner, entry).len() == 0 {
                    without_key(e, key)
                } else {
                    with_key(e, key, JsonView::Object(without_key(inner, entry)))
                },
                None => e,
            };
            if e2.len() == 0 {
                without_key(obj, ns)
            } else {
                with_key(obj, ns, JsonView::Object(e2))
            }
        },
        None => obj,
    }
}

/// A manifest without one entry of a setting.
pub open spec fn without_setting_entry(obj: Entries, key: Seq<char>, entry: Seq<char>) -> Entries {
    without_entry(without_entry(obj, "pnpm"@, key, entry), "aube"@, key, entry)
}

/// Whether a setting has an entry in either namespace.
pub open spec fn has_setting_entry(obj: Entries, key: Seq<char>, entry: Seq<char>) -> bool {
    find_key(ns_setting(obj, "pnpm"@, key), entry) is Some || find_key(
        ns_setting(without_entry(obj, "pnpm"@, key, entry), "aube"@, key),
        entry,
    ) is Some
}

/// Parse a manifest into the entries of its object.
pub fn parse_manifest_object(raw: &str) -> (r: Result<Vec<(String, Json)>, EditError>)
    ensures
        match r {
            Ok(e) => manifest_object(raw@) == Ok::<Entries, EditErrorView>(entry_trees(e@))
                && is_valid_object(entry_trees(e@)),
            Err(e) => manifest_object(raw@) == Err::<Entries, EditErrorView>(e.deep_view()),
        },
{
    match parse_json(raw) {
        Ok(Json::Object(entries)) => {
            proof {
                lemma_object_tree(entries);
                lemma_valid_object(entry_trees(entries@));
            }
            Ok(entries)
        },
        Ok(_) => Err(EditError::NotAnObject),
        Err(e) => Err(EditError::Parse(e)),
    }
}

proof fn lemma_with_all_valid(base: Entries, more: Entries, n: int)
    requires
        is_valid_object(base),
        is_valid_object(more),
        0 <= n <= more.len(),
    ensures
        is_valid_object(with_all(base, more, n)),
    decreases n,
{
    if n > 0 {
        lemma_with_all_valid(base, more, n - 1);
        lemma_with_key_valid(with_all(base, more, n - 1), more[n - 1].0, more[n - 1].1);
    }
}

/// Set the entries of another object.
pub fn set_all(base: &mut Vec<(String, Json)>, more: &Vec<(String, Json)>)
    ensures
        entry_trees(final(base)@) == with_all(
            entry_trees(old(base)@),
            entry_trees(more@),
            more@.len() as int,
        ),
{
    let ghost base0 = entry_trees(base@);
    let ghost all = entry_trees(more@);
    let mut i: usize = 0;
    while i < more.len()
        invariant
            all == entry_trees(more@),
            i <= more@.len(),
            entry_trees(base@) == with_all(base0, all, i as int),
        decreases more.len() - i,
    {
        proof {
            assert(all[i as int] == (more@[i as int].0@, tree(more@[i as int].1)));
        }
        set_key(base, more[i].0.as_str(), more[i].1.dup());
        i = i + 1;
    }
}

fn ns_setting_entries<'a>(obj: &'a Vec<(String, Json)>, ns: &str, key: &str) -> (r: Option<
    &'a Vec<(String, Json)>,
>)
    ensures
        match r {
            Some(e) => ns_setting(entry_trees(obj@), ns@, key@) == entry_trees(e@),
            None => ns_setting(entry_trees(obj@), ns@, key@) == Seq::<
                (Seq<char>, JsonView),
            >::empty(),
        },
{
    match get_object_value(obj, ns) {
        Some(e) => get_object_value(e, key),
        None => None,
    }
}

/// A map setting as one map.
pub fn setting_map(obj: &Vec<(String, Json)>, key: &str) -> (r: Vec<(String, Json)>)
    ensures
        entry_trees(r@) == merged_setting(entry_trees(obj@), key@),
        is_valid_object(entry_trees(obj@)) ==> is_valid_object(entry_trees(r@)),
{
    let ghost o = entry_trees(obj@);
    let mut r: Vec<(String, Json)> = Vec::new();
    proof {
        assert(entry_trees(r@) =~= Seq::<(Seq<char>, JsonView)>::empty());
    }
    if let Some(e) = ns_setting_entries(obj, "pnpm", key) {
        set_all(&mut r, e);
    }
    if let Some(e) = ns_setting_entries(obj, "aube", key) {
        set_all(&mut r, e);
    }
    proof {
        if is_valid_object(o) {
            lemma_ns_setting_valid(o, "pnpm"@, key@);
            lemma_ns_setting_valid(o, "aube"@, key@);
            let a = ns_setting(o, "pnpm"@, key@);
            let b = ns_setting(o, "aube"@, key@);
            let none = Seq::<(Seq<char>, JsonView)>::empty();
            lemma_with_all_valid(none, a, a.len() as int);
            lemma_with_all_valid(with_all(none, a, a.len() as int), b, b.len() as int);
        }
    }
    r
}

proof fn lemma_ns_setting_valid(obj: Entries, ns: Seq<char>, key: Seq<char>)
    requires
        is_valid_object(obj),
    ensures
        is_valid_object(ns_setting(obj, ns, key)),
{
    lemma_get_valid(obj, ns);
    if let Some(e) = get_object(obj, ns) {
        lemma_get_valid(e, key);
    }
}

/// The entries of an object, copied.
fn dup_entries(entries: &Vec<(String, Json)>) -> (r: Vec<(String, Json)>)
    ensures
        entry_trees(r@) == entry_trees(entries@),
{
    let mut r: Vec<(String, Json)> = Vec::new();
    let mut i: usize = 0;
    while i < entries.len()
        invariant
            i <= entries@.len(),
            r@.len() == i,
            forall|j: int|
                0 <= j < i ==> (#[trigger] r@[j]).0@ == entries@[j].0@ && tree(r@[j].1) == tree(
                    entries@[j].1,
                ),
        decreases entries.len() - i,
    {
        r.push((entries[i].0.clone(), entries[i].1.dup()));
        i = i + 1;
    }
    proof {
        assert(entry_trees(r@) =~= entry_trees(entries@));
    }
    r
}

fn object_json(entries: Vec<(String, Json)>) -> (r: Json)
    ensures
        tree(r) == JsonView::Object(entry_trees(entries@)),
{
    proof {
        lemma_object_tree(entries);
    }
    Json::Object(entries)
}

/// Take a setting out of one namespace.
fn drop_setting(obj: &mut Vec<(String, Json)>, ns: &str, key: &str)
    ensures
        entry_trees(final(obj)@) == without_setting(entry_trees(old(obj)@), ns@, key@),
        is_valid_object(entry_trees(old(obj)@)) ==> is_valid_object(entry_trees(final(obj)@)),
{
    let ghost before = entry_trees(obj@);
    proof {
        if is_valid_object(before) {
            lemma_get_valid(before, ns@);
            lemma_without_key_valid(before, ns@);
            if let Some(e) = get_object(before, ns@) {
                lemma_without_key_valid(e, key@);
                lemma_valid_object(without_key(e, key@));
                lemma_with_key_valid(before, ns@, JsonView::Object(without_key(e, key@)));
            }
        }
    }
    let inner = match get_object_value(obj, ns) {
        Some(e) => Some(dup_entries(e)),
        None => None,
    };
    if let Some(e) = inner {
        let mut e = e;
        let _ = remove_key(&mut e, key);
        if e.len() == 0 {
            let _ = remove_key(obj, ns);
        } else {
            set_key(obj, ns, object_json(e));
        }
    }
}

/// The manifest in which a setting is `map`.
pub fn write_setting(obj: &Vec<(String, Json)>, key: &str, map: Vec<(String, Json)>) -> (r: Result<
    Vec<(String, Json)>,
    EditError,
>)
    ensures
        match r {
            Ok(e) => with_setting(entry_trees(obj@), key@, entry_trees(map@)) == Ok::<
                Entries,
                EditErrorView,
            >(entry_trees(e@)),
            Err(e) => with_setting(entry_trees(obj@), key@, entry_trees(map@)) == Err::<
                Entries,
                EditErrorView,
            >(e.deep_view()),
        },
        is_valid_object(entry_trees(obj@)) && is_valid_object(entry_trees(map@)) ==> (r matches Ok(
            e,
        ) ==> is_valid_object(entry_trees(e@))),
{
    let ghost o = entry_trees(obj@);
    let ghost m = entry_trees(map@);
    let has_pnpm = key_position(obj, "pnpm").is_some();
    let (ns, other) = if has_pnpm {
        ("pnpm", "aube")
    } else {
        ("aube", "pnpm")
    };
    let mut out = dup_entries(obj);
    drop_setting(&mut out, other, key);
    let ghost rest = entry_trees(out@);
    if map.len() == 0 {
        drop_setting(&mut out, ns, key);
        return Ok(out);
    }
    let chosen = match get_value(&out, ns) {
        None => Some(Vec::new()),
        Some(v) => match v.as_object() {
            Some(e) => Some(dup_entries(e)),
            None => None,
        },
    };
    match chosen {
        None => Err(EditError::NamespaceNotObject(ns.to_owned())),
        Some(e) => {
            let mut e = e;
            proof {
                if find_key(rest, ns@) is None {
                    assert(entry_trees(e@) =~= Seq::<(Seq<char>, JsonView)>::empty());
                }
                if is_valid_object(o) && is_valid_object(m) {
                    lemma_get_valid(rest, ns@);
                    lemma_valid_object(m);
                    lemma_with_key_valid(entry_trees(e@), key@, JsonView::Object(m));
                    let e2 = with_key(entry_trees(e@), key@, JsonView::Object(m));
                    lemma_valid_object(e2);
                    lemma_with_key_valid(rest, ns@, JsonView::Object(e2));
                }
            }
            set_key(&mut e, key, object_json(map));
            set_key(&mut out, ns, object_json(e));
            Ok(out)
        },
    }
}

/// The text of a manifest after an edit.
fn write_edited(before: &Vec<(String, Json)>, after: Vec<(String, Json)>) -> (r: Result<
    Option<String>,
    EditError,
>)
    requires
        is_valid_object(entry_trees(after@)),
    ensures
        match r {
            Ok(t) => edited_text(entry_trees(before@), entry_trees(after@)) == Ok::<
                Option<Seq<char>>,
                EditErrorView,
            >(t.deep_view()),
            Err(e) => edited_text(entry_trees(before@), entry_trees(after@)) == Err::<
                Option<Seq<char>>,
                EditErrorView,
            >(e.deep_view()),
        },
{
    if same_entries(&after, before) {
        return Ok(None);
    }
    proof {
        lemma_valid_object(entry_trees(after@));
    }
    match pretty_text(&object_json(after)) {
        Ok(s) => {
            let mut s = s;
            s.push('\n');
            Ok(Some(s))
        },
        Err(e) => Err(EditError::Serialize(e)),
    }
}

/// Write a map setting back into a manifest. `map` is what the setting is to
/// be; it goes to `pnpm` where the manifest has that namespace, or else to
/// `aube`, and is taken out of the other. Gives the new text of the manifest,
/// or `None` where nothing has changed.
pub fn edit_setting_map(obj: &Vec<(String, Json)>, key: &str, map: Vec<(String, Json)>) -> (r:
    Result<Option<String>, EditError>)
    requires
        is_valid_object(entry_trees(obj@)),
        is_valid_object(entry_trees(map@)),
    ensures
        match r {
            Ok(t) => (match with_setting(entry_trees(obj@), key@, entry_trees(map@)) {
                Ok(after) => edited_text(entry_trees(obj@), after),
                Err(e) => Err(e),
            }) == Ok::<Option<Seq<char>>, EditErrorView>(t.deep_view()),
            Err(e) => (match with_setting(entry_trees(obj@), key@, entry_trees(map@)) {
                Ok(after) => edited_text(entry_trees(obj@), after),
                Err(e) => Err(e),
            }) == Err::<Option<Seq<char>>, EditErrorView>(e.deep_view()),
        },
{
    match write_setting(obj, key, map) {
        Ok(after) => write_edited(obj, after),
        Err(e) => Err(e),
    }
}

/// The text of a manifest in which some entries of a map setting have been set.
pub open spec fn upserted_text(raw: Seq<char>, key: Seq<char>, entries: Entries) -> Result<
    Option<Seq<char>>,
    EditErrorView,
> {
    match manifest_object(raw) {
        Ok(obj) => match with_setting(
            obj,
            key,
            with_all(merged_setting(obj, key), entries, entries.len() as int),
        ) {
            Ok(after) => edited_text(obj, after),
            Err(e) => Err(e),
        },
        Err(e) => Err(e),
    }
}

/// Set entries of a map setting in the text of a manifest. Gives the new text,
/// or `None` where nothing has changed.
pub fn upsert_setting_entries(raw: &str, key: &str, entries: &Vec<(String, Json)>) -> (r: Result<
    Option<String>,
    EditError,
>)
    requires
        is_valid_object(entry_trees(entries@)),
    ensures
        match r {
            Ok(t) => upserted_text(raw@, key@, entry_trees(entries@)) == Ok::<
                Option<Seq<char>>,
                EditErrorView,
            >(t.deep_view()),
            Err(e) => upserted_text(raw@, key@, entry_trees(entries@)) == Err::<
                Option<Seq<char>>,
                EditErrorView,
            >(e.deep_view()),
        },
{
    let obj = match parse_manifest_object(raw) {
        Ok(o) => o,
        Err(e) => {
            return Err(e);
        },
    };
    let mut map = setting_map(&obj, key);
    proof {
        lemma_with_all_valid(
            entry_trees(map@),
            entry_trees(entries@),
            entries@.len() as int,
        );
    }
    set_all(&mut map, entries);
    edit_setting_map(&obj, key, map)
}

/// Take one entry of a setting out of one namespace.
fn drop_entry(obj: &mut Vec<(String, Json)>, ns: &str, key: &str, entry: &str) -> (r: bool)
    requires
        is_valid_object(entry_trees(old(obj)@)),
    ensures
        entry_trees(final(obj)@) == without_entry(entry_trees(old(obj)@), ns@, key@, entry@),
        is_valid_object(entry_trees(final(obj)@)),
        r == (find_key(ns_setting(entry_trees(old(obj)@), ns@, key@), entry@) is Some),
{
    let ghost before = entry_trees(obj@);
    proof {
        assert(find_key(Seq::<(Seq<char>, JsonView)>::empty(), entry@) is None);
        lemma_get_valid(before, ns@);
        lemma_without_key_valid(before, ns@);
        if let Some(e) = get_object(before, ns@) {
            lemma_get_valid(e, key@);
            lemma_without_key_valid(e, key@);
            lemma_valid_object(e);
            lemma_valid_object(without_key(e, key@));
            lemma_with_key_valid(before, ns@, JsonView::Object(e));
            lemma_with_key_valid(before, ns@, JsonView::Object(without_key(e, key@)));
            if let Some(inner) = get_object(e, key@) {
                let inner2 = without_key(inner, entry@);
                lemma_without_key_valid(inner, entry@);
                lemma_valid_object(inner2);
                lemma_with_key_valid(e, key@, JsonView::Object(inner2));
                let e2 = with_key(e, key@, JsonView::Object(inner2));
                lemma_valid_object(e2);
                lemma_with_key_valid(before, ns@, JsonView::Object(e2));
            }
        }
    }
    let top = match get_object_value(obj, ns) {
        Some(e) => Some(dup_entries(e)),
        None => None,
    };
    let mut existed = false;
    if let Some(e) = top {
        let mut e = e;
        let inner = match get_object_value(&e, key) {
            Some(i) => Some(dup_entries(i)),
            None => None,
        };
        if let Some(i) = inner {
            let mut i = i;
            existed = remove_key(&mut i, entry);
            if i.len() == 0 {
                let _ = remove_key(&mut e, key);
            } else {
                set_key(&mut e, key, object_json(i));
            }
        }
        if e.len() == 0 {
            let _ = remove_key(obj, ns);
        } else {
            set_key(obj, ns, object_json(e));
        }
    }
    existed
}

/// Take one entry of a map setting out of the text of a manifest, in both
/// namespaces. Gives whether it was there, and the new text, or `None` where
/// nothing has changed.
pub fn remove_setting_entry(raw: &str, key: &str, entry_key: &str) -> (r: Result<
    (bool, Option<String>),
    EditError,
>)
    ensures
        match (r, manifest_object(raw@)) {
            (Ok((existed, t)), Ok(obj)) => existed == has_setting_entry(obj, key@, entry_key@)
                && edited_text(obj, without_setting_entry(obj, key@, entry_key@)) == Ok::<
                Option<Seq<char>>,
                EditErrorView,
            >(t.deep_view()),
            (Err(e), Ok(obj)) => edited_text(
                obj,
                without_setting_entry(obj, key@, entry_key@),
            ) == Err::<Option<Seq<char>>, EditErrorView>(e.deep_view()),
            (Ok(_), Err(_)) => false,
            (Err(e), Err(f)) => e.deep_view() == f,
        },
{
    let obj = match parse_manifest_object(raw) {
        Ok(o) => o,
        Err(e) => {
            return Err(e);
        },
    };
    let mut after = dup_entries(&obj);
    let a = drop_entry(&mut after, "pnpm", key, entry_key);
    let b = drop_entry(&mut after, "aube", key, entry_key);
    match write_edited(&obj, after) {
        Ok(t) => Ok((a || b, t)),
        Err(e) => Err(e),
    }
}

} // verus!
