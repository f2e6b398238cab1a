//! The manifest model and the dependency editor. A manifest is held as the
//! list of its dependency tables, each entry either a version-string
//! shorthand or an inline table of fields; fields the editor does not touch
//! are carried through unchanged, which is what makes the edits
//! format-preserving.

use vstd::prelude::*;

use crate::text::{str_eq, str_views};

verus! {

/// The three dependency table kinds of a manifest.
#[derive(Clone, Copy, PartialEq, Eq, Structural, Debug)]
pub enum CrateDependencyKey {
    BuildDependencies,
    Dependencies,
    DevDependencies,
}

impl CrateDependencyKey {
    /// The table name as it appears in a manifest.
    pub fn as_str(&self) -> (r: &'static str)
        ensures
            r@ == self.spec_str(),
    {
        match self {
            CrateDependencyKey::BuildDependencies => "build-dependencies",
            CrateDependencyKey::Dependencies => "dependencies",
            CrateDependencyKey::DevDependencies => "dev-dependencies",
        }
    }

    pub open spec fn spec_str(self) -> Seq<char> {
        match self {
            CrateDependencyKey::BuildDependencies => "build-dependencies"@,
            CrateDependencyKey::Dependencies => "dependencies"@,
            CrateDependencyKey::DevDependencies => "dev-dependencies"@,
        }
    }
}

/// One field value inside a dependency table: a string, or any other
/// value carried through opaquely as its rendered text.
pub enum FieldValue {
    Str(String),
    Opaque(String),
}

/// One `key = value` field of a dependency table.
pub struct DepField {
    pub key: String,
    pub value: FieldValue,
}

/// One dependency entry: the table key and its value shape.
pub struct DepEntry {
    pub key: String,
    pub value: DepEntryValue,
}

/// A dependency entry's value: a plain version-string shorthand, or an
/// inline table of fields.
pub enum DepEntryValue {
    Shorthand(String),
    Table(Vec<DepField>),
}

/// One dependency table of the manifest: its kind, the target it is
/// conditional on (if any), and its entries in document order.
pub struct DepSection {
    pub kind: CrateDependencyKey,
    pub target: Option<String>,
    pub entries: Vec<DepEntry>,
}

/// The parts of a manifest the publication engine reads and edits.
pub struct Manifest {
    pub package_name: String,
    pub version: String,
    pub description: Option<String>,
    pub readme: Option<String>,
    pub sections: Vec<DepSection>,
}

/// The mathematical value of a field value.
pub enum FieldValueView {
    Str(Seq<char>),
    Opaque(Seq<char>),
}

#[verifier::ext_equal]
pub ghost struct DepFieldView {
    pub key: Seq<char>,
    pub value: FieldValueView,
}

pub enum DepEntryValueView {
    Shorthand(Seq<char>),
    Table(Seq<DepFieldView>),
}

#[verifier::ext_equal]
pub ghost struct DepEntryView {
    pub key: Seq<char>,
    pub value: DepEntryValueView,
}

#[verifier::ext_equal]
pub ghost struct DepSectionView {
    pub kind: CrateDependencyKey,
    pub target: Option<Seq<char>>,
    pub entries: Seq<DepEntryView>,
}

#[verifier::ext_equal]
pub ghost struct ManifestView {
    pub package_name: Seq<char>,
    pub version: Seq<char>,
    pub description: Option<Seq<char>>,
    pub readme: Option<Seq<char>>,
    pub sections: Seq<DepSectionView>,
}

impl View for FieldValue {
    type V = FieldValueView;

    open spec fn view(&self) -> FieldValueView {
        match self {
            FieldValue::Str(s) => FieldValueView::Str(s@),
            FieldValue::Opaque(s) => FieldValueView::Opaque(s@),
        }
    }
}

impl View for DepField {
    type V = DepFieldView;

    open spec fn view(&self) -> DepFieldView {
        DepFieldView { key: self.key@, value: self.value@ }
    }
}

impl View for DepEntry {
    type V = DepEntryView;

    open spec fn view(&self) -> DepEntryView {
        DepEntryView { key: self.key@, value: self.value@ }
    }
}

impl View for DepEntryValue {
    type V = DepEntryValueView;

    open spec fn view(&self) -> DepEntryValueView {
        match self {
            DepEntryValue::Shorthand(s) => DepEntryValueView::Shorthand(s@),
            DepEntryValue::Table(fs) => DepEntryValueView::Table(
                fs@.map_values(|f: DepField| f@),
            ),
        }
    }
}

impl View for DepSection {
    type V = DepSectionView;

    open spec fn view(&self) -> DepSectionView {
        DepSectionView {
            kind: self.kind,
            target: match self.target {
                Some(t) => Some(t@),
                None => None,
            },
            entries: self.entries@.map_values(|e: DepEntry| e@),
        }
    }
}

impl View for Manifest {
    type V = ManifestView;

    open spec fn view(&self) -> ManifestView {
        ManifestView {
            package_name: self.package_name@,
            version: self.version@,
            description: match self.description {
                Some(d) => Some(d@),
                None => None,
            },
            readme: match self.readme {
                Some(r) => Some(r@),
                None => None,
            },
            sections: self.sections@.map_values(|s: DepSection| s@),
        }
    }
}

/// The value of the first field with the given key, if any.
pub open spec fn table_field(fs: Seq<DepFieldView>, key: Seq<char>) -> Option<FieldValueView>
    decreases fs.len(),
{
    if fs.len() == 0 {
        None
    } else if fs[0].key == key {
        Some(fs[0].value)
    } else {
        table_field(fs.drop_first(), key)
    }
}

/// Look up the first field with the given key.
fn table_field_exec<'a>(fs: &'a Vec<DepField>, key: &str) -> (r: Option<&'a FieldValue>)
    ensures
        match r {
            Some(v) => table_field(fs@.map_values(|f: DepField| f@), key@) == Some(v@),
            None => table_field(fs@.map_values(|f: DepField| f@), key@) is None,
        },
{
    let ghost fsv = fs@.map_values(|f: DepField| f@);
    let n = fs.len();
    let mut i: usize = 0;
    proof {
        assert(fsv.skip(0) =~= fsv);
    }
    while i < n
        invariant
            n == fs@.len(),
            fsv == fs@.map_values(|f: DepField| f@),
            0 <= i <= n,
            table_field(fsv, key@) == table_field(fsv.skip(i as int), key@),
        decreases n - i,
    {
        if str_eq(fs[i].key.as_str(), key) {
            proof {
                assert(fsv.skip(i as int)[0] == fsv[i as int]);
            }
            return Some(&fs[i].value);
        }
        proof {
            assert(fsv.skip(i as int)[0] == fsv[i as int]);
            assert(fsv.skip(i as int).drop_first() =~= fsv.skip(i + 1));
        }
        i += 1;
    }
    None
}

/// How a manifest can be unusable for an edit.
#[derive(Debug)]
pub enum ManifestError {
    /// This dependency entry's `package` field is not a string.
    PackageNotString(String),
    /// This dependency entry's `path` field is not a string.
    PathNotString(String),
    /// This dependency entry inherits from the workspace, which the
    /// editor refuses to overwrite.
    WorkspaceNotSupported(String),
    /// The package's own version is not a SemVer version.
    VersionNotParsable(String),
}

/// The logical dependency name of an entry: its `package` field when that
/// is a string, the entry key otherwise.
pub open spec fn entry_logical_name(e: DepEntryView) -> Seq<char> {
    match e.value {
        DepEntryValueView::Table(fs) => match table_field(fs, "package"@) {
            Some(FieldValueView::Str(p)) => p,
            _ => e.key,
        },
        DepEntryValueView::Shorthand(_) => e.key,
    }
}

/// An entry with a `package` field that is not a string; the editor
/// refuses to guess its meaning.
pub open spec fn entry_package_broken(e: DepEntryView) -> bool {
    match e.value {
        DepEntryValueView::Table(fs) => match table_field(fs, "package"@) {
            Some(FieldValueView::Opaque(_)) => true,
            _ => false,
        },
        DepEntryValueView::Shorthand(_) => false,
    }
}

/// Whether the entry refers to one of the given dependency names.
pub open spec fn entry_matches(e: DepEntryView, deps: Seq<Seq<char>>) -> bool {
    deps.contains(entry_logical_name(e))
}

} // verus!

verus! {

/// Setting `field = value` in a field list: replace the value of every
/// existing `field` key, or append the field at the end; then drop every
/// field whose key is listed in `remove`.
pub open spec fn spec_set_fields(
    fs: Seq<DepFieldView>,
    field: Seq<char>,
    value: Seq<char>,
    remove: Seq<Seq<char>>,
) -> Seq<DepFieldView> {
    let set = if exists|i: int| 0 <= i < fs.len() && (#[trigger] fs[i]).key == field {
        fs.map_values(
            |f: DepFieldView|
                if f.key == field {
                    DepFieldView { key: f.key, value: FieldValueView::Str(value) }
                } else {
                    f
                },
        )
    } else {
        fs.push(DepFieldView { key: field, value: FieldValueView::Str(value) })
    };
    set.filter(|f: DepFieldView| !remove.contains(f.key))
}

/// Copy one field.
fn dup_field(f: &DepField) -> (r: DepField)
    ensures
        r@ == f@,
{
    let value = match &f.value {
        FieldValue::Str(s) => FieldValue::Str(crate::crate_details::clone_string(s)),
        FieldValue::Opaque(s) => FieldValue::Opaque(crate::crate_details::clone_string(s)),
    };
    DepField { key: crate::crate_details::clone_string(&f.key), value }
}

/// Copy a field list.
fn dup_fields(fs: &Vec<DepField>) -> (r: Vec<DepField>)
    ensures
        r@.map_values(|f: DepField| f@) =~= fs@.map_values(|f: DepField| f@),
{
    let n = fs.len();
    let mut out: Vec<DepField> = Vec::new();
    let mut i: usize = 0;
    while i < n
        invariant
            n == fs@.len(),
            0 <= i <= n,
            out@.len() == i,
            forall|k: int| 0 <= k < i ==> (#[trigger] out@[k])@ == fs@[k]@,
        decreases n - i,
    {
        out.push(dup_field(&fs[i]));
        i += 1;
    }
    proof {
        let ov = out@.map_values(|f: DepField| f@);
        let fv = fs@.map_values(|f: DepField| f@);
        assert forall|k: int| 0 <= k < n implies ov[k] == fv[k] by {
            assert(out@[k]@ == fs@[k]@);
        }
        assert(ov =~= fv);
    }
    out
}

/// Copy one entry.
fn dup_entry(e: &DepEntry) -> (r: DepEntry)
    ensures
        r@ == e@,
{
    let value = match &e.value {
        DepEntryValue::Shorthand(s) => DepEntryValue::Shorthand(
            crate::crate_details::clone_string(s),
        ),
        DepEntryValue::Table(fs) => DepEntryValue::Table(dup_fields(fs)),
    };
    let r = DepEntry { key: crate::crate_details::clone_string(&e.key), value };
    proof {
        assert(r@ =~= e@);
    }
    r
}

/// Apply the field edit to a field list.
fn set_fields(
    fs: &Vec<DepField>,
    field: &String,
    field_value: &String,
    remove: &Vec<String>,
) -> (r: Vec<DepField>)
    ensures
        r@.map_values(|f: DepField| f@) =~= spec_set_fields(
            fs@.map_values(|f: DepField| f@),
            field@,
            field_value@,
            str_views(remove@),
        ),
{
    let ghost fsv = fs@.map_values(|f: DepField| f@);
    let n = fs.len();
    // Replace the value of every existing occurrence of the field, or
    // append it.
    let mut replaced: Vec<DepField> = Vec::new();
    let mut found = false;
    let mut i: usize = 0;
    while i < n
        invariant
            n == fs@.len(),
            fsv == fs@.map_values(|f: DepField| f@),
            0 <= i <= n,
            replaced@.len() == i,
            found == (exists|k: int| 0 <= k < i && (#[trigger] fsv[k]).key == field@),
            forall|k: int|
                0 <= k < i ==> (#[trigger] replaced@[k])@ == (if fsv[k].key == field@ {
                    DepFieldView { key: fsv[k].key, value: FieldValueView::Str(field_value@) }
                } else {
                    fsv[k]
                }),
        decreases n - i,
    {
        if str_eq(fs[i].key.as_str(), field.as_str()) {
            replaced.push(
                DepField {
                    key: crate::crate_details::clone_string(&fs[i].key),
                    value: FieldValue::Str(crate::crate_details::clone_string(field_value)),
                },
            );
            found = true;
            proof {
                assert(fsv[i as int].key == field@);
            }
        } else {
            replaced.push(dup_field(&fs[i]));
            proof {
                assert(fsv[i as int].key != field@);
            }
        }
        i += 1;
    }
    if !found {
        replaced.push(
            DepField {
                key: crate::crate_details::clone_string(field),
                value: FieldValue::Str(crate::crate_details::clone_string(field_value)),
            },
        );
    }
    let ghost set_v = if exists|k: int| 0 <= k < fsv.len() && (#[trigger] fsv[k]).key == field@ {
        fsv.map_values(
            |f: DepFieldView|
                if f.key == field@ {
                    DepFieldView { key: f.key, value: FieldValueView::Str(field_value@) }
                } else {
                    f
                },
        )
    } else {
        fsv.push(DepFieldView { key: field@, value: FieldValueView::Str(field_value@) })
    };
    proof {
        assert(replaced@.map_values(|f: DepField| f@) =~= set_v);
    }
    // Drop the removed fields.
    let m = replaced.len();
    let mut out: Vec<DepField> = Vec::new();
    let mut j: usize = 0;
    let ghost pred = |f: DepFieldView| !str_views(remove@).contains(f.key);
    proof {
        assert(set_v.take(0) =~= Seq::<DepFieldView>::empty());
        assert(out@.map_values(|f: DepField| f@) =~= set_v.take(0).filter(pred));
    }
    while j < m
        invariant
            m == replaced@.len(),
            set_v == replaced@.map_values(|f: DepField| f@),
            pred == (|f: DepFieldView| !str_views(remove@).contains(f.key)),
            0 <= j <= m,
            out@.map_values(|f: DepField| f@) =~= set_v.take(j as int).filter(pred),
        decreases m - j,
    {
        let keep = !crate::crate_details::contains_name(remove, replaced[j].key.as_str());
        let ghost pre = out@;
        if keep {
            out.push(dup_field(&replaced[j]));
        }
        proof {
            assert(set_v.take(j + 1).drop_last() =~= set_v.take(j as int));
            assert(set_v.take(j + 1).last() == set_v[j as int]);
            reveal_with_fuel(Seq::filter, 2);
            assert(set_v[j as int] == replaced@[j as int]@);
            if keep {
                assert(pred(set_v[j as int]));
                assert(out@.map_values(|f: DepField| f@) =~= pre.map_values(
                    |f: DepField| f@,
                ).push(replaced@[j as int]@));
            } else {
                assert(!pred(set_v[j as int]));
            }
        }
        j += 1;
    }
    proof {
        assert(set_v.take(m as int) =~= set_v);
    }
    out
}

} // verus!

verus! {

/// The edit of one entry: a matched shorthand is overwritten whole or
/// promoted to a table that keeps its version; a matched table gets the
/// field set and the dropped fields removed; anything else is untouched.
pub open spec fn spec_edit_entry(
    e: DepEntryView,
    deps: Seq<Seq<char>>,
    field: Seq<char>,
    value: Seq<char>,
    remove: Seq<Seq<char>>,
    overwrite: bool,
) -> DepEntryView {
    if entry_matches(e, deps) {
        match e.value {
            DepEntryValueView::Shorthand(v) => if overwrite {
                DepEntryView { key: e.key, value: DepEntryValueView::Shorthand(value) }
            } else if field == "version"@ {
                DepEntryView {
                    key: e.key,
                    value: DepEntryValueView::Table(
                        seq![DepFieldView { key: "version"@, value: FieldValueView::Str(value) }],
                    ),
                }
            } else {
                DepEntryView {
                    key: e.key,
                    value: DepEntryValueView::Table(
                        seq![
                            DepFieldView { key: "version"@, value: FieldValueView::Str(v) },
                            DepFieldView { key: field, value: FieldValueView::Str(value) },
                        ],
                    ),
                }
            },
            DepEntryValueView::Table(fs) => DepEntryView {
                key: e.key,
                value: DepEntryValueView::Table(spec_set_fields(fs, field, value, remove)),
            },
        }
    } else {
        e
    }
}

/// A matched entry that inherits from the workspace: the editor refuses
/// to overwrite inherited fields.
pub open spec fn entry_ws_conflict(e: DepEntryView, deps: Seq<Seq<char>>) -> bool {
    entry_matches(e, deps) && match e.value {
        DepEntryValueView::Table(fs) => table_field(fs, "workspace"@) is Some,
        DepEntryValueView::Shorthand(_) => false,
    }
}

/// No entry of the section is broken or in workspace conflict.
pub open spec fn section_clean(sec: DepSectionView, deps: Seq<Seq<char>>) -> bool {
    forall|i: int|
        0 <= i < sec.entries.len() ==> !entry_package_broken(#[trigger] sec.entries[i])
            && !entry_ws_conflict(sec.entries[i], deps)
}

/// The whole section after the edit.
pub open spec fn section_edited(
    o: DepSectionView,
    n: DepSectionView,
    deps: Seq<Seq<char>>,
    field: Seq<char>,
    value: Seq<char>,
    remove: Seq<Seq<char>>,
    overwrite: bool,
) -> bool {
    &&& n.kind == o.kind
    &&& n.target == o.target
    &&& n.entries.len() == o.entries.len()
    &&& forall|i: int|
        0 <= i < o.entries.len() ==> n.entries[i] == spec_edit_entry(
            #[trigger] o.entries[i],
            deps,
            field,
            value,
            remove,
            overwrite,
        )
}

/// Whether the section holds an entry for one of the dependencies.
pub open spec fn section_has_match(sec: DepSectionView, deps: Seq<Seq<char>>) -> bool {
    exists|i: int| 0 <= i < sec.entries.len() && entry_matches(#[trigger] sec.entries[i], deps)
}

/// Whether any section holds an entry for one of the dependencies.
pub open spec fn sections_have_match(secs: Seq<DepSectionView>, deps: Seq<Seq<char>>) -> bool {
    exists|s: int| 0 <= s < secs.len() && section_has_match(#[trigger] secs[s], deps)
}

/// The logical name of an entry, or the broken-package error.
fn entry_logical_name_exec<'a>(e: &'a DepEntry) -> (r: Result<&'a String, ManifestError>)
    ensures
        match r {
            Ok(nm) => nm@ == entry_logical_name(e@) && !entry_package_broken(e@),
            Err(ManifestError::PackageNotString(k)) => entry_package_broken(e@) && k@ == e@.key,
            Err(_) => false,
        },
{
    match &e.value {
        DepEntryValue::Shorthand(_) => Ok(&e.key),
        DepEntryValue::Table(fs) => {
            match table_field_exec(fs, "package") {
                Some(FieldValue::Str(p)) => Ok(p),
                Some(FieldValue::Opaque(_)) => Err(
                    ManifestError::PackageNotString(crate::crate_details::clone_string(&e.key)),
                ),
                None => Ok(&e.key),
            }
        },
    }
}

/// Set `field = value` on every entry of every dependency table that
/// refers to one of `deps`, dropping the `fields_to_remove`; a matched
/// shorthand is overwritten whole when `overwrite_str_value` is set and
/// otherwise promoted to a table keeping its version. Returns whether
/// anything matched; refuses a broken `package` field or a matched entry
/// that inherits from the workspace, leaving the manifest untouched.
pub fn write_dependency_field_value(
    manifest: &mut Manifest,
    deps: &Vec<String>,
    fields_to_remove: &Vec<String>,
    field: &String,
    field_value: &String,
    overwrite_str_value: bool,
) -> (r: Result<bool, ManifestError>)
    ensures
        match r {
            Ok(modified) => {
                &&& final(manifest)@.package_name == old(manifest)@.package_name
                &&& final(manifest)@.version == old(manifest)@.version
                &&& final(manifest)@.description == old(manifest)@.description
                &&& final(manifest)@.readme == old(manifest)@.readme
                &&& final(manifest)@.sections.len() == old(manifest)@.sections.len()
                &&& forall|s: int|
                    0 <= s < old(manifest)@.sections.len() ==> section_edited(
                        #[trigger] old(manifest)@.sections[s],
                        final(manifest)@.sections[s],
                        str_views(deps@),
                        field@,
                        field_value@,
                        str_views(fields_to_remove@),
                        overwrite_str_value,
                    )
                &&& forall|s: int|
                    0 <= s < old(manifest)@.sections.len() ==> section_clean(
                        #[trigger] old(manifest)@.sections[s],
                        str_views(deps@),
                    )
                &&& modified == sections_have_match(old(manifest)@.sections, str_views(deps@))
            },
            Err(ManifestError::PackageNotString(k)) => final(manifest)@ == old(manifest)@
                && exists|s: int, i: int|
                0 <= s < old(manifest)@.sections.len() && 0 <= i < old(manifest)@.sections[s].entries.len() && entry_package_broken(
                    #[trigger] old(manifest)@.sections[s].entries[i],
                ) && old(manifest)@.sections[s].entries[i].key == k@,
            Err(ManifestError::WorkspaceNotSupported(k)) => final(manifest)@ == old(manifest)@
                && exists|s: int, i: int|
                0 <= s < old(manifest)@.sections.len() && 0 <= i < old(manifest)@.sections[s].entries.len() && entry_ws_conflict(
                    #[trigger] old(manifest)@.sections[s].entries[i],
                    str_views(deps@),
                ) && old(manifest)@.sections[s].entries[i].key == k@,
            Err(ManifestError::PathNotString(_)) => false,
            Err(ManifestError::VersionNotParsable(_)) => false,
        },
{
    let ghost depsv = str_views(deps@);
    let ghost old_secs = manifest@.sections;
    let n_secs = manifest.sections.len();
    let mut new_sections: Vec<DepSection> = Vec::new();
    let mut modified = false;
    let mut s: usize = 0;
    while s < n_secs
        invariant
            depsv == str_views(deps@),
            old_secs == manifest@.sections,
            n_secs == manifest.sections@.len(),
            0 <= s <= n_secs,
            new_sections@.len() == s,
            forall|s0: int|
                0 <= s0 < s ==> section_edited(
                    #[trigger] old_secs[s0],
                    new_sections@.map_values(|x: DepSection| x@)[s0],
                    depsv,
                    field@,
                    field_value@,
                    str_views(fields_to_remove@),
                    overwrite_str_value,
                ),
            forall|s0: int| 0 <= s0 < s ==> section_clean(#[trigger] old_secs[s0], depsv),
            modified == (exists|s0: int|
                0 <= s0 < s && section_has_match(#[trigger] old_secs[s0], depsv)),
        decreases n_secs - s,
    {
        let sec = &manifest.sections[s];
        let ghost old_entries = sec@.entries;
        let n_entries = sec.entries.len();
        let mut new_entries: Vec<DepEntry> = Vec::new();
        let mut sec_match = false;
        let mut e: usize = 0;
        while e < n_entries
            invariant
                depsv == str_views(deps@),
                old_secs == manifest@.sections,
                0 <= s < manifest.sections@.len(),
                sec == &manifest.sections[s as int],
                old_entries == sec@.entries,
                n_entries == sec.entries@.len(),
                0 <= e <= n_entries,
                new_entries@.len() == e,
                forall|i: int|
                    0 <= i < e ==> new_entries@.map_values(|x: DepEntry| x@)[i] == spec_edit_entry(
                        #[trigger] old_entries[i],
                        depsv,
                        field@,
                        field_value@,
                        str_views(fields_to_remove@),
                        overwrite_str_value,
                    ),
                forall|i: int|
                    0 <= i < e ==> !entry_package_broken(#[trigger] old_entries[i])
                        && !entry_ws_conflict(old_entries[i], depsv),
                sec_match == (exists|i: int|
                    0 <= i < e && entry_matches(#[trigger] old_entries[i], depsv)),
            decreases n_entries - e,
        {
            let entry = &sec.entries[e];
            proof {
                assert(entry@ == old_entries[e as int]);
            }
            let logical = match entry_logical_name_exec(entry) {
                Ok(nm) => nm,
                Err(err) => {
                    proof {
                        assert(old_secs[s as int].entries[e as int] == entry@);
                    }
                    return Err(err);
                },
            };
            let matched = crate::crate_details::contains_name(deps, logical.as_str());
            if matched {
                sec_match = true;
                match &entry.value {
                    DepEntryValue::Shorthand(v) => {
                        if overwrite_str_value {
                            new_entries.push(
                                DepEntry {
                                    key: crate::crate_details::clone_string(&entry.key),
                                    value: DepEntryValue::Shorthand(
                                        crate::crate_details::clone_string(field_value),
                                    ),
                                },
                            );
                        } else {
                            let mut tbl: Vec<DepField> = Vec::new();
                            if str_eq(field.as_str(), "version") {
                                tbl.push(
                                    DepField {
                                        key: "version".to_owned(),
                                        value: FieldValue::Str(
                                            crate::crate_details::clone_string(field_value),
                                        ),
                                    },
                                );
                                proof {
                                    assert(tbl@.map_values(|f: DepField| f@) =~= seq![
                                        DepFieldView {
                                            key: "version"@,
                                            value: FieldValueView::Str(field_value@),
                                        },
                                    ]);
                                }
                            } else {
                                tbl.push(
                                    DepField {
                                        key: "version".to_owned(),
                                        value: FieldValue::Str(
                                            crate::crate_details::clone_string(v),
                                        ),
                                    },
                                );
                                tbl.push(
                                    DepField {
                                        key: crate::crate_details::clone_string(field),
                                        value: FieldValue::Str(
                                            crate::crate_details::clone_string(field_value),
                                        ),
                                    },
                                );
                                proof {
                                    assert(tbl@.map_values(|f: DepField| f@) =~= seq![
                                        DepFieldView {
                                            key: "version"@,
                                            value: FieldValueView::Str(v@),
                                        },
                                        DepFieldView {
                                            key: field@,
                                            value: FieldValueView::Str(field_value@),
                                        },
                                    ]);
                                }
                            }
                            new_entries.push(
                                DepEntry {
                                    key: crate::crate_details::clone_string(&entry.key),
                                    value: DepEntryValue::Table(tbl),
                                },
                            );
                        }
                    },
                    DepEntryValue::Table(fs) => {
                        if table_field_exec(fs, "workspace").is_some() {
                            proof {
                                assert(entry_ws_conflict(old_entries[e as int], depsv));
                                assert(old_secs[s as int].entries[e as int] == entry@);
                            }
                            return Err(
                                ManifestError::WorkspaceNotSupported(
                                    crate::crate_details::clone_string(&entry.key),
                                ),
                            );
                        }
                        let edited = set_fields(fs, field, field_value, fields_to_remove);
                        new_entries.push(
                            DepEntry {
                                key: crate::crate_details::clone_string(&entry.key),
                                value: DepEntryValue::Table(edited),
                            },
                        );
                    },
                }
            } else {
                new_entries.push(dup_entry(entry));
            }
            proof {
                let nv = new_entries@.map_values(|x: DepEntry| x@);
                assert(nv[e as int] == spec_edit_entry(
                    old_entries[e as int],
                    depsv,
                    field@,
                    field_value@,
                    str_views(fields_to_remove@),
                    overwrite_str_value,
                ));
                assert forall|i: int|
                    0 <= i < e + 1 implies new_entries@.map_values(|x: DepEntry| x@)[i]
                    == spec_edit_entry(
                    #[trigger] old_entries[i],
                    depsv,
                    field@,
                    field_value@,
                    str_views(fields_to_remove@),
                    overwrite_str_value,
                ) by {}
            }
            e += 1;
        }
        if sec_match {
            modified = true;
        }
        let target = crate::crate_details::clone_opt_string(&sec.target);
        let kind = sec.kind;
        let ghost pre_sections = new_sections@;
        new_sections.push(DepSection { kind, target, entries: new_entries });
        proof {
            let nsv = new_sections@.map_values(|x: DepSection| x@);
            assert(nsv[s as int].entries =~= new_sections@[s as int].entries@.map_values(
                |x: DepEntry| x@,
            ));
            assert(section_edited(
                old_secs[s as int],
                nsv[s as int],
                depsv,
                field@,
                field_value@,
                str_views(fields_to_remove@),
                overwrite_str_value,
            ));
            assert forall|s0: int|
                0 <= s0 < s + 1 implies section_edited(
                #[trigger] old_secs[s0],
                new_sections@.map_values(|x: DepSection| x@)[s0],
                depsv,
                field@,
                field_value@,
                str_views(fields_to_remove@),
                overwrite_str_value,
            ) by {
                if s0 < s {
                    assert(new_sections@[s0] == pre_sections[s0]);
                }
            }
        }
        s += 1;
    }
    manifest.sections = new_sections;
    proof {
        assert(manifest@.sections =~= manifest.sections@.map_values(|x: DepSection| x@));
    }
    Ok(modified)
}

} // verus!

verus! {

/// The dev-dependency strip of one entry: a matched inline table that is
/// path-based loses its `version` field so the packaging tool drops the
/// entry; a shorthand has nothing to strip.
pub open spec fn spec_strip_entry(e: DepEntryView, strip: Seq<Seq<char>>) -> DepEntryView {
    if entry_matches(e, strip) {
        match e.value {
            DepEntryValueView::Table(fs) => if table_field(fs, "path"@) is Some && table_field(
                fs,
                "version"@,
            ) is Some {
                DepEntryView {
                    key: e.key,
                    value: DepEntryValueView::Table(
                        fs.filter(|f: DepFieldView| f.key != "version"@),
                    ),
                }
            } else {
                e
            },
            DepEntryValueView::Shorthand(_) => e,
        }
    } else {
        e
    }
}

/// Whether the strip changes the entry.
pub open spec fn entry_strippable(e: DepEntryView, strip: Seq<Seq<char>>) -> bool {
    entry_matches(e, strip) && match e.value {
        DepEntryValueView::Table(fs) => table_field(fs, "path"@) is Some && table_field(
            fs,
            "version"@,
        ) is Some,
        DepEntryValueView::Shorthand(_) => false,
    }
}

/// The whole dev-dependency section after the strip.
pub open spec fn section_stripped(
    o: DepSectionView,
    n: DepSectionView,
    strip: Seq<Seq<char>>,
) -> bool {
    &&& n.kind == o.kind
    &&& n.target == o.target
    &&& n.entries.len() == o.entries.len()
    &&& forall|i: int|
        0 <= i < o.entries.len() ==> n.entries[i] == spec_strip_entry(
            #[trigger] o.entries[i],
            strip,
        )
}

/// No entry of any dev-dependencies table carries a broken `package`
/// field.
pub open spec fn dev_sections_clean(secs: Seq<DepSectionView>) -> bool {
    forall|s: int, i: int|
        0 <= s < secs.len() && (#[trigger] secs[s]).kind == CrateDependencyKey::DevDependencies
            && 0 <= i < secs[s].entries.len() ==> !entry_package_broken(
            #[trigger] secs[s].entries[i],
        )
}

/// Strip one field list of its `version` field.
fn remove_version_field(fs: &Vec<DepField>) -> (r: Vec<DepField>)
    ensures
        r@.map_values(|f: DepField| f@) =~= fs@.map_values(|f: DepField| f@).filter(
            |f: DepFieldView| f.key != "version"@,
        ),
{
    let ghost fsv = fs@.map_values(|f: DepField| f@);
    let ghost pred = |f: DepFieldView| f.key != "version"@;
    let n = fs.len();
    let mut out: Vec<DepField> = Vec::new();
    let mut i: usize = 0;
    proof {
        assert(fsv.take(0) =~= Seq::<DepFieldView>::empty());
        assert(out@.map_values(|f: DepField| f@) =~= fsv.take(0).filter(pred));
    }
    while i < n
        invariant
            n == fs@.len(),
            fsv == fs@.map_values(|f: DepField| f@),
            pred == (|f: DepFieldView| f.key != "version"@),
            0 <= i <= n,
            out@.map_values(|f: DepField| f@) =~= fsv.take(i as int).filter(pred),
        decreases n - i,
    {
        let keep = !str_eq(fs[i].key.as_str(), "version");
        let ghost pre = out@;
        if keep {
            out.push(dup_field(&fs[i]));
        }
        proof {
            assert(fsv.take(i + 1).drop_last() =~= fsv.take(i as int));
            assert(fsv.take(i + 1).last() == fsv[i as int]);
            reveal_with_fuel(Seq::filter, 2);
            assert(fsv[i as int] == fs@[i as int]@);
            if keep {
                assert(pred(fsv[i as int]));
                assert(out@.map_values(|f: DepField| f@) =~= pre.map_values(
                    |f: DepField| f@,
                ).push(fs@[i as int]@));
            } else {
                assert(!pred(fsv[i as int]));
            }
        }
        i += 1;
    }
    proof {
        assert(fsv.take(n as int) =~= fsv);
    }
    out
}

/// In every dev-dependencies table, for every entry that names one of the
/// `strip` dependencies, remove the `version` field of a path-based inline
/// table. Returns whether anything was stripped; refuses a broken
/// `package` field in a dev-dependencies table, leaving the manifest
/// untouched.
pub fn strip_dev_dependency_versions(manifest: &mut Manifest, strip: &Vec<String>) -> (r: Result<
    bool,
    ManifestError,
>)
    ensures
        match r {
            Ok(modified) => {
                &&& final(manifest)@.package_name == old(manifest)@.package_name
                &&& final(manifest)@.version == old(manifest)@.version
                &&& final(manifest)@.description == old(manifest)@.description
                &&& final(manifest)@.readme == old(manifest)@.readme
                &&& final(manifest)@.sections.len() == old(manifest)@.sections.len()
                &&& forall|s: int|
                    0 <= s < old(manifest)@.sections.len() && (#[trigger] old(manifest)@.sections[s]).kind == CrateDependencyKey::DevDependencies ==> section_stripped(
                        old(manifest)@.sections[s],
                        final(manifest)@.sections[s],
                        str_views(strip@),
                    )
                &&& forall|s: int|
                    0 <= s < old(manifest)@.sections.len() && (#[trigger] old(manifest)@.sections[s]).kind != CrateDependencyKey::DevDependencies ==> final(manifest)@.sections[s] == old(manifest)@.sections[s]
                &&& modified == exists|s: int, i: int|
                    0 <= s < old(manifest)@.sections.len() && (#[trigger] old(manifest)@.sections[s]).kind == CrateDependencyKey::DevDependencies && 0 <= i < old(manifest)@.sections[s].entries.len() && entry_strippable(
                        #[trigger] old(manifest)@.sections[s].entries[i],
                        str_views(strip@),
                    )
                &&& dev_sections_clean(old(manifest)@.sections)
            },
            Err(ManifestError::PackageNotString(k)) => final(manifest)@ == old(manifest)@
                && exists|s: int, i: int|
                0 <= s < old(manifest)@.sections.len() && (#[trigger] old(manifest)@.sections[s]).kind
                    == CrateDependencyKey::DevDependencies && 0 <= i < old(manifest)@.sections[s].entries.len() && entry_package_broken(
                    #[trigger] old(manifest)@.sections[s].entries[i],
                ) && old(manifest)@.sections[s].entries[i].key == k@,
            Err(_) => false,
        },
{
    let ghost stripv = str_views(strip@);
    let ghost old_secs = manifest@.sections;
    let n_secs = manifest.sections.len();
    let mut new_sections: Vec<DepSection> = Vec::new();
    let mut modified = false;
    let mut s: usize = 0;
    while s < n_secs
        invariant
            stripv == str_views(strip@),
            old_secs == manifest@.sections,
            n_secs == manifest.sections@.len(),
            0 <= s <= n_secs,
            new_sections@.len() == s,
            forall|s0: int|
                0 <= s0 < s && (#[trigger] old_secs[s0]).kind
                    == CrateDependencyKey::DevDependencies ==> section_stripped(
                    old_secs[s0],
                    new_sections@.map_values(|x: DepSection| x@)[s0],
                    stripv,
                ),
            forall|s0: int|
                0 <= s0 < s && (#[trigger] old_secs[s0]).kind
                    != CrateDependencyKey::DevDependencies ==> new_sections@.map_values(
                    |x: DepSection| x@,
                )[s0] == old_secs[s0],
            modified == exists|s0: int, i: int|
                0 <= s0 < s && (#[trigger] old_secs[s0]).kind
                    == CrateDependencyKey::DevDependencies && 0 <= i < old_secs[s0].entries.len()
                    && entry_strippable(#[trigger] old_secs[s0].entries[i], stripv),
            forall|s0: int, i: int|
                0 <= s0 < s && (#[trigger] old_secs[s0]).kind
                    == CrateDependencyKey::DevDependencies && 0 <= i < old_secs[s0].entries.len()
                    ==> !entry_package_broken(#[trigger] old_secs[s0].entries[i]),
        decreases n_secs - s,
    {
        let sec = &manifest.sections[s];
        let is_dev = match sec.kind {
            CrateDependencyKey::DevDependencies => true,
            _ => false,
        };
        if !is_dev {
            let copied = DepSection {
                kind: sec.kind,
                target: crate::crate_details::clone_opt_string(&sec.target),
                entries: dup_entries(&sec.entries),
            };
            new_sections.push(copied);
            proof {
                let nsv = new_sections@.map_values(|x: DepSection| x@);
                assert(nsv[s as int].entries =~= old_secs[s as int].entries);
                assert(nsv[s as int] =~= old_secs[s as int]);
            }
        } else {
            let ghost old_entries = sec@.entries;
            let n_entries = sec.entries.len();
            let mut new_entries: Vec<DepEntry> = Vec::new();
            let mut sec_mod = false;
            let mut e: usize = 0;
            while e < n_entries
                invariant
                    stripv == str_views(strip@),
                    old_secs == manifest@.sections,
                    0 <= s < manifest.sections@.len(),
                    sec == &manifest.sections[s as int],
                    old_secs[s as int].kind == CrateDependencyKey::DevDependencies,
                    old_entries == sec@.entries,
                    n_entries == sec.entries@.len(),
                    0 <= e <= n_entries,
                    new_entries@.len() == e,
                    forall|i: int|
                        0 <= i < e ==> new_entries@.map_values(|x: DepEntry| x@)[i]
                            == spec_strip_entry(#[trigger] old_entries[i], stripv),
                    forall|i: int| 0 <= i < e ==> !entry_package_broken(#[trigger] old_entries[i]),
                    sec_mod == exists|i: int|
                        0 <= i < e && entry_strippable(#[trigger] old_entries[i], stripv),
                decreases n_entries - e,
            {
                let entry = &sec.entries[e];
                proof {
                    assert(entry@ == old_entries[e as int]);
                }
                let logical = match entry_logical_name_exec(entry) {
                    Ok(nm) => nm,
                    Err(err) => {
                        proof {
                            assert(old_secs[s as int].entries[e as int] == entry@);
                            assert(old_secs[s as int].kind == CrateDependencyKey::DevDependencies);
                        }
                        return Err(err);
                    },
                };
                let matched = crate::crate_details::contains_name(strip, logical.as_str());
                let mut pushed = false;
                if matched {
                    if let DepEntryValue::Table(fs) = &entry.value {
                        let has_path = table_field_exec(fs, "path").is_some();
                        let has_version = table_field_exec(fs, "version").is_some();
                        if has_path && has_version {
                            new_entries.push(
                                DepEntry {
                                    key: crate::crate_details::clone_string(&entry.key),
                                    value: DepEntryValue::Table(remove_version_field(fs)),
                                },
                            );
                            sec_mod = true;
                            pushed = true;
                            proof {
                                assert(entry_strippable(old_entries[e as int], stripv));
                            }
                        }
                    }
                }
                if !pushed {
                    new_entries.push(dup_entry(entry));
                }
                proof {
                    let nv = new_entries@.map_values(|x: DepEntry| x@);
                    assert(nv[e as int] == spec_strip_entry(old_entries[e as int], stripv));
                    assert forall|i: int|
                        0 <= i < e + 1 implies new_entries@.map_values(|x: DepEntry| x@)[i]
                        == spec_strip_entry(#[trigger] old_entries[i], stripv) by {}
                }
                e += 1;
            }
            if sec_mod {
                modified = true;
            }
            let target = crate::crate_details::clone_opt_string(&sec.target);
            let kind = sec.kind;
            new_sections.push(DepSection { kind, target, entries: new_entries });
            proof {
                let nsv = new_sections@.map_values(|x: DepSection| x@);
                assert(nsv[s as int].entries =~= new_sections@[s as int].entries@.map_values(
                    |x: DepEntry| x@,
                ));
                assert(section_stripped(old_secs[s as int], nsv[s as int], stripv));
            }
        }
        proof {
            let nsv = new_sections@.map_values(|x: DepSection| x@);
            assert forall|s0: int|
                0 <= s0 < s + 1 && (#[trigger] old_secs[s0]).kind
                    == CrateDependencyKey::DevDependencies implies section_stripped(
                old_secs[s0],
                nsv[s0],
                stripv,
            ) by {
                if s0 < s {
                    assert(nsv[s0] == new_sections@.map_values(|x: DepSection| x@)[s0]);
                }
            }
            assert forall|s0: int, i: int|
                0 <= s0 < s + 1 && (#[trigger] old_secs[s0]).kind
                    == CrateDependencyKey::DevDependencies && 0 <= i
                    < old_secs[s0].entries.len() implies !entry_package_broken(
                #[trigger] old_secs[s0].entries[i],
            ) by {
                if s0 == s as int {
                    assert(is_dev);
                }
            }
        }
        s += 1;
    }
    manifest.sections = new_sections;
    proof {
        assert(manifest@.sections =~= manifest.sections@.map_values(|x: DepSection| x@));
    }
    Ok(modified)
}

/// Copy an entry list.
fn dup_entries(es: &Vec<DepEntry>) -> (r: Vec<DepEntry>)
    ensures
        r@.map_values(|e: DepEntry| e@) =~= es@.map_values(|e: DepEntry| e@),
{
    let n = es.len();
    let mut out: Vec<DepEntry> = Vec::new();
    let mut i: usize = 0;
    while i < n
        invariant
            n == es@.len(),
            0 <= i <= n,
            out@.len() == i,
            forall|k: int| 0 <= k < i ==> (#[trigger] out@[k])@ == es@[k]@,
        decreases n - i,
    {
        out.push(dup_entry(&es[i]));
        i += 1;
    }
    proof {
        let ov = out@.map_values(|e: DepEntry| e@);
        let ev = es@.map_values(|e: DepEntry| e@);
        assert forall|k: int| 0 <= k < n implies ov[k] == ev[k] by {
            assert(out@[k]@ == es@[k]@);
        }
        assert(ov =~= ev);
    }
    out
}

impl Manifest {
    /// Set the package's own version string.
    pub fn set_own_version(&mut self, version: &String)
        ensures
            final(self)@ == (ManifestView { version: version@, ..old(self)@ }),
    {
        self.version = crate::crate_details::clone_string(version);
        proof {
            assert(final(self)@ =~= (ManifestView { version: version@, ..old(self)@ }));
        }
    }

    /// Set the package's description.
    pub fn set_description(&mut self, description: &String)
        ensures
            final(self)@ == (ManifestView { description: Some(description@), ..old(self)@ }),
    {
        self.description = Some(crate::crate_details::clone_string(description));
        proof {
            assert(final(self)@ =~= (ManifestView {
                description: Some(description@),
                ..old(self)@
            }));
        }
    }

    /// Remove every top-level dev-dependencies table, as packaging a crate
    /// with circular dev-dependencies requires. Target-conditional tables
    /// are kept.
    pub fn strip_dev_deps(&mut self) -> (modified: bool)
        ensures
            final(self)@.package_name == old(self)@.package_name,
            final(self)@.version == old(self)@.version,
            final(self)@.description == old(self)@.description,
            final(self)@.readme == old(self)@.readme,
            final(self)@.sections =~= old(self)@.sections.filter(
                |s: DepSectionView|
                    !(s.kind == CrateDependencyKey::DevDependencies && s.target is None),
            ),
            modified == (exists|s: int|
                0 <= s < old(self)@.sections.len() && (#[trigger] old(self)@.sections[s]).kind
                    == CrateDependencyKey::DevDependencies && old(self)@.sections[s].target is None),
    {
        let ghost old_secs = self@.sections;
        let ghost pred = |s: DepSectionView|
            !(s.kind == CrateDependencyKey::DevDependencies && s.target is None);
        let n = self.sections.len();
        let mut kept: Vec<DepSection> = Vec::new();
        let mut modified = false;
        let mut i: usize = 0;
        proof {
            assert(old_secs.take(0) =~= Seq::<DepSectionView>::empty());
            assert(kept@.map_values(|x: DepSection| x@) =~= old_secs.take(0).filter(pred));
        }
        while i < n
            invariant
                old_secs == self@.sections,
                pred == (|s: DepSectionView|
                    !(s.kind == CrateDependencyKey::DevDependencies && s.target is None)),
                n == self.sections@.len(),
                0 <= i <= n,
                kept@.map_values(|x: DepSection| x@) =~= old_secs.take(i as int).filter(pred),
                modified == exists|s0: int|
                    0 <= s0 < i && (#[trigger] old_secs[s0]).kind
                        == CrateDependencyKey::DevDependencies && old_secs[s0].target is None,
            decreases n - i,
        {
            let sec = &self.sections[i];
            let is_top_dev = match (&sec.kind, &sec.target) {
                (CrateDependencyKey::DevDependencies, None) => true,
                _ => false,
            };
            let ghost pre = kept@;
            if is_top_dev {
                modified = true;
            } else {
                kept.push(
                    DepSection {
                        kind: sec.kind,
                        target: crate::crate_details::clone_opt_string(&sec.target),
                        entries: dup_entries(&sec.entries),
                    },
                );
                proof {
                    let nv = kept@.map_values(|x: DepSection| x@);
                    assert(nv[pre.len() as int] =~= old_secs[i as int]);
                    assert(nv =~= pre.map_values(|x: DepSection| x@).push(old_secs[i as int]));
                }
            }
            proof {
                assert(old_secs.take(i + 1).drop_last() =~= old_secs.take(i as int));
                assert(old_secs.take(i + 1).last() == old_secs[i as int]);
                reveal_with_fuel(Seq::filter, 2);
            }
            i += 1;
        }
        proof {
            assert(old_secs.take(n as int) =~= old_secs);
        }
        self.sections = kept;
        proof {
            assert(self@.sections =~= self.sections@.map_values(|x: DepSection| x@));
        }
        modified
    }
}

/// An entry counted as a workspace-local path dependency: an inline table
/// with a string `path` field.
pub open spec fn entry_is_path_dep(e: DepEntryView) -> bool {
    match e.value {
        DepEntryValueView::Table(fs) => table_field(fs, "path"@) matches Some(
            FieldValueView::Str(_),
        ),
        DepEntryValueView::Shorthand(_) => false,
    }
}

/// An entry whose `path` field is not a string.
pub open spec fn entry_path_broken(e: DepEntryView) -> bool {
    match e.value {
        DepEntryValueView::Table(fs) => table_field(fs, "path"@) matches Some(
            FieldValueView::Opaque(_),
        ),
        DepEntryValueView::Shorthand(_) => false,
    }
}

/// The package names of the path-based dependencies in one dependency
/// table: entries with a string `path` field, each under its `package`
/// name when renamed and its table key otherwise. Entries without a path
/// are skipped; a non-string `path`, or a non-string `package` on a
/// path-based entry, is refused.
pub fn filter_workspace_dependencies(entries: &Vec<DepEntry>) -> (r: Result<
    Vec<String>,
    ManifestError,
>)
    ensures
        match r {
            Ok(names) => {
                &&& forall|i: int|
                    0 <= i < entries@.len() ==> !entry_path_broken(
                        #[trigger] entries@[i]@,
                    ) && (entry_is_path_dep(entries@[i]@) ==> !entry_package_broken(entries@[i]@))
                &&& forall|n: Seq<char>|
                    str_views(names@).contains(n) <==> exists|i: int|
                        0 <= i < entries@.len() && entry_is_path_dep(#[trigger] entries@[i]@)
                            && entry_logical_name(entries@[i]@) == n
            },
            Err(ManifestError::PathNotString(k)) => exists|i: int|
                0 <= i < entries@.len() && entry_path_broken(#[trigger] entries@[i]@)
                    && entries@[i]@.key == k@,
            Err(ManifestError::PackageNotString(k)) => exists|i: int|
                0 <= i < entries@.len() && entry_package_broken(#[trigger] entries@[i]@)
                    && entries@[i]@.key == k@,
            Err(_) => false,
        },
{
    let n = entries.len();
    let mut names: Vec<String> = Vec::new();
    let mut i: usize = 0;
    while i < n
        invariant
            n == entries@.len(),
            0 <= i <= n,
            forall|i0: int|
                0 <= i0 < i ==> !entry_path_broken(#[trigger] entries@[i0]@) && (entry_is_path_dep(
                    entries@[i0]@,
                ) ==> !entry_package_broken(entries@[i0]@)),
            forall|nm: Seq<char>|
                str_views(names@).contains(nm) <==> exists|i0: int|
                    0 <= i0 < i && entry_is_path_dep(#[trigger] entries@[i0]@)
                        && entry_logical_name(entries@[i0]@) == nm,
        decreases n - i,
    {
        let entry = &entries[i];
        let mut is_path = false;
        if let DepEntryValue::Table(fs) = &entry.value {
            match table_field_exec(fs, "path") {
                Some(FieldValue::Str(_)) => {
                    is_path = true;
                },
                Some(FieldValue::Opaque(_)) => {
                    proof {
                        assert(entry_path_broken(entries@[i as int]@));
                    }
                    return Err(
                        ManifestError::PathNotString(
                            crate::crate_details::clone_string(&entry.key),
                        ),
                    );
                },
                None => {},
            }
        }
        let ghost pre = names@;
        if is_path {
            let logical = match entry_logical_name_exec(entry) {
                Ok(nm) => nm,
                Err(err) => {
                    return Err(err);
                },
            };
            if !crate::crate_details::contains_name(&names, logical.as_str()) {
                names.push(crate::crate_details::clone_string(logical));
                proof {
                    assert(str_views(names@) =~= str_views(pre).push(entry_logical_name(
                        entries@[i as int]@,
                    )));
                }
            }
        }
        proof {
            assert forall|nm: Seq<char>| str_views(names@).contains(nm) <==> exists|i0: int|
                0 <= i0 < i + 1 && entry_is_path_dep(#[trigger] entries@[i0]@)
                    && entry_logical_name(entries@[i0]@) == nm by {
                if str_views(names@).contains(nm) {
                    let w = choose|w: int|
                        0 <= w < str_views(names@).len() && str_views(names@)[w] == nm;
                    if w < pre.len() {
                        assert(str_views(pre)[w] == nm);
                        assert(str_views(pre).contains(nm));
                    } else {
                        assert(entry_is_path_dep(entries@[i as int]@) && entry_logical_name(
                            entries@[i as int]@,
                        ) == nm);
                    }
                }
                if exists|i0: int|
                    0 <= i0 < i + 1 && entry_is_path_dep(#[trigger] entries@[i0]@)
                        && entry_logical_name(entries@[i0]@) == nm {
                    let i0 = choose|i0: int|
                        0 <= i0 < i + 1 && entry_is_path_dep(#[trigger] entries@[i0]@)
                            && entry_logical_name(entries@[i0]@) == nm;
                    if i0 < i {
                        assert(str_views(pre).contains(nm));
                        let w = choose|w: int|
                            0 <= w < str_views(pre).len() && str_views(pre)[w] == nm;
                        if names@.len() > pre.len() {
                            assert(str_views(names@)[w] == nm);
                        }
                    } else {
                        if str_views(pre).contains(nm) {
                            let w = choose|w: int|
                                0 <= w < str_views(pre).len() && str_views(pre)[w] == nm;
                            if names@.len() > pre.len() {
                                assert(str_views(names@)[w] == nm);
                            }
                        } else {
                            assert(str_views(names@).last() == nm);
                        }
                    }
                }
            }
        }
        i += 1;
    }
    Ok(names)
}

} // verus!

verus! {

/// Filtering twice with a finer predicate filters once: when `p` entails
/// `q`, applying `q` and then `p` keeps exactly the `p`-fields.
proof fn lemma_filter_subsume(
    s: Seq<DepFieldView>,
    p: spec_fn(DepFieldView) -> bool,
    q: spec_fn(DepFieldView) -> bool,
)
    requires
        forall|f: DepFieldView| #[trigger] p(f) ==> q(f),
    ensures
        s.filter(q).filter(p) =~= s.filter(p),
    decreases s.len(),
{
    reveal_with_fuel(Seq::filter, 2);
    if s.len() == 0 {
    } else {
        lemma_filter_subsume(s.drop_last(), p, q);
        let dl = s.drop_last();
        if q(s.last()) {
            assert(s.filter(q) == dl.filter(q).push(s.last()));
            assert(dl.filter(q).push(s.last()).drop_last() =~= dl.filter(q));
        } else {
            assert(!p(s.last()));
        }
    }
}

/// A map that rewrites only fields outside `p` (and never moves a field
/// into or out of `p`) leaves the `p`-fields of the list untouched.
proof fn lemma_filter_map_untouched(
    s: Seq<DepFieldView>,
    g: spec_fn(DepFieldView) -> DepFieldView,
    p: spec_fn(DepFieldView) -> bool,
)
    requires
        forall|f: DepFieldView| #[trigger] p(f) ==> g(f) == f,
        forall|f: DepFieldView| #[trigger] p(g(f)) == p(f),
    ensures
        s.map_values(g).filter(p) =~= s.filter(p),
    decreases s.len(),
{
    reveal_with_fuel(Seq::filter, 2);
    if s.len() == 0 {
        assert(s.map_values(g) =~= s);
    } else {
        lemma_filter_map_untouched(s.drop_last(), g, p);
        assert(s.map_values(g).drop_last() =~= s.drop_last().map_values(g));
        assert(s.map_values(g).last() == g(s.last()));
        if p(s.last()) {
            assert(g(s.last()) == s.last());
        }
    }
}

/// Appending a field outside `p` does not change the `p`-fields.
proof fn lemma_filter_push_out(s: Seq<DepFieldView>, x: DepFieldView, p: spec_fn(DepFieldView) -> bool)
    requires
        !p(x),
    ensures
        s.push(x).filter(p) =~= s.filter(p),
{
    reveal_with_fuel(Seq::filter, 2);
    assert(s.push(x).drop_last() =~= s);
}

/// Manifest-edit preservation: in an edited dependency table, the fields
/// other than the written field and the dropped fields are exactly the
/// original ones, in their original order with their original values.
/// Together with the editor's contract — unmatched entries, entry keys,
/// section structure and the rest of the manifest are returned unchanged —
/// this says the edit touches nothing it was not asked to touch.
pub proof fn lemma_edit_preserves_untargeted_fields(
    fs: Seq<DepFieldView>,
    field: Seq<char>,
    value: Seq<char>,
    remove: Seq<Seq<char>>,
)
    ensures
        spec_set_fields(fs, field, value, remove).filter(
            |f: DepFieldView| f.key != field && !remove.contains(f.key),
        ) =~= fs.filter(|f: DepFieldView| f.key != field && !remove.contains(f.key)),
{
    let p = |f: DepFieldView| f.key != field && !remove.contains(f.key);
    let q = |f: DepFieldView| !remove.contains(f.key);
    let g = |f: DepFieldView|
        if f.key == field {
            DepFieldView { key: f.key, value: FieldValueView::Str(value) }
        } else {
            f
        };
    if exists|i: int| 0 <= i < fs.len() && (#[trigger] fs[i]).key == field {
        let set = fs.map_values(g);
        lemma_filter_subsume(set, p, q);
        lemma_filter_map_untouched(fs, g, p);
    } else {
        let x = DepFieldView { key: field, value: FieldValueView::Str(value) };
        let set = fs.push(x);
        lemma_filter_subsume(set, p, q);
        lemma_filter_push_out(fs, x, p);
    }
}

/// Filtering keeps the first occurrence of `k` when every `k`-field
/// passes the filter.
proof fn lemma_table_field_filter(
    s: Seq<DepFieldView>,
    p: spec_fn(DepFieldView) -> bool,
    k: Seq<char>,
)
    requires
        forall|f: DepFieldView| #[trigger] f.key == k ==> p(f),
    ensures
        table_field(s.filter(p), k) == table_field(s, k),
    decreases s.len(),
{
    broadcast use vstd::seq_lib::group_seq_properties;

    if s.len() == 0 {
    } else {
        let rest = s.drop_first();
        lemma_table_field_filter(rest, p, k);
        assert(s =~= seq![s[0]] + rest);
        Seq::filter_distributes_over_add(seq![s[0]], rest, p);
        reveal_with_fuel(Seq::filter, 2);
        assert(seq![s[0]].drop_last() =~= Seq::<DepFieldView>::empty());
        if p(s[0]) {
            assert(seq![s[0]].filter(p) =~= seq![s[0]]);
            assert(s.filter(p) =~= seq![s[0]] + rest.filter(p));
            assert(s.filter(p).len() > 0 && s.filter(p)[0] == s[0]);
            assert(s.filter(p).drop_first() =~= rest.filter(p));
        } else {
            assert(seq![s[0]].filter(p) =~= Seq::<DepFieldView>::empty());
            assert(s.filter(p) =~= rest.filter(p));
            assert(s[0].key != k);
        }
    }
}

/// A key-preserving rewrite that leaves `k`-fields alone keeps the first
/// occurrence of `k`.
proof fn lemma_table_field_map(
    s: Seq<DepFieldView>,
    g: spec_fn(DepFieldView) -> DepFieldView,
    k: Seq<char>,
)
    requires
        forall|f: DepFieldView| (#[trigger] g(f)).key == f.key,
        forall|f: DepFieldView| #[trigger] f.key == k ==> g(f) == f,
    ensures
        table_field(s.map_values(g), k) == table_field(s, k),
    decreases s.len(),
{
    if s.len() > 0 {
        lemma_table_field_map(s.drop_first(), g, k);
        assert(s.map_values(g).drop_first() =~= s.drop_first().map_values(g));
        assert(s.map_values(g)[0] == g(s[0]));
    }
}

/// Appending a field with a different key keeps the first occurrence of
/// `k`.
proof fn lemma_table_field_push(s: Seq<DepFieldView>, x: DepFieldView, k: Seq<char>)
    requires
        x.key != k,
    ensures
        table_field(s.push(x), k) == table_field(s, k),
    decreases s.len(),
{
    if s.len() == 0 {
        assert(s.push(x)[0] == x);
        assert(s.push(x).drop_first() =~= Seq::<DepFieldView>::empty());
        assert(table_field(s.push(x), k) == table_field(Seq::<DepFieldView>::empty(), k));
        assert(table_field(Seq::<DepFieldView>::empty(), k) is None);
    } else {
        lemma_table_field_push(s.drop_first(), x, k);
        assert(s.push(x)[0] == s[0]);
        assert(s.push(x).drop_first() =~= s.drop_first().push(x));
    }
}

/// The first occurrence of any key other than the written field and the
/// dropped fields is unchanged by the edit.
proof fn lemma_table_field_set_fields(
    fs: Seq<DepFieldView>,
    field: Seq<char>,
    value: Seq<char>,
    remove: Seq<Seq<char>>,
    k: Seq<char>,
)
    requires
        k != field,
        !remove.contains(k),
    ensures
        table_field(spec_set_fields(fs, field, value, remove), k) == table_field(fs, k),
{
    let p = |f: DepFieldView| !remove.contains(f.key);
    let g = |f: DepFieldView|
        if f.key == field {
            DepFieldView { key: f.key, value: FieldValueView::Str(value) }
        } else {
            f
        };
    if exists|i: int| 0 <= i < fs.len() && (#[trigger] fs[i]).key == field {
        lemma_table_field_filter(fs.map_values(g), p, k);
        lemma_table_field_map(fs, g, k);
    } else {
        let x = DepFieldView { key: field, value: FieldValueView::Str(value) };
        lemma_table_field_filter(fs.push(x), p, k);
        lemma_table_field_push(fs, x, k);
    }
}

} // verus!

verus! {


/// Unfolding the first-occurrence lookup at the head of a field list.
proof fn lemma_table_field_first_split(fs: Seq<DepFieldView>, k: Seq<char>)
    requires
        fs.len() > 0,
    ensures
        table_field(fs, k) == if fs[0].key == k {
            Some(fs[0].value)
        } else {
            table_field(fs.drop_first(), k)
        },
{
}

/// The two reserved field names differ.
proof fn proof_version_package_differ()
    ensures
        "version"@ != "package"@,
{
    reveal_strlit("version");
    reveal_strlit("package");
    assert("version"@[0] == 'v');
    assert("package"@[0] == 'p');
}

/// Every field of a filtered list is a field of the original list.
proof fn lemma_filter_members(s: Seq<DepFieldView>, p: spec_fn(DepFieldView) -> bool)
    ensures
        forall|j: int| 0 <= j < s.filter(p).len() ==> s.contains(#[trigger] s.filter(p)[j]),
    decreases s.len(),
{
    reveal_with_fuel(Seq::filter, 2);
    if s.len() > 0 {
        lemma_filter_members(s.drop_last(), p);
        assert forall|j: int| 0 <= j < s.filter(p).len() implies s.contains(
            #[trigger] s.filter(p)[j],
        ) by {
            let dl = s.drop_last();
            if p(s.last()) {
                assert(s.filter(p) == dl.filter(p).push(s.last()));
                if j < dl.filter(p).len() {
                    assert(dl.contains(dl.filter(p)[j]));
                    let w = choose|w: int| 0 <= w < dl.len() && dl[w] == dl.filter(p)[j];
                    assert(s[w] == dl.filter(p)[j]);
                } else {
                    assert(s.filter(p)[j] == s.last());
                    assert(s[s.len() - 1] == s.last());
                }
            } else {
                assert(s.filter(p) == dl.filter(p));
                assert(dl.contains(dl.filter(p)[j]));
                let w = choose|w: int| 0 <= w < dl.len() && dl[w] == dl.filter(p)[j];
                assert(s[w] == dl.filter(p)[j]);
            }
        }
    }
}

/// Filtering a list in which every field passes changes nothing.
proof fn lemma_filter_all_pass(s: Seq<DepFieldView>, p: spec_fn(DepFieldView) -> bool)
    requires
        forall|i: int| 0 <= i < s.len() ==> p(#[trigger] s[i]),
    ensures
        s.filter(p) =~= s,
    decreases s.len(),
{
    reveal_with_fuel(Seq::filter, 2);
    if s.len() > 0 {
        lemma_filter_all_pass(s.drop_last(), p);
        assert(p(s.last()));
    }
}

/// Setting the same field twice is the same as setting it once.
proof fn lemma_set_fields_idempotent(
    fs: Seq<DepFieldView>,
    field: Seq<char>,
    value: Seq<char>,
    remove: Seq<Seq<char>>,
)
    requires
        !remove.contains(field),
    ensures
        spec_set_fields(spec_set_fields(fs, field, value, remove), field, value, remove)
            =~= spec_set_fields(fs, field, value, remove),
{
    let p = |f: DepFieldView| !remove.contains(f.key);
    let g = |f: DepFieldView|
        if f.key == field {
            DepFieldView { key: f.key, value: FieldValueView::Str(value) }
        } else {
            f
        };
    let x = DepFieldView { key: field, value: FieldValueView::Str(value) };
    let set1 = if exists|i: int| 0 <= i < fs.len() && (#[trigger] fs[i]).key == field {
        fs.map_values(g)
    } else {
        fs.push(x)
    };
    let f1 = set1.filter(p);
    // The once-edited list carries the field with the written value.
    assert(exists|i: int| 0 <= i < set1.len() && (#[trigger] set1[i]).key == field && set1[i]
        == x) by {
        if exists|i: int| 0 <= i < fs.len() && (#[trigger] fs[i]).key == field {
            let w = choose|w: int| 0 <= w < fs.len() && (#[trigger] fs[w]).key == field;
            assert(set1[w] == g(fs[w]));
            assert(set1[w] == x);
        } else {
            assert(set1[set1.len() - 1] == x);
        }
    }
    assert(f1.contains(x)) by {
        let w = choose|w: int| 0 <= w < set1.len() && (#[trigger] set1[w]).key == field && set1[w]
            == x;
        broadcast use vstd::seq_lib::group_filter_ensures;
        assert(p(set1[w]));
        assert(f1.contains(set1[w]));
    }
    // Every field-keyed field of the once-edited list already holds the
    // written value.
    assert forall|i: int|
        0 <= i < f1.len() && (#[trigger] f1[i]).key == field implies f1[i] == x by {
        lemma_filter_members(set1, p);
        assert(set1.contains(f1[i]));
        let w = choose|w: int| 0 <= w < set1.len() && set1[w] == f1[i];
        if exists|k: int| 0 <= k < fs.len() && (#[trigger] fs[k]).key == field {
            assert(set1[w] == g(fs[w]));
        } else {
            if w < fs.len() {
                assert(set1[w] == fs[w]);
                assert(!(fs[w].key == field));
            } else {
                assert(set1[w] == x);
            }
        }
    }
    // So the second edit's rewrite and filter both do nothing.
    let w1 = choose|w: int| 0 <= w < f1.len() && (#[trigger] f1[w]).key == field;
    assert(exists|i: int| 0 <= i < f1.len() && (#[trigger] f1[i]).key == field) by {
        let v = choose|v: int| 0 <= v < f1.len() && f1[v] == x;
        assert(f1[v].key == field);
    }
    assert(f1.map_values(g) =~= f1) by {
        assert forall|i: int| 0 <= i < f1.len() implies #[trigger] f1.map_values(g)[i] == f1[i] by {
            if f1[i].key == field {
                assert(f1[i] == x);
            }
        }
    }
    assert(f1.filter(p) =~= f1) by {
        broadcast use vstd::seq_lib::group_filter_ensures;
        lemma_filter_all_pass(f1, p);
    }
}

/// Applying the dependency edit to an entry twice yields what one
/// application yields, as long as the edit does not drop or rewrite the
/// fields that identify the entry (`package`) or carry its version.
pub proof fn lemma_edit_entry_idempotent(
    e: DepEntryView,
    deps: Seq<Seq<char>>,
    field: Seq<char>,
    value: Seq<char>,
    remove: Seq<Seq<char>>,
    overwrite: bool,
)
    requires
        !remove.contains(field),
        !remove.contains("version"@),
        !remove.contains("package"@),
        field != "package"@,
    ensures
        spec_edit_entry(
            spec_edit_entry(e, deps, field, value, remove, overwrite),
            deps,
            field,
            value,
            remove,
            overwrite,
        ) =~= spec_edit_entry(e, deps, field, value, remove, overwrite),
{
    let e1 = spec_edit_entry(e, deps, field, value, remove, overwrite);
    if entry_matches(e, deps) {
        match e.value {
            DepEntryValueView::Shorthand(v) => {
                if overwrite {
                    assert(entry_logical_name(e1) == e.key);
                } else if field == "version"@ {
                    let fs1 = seq![
                        DepFieldView { key: "version"@, value: FieldValueView::Str(value) },
                    ];
                    assert(table_field(fs1, "package"@) is None) by {
                        proof_version_package_differ();
                        lemma_table_field_first_split(fs1, "package"@);
                        assert(fs1.drop_first() =~= Seq::<DepFieldView>::empty());
                        assert(table_field(Seq::<DepFieldView>::empty(), "package"@) is None);
                    }
                    assert(entry_logical_name(e1) == e.key);
                    assert(entry_matches(e1, deps));
                    lemma_set_fields_idempotent(fs1, field, value, remove);
                    assert(spec_set_fields(fs1, field, value, remove) =~= fs1) by {
                        let p = |f: DepFieldView| !remove.contains(f.key);
                        let g = |f: DepFieldView|
                            if f.key == field {
                                DepFieldView { key: f.key, value: FieldValueView::Str(value) }
                            } else {
                                f
                            };
                        assert(fs1[0].key == field);
                        assert(fs1.map_values(g) =~= fs1);
                        lemma_filter_all_pass(fs1, p);
                    }
                } else {
                    let fs1 = seq![
                        DepFieldView { key: "version"@, value: FieldValueView::Str(v) },
                        DepFieldView { key: field, value: FieldValueView::Str(value) },
                    ];
                    assert(table_field(fs1, "package"@) is None) by {
                        proof_version_package_differ();
                        lemma_table_field_first_split(fs1, "package"@);
                        assert(fs1.drop_first() =~= seq![
                            DepFieldView { key: field, value: FieldValueView::Str(value) },
                        ]);
                        lemma_table_field_first_split(fs1.drop_first(), "package"@);
                        assert(fs1.drop_first().drop_first() =~= Seq::<DepFieldView>::empty());
                        assert(table_field(Seq::<DepFieldView>::empty(), "package"@) is None);
                    }
                    assert(entry_logical_name(e1) == e.key);
                    assert(entry_matches(e1, deps));
                    assert(spec_set_fields(fs1, field, value, remove) =~= fs1) by {
                        let p = |f: DepFieldView| !remove.contains(f.key);
                        let g = |f: DepFieldView|
                            if f.key == field {
                                DepFieldView { key: f.key, value: FieldValueView::Str(value) }
                            } else {
                                f
                            };
                        assert(fs1[1].key == field);
                        assert forall|i: int|
                            0 <= i < fs1.len() implies #[trigger] fs1.map_values(g)[i]
                            == fs1[i] by {}
                        assert(fs1.map_values(g) =~= fs1);
                        lemma_filter_all_pass(fs1, p);
                    }
                }
            },
            DepEntryValueView::Table(fs) => {
                let fs1 = spec_set_fields(fs, field, value, remove);
                lemma_table_field_set_fields(fs, field, value, remove, "package"@);
                assert(entry_logical_name(e1) == entry_logical_name(e));
                assert(entry_matches(e1, deps));
                assert(!entry_package_broken(e1) == !entry_package_broken(e));
                lemma_set_fields_idempotent(fs, field, value, remove);
            },
        }
    }
}

} // verus!

verus! {

/// A field list with no field under the given key has no first occurrence
/// of it.
proof fn lemma_table_field_absent(fs: Seq<DepFieldView>, k: Seq<char>)
    requires
        forall|i: int| 0 <= i < fs.len() ==> (#[trigger] fs[i]).key != k,
    ensures
        table_field(fs, k) is None,
    decreases fs.len(),
{
    if fs.len() > 0 {
        lemma_table_field_absent(fs.drop_first(), k);
    }
}

/// The dev-dependency strip never touches an entry's `package` field: its
/// logical name and its broken-package status are preserved.
pub proof fn lemma_strip_entry_preserves_package(e: DepEntryView, strip: Seq<Seq<char>>)
    ensures
        entry_logical_name(spec_strip_entry(e, strip)) == entry_logical_name(e),
        entry_package_broken(spec_strip_entry(e, strip)) == entry_package_broken(e),
{
    proof_version_package_differ();
    if entry_matches(e, strip) {
        match e.value {
            DepEntryValueView::Table(fs) => {
                if table_field(fs, "path"@) is Some && table_field(fs, "version"@) is Some {
                    let p = |f: DepFieldView| f.key != "version"@;
                    lemma_table_field_filter(fs, p, "package"@);
                }
            },
            DepEntryValueView::Shorthand(_) => {},
        }
    }
}

/// Stripping a stripped entry changes nothing: the first strip removes
/// the `version` field, so the second finds none.
pub proof fn lemma_strip_entry_idempotent(e: DepEntryView, strip: Seq<Seq<char>>)
    ensures
        spec_strip_entry(spec_strip_entry(e, strip), strip) == spec_strip_entry(e, strip),
{
    let e1 = spec_strip_entry(e, strip);
    lemma_strip_entry_preserves_package(e, strip);
    assert(entry_matches(e1, strip) == entry_matches(e, strip));
    if entry_matches(e, strip) {
        match e.value {
            DepEntryValueView::Table(fs) => {
                if table_field(fs, "path"@) is Some && table_field(fs, "version"@) is Some {
                    let p = |f: DepFieldView| f.key != "version"@;
                    let fs1 = fs.filter(p);
                    assert(table_field(fs1, "version"@) is None) by {
                        broadcast use vstd::seq_lib::group_filter_ensures;
                        lemma_table_field_absent(fs1, "version"@);
                    }
                }
            },
            DepEntryValueView::Shorthand(_) => {},
        }
    }
}

/// Manifest-preparation idempotence: once the dev-dependency strip has
/// run, its result is clean and a second strip is the identity on every
/// dev-dependencies table.
pub proof fn lemma_strip_idempotent(
    old_secs: Seq<DepSectionView>,
    new_secs: Seq<DepSectionView>,
    strip: Seq<Seq<char>>,
)
    requires
        dev_sections_clean(old_secs),
        new_secs.len() == old_secs.len(),
        forall|s: int|
            0 <= s < old_secs.len() && (#[trigger] old_secs[s]).kind
                == CrateDependencyKey::DevDependencies ==> section_stripped(
                old_secs[s],
                new_secs[s],
                strip,
            ),
        forall|s: int|
            0 <= s < old_secs.len() && (#[trigger] old_secs[s]).kind
                != CrateDependencyKey::DevDependencies ==> new_secs[s] == old_secs[s],
    ensures
        dev_sections_clean(new_secs),
        forall|s: int|
            0 <= s < new_secs.len() && (#[trigger] new_secs[s]).kind
                == CrateDependencyKey::DevDependencies ==> section_stripped(
                new_secs[s],
                new_secs[s],
                strip,
            ),
{
    assert forall|s: int, i: int|
        0 <= s < new_secs.len() && (#[trigger] new_secs[s]).kind
            == CrateDependencyKey::DevDependencies && 0 <= i
            < new_secs[s].entries.len() implies !entry_package_broken(
        #[trigger] new_secs[s].entries[i],
    ) by {
        if old_secs[s].kind == CrateDependencyKey::DevDependencies {
            assert(new_secs[s].entries[i] == spec_strip_entry(old_secs[s].entries[i], strip));
            lemma_strip_entry_preserves_package(old_secs[s].entries[i], strip);
            assert(!entry_package_broken(old_secs[s].entries[i]));
        } else {
            assert(new_secs[s] == old_secs[s]);
        }
    }
    assert forall|s: int|
        0 <= s < new_secs.len() && (#[trigger] new_secs[s]).kind
            == CrateDependencyKey::DevDependencies implies section_stripped(
        new_secs[s],
        new_secs[s],
        strip,
    ) by {
        assert forall|i: int|
            0 <= i < new_secs[s].entries.len() implies new_secs[s].entries[i] == spec_strip_entry(
            #[trigger] new_secs[s].entries[i],
            strip,
        ) by {
            if old_secs[s].kind == CrateDependencyKey::DevDependencies {
                assert(new_secs[s].entries[i] == spec_strip_entry(
                    old_secs[s].entries[i],
                    strip,
                ));
                lemma_strip_entry_idempotent(old_secs[s].entries[i], strip);
            } else {
                // A dev table in the result was a dev table before.
                assert(new_secs[s] == old_secs[s]);
                assert(false);
            }
        }
    }
}

} // verus!
