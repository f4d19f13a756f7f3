//! The whole normalization of one manifest: collapse, regroup, order the
//! `[package]` fields, sort the dependency tables, and check that the
//! result still parses before handing it back.

use vstd::prelude::*;
use vstd::string::StringExecFns;
use crate::order::{ascending, canonical_order, strs};
use crate::regroup::{regroup_text, regrouped};
use crate::text::{lines_of, text_of};
use crate::table::{
    collapse_table_entries, collapsible, collapsible_keys, copy_item, get_ref, implicit, inline_of,
    item_kind, key_forms, lemma_filter_same,
    key_list, lemma_same_entries, reorder_keys, replace_item, set_explicit, shown,
    sort_table_in_place, stored_items, stored_keys, table_in, table_keys, ItemKind,
};

verus! {

#[verifier::external_type_specification]
#[verifier::external_body]
pub struct ExDocumentMut(toml_edit::DocumentMut);

#[verifier::external_type_specification]
#[verifier::external_body]
pub struct ExTomlError(toml_edit::TomlError);

/// Whether toml_edit's parser accepts a text as a document.
pub uninterp spec fn valid_toml(s: Seq<char>) -> bool;

/// The text that toml_edit writes for the document it parses from a text
/// it accepts.
pub uninterp spec fn reprinted(s: Seq<char>) -> Seq<char>;

/// The text that toml_edit writes for a document.
pub uninterp spec fn doc_text(d: toml_edit::DocumentMut) -> Seq<char>;

/// Relies on `DocumentMut`'s `FromStr`, which parses the text as a
/// document: whether it succeeds, and the text that `Display` then writes,
/// depend on the text alone (the tables' hashers do not reach either).
#[verifier::external_body]
pub(crate) fn parse_manifest(text: &str) -> (r: Result<toml_edit::DocumentMut, toml_edit::TomlError>)
    ensures
        r is Ok == valid_toml(text@),
        r matches Ok(d) ==> doc_text(d) == reprinted(text@),
{
    text.parse::<toml_edit::DocumentMut>()
}

/// Relies on `DocumentMut`'s `Display`: the document as text, which
/// depends on the document alone.
#[verifier::external_body]
pub(crate) fn render(doc: &toml_edit::DocumentMut) -> (r: String)
    ensures
        r@ == doc_text(*doc),
{
    doc.to_string()
}

/// The root table of a document.
pub uninterp spec fn doc_table(d: toml_edit::DocumentMut) -> toml_edit::Table;

/// Relies on `DocumentMut::as_table`: the root table.
#[verifier::external_body]
pub(crate) fn root_table(doc: &toml_edit::DocumentMut) -> (r: &toml_edit::Table)
    ensures
        *r == doc_table(*doc),
{
    doc.as_table()
}

/// Relies on `DocumentMut::get_mut`, which goes to `Table::get_mut` on the
/// root table: the entry under a shown key is replaced in place.
#[verifier::external_body]
pub(crate) fn root_put(doc: &mut toml_edit::DocumentMut, key: &str, item: toml_edit::Item)
    ensures
        stored_keys(doc_table(*final(doc))) == stored_keys(doc_table(*old(doc))),
        stored_items(doc_table(*final(doc))) == if shown(doc_table(*old(doc)), key@) {
            stored_items(doc_table(*old(doc))).insert(key@, item)
        } else {
            stored_items(doc_table(*old(doc)))
        },
{
    if let Some(slot) = doc.get_mut(key) {
        *slot = item;
    }
}

/// The table under `key` of the root of `d`, if the root shows one there.
pub open spec fn root_section(d: toml_edit::DocumentMut, key: Seq<char>) -> Option<toml_edit::Table> {
    let root = doc_table(d);
    let it = stored_items(root)[key];
    if shown(root, key) && (item_kind(it) == ItemKind::Table || item_kind(it) == ItemKind::DottedTable) {
        Some(table_in(it))
    } else {
        None
    }
}

/// Relies on the `Table` variant of `toml_edit::Item`: the table that a
/// table entry holds.
#[verifier::external_body]
pub(crate) fn into_table(i: toml_edit::Item) -> (r: Option<toml_edit::Table>)
    ensures
        r is Some == (item_kind(i) == ItemKind::Table || item_kind(i) == ItemKind::DottedTable),
        r matches Some(t) ==> t == table_in(i),
{
    match i {
        toml_edit::Item::Table(t) => Some(t),
        _ => None,
    }
}

/// Relies on the `Table` variant of `toml_edit::Item`: a table entry
/// holding `t`.
#[verifier::external_body]
pub(crate) fn table_item(t: toml_edit::Table) -> (r: toml_edit::Item)
    ensures
        table_in(r) == t,
        item_kind(r) == ItemKind::Table || item_kind(r) == ItemKind::DottedTable,
{
    toml_edit::Item::Table(t)
}

/// Why a manifest could not be normalized.
#[derive(Debug, Clone, Copy, PartialEq, Eq, Structural)]
pub enum FormatError {
    /// The input is not well-formed.
    Parse,
    /// Regrouping the sections gave a text that does not parse; this is a
    /// defect of the formatter, and nothing was changed.
    ReorderedInvalid,
    /// The final text does not parse; this is a defect of the formatter,
    /// and nothing should be written.
    OutputInvalid,
}

/// The default order of top-level sections.
pub open spec fn section_order_spec() -> Seq<Seq<char>> {
    seq![
        "package"@, "lib"@, "bin"@, "test"@, "bench"@, "example"@, "dependencies"@,
        "dev-dependencies"@, "build-dependencies"@, "target"@, "features"@,
    ]
}

/// The default order of top-level sections.
pub fn section_order() -> (r: Vec<String>)
    ensures
        strs(r@) == section_order_spec(),
        strs(r@).no_duplicates(),
{
    let r = vec![
        String::from_str("package"),
        String::from_str("lib"),
        String::from_str("bin"),
        String::from_str("test"),
        String::from_str("bench"),
        String::from_str("example"),
        String::from_str("dependencies"),
        String::from_str("dev-dependencies"),
        String::from_str("build-dependencies"),
        String::from_str("target"),
        String::from_str("features"),
    ];
    proof {
        reveal_strlit("package");
        reveal_strlit("lib");
        reveal_strlit("bin");
        reveal_strlit("test");
        reveal_strlit("bench");
        reveal_strlit("example");
        reveal_strlit("dependencies");
        reveal_strlit("dev-dependencies");
        reveal_strlit("build-dependencies");
        reveal_strlit("target");
        reveal_strlit("features");
        assert(strs(r@) =~= seq![
            "package"@, "lib"@, "bin"@, "test"@, "bench"@, "example"@, "dependencies"@,
            "dev-dependencies"@, "build-dependencies"@, "target"@, "features"@,
        ]);
        let s = strs(r@);
        assert forall|i: int, j: int| 0 <= i < s.len() && 0 <= j < s.len() && i != j implies s[i]
            != s[j] by {
            assert(s[i].len() != s[j].len() || s[i][0] != s[j][0]);
        }
    }
    r
}

/// The default order of the `[package]` fields.
pub open spec fn package_field_order_spec() -> Seq<Seq<char>> {
    seq![
        "name"@, "description"@, "version"@, "edition"@, "license-file"@, "authors"@,
        "rust-version"@, "readme"@,
    ]
}

/// The default order of the `[package]` fields.
pub fn package_field_order() -> (r: Vec<String>)
    ensures
        strs(r@) == package_field_order_spec(),
        strs(r@).no_duplicates(),
{
    let r = vec![
        String::from_str("name"),
        String::from_str("description"),
        String::from_str("version"),
        String::from_str("edition"),
        String::from_str("license-file"),
        String::from_str("authors"),
        String::from_str("rust-version"),
        String::from_str("readme"),
    ];
    proof {
        reveal_strlit("name");
        reveal_strlit("description");
        reveal_strlit("version");
        reveal_strlit("edition");
        reveal_strlit("license-file");
        reveal_strlit("authors");
        reveal_strlit("rust-version");
        reveal_strlit("readme");
        assert(strs(r@) =~= seq![
            "name"@, "description"@, "version"@, "edition"@, "license-file"@, "authors"@,
            "rust-version"@, "readme"@,
        ]);
        let s = strs(r@);
        assert forall|i: int, j: int| 0 <= i < s.len() && 0 <= j < s.len() && i != j implies s[i]
            != s[j] by {
            assert(s[i].len() != s[j].len() || s[i][0] != s[j][0]);
        }
    }
    r
}

/// Collapses the entries of the root table `key`, if the root holds a
/// table there (see `collapse_table_entries`). With `explicit`, a table
/// that changed is marked to be written with its own header. Returns the
/// number of entries rewritten.
fn collapse_section(doc: &mut toml_edit::DocumentMut, key: &str, explicit: bool) -> (r: usize)
    ensures
        r == collapse_count(*old(doc), key@),
        section_collapsed(*old(doc), *final(doc), key@, explicit),
        r == 0 ==> *final(doc) == *old(doc),
        same_but(*old(doc), *final(doc), key@),
{
    reveal(same_but);
    reveal(section_collapsed);
    reveal(table_collapsed);
    let found = match get_ref(root_table(doc), key) {
        Some(it) => Some(copy_item(it)),
        None => None,
    };
    match found {
        Some(it) => match into_table(it) {
            Some(mut t) => {
                let ghost t0 = t;
                let n = collapse_table_entries(&mut t);
                if n > 0 {
                    if explicit {
                        let ghost before = t;
                        set_explicit(&mut t);
                        proof {
                            lemma_same_entries(before, t);
                        }
                    }
                    proof {
                        assert(table_collapsed(t0, t));
                    }
                    root_put(doc, key, table_item(t));
                    proof {
                        assert(stored_items(doc_table(*doc)).dom() =~= stored_items(doc_table(*old(doc))).dom());
                    }
                }
                n
            },
            None => 0,
        },
        None => 0,
    }
}

/// `u` is the table `t` with each collapsible entry (see `collapsible`)
/// replaced by its inline form, keys and their order kept.
#[verifier::opaque]
pub open spec fn table_collapsed(t: toml_edit::Table, u: toml_edit::Table) -> bool {
    &&& stored_keys(u) == stored_keys(t)
    &&& table_keys(u) == table_keys(t)
    &&& forall|k: Seq<char>| #[trigger] table_keys(t).contains(k) ==> stored_items(u)[k] == if collapsible(
        stored_items(t)[k],
    ) {
        inline_of(table_in(stored_items(t)[k]))
    } else {
        stored_items(t)[k]
    }
}

/// What collapsing the root table `key` of `a` leaves in `b`: the entry is
/// untouched when nothing in it collapses, else it is the collapsed table,
/// marked explicit with `explicit`.
#[verifier::opaque]
pub open spec fn section_collapsed(a: toml_edit::DocumentMut, b: toml_edit::DocumentMut, key: Seq<char>, explicit: bool) -> bool {
    match root_section(a, key) {
        Some(t) if collapse_count(a, key) > 0 => root_section(b, key) matches Some(u) && table_collapsed(t, u) && (
        explicit ==> !implicit(u)),
        _ => stored_items(doc_table(b))[key] == stored_items(doc_table(a))[key],
    }
}

/// `a + b`, capped at the largest `usize`.
pub open spec fn sat(a: int, b: int) -> int {
    if a + b > usize::MAX {
        usize::MAX as int
    } else {
        a + b
    }
}

/// Whether `b` is `a` with at most the root entry under `key` replaced.
#[verifier::opaque]
pub open spec fn same_but(a: toml_edit::DocumentMut, b: toml_edit::DocumentMut, key: Seq<char>) -> bool {
    &&& stored_keys(doc_table(b)) == stored_keys(doc_table(a))
    &&& stored_items(doc_table(b)).dom() == stored_items(doc_table(a)).dom()
    &&& forall|k: Seq<char>| k != key ==> #[trigger] stored_items(doc_table(b))[k] == stored_items(
        doc_table(a),
    )[k]
}

/// The `dependencies` table of a platform entry under `target`, if it has
/// one.
pub open spec fn platform_deps(p: toml_edit::Item) -> Option<toml_edit::Table> {
    if item_kind(p) == ItemKind::Table || item_kind(p) == ItemKind::DottedTable {
        let pt = table_in(p);
        let d = stored_items(pt)["dependencies"@];
        if shown(pt, "dependencies"@) && (item_kind(d) == ItemKind::Table || item_kind(d)
            == ItemKind::DottedTable) {
            Some(table_in(d))
        } else {
            None
        }
    } else {
        None
    }
}

/// The entries of a platform's dependencies that are collapsed.
pub open spec fn platform_collapsed(p: toml_edit::Item) -> int {
    match platform_deps(p) {
        None => 0,
        Some(d) => collapsible_keys(d, table_keys(d)).len() as int,
    }
}

/// 1 when a platform's dependencies are sorted (with `sort`) and were not.
pub open spec fn platform_sorted(p: toml_edit::Item, sort: bool) -> int {
    match platform_deps(p) {
        None => 0,
        Some(d) => if sort && !ascending(table_keys(d)) {
            1
        } else {
            0
        },
    }
}

/// `d2` is the dependencies table `d` after collapsing and, with `sort`,
/// sorting.
#[verifier::opaque]
pub open spec fn deps_done(d: toml_edit::Table, d2: toml_edit::Table, sort: bool) -> bool {
    &&& if sort {
        ascending(table_keys(d2)) && table_keys(d2).to_multiset() == table_keys(d).to_multiset()
    } else {
        table_keys(d2) == table_keys(d)
    }
    &&& forall|k: Seq<char>| #[trigger] table_keys(d).contains(k) ==> key_forms(d2)[k] == key_forms(d)[k]
    &&& forall|k: Seq<char>| #[trigger] table_keys(d).contains(k) ==> stored_items(d2)[k] == if collapsible(
        stored_items(d)[k],
    ) {
        inline_of(table_in(stored_items(d)[k]))
    } else {
        stored_items(d)[k]
    }
}

/// The collapsed entries of the platforms `ks` of `t`, summed.
pub open spec fn targets_collapsed(t: toml_edit::Table, ks: Seq<Seq<char>>) -> int
    decreases ks.len(),
{
    if ks.len() == 0 {
        0
    } else {
        sat(targets_collapsed(t, ks.drop_last()), platform_collapsed(stored_items(t)[ks.last()]))
    }
}

/// The sorted dependency tables of the platforms `ks` of `t`, summed.
pub open spec fn targets_sorted(t: toml_edit::Table, ks: Seq<Seq<char>>, sort: bool) -> int
    decreases ks.len(),
{
    if ks.len() == 0 {
        0
    } else {
        sat(targets_sorted(t, ks.drop_last(), sort), platform_sorted(stored_items(t)[ks.last()], sort))
    }
}

proof fn lemma_targets_unsorted(t: toml_edit::Table, ks: Seq<Seq<char>>)
    ensures
        targets_sorted(t, ks, false) == 0,
    decreases ks.len(),
{
    if ks.len() > 0 {
        lemma_targets_unsorted(t, ks.drop_last());
    }
}

/// The collapsed entries of all platforms' dependencies under `target`.
pub open spec fn target_collapsed(d: toml_edit::DocumentMut) -> int {
    match root_section(d, "target"@) {
        None => 0,
        Some(t) => targets_collapsed(t, table_keys(t)),
    }
}

/// The platforms' dependency tables under `target` that get sorted.
pub open spec fn target_sorted(d: toml_edit::DocumentMut, sort: bool) -> int {
    match root_section(d, "target"@) {
        None => 0,
        Some(t) => targets_sorted(t, table_keys(t), sort),
    }
}

/// `np` is the platform entry `p` whose `dependencies` table was collapsed
/// and, with `sort`, sorted; its other entries stay.
#[verifier::opaque]
pub open spec fn platform_done(p: toml_edit::Item, np: toml_edit::Item, sort: bool) -> bool {
    &&& item_kind(np) == ItemKind::Table || item_kind(np) == ItemKind::DottedTable
    &&& platform_deps(np) matches Some(d2) && deps_done(platform_deps(p)->0, d2, sort)
    &&& stored_keys(table_in(np)) == stored_keys(table_in(p))
    &&& forall|k: Seq<char>| k != "dependencies"@ ==> #[trigger] stored_items(table_in(np))[k]
        == stored_items(table_in(p))[k]
}

/// What `target_dependencies` leaves under `target`: when anything
/// changed, the same platforms, each whose dependencies changed done as
/// `platform_done` says, the others as they were.
#[verifier::opaque]
pub open spec fn targets_done(a: toml_edit::DocumentMut, b: toml_edit::DocumentMut, sort: bool) -> bool {
    (target_collapsed(a) > 0 || target_sorted(a, sort) > 0) ==> (root_section(a, "target"@) matches Some(t)
        && root_section(b, "target"@) matches Some(t2) && stored_keys(t2) == stored_keys(t) && table_keys(t2)
        == table_keys(t) && forall|k: Seq<char>| #[trigger] table_keys(t).contains(k) ==> if platform_collapsed(
        stored_items(t)[k],
    ) > 0 || platform_sorted(stored_items(t)[k], sort) > 0 {
        platform_done(stored_items(t)[k], stored_items(t2)[k], sort)
    } else {
        stored_items(t2)[k] == stored_items(t)[k]
    })
}

/// Collapses, then with `sort` sorts, the `dependencies` table of one
/// platform entry. Returns the new entry when something changed, the
/// number of entries collapsed, and 1 when the table was sorted.
fn platform_step(it: &toml_edit::Item, sort: bool) -> (r: (Option<toml_edit::Item>, usize, usize))
    ensures
        r.1 == platform_collapsed(*it),
        r.2 == platform_sorted(*it, sort),
        r.0 is Some == (r.1 > 0 || r.2 > 0),
        r.0 matches Some(ni) ==> (platform_done(*it, ni, sort)),
{
    reveal(platform_done);
    reveal(deps_done);
    let mut p = match into_table(copy_item(it)) {
        Some(p) => p,
        None => {
            return (None, 0, 0);
        },
    };
    let deps = match get_ref(&p, "dependencies") {
        Some(d) => into_table(copy_item(d)),
        None => None,
    };
    let mut d = match deps {
        Some(d) => d,
        None => {
            return (None, 0, 0);
        },
    };
    let ghost d0 = d;
    let collapsed = collapse_table_entries(&mut d);
    if collapsed > 0 {
        let ghost before = d;
        set_explicit(&mut d);
        proof {
            lemma_same_entries(before, d);
        }
    }
    let ghost d1 = d;
    let sorted = if sort {
        sort_table_in_place(&mut d)
    } else {
        0
    };
    if collapsed == 0 && sorted == 0 {
        return (None, 0, 0);
    }
    proof {
        assert forall|k: Seq<char>| #[trigger] table_keys(d0).contains(k) implies stored_items(d)[k]
            == if collapsible(stored_items(d0)[k]) {
            inline_of(table_in(stored_items(d0)[k]))
        } else {
            stored_items(d0)[k]
        } by {
            assert(table_keys(d1).contains(k));
        }
    }
    let ghost p0 = p;
    replace_item(&mut p, "dependencies", table_item(d));
    proof {
        lemma_section_names();
        assert(shown(p0, "dependencies"@));
    }
    (Some(table_item(p)), collapsed, sorted)
}

/// Collapses, then with `sort` sorts, the `dependencies` table of each
/// platform under `target` (see `platform_step`). Returns the entries
/// collapsed and the tables sorted; only the root entry `target` changes.
fn target_dependencies(doc: &mut toml_edit::DocumentMut, sort: bool) -> (r: (usize, usize))
    ensures
        r.0 == target_collapsed(*old(doc)),
        r.1 == target_sorted(*old(doc), sort),
        same_but(*old(doc), *final(doc), "target"@),
        r.0 == 0 && r.1 == 0 ==> *final(doc) == *old(doc),
        targets_done(*old(doc), *final(doc), sort),
{
    reveal(same_but);
    reveal(targets_done);
    reveal(platform_done);
    let found = match get_ref(root_table(doc), "target") {
        Some(it) => Some(copy_item(it)),
        None => None,
    };
    let mut targets = match found {
        Some(it) => match into_table(it) {
            Some(t) => t,
            None => {
                return (0, 0);
            },
        },
        None => {
            return (0, 0);
        },
    };
    let ghost t0 = targets;
    let names = key_list(&targets);
    let ghost ks = strs(names@);
    let mut collapsed: usize = 0;
    let mut sorted: usize = 0;
    let mut i: usize = 0;
    assert(ks.take(0) =~= Seq::<Seq<char>>::empty());
    while i < names.len()
        invariant
            i <= names@.len(),
            ks == strs(names@),
            ks == table_keys(t0),
            ks.no_duplicates(),
            stored_keys(targets) == stored_keys(t0),
            stored_items(targets).dom() == stored_items(t0).dom(),
            collapsed == targets_collapsed(t0, ks.take(i as int)),
            sorted == targets_sorted(t0, ks.take(i as int), sort),
            collapsed == 0 && sorted == 0 ==> targets == t0,
            forall|k: Seq<char>| #[trigger] stored_items(t0).contains_key(k) ==> if ks.take(i as int).contains(k)
                && (platform_collapsed(stored_items(t0)[k]) > 0 || platform_sorted(stored_items(t0)[k], sort) > 0) {
                platform_done(stored_items(t0)[k], stored_items(targets)[k], sort)
            } else {
                stored_items(targets)[k] == stored_items(t0)[k]
            },
        decreases names@.len() - i,
    {
        let ghost k = ks[i as int];
        proof {
            assert(k == names@[i as int]@);
            assert(ks.contains(k));
            stored_keys(t0).lemma_filter_contains_rev(|k: Seq<char>| shown(t0, k), k);
            let x = choose|x: int| 0 <= x < ks.len() && ks[x] == k;
            stored_keys(t0).lemma_filter_pred(|k: Seq<char>| shown(t0, k), x);
            assert(!ks.take(i as int).contains(k)) by {
                let tk = ks.take(i as int);
                if tk.contains(k) {
                    let y = choose|y: int| 0 <= y < tk.len() && tk[y] == k;
                    assert(ks[y] == ks[i as int]);
                }
            }
            assert(ks.take(i + 1) =~= ks.take(i as int).push(k));
            assert(ks.take(i + 1).drop_last() =~= ks.take(i as int));
            assert(stored_items(targets)[k] == stored_items(t0)[k]);
        }
        let step = match get_ref(&targets, names[i].as_str()) {
            Some(it) => platform_step(it, sort),
            None => (None, 0, 0),
        };
        let ghost before = targets;
        let (ni, c, so) = step;
        collapsed = collapsed.saturating_add(c);
        sorted = sorted.saturating_add(so);
        match ni {
            Some(ni) => {
                replace_item(&mut targets, names[i].as_str(), ni);
            },
            None => {},
        }
        proof {
            assert(stored_items(targets).dom() =~= stored_items(t0).dom());
            assert forall|k2: Seq<char>| #[trigger] stored_items(t0).contains_key(k2) implies (if ks.take(i + 1).contains(k2)
                && (platform_collapsed(stored_items(t0)[k2]) > 0 || platform_sorted(stored_items(t0)[k2], sort) > 0) {
                platform_done(stored_items(t0)[k2], stored_items(targets)[k2], sort)
            } else {
                stored_items(targets)[k2] == stored_items(t0)[k2]
            }) by {
                let t1 = ks.take(i + 1);
                let tz = ks.take(i as int);
                if k2 != k {
                    if t1.contains(k2) {
                        let y = choose|y: int| 0 <= y < t1.len() && t1[y] == k2;
                        assert(tz[y] == k2);
                    }
                } else {
                    assert(t1[i as int] == k);
                }
            }
        }
        i = i + 1;
    }
    assert(ks.take(i as int) =~= ks);
    if collapsed > 0 || sorted > 0 {
        proof {
            assert forall|x: int| 0 <= x < stored_keys(t0).len() implies shown(targets, #[trigger] stored_keys(t0)[x])
                == shown(t0, stored_keys(t0)[x]) by {
                let k = stored_keys(t0)[x];
                if stored_items(t0).contains_key(k) && ks.contains(k) && (platform_collapsed(stored_items(t0)[k]) > 0
                    || platform_sorted(stored_items(t0)[k], sort) > 0) {
                }
            }
            lemma_filter_same(stored_keys(t0), |k: Seq<char>| shown(targets, k), |k: Seq<char>| shown(t0, k));
        }
        root_put(doc, "target", table_item(targets));
        proof {
            assert(stored_items(doc_table(*doc)).dom() =~= stored_items(doc_table(*old(doc))).dom());
            assert forall|k: Seq<char>| #[trigger] table_keys(t0).contains(k) implies stored_items(t0).contains_key(k) by {
                stored_keys(t0).lemma_filter_contains_rev(|k: Seq<char>| shown(t0, k), k);
                let x = choose|x: int| 0 <= x < ks.len() && ks[x] == k;
                stored_keys(t0).lemma_filter_pred(|k: Seq<char>| shown(t0, k), x);
            }
        }
    }
    (collapsed, sorted)
}

/// The entries of the root table `key` that collapsing rewrites.
pub open spec fn collapse_count(d: toml_edit::DocumentMut, key: Seq<char>) -> int {
    match root_section(d, key) {
        None => 0,
        Some(t) => collapsible_keys(t, table_keys(t)).len() as int,
    }
}

/// The entries that `collapse_nested_tables` rewrites in `d`.
pub open spec fn collapse_total(d: toml_edit::DocumentMut) -> int {
    sat(
        sat(
            sat(
                sat(collapse_count(d, "package"@), collapse_count(d, "dependencies"@)),
                collapse_count(d, "dev-dependencies"@),
            ),
            collapse_count(d, "build-dependencies"@),
        ),
        target_collapsed(d),
    )
}

proof fn lemma_same_but_section(a: toml_edit::DocumentMut, b: toml_edit::DocumentMut, key: Seq<char>, other: Seq<char>)
    requires
        same_but(a, b, key),
        other != key,
    ensures
        root_section(b, other) == root_section(a, other),
        collapse_count(b, other) == collapse_count(a, other),
{
    reveal(same_but);
}

proof fn lemma_collapsed_frame(
    a: toml_edit::DocumentMut,
    b: toml_edit::DocumentMut,
    c: toml_edit::DocumentMut,
    key: Seq<char>,
    other: Seq<char>,
    explicit: bool,
)
    requires
        section_collapsed(a, b, key, explicit),
        same_but(b, c, other),
        other != key,
    ensures
        section_collapsed(a, c, key, explicit),
{
    reveal(section_collapsed);
    reveal(same_but);
}

proof fn lemma_collapsed_base(
    a0: toml_edit::DocumentMut,
    a1: toml_edit::DocumentMut,
    b: toml_edit::DocumentMut,
    key: Seq<char>,
    other: Seq<char>,
    explicit: bool,
)
    requires
        section_collapsed(a1, b, key, explicit),
        same_but(a0, a1, other),
        other != key,
    ensures
        section_collapsed(a0, b, key, explicit),
{
    reveal(section_collapsed);
    reveal(same_but);
    lemma_same_but_section(a0, a1, other, key);
}

proof fn lemma_targets_base(a0: toml_edit::DocumentMut, a1: toml_edit::DocumentMut, b: toml_edit::DocumentMut, sort: bool)
    requires
        targets_done(a1, b, sort),
        root_section(a0, "target"@) == root_section(a1, "target"@),
    ensures
        targets_done(a0, b, sort),
{
    reveal(targets_done);
}

proof fn lemma_section_names()
    ensures
        "package"@ != "dependencies"@,
        "package"@ != "dev-dependencies"@,
        "package"@ != "build-dependencies"@,
        "package"@ != "target"@,
        "dependencies"@ != "dev-dependencies"@,
        "dependencies"@ != "build-dependencies"@,
        "dependencies"@ != "target"@,
        "dev-dependencies"@ != "build-dependencies"@,
        "dev-dependencies"@ != "target"@,
        "build-dependencies"@ != "target"@,
{
    reveal_strlit("package");
    reveal_strlit("dependencies");
    reveal_strlit("dev-dependencies");
    reveal_strlit("build-dependencies");
    reveal_strlit("target");
    assert("package"@.len() != "dependencies"@.len());
    assert("package"@.len() != "dev-dependencies"@.len());
    assert("package"@.len() != "build-dependencies"@.len());
    assert("package"@.len() != "target"@.len());
    assert("dependencies"@.len() != "dev-dependencies"@.len());
    assert("dependencies"@.len() != "build-dependencies"@.len());
    assert("dependencies"@.len() != "target"@.len());
    assert("dev-dependencies"@.len() != "build-dependencies"@.len());
    assert("dev-dependencies"@.len() != "target"@.len());
    assert("build-dependencies"@.len() != "target"@.len());
}

/// Collapses explicit sub-tables into inline tables in `[package]`, in the
/// three dependency tables, and in each platform's dependency table under
/// `target` (see `collapse_table_entries`). Returns the number of entries
/// rewritten. Every other root entry stays as it was.
pub fn collapse_nested_tables(doc: &mut toml_edit::DocumentMut) -> (r: usize)
    ensures
        collapse_step(*old(doc), *final(doc), r as int),
{
    reveal(collapse_step);
    proof {
        lemma_section_names();
    }
    let ghost d0 = *doc;
    let mut changes = collapse_section(doc, "package", false);
    let ghost d1 = *doc;
    changes = changes.saturating_add(collapse_section(doc, "dependencies", true));
    let ghost d2 = *doc;
    changes = changes.saturating_add(collapse_section(doc, "dev-dependencies", true));
    let ghost d3 = *doc;
    changes = changes.saturating_add(collapse_section(doc, "build-dependencies", true));
    let ghost d4 = *doc;
    let (t, _) = target_dependencies(doc, false);
    changes = changes.saturating_add(t);
    let ghost d5 = *doc;
    proof {
        reveal(same_but);
        // each table's own stage, carried to the end
        lemma_collapsed_frame(d0, d1, d2, "package"@, "dependencies"@, false);
        lemma_collapsed_frame(d0, d2, d3, "package"@, "dev-dependencies"@, false);
        lemma_collapsed_frame(d0, d3, d4, "package"@, "build-dependencies"@, false);
        lemma_collapsed_frame(d0, d4, d5, "package"@, "target"@, false);
        lemma_collapsed_base(d0, d1, d2, "dependencies"@, "package"@, true);
        lemma_collapsed_frame(d0, d2, d3, "dependencies"@, "dev-dependencies"@, true);
        lemma_collapsed_frame(d0, d3, d4, "dependencies"@, "build-dependencies"@, true);
        lemma_collapsed_frame(d0, d4, d5, "dependencies"@, "target"@, true);
        lemma_collapsed_base(d1, d2, d3, "dev-dependencies"@, "dependencies"@, true);
        lemma_collapsed_base(d0, d1, d3, "dev-dependencies"@, "package"@, true);
        lemma_collapsed_frame(d0, d3, d4, "dev-dependencies"@, "build-dependencies"@, true);
        lemma_collapsed_frame(d0, d4, d5, "dev-dependencies"@, "target"@, true);
        lemma_collapsed_base(d2, d3, d4, "build-dependencies"@, "dev-dependencies"@, true);
        lemma_collapsed_base(d1, d2, d4, "build-dependencies"@, "dependencies"@, true);
        lemma_collapsed_base(d0, d1, d4, "build-dependencies"@, "package"@, true);
        lemma_collapsed_frame(d0, d4, d5, "build-dependencies"@, "target"@, true);
        lemma_same_but_section(d0, d1, "package"@, "target"@);
        lemma_same_but_section(d1, d2, "dependencies"@, "target"@);
        lemma_same_but_section(d2, d3, "dev-dependencies"@, "target"@);
        lemma_same_but_section(d3, d4, "build-dependencies"@, "target"@);
        lemma_targets_base(d0, d4, d5, false);
        if let Some(tt) = root_section(d4, "target"@) {
            lemma_targets_unsorted(tt, table_keys(tt));
        }
        lemma_same_but_section(d0, d1, "package"@, "dependencies"@);
        lemma_same_but_section(d0, d1, "package"@, "dev-dependencies"@);
        lemma_same_but_section(d0, d1, "package"@, "build-dependencies"@);
        lemma_same_but_section(d0, d1, "package"@, "target"@);
        lemma_same_but_section(d1, d2, "dependencies"@, "dev-dependencies"@);
        lemma_same_but_section(d1, d2, "dependencies"@, "build-dependencies"@);
        lemma_same_but_section(d1, d2, "dependencies"@, "target"@);
        lemma_same_but_section(d2, d3, "dev-dependencies"@, "build-dependencies"@);
        lemma_same_but_section(d2, d3, "dev-dependencies"@, "target"@);
        lemma_same_but_section(d3, d4, "build-dependencies"@, "target"@);
    }
    changes
}

/// Regroups a manifest text along `order` (see `regroup_text`) and parses
/// the result. `Ok(None)` when the sections already stand in canonical
/// order; `Ok(Some(..))` with the new text and its document when the
/// regrouped text parses; `ReorderedInvalid` when it does not.
pub fn reorder_text(text: &str, order: &Vec<String>) -> (r: Result<
    Option<(String, toml_edit::DocumentMut)>,
    FormatError,
>)
    ensures
        match regrouped(lines_of(text@), strs(order@)) {
            None => r == Ok::<Option<(String, toml_edit::DocumentMut)>, FormatError>(None),
            Some(out) => match r {
                Ok(Some((s, d))) => s@ == text_of(out) && valid_toml(text_of(out)) && doc_text(d)
                    == reprinted(text_of(out)),
                Ok(None) => false,
                Err(e) => e == FormatError::ReorderedInvalid && !valid_toml(text_of(out)),
            },
        },
{
    match regroup_text(text, order) {
        None => Ok(None),
        Some(new_text) => match parse_manifest(new_text.as_str()) {
            Ok(new_doc) => Ok(Some((new_text, new_doc))),
            Err(_) => Err(FormatError::ReorderedInvalid),
        },
    }
}

/// Lays the sections of `doc` out in canonical order along `order` (see
/// `reorder_text`, on the document's text). Returns 1 when the order
/// changed and 0 when it was already canonical. When the regrouped text
/// does not parse, the document is left as it was.
pub fn reorder_sections(doc: &mut toml_edit::DocumentMut, order: &Vec<String>) -> (r: Result<
    usize,
    FormatError,
>)
    ensures
        match regrouped(lines_of(doc_text(*old(doc))), strs(order@)) {
            None => r == Ok::<usize, FormatError>(0),
            Some(out) => {
                &&& (r == Ok::<usize, FormatError>(1)) == valid_toml(text_of(out))
                &&& r != Ok::<usize, FormatError>(1) ==> r == Err::<usize, FormatError>(
                    FormatError::ReorderedInvalid,
                )
                &&& r == Ok::<usize, FormatError>(1) ==> doc_text(*final(doc)) == reprinted(text_of(out))
            },
        },
        r != Ok::<usize, FormatError>(1) ==> *final(doc) == *old(doc),
{
    let text = render(doc);
    match reorder_text(text.as_str(), order) {
        Ok(None) => Ok(0),
        Ok(Some((_, new_doc))) => {
            *doc = new_doc;
            Ok(1)
        },
        Err(e) => Err(e),
    }
}

/// What `format_package_section` does: `r` is 1 when the `[package]` keys
/// were out of canonical order and `b` then holds them in that order, each
/// with its entry; `r` is 0 and `b` is `a` otherwise. Other root entries
/// stay.
#[verifier::opaque]
pub open spec fn package_step(a: toml_edit::DocumentMut, b: toml_edit::DocumentMut, r: int) -> bool {
    &&& match root_section(a, "package"@) {
        None => r == 0,
        Some(p) => {
            let e = canonical_order(table_keys(p), package_field_order_spec());
            &&& r == if e != table_keys(p) { 1int } else { 0int }
            &&& r == 1 ==> (root_section(b, "package"@) matches Some(q) && table_keys(q) == e && forall|k: Seq<char>|
                #[trigger] table_keys(p).contains(k) ==> stored_items(q)[k] == stored_items(p)[k]
                && key_forms(q)[k] == key_forms(p)[k])
        },
    }
    &&& r == 0 ==> b == a
    &&& same_but(a, b, "package"@)
}

/// What `sort_dependencies` does to the root table `key`: `r` is 1 when its
/// keys were not ascending and `b` then holds them ascending, each with its
/// entry; `r` is 0 and `b` is `a` otherwise. Other root entries stay.
#[verifier::opaque]
pub open spec fn sort_step(a: toml_edit::DocumentMut, b: toml_edit::DocumentMut, key: Seq<char>, r: int) -> bool {
    &&& match root_section(a, key) {
        None => r == 0,
        Some(t) => {
            &&& r == if ascending(table_keys(t)) { 0int } else { 1int }
            &&& r == 1 ==> (root_section(b, key) matches Some(u) && ascending(table_keys(u))
                && table_keys(u).to_multiset() == table_keys(t).to_multiset() && forall|k: Seq<char>|
                #[trigger] table_keys(t).contains(k) ==> stored_items(u)[k] == stored_items(t)[k]
                && key_forms(u)[k] == key_forms(t)[k])
        },
    }
    &&& r == 0 ==> b == a
    &&& same_but(a, b, key)
}

/// Puts the `[package]` fields in canonical order along
/// `package_field_order` (see `reorder_keys`). Returns 1 when the order
/// changed, else 0, and then the document is left as it was.
pub fn format_package_section(doc: &mut toml_edit::DocumentMut) -> (r: usize)
    ensures
        r <= 1,
        package_step(*old(doc), *final(doc), r as int),
{
    reveal(package_step);
    reveal(same_but);
    let found = match get_ref(root_table(doc), "package") {
        Some(it) => Some(copy_item(it)),
        None => None,
    };
    match found {
        Some(it) => match into_table(it) {
            Some(mut t) => {
                let order = package_field_order();
                if reorder_keys(&mut t, &order) {
                    root_put(doc, "package", table_item(t));
                    proof {
                        assert(stored_items(doc_table(*doc)).dom() =~= stored_items(doc_table(*old(doc))).dom());
                    }
                    1
                } else {
                    0
                }
            },
            None => 0,
        },
        None => 0,
    }
}

/// Sorts the root table `section` byte-wise (see `sort_table_in_place`).
/// Returns 1 when the order changed, else 0, and then the document is left
/// as it was.
pub fn sort_dependencies(doc: &mut toml_edit::DocumentMut, section: &str) -> (r: usize)
    ensures
        r <= 1,
        sort_step(*old(doc), *final(doc), section@, r as int),
{
    reveal(sort_step);
    reveal(same_but);
    let found = match get_ref(root_table(doc), section) {
        Some(it) => Some(copy_item(it)),
        None => None,
    };
    match found {
        Some(it) => match into_table(it) {
            Some(mut t) => {
                let n = sort_table_in_place(&mut t);
                if n > 0 {
                    root_put(doc, section, table_item(t));
                    proof {
                        assert(stored_items(doc_table(*doc)).dom() =~= stored_items(doc_table(*old(doc))).dom());
                    }
                }
                n
            },
            None => 0,
        },
        None => 0,
    }
}

/// What `collapse_nested_tables` does to `a`: the count, the four root
/// tables collapsed as `section_collapsed` says, the platforms under
/// `target` as `targets_done` says, every other root entry kept.
#[verifier::opaque]
pub open spec fn collapse_step(a: toml_edit::DocumentMut, b: toml_edit::DocumentMut, r: int) -> bool {
    &&& r == collapse_total(a)
    &&& r == 0 ==> b == a
    &&& stored_keys(doc_table(b)) == stored_keys(doc_table(a))
    &&& section_collapsed(a, b, "package"@, false)
    &&& section_collapsed(a, b, "dependencies"@, true)
    &&& section_collapsed(a, b, "dev-dependencies"@, true)
    &&& section_collapsed(a, b, "build-dependencies"@, true)
    &&& targets_done(a, b, false)
    &&& forall|k: Seq<char>| k != "package"@ && k != "dependencies"@ && k != "dev-dependencies"@ && k
        != "build-dependencies"@ && k != "target"@ ==> #[trigger] stored_items(doc_table(b))[k]
        == stored_items(doc_table(a))[k]
}

/// What `reorder_sections` does to `a` with the default section order.
pub open spec fn reorder_step(a: toml_edit::DocumentMut, b: toml_edit::DocumentMut, r: int) -> bool {
    match regrouped(lines_of(doc_text(a)), section_order_spec()) {
        None => r == 0 && b == a,
        Some(out) => r == 1 && valid_toml(text_of(out)) && doc_text(b) == reprinted(text_of(out)),
    }
}

/// What `target_dependencies` does to `a` when it sorts: the counts, and
/// each platform's dependencies collapsed and sorted (`targets_done`).
#[verifier::opaque]
pub open spec fn target_step(a: toml_edit::DocumentMut, b: toml_edit::DocumentMut, c: int, s: int) -> bool {
    &&& c == target_collapsed(a)
    &&& s == target_sorted(a, true)
    &&& same_but(a, b, "target"@)
    &&& c == 0 && s == 0 ==> b == a
    &&& targets_done(a, b, true)
}

/// The stages of `format_document` on `text`: `ds` holds the document
/// after each stage (parsed, collapsed, regrouped, package fields ordered,
/// the three dependency tables sorted, target dependencies done) and `ns`
/// the counts of the three sorts and of the target stage.
pub open spec fn pipeline_run(text: Seq<char>, f: Formatted, ds: Seq<toml_edit::DocumentMut>, ns: Seq<int>) -> bool {
    &&& ds.len() == 8
    &&& ns.len() == 6
    &&& doc_text(ds[0]) == reprinted(text)
    &&& forall|i: int| 0 <= i < 6 ==> #[trigger] ns[i] >= 0
    &&& collapse_step(ds[0], ds[1], ns[5])
    &&& reorder_step(ds[1], ds[2], f.reordered as int)
    &&& package_step(ds[2], ds[3], f.package_fields as int)
    &&& sort_step(ds[3], ds[4], "dependencies"@, ns[0])
    &&& sort_step(ds[4], ds[5], "dev-dependencies"@, ns[1])
    &&& sort_step(ds[5], ds[6], "build-dependencies"@, ns[2])
    &&& target_step(ds[6], ds[7], ns[3], ns[4])
    &&& f.collapsed == sat(ns[5], ns[3])
    &&& f.sorted == sat(ns[0] + ns[1] + ns[2], ns[4])
    &&& f.changes == sat(sat(sat(f.collapsed as int, f.reordered as int), f.package_fields as int), f.sorted as int)
    &&& f.output@ == doc_text(ds[7])
}

/// The regrouping stage fails on `text`: `d0` is its parse, `d1` that
/// document collapsed, and the regrouped text of `d1` does not parse.
pub open spec fn regroup_fails(text: Seq<char>, d0: toml_edit::DocumentMut, d1: toml_edit::DocumentMut, c: int) -> bool {
    &&& doc_text(d0) == reprinted(text)
    &&& collapse_step(d0, d1, c)
    &&& regrouped(lines_of(doc_text(d1)), section_order_spec()) matches Some(out) && !valid_toml(text_of(out))
}

/// Whether `d`'s three dependency tables have ascending keys and its
/// `[package]` keys stand in canonical order.
pub open spec fn normalized(d: toml_edit::DocumentMut) -> bool {
    &&& root_section(d, "dependencies"@) matches Some(t) ==> ascending(table_keys(t))
    &&& root_section(d, "dev-dependencies"@) matches Some(t) ==> ascending(table_keys(t))
    &&& root_section(d, "build-dependencies"@) matches Some(t) ==> ascending(table_keys(t))
    &&& root_section(d, "package"@) matches Some(p) ==> canonical_order(table_keys(p), package_field_order_spec())
        == table_keys(p)
    &&& root_section(d, "target"@) matches Some(t) ==> forall|k: Seq<char>| #[trigger] table_keys(t).contains(k)
        ==> (platform_deps(stored_items(t)[k]) matches Some(dd) ==> ascending(table_keys(dd)))
}

proof fn lemma_targets_sorted_zero(t: toml_edit::Table, ks: Seq<Seq<char>>, sort: bool)
    requires
        targets_sorted(t, ks, sort) == 0,
    ensures
        forall|i: int| 0 <= i < ks.len() ==> platform_sorted(stored_items(t)[#[trigger] ks[i]], sort) == 0,
    decreases ks.len(),
{
    if ks.len() > 0 {
        let a = targets_sorted(t, ks.drop_last(), sort);
        lemma_targets_sorted_nonneg(t, ks.drop_last(), sort);
        lemma_targets_sorted_zero(t, ks.drop_last(), sort);
        assert forall|i: int| 0 <= i < ks.len() implies platform_sorted(stored_items(t)[#[trigger] ks[i]], sort) == 0 by {
            if i < ks.len() - 1 {
                assert(ks.drop_last()[i] == ks[i]);
            }
        }
    }
}

proof fn lemma_targets_sorted_nonneg(t: toml_edit::Table, ks: Seq<Seq<char>>, sort: bool)
    ensures
        targets_sorted(t, ks, sort) >= 0,
    decreases ks.len(),
{
    if ks.len() > 0 {
        lemma_targets_sorted_nonneg(t, ks.drop_last(), sort);
    }
}

proof fn lemma_targets_collapsed_nonneg(t: toml_edit::Table, ks: Seq<Seq<char>>)
    ensures
        targets_collapsed(t, ks) >= 0,
    decreases ks.len(),
{
    if ks.len() > 0 {
        lemma_targets_collapsed_nonneg(t, ks.drop_last());
    }
}

proof fn lemma_targets_sorted_after(a: toml_edit::DocumentMut, b: toml_edit::DocumentMut, c: int, s: int)
    requires
        target_step(a, b, c, s),
    ensures
        root_section(b, "target"@) matches Some(t) ==> forall|k: Seq<char>| #[trigger] table_keys(t).contains(k)
            ==> (platform_deps(stored_items(t)[k]) matches Some(dd) ==> ascending(table_keys(dd))),
{
    reveal(target_step);
    reveal(targets_done);
    reveal(platform_done);
    reveal(deps_done);
    if let Some(t) = root_section(a, "target"@) {
        lemma_targets_sorted_nonneg(t, table_keys(t), true);
        lemma_targets_collapsed_nonneg(t, table_keys(t));
    }
    if c > 0 || s > 0 {
        let t = root_section(a, "target"@)->0;
        let t2 = root_section(b, "target"@)->0;
        assert forall|k: Seq<char>| #[trigger] table_keys(t2).contains(k) implies (platform_deps(stored_items(t2)[k]) matches Some(dd)
            ==> ascending(table_keys(dd))) by {
            assert(table_keys(t).contains(k));
            if platform_collapsed(stored_items(t)[k]) > 0 || platform_sorted(stored_items(t)[k], true) > 0 {
                assert(platform_done(stored_items(t)[k], stored_items(t2)[k], true));
            } else {
                assert(stored_items(t2)[k] == stored_items(t)[k]);
                assert(platform_sorted(stored_items(t)[k], true) == 0);
            }
        }
    } else {
        if let Some(t) = root_section(a, "target"@) {
            lemma_targets_sorted_zero(t, table_keys(t), true);
            assert forall|k: Seq<char>| #[trigger] table_keys(t).contains(k) implies (platform_deps(stored_items(t)[k]) matches Some(dd)
                ==> ascending(table_keys(dd))) by {
                let i = choose|i: int| 0 <= i < table_keys(t).len() && table_keys(t)[i] == k;
                assert(platform_sorted(stored_items(t)[table_keys(t)[i]], true) == 0);
            }
            assert(b == a);
        }
    }
}

proof fn lemma_sorted_after(a: toml_edit::DocumentMut, b: toml_edit::DocumentMut, key: Seq<char>, r: int)
    requires
        sort_step(a, b, key, r),
    ensures
        root_section(b, key) matches Some(t) ==> ascending(table_keys(t)),
{
    reveal(sort_step);
}

proof fn lemma_package_after(a: toml_edit::DocumentMut, b: toml_edit::DocumentMut, r: int)
    requires
        package_step(a, b, r),
    ensures
        root_section(b, "package"@) matches Some(p) ==> canonical_order(table_keys(p), package_field_order_spec())
            == table_keys(p),
{
    reveal(package_step);
    if let Some(p) = root_section(a, "package"@) {
        crate::order::lemma_canonical_order_idempotent(table_keys(p), package_field_order_spec());
    }
}

proof fn lemma_pipeline_normalized(text: Seq<char>, f: Formatted, ds: Seq<toml_edit::DocumentMut>, ns: Seq<int>)
    requires
        pipeline_run(text, f, ds, ns),
    ensures
        normalized(ds[7]),
        f.changes == 0 ==> ds[7] == ds[0],
{
    reveal(collapse_step);
    reveal(target_step);
    reveal(sort_step);
    reveal(package_step);
    lemma_section_names();
    lemma_sorted_after(ds[3], ds[4], "dependencies"@, ns[0]);
    lemma_sorted_after(ds[4], ds[5], "dev-dependencies"@, ns[1]);
    lemma_sorted_after(ds[5], ds[6], "build-dependencies"@, ns[2]);
    lemma_package_after(ds[2], ds[3], f.package_fields as int);
    lemma_same_but_section(ds[4], ds[5], "dev-dependencies"@, "dependencies"@);
    lemma_same_but_section(ds[5], ds[6], "build-dependencies"@, "dependencies"@);
    lemma_same_but_section(ds[6], ds[7], "target"@, "dependencies"@);
    lemma_same_but_section(ds[5], ds[6], "build-dependencies"@, "dev-dependencies"@);
    lemma_same_but_section(ds[6], ds[7], "target"@, "dev-dependencies"@);
    lemma_same_but_section(ds[6], ds[7], "target"@, "build-dependencies"@);
    lemma_same_but_section(ds[3], ds[4], "dependencies"@, "package"@);
    lemma_same_but_section(ds[4], ds[5], "dev-dependencies"@, "package"@);
    lemma_same_but_section(ds[5], ds[6], "build-dependencies"@, "package"@);
    lemma_same_but_section(ds[6], ds[7], "target"@, "package"@);
    lemma_targets_sorted_after(ds[6], ds[7], ns[3], ns[4]);
    assert(ns[0] >= 0 && ns[1] >= 0 && ns[2] >= 0 && ns[3] >= 0 && ns[4] >= 0 && ns[5] >= 0);
}

/// What normalizing a manifest produced: the new text, and how many
/// changes each stage made.
#[derive(Debug, Clone, PartialEq, Eq)]
pub struct Formatted {
    pub output: String,
    /// Entries rewritten as inline tables, the platforms' dependencies
    /// under `target` included.
    pub collapsed: usize,
    /// 1 when the sections were reordered.
    pub reordered: usize,
    /// 1 when the `[package]` fields were reordered.
    pub package_fields: usize,
    /// Dependency tables sorted, the platforms' under `target` included.
    pub sorted: usize,
    /// All changes together.
    pub changes: usize,
}

/// Normalizes a manifest: collapse, regroup, order the `[package]` fields,
/// sort the three dependency tables and each platform's dependencies.
/// Returns the new text and the changes of each stage; a text with changes
/// has been checked to parse. Fails with `Parse` exactly when the input
/// does not parse.
#[verifier::rlimit(100)]
pub fn format_document(text: &str) -> (r: Result<Formatted, FormatError>)
    ensures
        (r == Err::<Formatted, FormatError>(FormatError::Parse)) == !valid_toml(text@),
        r matches Ok(f) ==> exists|ds: Seq<toml_edit::DocumentMut>, ns: Seq<int>| #[trigger] pipeline_run(text@, f, ds, ns),
        r matches Ok(f) ==> exists|d: toml_edit::DocumentMut| f.output@ == doc_text(d) && #[trigger] normalized(d),
        r matches Ok(f) ==> (f.changes > 0 ==> valid_toml(f.output@)),
        r matches Ok(f) ==> (f.changes == 0 ==> f.output@ == reprinted(text@)),
        r matches Ok(f) ==> (f.changes == 0 <==> (f.collapsed == 0 && f.reordered == 0 && f.package_fields == 0
                && f.sorted == 0)),
        r matches Ok(f) ==> f.reordered <= 1 && f.package_fields <= 1,
        r == Err::<Formatted, FormatError>(FormatError::ReorderedInvalid) ==> exists|
            d0: toml_edit::DocumentMut,
            d1: toml_edit::DocumentMut,
            c: int,
        | #[trigger] regroup_fails(text@, d0, d1, c),
        r == Err::<Formatted, FormatError>(FormatError::OutputInvalid) ==> exists|
            f: Formatted,
            ds: Seq<toml_edit::DocumentMut>,
            ns: Seq<int>,
        | #[trigger] pipeline_run(text@, f, ds, ns) && f.changes > 0 && !valid_toml(f.output@),
{
    let mut doc = match parse_manifest(text) {
        Ok(d) => d,
        Err(_) => {
            return Err(FormatError::Parse);
        },
    };
    proof {
        lemma_section_names();
    }
    let ghost d0 = doc;
    let collapsed = collapse_nested_tables(&mut doc);
    let ghost d1 = doc;
    let order = section_order();
    let reordered = match reorder_sections(&mut doc, &order) {
        Ok(n) => n,
        Err(e) => {
            proof {
                assert(regroup_fails(text@, d0, d1, collapsed as int));
            }
            return Err(e);
        },
    };
    let ghost d2 = doc;
    let package_fields = format_package_section(&mut doc);
    let ghost d3 = doc;
    let s1 = sort_dependencies(&mut doc, "dependencies");
    let ghost d4 = doc;
    let s2 = sort_dependencies(&mut doc, "dev-dependencies");
    let ghost d5 = doc;
    let s3 = sort_dependencies(&mut doc, "build-dependencies");
    let ghost d6 = doc;
    let (tc, ts) = target_dependencies(&mut doc, true);
    let ghost d7 = doc;
    let c1 = collapsed;
    let collapsed = collapsed.saturating_add(tc);
    let sorted = (s1 + s2 + s3).saturating_add(ts);
    let changes = collapsed.saturating_add(reordered).saturating_add(package_fields).saturating_add(
        sorted,
    );
    let output = render(&doc);
    let f = Formatted { output, collapsed, reordered, package_fields, sorted, changes };
    proof {
        reveal(target_step);
        let ds = seq![d0, d1, d2, d3, d4, d5, d6, d7];
        let ns = seq![s1 as int, s2 as int, s3 as int, tc as int, ts as int, c1 as int];
        assert(ds[0] == d0 && ds[7] == d7 && ns[5] == c1);
        assert(collapse_step(ds[0], ds[1], ns[5]));
        assert(reorder_step(ds[1], ds[2], f.reordered as int));
        assert(package_step(ds[2], ds[3], f.package_fields as int));
        assert(sort_step(ds[3], ds[4], "dependencies"@, ns[0]));
        assert(target_step(ds[6], ds[7], ns[3], ns[4]));
        assert(pipeline_run(text@, f, ds, ns));
        lemma_pipeline_normalized(text@, f, ds, ns);
        assert(exists|ds: Seq<toml_edit::DocumentMut>, ns: Seq<int>| #[trigger] pipeline_run(text@, f, ds, ns));
    }
    if f.changes > 0 {
        match parse_manifest(f.output.as_str()) {
            Ok(_) => {},
            Err(_) => {
                return Err(FormatError::OutputInvalid);
            },
        }
    }
    let r = Ok(f);
    assert(r matches Ok(f2) && f2 == f);
    r
}

} // verus!
