//! Tables of a parsed manifest, as toml_edit holds them, and the
//! key-level rewrites done on them: canonical key order, byte-wise sorted
//! keys, and explicit sub-tables turned into inline tables.

use vstd::prelude::*;
use crate::order::{
    ascending, canonical_order, expected_order, lemma_canonical_order_contains,
    lemma_canonical_order_no_dup, same_strs, sorted_keys, strs,
};

verus! {

#[verifier::external_type_specification]
#[verifier::external_body]
pub struct ExTable(toml_edit::Table);

#[verifier::external_type_specification]
#[verifier::external_body]
pub struct ExItem(toml_edit::Item);

/// The shape of a table entry.
#[derive(Debug, Clone, Copy, PartialEq, Eq, Structural)]
pub enum ItemKind {
    /// A placeholder that the table does not show.
    Empty,
    /// A value, inline tables included.
    Value,
    /// A table written with its own header.
    Table,
    /// A table written with dotted keys (`a.b = 1`).
    DottedTable,
    /// An array of tables.
    ArrayOfTables,
}

/// The keys of all entries that a table stores, in order.
pub uninterp spec fn stored_keys(t: toml_edit::Table) -> Seq<Seq<char>>;

/// The entries that a table stores, by key.
pub uninterp spec fn stored_items(t: toml_edit::Table) -> Map<Seq<char>, toml_edit::Item>;

/// The shape of an entry.
pub uninterp spec fn item_kind(i: toml_edit::Item) -> ItemKind;

/// The table that an entry of shape `Table` or `DottedTable` holds.
pub uninterp spec fn table_in(i: toml_edit::Item) -> toml_edit::Table;

/// Whether key `k` of `t` holds an entry that the table shows.
pub open spec fn shown(t: toml_edit::Table, k: Seq<char>) -> bool {
    stored_items(t).contains_key(k) && item_kind(stored_items(t)[k]) != ItemKind::Empty
}

/// The keys that a table shows, in order.
pub open spec fn table_keys(t: toml_edit::Table) -> Seq<Seq<char>> {
    stored_keys(t).filter(|k: Seq<char>| shown(t, k))
}

/// Relies on `toml_edit::Table::iter`: it walks the entries that are not
/// placeholders, in order, and keys in a table are unique.
#[verifier::external_body]
pub(crate) fn key_list(t: &toml_edit::Table) -> (r: Vec<String>)
    ensures
        strs(r@) == table_keys(*t),
        strs(r@).no_duplicates(),
{
    t.iter().map(|(k, _)| k.to_string()).collect()
}

/// Relies on `toml_edit::Table::get`: the entry under `key`, unless there
/// is none or it is a placeholder.
#[verifier::external_body]
pub(crate) fn get_ref<'a>(t: &'a toml_edit::Table, key: &str) -> (r: Option<&'a toml_edit::Item>)
    ensures
        r is Some == shown(*t, key@),
        r matches Some(i) ==> *i == stored_items(*t)[key@],
{
    t.get(key)
}

/// Relies on `toml_edit::Item`'s `Clone`: a copy of the entry.
#[verifier::external_body]
pub(crate) fn copy_item(i: &toml_edit::Item) -> (r: toml_edit::Item)
    ensures
        r == *i,
{
    i.clone()
}

/// Relies on `toml_edit::Table::get_mut`: the entry under a shown key is
/// replaced in place, and the key keeps its place and its spelling.
#[verifier::external_body]
pub(crate) fn replace_item(t: &mut toml_edit::Table, key: &str, item: toml_edit::Item)
    ensures
        stored_keys(*final(t)) == stored_keys(*old(t)),
        key_forms(*final(t)) == key_forms(*old(t)),
        stored_items(*final(t)) == if shown(*old(t), key@) {
            stored_items(*old(t)).insert(key@, item)
        } else {
            stored_items(*old(t))
        },
{
    if let Some(slot) = t.get_mut(key) {
        *slot = item;
    }
}

#[verifier::external_type_specification]
#[verifier::external_body]
pub struct ExKey(toml_edit::Key);

/// The text of a key, without its quoting and formatting.
pub uninterp spec fn key_text(k: toml_edit::Key) -> Seq<char>;

/// The stored keys themselves, with their formatting and the comments
/// above them, by key text.
pub uninterp spec fn key_forms(t: toml_edit::Table) -> Map<Seq<char>, toml_edit::Key>;

/// Relies on `toml_edit::Table::key`: the stored key, with its formatting
/// and the comments above it, under a key that the table stores.
#[verifier::external_body]
pub(crate) fn key_ref<'a>(t: &'a toml_edit::Table, key: &str) -> (r: Option<&'a toml_edit::Key>)
    ensures
        stored_items(*t).contains_key(key@) ==> r is Some,
        r matches Some(k) ==> key_text(*k) == key@ && *k == key_forms(*t)[key@],
{
    t.key(key)
}

/// Relies on `toml_edit::Key`'s `Clone`: a copy of the key.
#[verifier::external_body]
pub(crate) fn copy_key(k: &toml_edit::Key) -> (r: toml_edit::Key)
    ensures
        r == *k,
{
    k.clone()
}

/// Relies on `toml_edit::Table::insert_formatted`: like `insert`, but the
/// given key, with its formatting, is stored.
#[verifier::external_body]
pub(crate) fn put_formatted(t: &mut toml_edit::Table, key: &toml_edit::Key, item: toml_edit::Item)
    ensures
        stored_keys(*final(t)) == if stored_keys(*old(t)).contains(key_text(*key)) {
            stored_keys(*old(t))
        } else {
            stored_keys(*old(t)).push(key_text(*key))
        },
        stored_items(*final(t)) == stored_items(*old(t)).insert(key_text(*key), item),
        key_forms(*final(t)) == key_forms(*old(t)).insert(key_text(*key), *key),
{
    t.insert_formatted(key, item);
}

/// Relies on `toml_edit::Table::clear`: no entry is left.
#[verifier::external_body]
pub(crate) fn clear_table(t: &mut toml_edit::Table)
    ensures
        stored_keys(*final(t)).len() == 0,
        forall|k: Seq<char>| !#[trigger] stored_items(*final(t)).contains_key(k),
{
    t.clear();
}

/// Relies on the variants of `toml_edit::Item` and on
/// `toml_edit::Table::is_dotted`.
#[verifier::external_body]
pub(crate) fn kind_of(i: &toml_edit::Item) -> (r: ItemKind)
    ensures
        r == item_kind(*i),
{
    match i {
        toml_edit::Item::None => ItemKind::Empty,
        toml_edit::Item::Value(_) => ItemKind::Value,
        toml_edit::Item::Table(t) => if t.is_dotted() {
            ItemKind::DottedTable
        } else {
            ItemKind::Table
        },
        toml_edit::Item::ArrayOfTables(_) => ItemKind::ArrayOfTables,
    }
}

/// Relies on `toml_edit::Item::as_table`: the table inside a table entry.
#[verifier::external_body]
pub(crate) fn item_table(i: &toml_edit::Item) -> (r: Option<&toml_edit::Table>)
    ensures
        r is Some == (item_kind(*i) == ItemKind::Table || item_kind(*i) == ItemKind::DottedTable),
        r matches Some(t) ==> *t == table_in(*i),
{
    i.as_table()
}

/// The inline-table value that toml_edit makes of a table.
pub uninterp spec fn inline_of(t: toml_edit::Table) -> toml_edit::Item;

/// Relies on `toml_edit::Table::into_inline_table`: the table's entries
/// become an inline table value, a function of the table alone.
#[verifier::external_body]
pub(crate) fn into_inline(i: toml_edit::Item) -> (r: toml_edit::Item)
    requires
        item_kind(i) == ItemKind::Table,
    ensures
        item_kind(r) == ItemKind::Value,
        r == inline_of(table_in(i)),
{
    match i {
        toml_edit::Item::Table(t) => toml_edit::Item::Value(toml_edit::Value::InlineTable(
            t.into_inline_table(),
        )),
        other => other,
    }
}

/// Whether a table is marked implicit, to be written without a header of
/// its own.
pub uninterp spec fn implicit(t: toml_edit::Table) -> bool;

/// Relies on `toml_edit::Table::set_implicit`: the table will be written
/// with its own header; its entries do not change.
#[verifier::external_body]
pub(crate) fn set_explicit(t: &mut toml_edit::Table)
    ensures
        stored_keys(*final(t)) == stored_keys(*old(t)),
        stored_items(*final(t)) == stored_items(*old(t)),
        key_forms(*final(t)) == key_forms(*old(t)),
        !implicit(*final(t)),
{
    t.set_implicit(false);
}

/// Two tables with the same stored entries show the same keys.
pub proof fn lemma_same_entries(a: toml_edit::Table, b: toml_edit::Table)
    requires
        stored_keys(a) == stored_keys(b),
        stored_items(a) == stored_items(b),
    ensures
        table_keys(a) == table_keys(b),
{
    assert((|k: Seq<char>| shown(a, k)) =~= (|k: Seq<char>| shown(b, k)));
}

pub proof fn lemma_filter_same(s: Seq<Seq<char>>, p: spec_fn(Seq<char>) -> bool, q: spec_fn(Seq<char>) -> bool)
    requires
        forall|i: int| 0 <= i < s.len() ==> p(#[trigger] s[i]) == q(s[i]),
    ensures
        s.filter(p) == s.filter(q),
    decreases s.len(),
{
    if s.len() > 0 {
        lemma_filter_same(s.drop_last(), p, q);
        s.drop_last().lemma_filter_push(s.last(), p);
        s.drop_last().lemma_filter_push(s.last(), q);
        assert(s.drop_last().push(s.last()) =~= s);
    } else {
        assert(s.filter(p) =~= s.filter(q)) by {
            reveal(Seq::filter);
        }
    }
}

/// Replaces the entries of `t` by those under the keys `e`, in that order.
fn rebuild(t: &mut toml_edit::Table, e: &Vec<String>)
    requires
        strs(e@).no_duplicates(),
        forall|k: Seq<char>| #[trigger] strs(e@).contains(k) ==> shown(*old(t), k),
    ensures
        stored_keys(*final(t)) == strs(e@),
        table_keys(*final(t)) == strs(e@),
        forall|k: Seq<char>| #[trigger] strs(e@).contains(k) ==> stored_items(*final(t))[k]
            == stored_items(*old(t))[k] && key_forms(*final(t))[k] == key_forms(*old(t))[k],
{
    let ghost es = strs(e@);
    let mut items: Vec<toml_edit::Item> = Vec::new();
    let mut keys: Vec<toml_edit::Key> = Vec::new();
    let mut i: usize = 0;
    while i < e.len()
        invariant
            i <= e@.len(),
            es == strs(e@),
            *t == *old(t),
            forall|k: Seq<char>| #[trigger] es.contains(k) ==> shown(*old(t), k),
            items@.len() == i,
            keys@.len() == i,
            forall|j: int| 0 <= j < i ==> #[trigger] items@[j] == stored_items(*old(t))[es[j]],
            forall|j: int| 0 <= j < i ==> #[trigger] key_text(keys@[j]) == es[j],
            forall|j: int| 0 <= j < i ==> #[trigger] keys@[j] == key_forms(*old(t))[es[j]],
        decreases e@.len() - i,
    {
        assert(es[i as int] == e@[i as int]@);
        assert(es.contains(es[i as int]));
        let r = get_ref(t, e[i].as_str());
        match r {
            Some(it) => {
                items.push(copy_item(it));
            },
            None => {
                assert(false);
                return;
            },
        }
        match key_ref(t, e[i].as_str()) {
            Some(k) => {
                keys.push(copy_key(k));
            },
            None => {
                assert(false);
                return;
            },
        }
        i = i + 1;
    }
    clear_table(t);
    assert(stored_keys(*t) =~= es.take(0));
    let mut j: usize = 0;
    let ghost olds = stored_items(*old(t));
    let ghost copied = items@;
    assert(es.take(0) =~= seq![]);
    while j < e.len()
        invariant
            j <= e@.len(),
            es == strs(e@),
            es.no_duplicates(),
            olds == stored_items(*old(t)),
            forall|k: Seq<char>| #[trigger] es.contains(k) ==> shown(*old(t), k),
            copied == items@,
            copied.len() == e@.len(),
            keys@.len() == e@.len(),
            forall|x: int| 0 <= x < e@.len() ==> #[trigger] key_text(keys@[x]) == es[x],
            forall|x: int| 0 <= x < e@.len() ==> #[trigger] keys@[x] == key_forms(*old(t))[es[x]],
            forall|x: int| 0 <= x < j ==> #[trigger] key_forms(*t)[es[x]] == key_forms(*old(t))[es[x]],
            forall|x: int| 0 <= x < e@.len() ==> #[trigger] copied[x] == olds[es[x]],
            stored_keys(*t) == es.take(j as int),
            forall|k: Seq<char>| #[trigger] stored_items(*t).contains_key(k) == es.take(j as int).contains(k),
            forall|x: int| 0 <= x < j ==> #[trigger] stored_items(*t)[es[x]] == olds[es[x]],
        decreases e@.len() - j,
    {
        let it = copy_item(&items[j]);
        proof {
            assert(es[j as int] == e@[j as int]@);
            let t0 = es.take(j as int);
            if t0.contains(es[j as int]) {
                let x = choose|x: int| 0 <= x < t0.len() && t0[x] == es[j as int];
                assert(es[x] == es[j as int]);
            }
            assert(es.take(j + 1) =~= es.take(j as int).push(es[j as int]));
        }
        assert(key_text(keys@[j as int]) == es[j as int]);
        put_formatted(t, &keys[j], it);
        proof {
            assert forall|k: Seq<char>| #[trigger] stored_items(*t).contains_key(k) == es.take(j + 1).contains(k) by {
                let t1 = es.take(j + 1);
                let t0 = es.take(j as int);
                if k == es[j as int] {
                    assert(t1[j as int] == k);
                } else if t1.contains(k) {
                    let y = choose|y: int| 0 <= y < t1.len() && t1[y] == k;
                    assert(t0[y] == k);
                } else if t0.contains(k) {
                    let y = choose|y: int| 0 <= y < t0.len() && t0[y] == k;
                    assert(t1[y] == k);
                }
            }
            assert forall|x: int| 0 <= x < j + 1 implies #[trigger] stored_items(*t)[es[x]] == olds[es[x]] by {
                if x < j {
                    assert(es[x] != es[j as int]);
                }
            }
            assert forall|x: int| 0 <= x < j + 1 implies #[trigger] key_forms(*t)[es[x]] == key_forms(*old(t))[es[x]] by {
                if x < j {
                    assert(es[x] != es[j as int]);
                }
            }
        }
        j = j + 1;
    }
    proof {
        assert(es.take(j as int) =~= es);
        assert forall|k: Seq<char>| #[trigger] es.contains(k) implies stored_items(*t)[k] == olds[k]
            && key_forms(*t)[k] == key_forms(*old(t))[k] by {
            let x = choose|x: int| 0 <= x < es.len() && es[x] == k;
        }
        assert forall|x: int| 0 <= x < es.len() implies #[trigger] shown(*t, es[x]) by {
            assert(es.contains(es[x]));
            assert(shown(*old(t), es[x]));
        }
        crate::order::lemma_filter_all(es, |k: Seq<char>| shown(*t, k));
    }
}

/// Puts the keys of `t` in canonical order along `desired` (see
/// `canonical_order`), each keeping its entry. Returns whether the order
/// of the keys changed; when it did not, the table is left as it was.
pub fn reorder_keys(t: &mut toml_edit::Table, desired: &Vec<String>) -> (r: bool)
    requires
        strs(desired@).no_duplicates(),
    ensures
        r == (canonical_order(table_keys(*old(t)), strs(desired@)) != table_keys(*old(t))),
        table_keys(*final(t)) == canonical_order(table_keys(*old(t)), strs(desired@)),
        forall|k: Seq<char>| #[trigger] table_keys(*old(t)).contains(k) ==> stored_items(*final(t))[k]
            == stored_items(*old(t))[k] && key_forms(*final(t))[k] == key_forms(*old(t))[k],
        !r ==> *final(t) == *old(t),
{
    let keys = key_list(t);
    let e = expected_order(&keys, desired);
    if same_strs(&e, &keys) {
        return false;
    }
    proof {
        lemma_canonical_order_no_dup(strs(keys@), strs(desired@));
        assert forall|k: Seq<char>| #[trigger] strs(e@).contains(k) implies shown(*t, k) by {
            lemma_canonical_order_contains(strs(keys@), strs(desired@), k);
            let ks = stored_keys(*t);
            ks.lemma_filter_contains_rev(|k: Seq<char>| shown(*t, k), k);
            assert(table_keys(*t).contains(k));
            let x = choose|x: int| 0 <= x < table_keys(*t).len() && table_keys(*t)[x] == k;
            ks.lemma_filter_pred(|k: Seq<char>| shown(*t, k), x);
        }
    }
    rebuild(t, &e);
    proof {
        assert forall|k: Seq<char>| #[trigger] table_keys(*old(t)).contains(k) implies stored_items(*t)[k]
            == stored_items(*old(t))[k] && key_forms(*t)[k] == key_forms(*old(t))[k] by {
            lemma_canonical_order_contains(strs(keys@), strs(desired@), k);
        }
    }
    true
}

/// Sorts the keys of `t` in byte-wise ascending order, each keeping its
/// entry. Returns 1 when the order changed and 0 when the keys were
/// already sorted, in which case the table is left as it was.
pub fn sort_table_in_place(t: &mut toml_edit::Table) -> (r: usize)
    ensures
        r == if ascending(table_keys(*old(t))) { 0usize } else { 1usize },
        ascending(table_keys(*final(t))),
        table_keys(*final(t)).to_multiset() == table_keys(*old(t)).to_multiset(),
        forall|k: Seq<char>| #[trigger] table_keys(*old(t)).contains(k) ==> stored_items(*final(t))[k]
            == stored_items(*old(t))[k] && key_forms(*final(t))[k] == key_forms(*old(t))[k],
        r == 0 ==> *final(t) == *old(t),
{
    broadcast use vstd::multiset::group_multiset_axioms;

    let keys = key_list(t);
    let sorted = sorted_keys(&keys);
    if same_strs(&sorted, &keys) {
        return 0;
    }
    let ghost ks = strs(keys@);
    let ghost ss = strs(sorted@);
    proof {
        ks.lemma_multiset_has_no_duplicates();
        ss.lemma_multiset_has_no_duplicates_conv();
        assert forall|k: Seq<char>| #[trigger] ss.contains(k) implies shown(*t, k) by {
            ss.to_multiset_ensures();
            ks.to_multiset_ensures();
            let sk = stored_keys(*t);
            assert(ss.to_multiset().count(k) > 0);
            assert(ks.to_multiset().count(k) > 0);
            assert(ks.contains(k));
            let x = choose|x: int| 0 <= x < ks.len() && ks[x] == k;
            sk.lemma_filter_pred(|k: Seq<char>| shown(*t, k), x);
        }
    }
    rebuild(t, &sorted);
    proof {
        assert forall|k: Seq<char>| #[trigger] ks.contains(k) implies stored_items(*t)[k]
            == stored_items(*old(t))[k] && key_forms(*t)[k] == key_forms(*old(t))[k] by {
            ss.to_multiset_ensures();
            ks.to_multiset_ensures();
            assert(ks.to_multiset().count(k) > 0);
            assert(ss.to_multiset().count(k) > 0);
            assert(ss.contains(k));
        }
    }
    1
}

/// Whether an entry can be written inline: an explicit table (not a dotted
/// one) whose entries are all values.
pub open spec fn collapsible(i: toml_edit::Item) -> bool {
    &&& item_kind(i) == ItemKind::Table
    &&& forall|k: Seq<char>| #[trigger] table_keys(table_in(i)).contains(k)
        ==> item_kind(stored_items(table_in(i))[k]) == ItemKind::Value
}

/// The keys of `t` among `ks` whose entries are collapsible.
pub open spec fn collapsible_keys(t: toml_edit::Table, ks: Seq<Seq<char>>) -> Seq<Seq<char>> {
    ks.filter(|k: Seq<char>| collapsible(stored_items(t)[k]))
}

fn is_collapsible(i: &toml_edit::Item) -> (r: bool)
    ensures
        r == collapsible(*i),
{
    if kind_of(i) != ItemKind::Table {
        return false;
    }
    let inner = match item_table(i) {
        Some(inner) => inner,
        None => {
            return false;
        },
    };
    let keys = key_list(inner);
    let ghost ks = strs(keys@);
    let mut j: usize = 0;
    while j < keys.len()
        invariant
            j <= keys@.len(),
            ks == strs(keys@),
            ks == table_keys(table_in(*i)),
            *inner == table_in(*i),
            forall|x: int| 0 <= x < j ==> item_kind(stored_items(table_in(*i))[#[trigger] ks[x]])
                == ItemKind::Value,
        decreases keys@.len() - j,
    {
        assert(ks[j as int] == keys@[j as int]@);
        match get_ref(inner, keys[j].as_str()) {
            Some(c) => {
                if kind_of(c) != ItemKind::Value {
                    assert(ks.contains(ks[j as int]));
                    return false;
                }
            },
            None => {
                let ghost st = stored_keys(*inner);
                proof {
                    st.lemma_filter_pred(|k: Seq<char>| shown(*inner, k), j as int);
                }
                return false;
            },
        }
        j = j + 1;
    }
    proof {
        assert forall|k: Seq<char>| #[trigger] ks.contains(k) implies item_kind(
            stored_items(table_in(*i))[k],
        ) == ItemKind::Value by {
            let x = choose|x: int| 0 <= x < ks.len() && ks[x] == k;
        }
    }
    true
}

/// Rewrites each collapsible entry of `t` (see `collapsible`) as an inline
/// table, all or nothing per entry, and returns how many were rewritten.
/// Keys and their order stay; other entries are untouched.
pub fn collapse_table_entries(t: &mut toml_edit::Table) -> (r: usize)
    ensures
        r == collapsible_keys(*old(t), table_keys(*old(t))).len(),
        table_keys(*final(t)) == table_keys(*old(t)),
        stored_keys(*final(t)) == stored_keys(*old(t)),
        key_forms(*final(t)) == key_forms(*old(t)),
        forall|k: Seq<char>| #[trigger] table_keys(*old(t)).contains(k) ==> if collapsible(stored_items(*old(t))[k]) {
            item_kind(stored_items(*final(t))[k]) == ItemKind::Value && stored_items(*final(t))[k]
                == inline_of(table_in(stored_items(*old(t))[k]))
        } else {
            stored_items(*final(t))[k] == stored_items(*old(t))[k]
        },
        r == 0 ==> *final(t) == *old(t),
{
    let keys = key_list(t);
    let ghost ks = strs(keys@);
    let ghost o = *t;
    let ghost pred = |k: Seq<char>| collapsible(stored_items(o)[k]);
    let mut n: usize = 0;
    let mut i: usize = 0;
    assert(ks.take(0) =~= seq![]);
    while i < keys.len()
        invariant
            i <= keys@.len(),
            ks == strs(keys@),
            ks == table_keys(o),
            ks.no_duplicates(),
            o == *old(t),
            pred == (|k: Seq<char>| collapsible(stored_items(o)[k])),
            n == ks.take(i as int).filter(pred).len(),
            n == 0 ==> *t == o,
            stored_keys(*t) == stored_keys(o),
            key_forms(*t) == key_forms(o),
            stored_items(*t).dom() == stored_items(o).dom(),
            forall|k: Seq<char>| #[trigger] stored_items(o).contains_key(k) ==> if ks.take(i as int).contains(k)
                && collapsible(stored_items(o)[k]) {
                item_kind(stored_items(*t)[k]) == ItemKind::Value && stored_items(*t)[k] == inline_of(
                    table_in(stored_items(o)[k]),
                )
            } else {
                stored_items(*t)[k] == stored_items(o)[k]
            },
        decreases keys@.len() - i,
    {
        let ghost k = ks[i as int];
        proof {
            assert(k == keys@[i as int]@);
            assert(ks.contains(k));
            stored_keys(o).lemma_filter_contains_rev(|k: Seq<char>| shown(o, k), k);
            let x = choose|x: int| 0 <= x < ks.len() && ks[x] == k;
            stored_keys(o).lemma_filter_pred(|k: Seq<char>| shown(o, k), x);
            assert(!ks.take(i as int).contains(k)) by {
                let t0 = ks.take(i as int);
                if t0.contains(k) {
                    let y = choose|y: int| 0 <= y < t0.len() && t0[y] == k;
                    assert(ks[y] == ks[i as int]);
                }
            }
            assert(ks.take(i + 1) =~= ks.take(i as int).push(k));
            ks.take(i as int).lemma_filter_push(k, pred);
        }
        assert(stored_items(*t)[k] == stored_items(o)[k]);
        let found = match get_ref(t, keys[i].as_str()) {
            Some(it) => if is_collapsible(it) {
                Some(copy_item(it))
            } else {
                None
            },
            None => None,
        };
        assert(found is Some == collapsible(stored_items(o)[k]));
        match found {
            Some(it) => {
                let inline = into_inline(it);
                replace_item(t, keys[i].as_str(), inline);
                proof {
                    assert(stored_items(*t).dom() =~= stored_items(o).dom());
                }
                n = n + 1;
            },
            None => {},
        }
        proof {
            assert forall|k2: Seq<char>| #[trigger] stored_items(o).contains_key(k2) implies (if ks.take(i + 1).contains(k2)
                && collapsible(stored_items(o)[k2]) {
                item_kind(stored_items(*t)[k2]) == ItemKind::Value && stored_items(*t)[k2] == inline_of(
                    table_in(stored_items(o)[k2]),
                )
            } else {
                stored_items(*t)[k2] == stored_items(o)[k2]
            }) by {
                let t1 = ks.take(i + 1);
                let t0 = ks.take(i as int);
                if k2 != k {
                    if t1.contains(k2) {
                        let y = choose|y: int| 0 <= y < t1.len() && t1[y] == k2;
                        assert(t0[y] == k2);
                    }
                } else {
                    assert(t1[i as int] == k);
                }
            }
        }
        i = i + 1;
    }
    proof {
        assert(ks.take(i as int) =~= ks);
        assert forall|x: int| 0 <= x < stored_keys(o).len() implies shown(*t, #[trigger] stored_keys(o)[x]) == shown(o, stored_keys(o)[x]) by {
            let k = stored_keys(o)[x];
            if stored_items(o).contains_key(k) && ks.contains(k) && collapsible(stored_items(o)[k]) {
            }
        }
        lemma_filter_same(stored_keys(o), |k: Seq<char>| shown(*t, k), |k: Seq<char>| shown(o, k));
        assert forall|k: Seq<char>| #[trigger] ks.contains(k) implies stored_items(o).contains_key(k) by {
            stored_keys(o).lemma_filter_contains_rev(|k: Seq<char>| shown(o, k), k);
            let x = choose|x: int| 0 <= x < ks.len() && ks[x] == k;
            stored_keys(o).lemma_filter_pred(|k: Seq<char>| shown(o, k), x);
        }
    }
    n
}

} // verus!
