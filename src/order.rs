//! Canonical key orders: a fixed list of preferred keys followed by the
//! rest in the order they had, and the byte-wise ascending order of
//! dependency names.

use vstd::prelude::*;
use vstd::string::StrSliceExecFns;

verus! {

broadcast use vstd::seq_lib::group_seq_properties;

/// The texts of a vector of strings.
pub open spec fn strs(v: Seq<String>) -> Seq<Seq<char>> {
    v.map_values(|s: String| s@)
}

/// The keys of `keys` that `order` lists, in the order of `order`, then the
/// keys that it does not list, in the order they had.
pub open spec fn canonical_order(keys: Seq<Seq<char>>, order: Seq<Seq<char>>) -> Seq<Seq<char>> {
    order.filter(|o: Seq<char>| keys.contains(o)) + keys.filter(|k: Seq<char>| !order.contains(k))
}

/// Lexicographic order on characters. Code points compare as their UTF-8
/// encodings do, so this is the byte-wise order of the texts: no case
/// folding, `Z` before `a`.
pub open spec fn text_le(a: Seq<char>, b: Seq<char>) -> bool
    decreases a.len(),
{
    if a.len() == 0 {
        true
    } else if b.len() == 0 {
        false
    } else if (a[0] as u32) != (b[0] as u32) {
        (a[0] as u32) < (b[0] as u32)
    } else {
        text_le(a.drop_first(), b.drop_first())
    }
}

/// Whether `s` is in ascending order.
pub open spec fn ascending(s: Seq<Seq<char>>) -> bool {
    forall|i: int, j: int| 0 <= i < j < s.len() ==> text_le(s[i], s[j])
}

pub proof fn lemma_text_le_total(a: Seq<char>, b: Seq<char>)
    ensures
        text_le(a, b) || text_le(b, a),
    decreases a.len(),
{
    if a.len() > 0 && b.len() > 0 {
        if (a[0] as u32) == (b[0] as u32) {
            lemma_text_le_total(a.drop_first(), b.drop_first());
        }
    }
}

pub proof fn lemma_text_le_trans(a: Seq<char>, b: Seq<char>, c: Seq<char>)
    requires
        text_le(a, b),
        text_le(b, c),
    ensures
        text_le(a, c),
    decreases a.len(),
{
    if a.len() > 0 && b.len() > 0 && c.len() > 0 && (a[0] as u32) == (b[0] as u32) && (b[0] as u32) == (c[0] as u32) {
        lemma_text_le_trans(a.drop_first(), b.drop_first(), c.drop_first());
    }
}

pub proof fn lemma_filter_all(s: Seq<Seq<char>>, p: spec_fn(Seq<char>) -> bool)
    requires
        forall|i: int| 0 <= i < s.len() ==> p(#[trigger] s[i]),
    ensures
        s.filter(p) == s,
    decreases s.len(),
{
    if s.len() > 0 {
        lemma_filter_all(s.drop_last(), p);
        s.drop_last().lemma_filter_push(s.last(), p);
        assert(s.drop_last().push(s.last()) =~= s);
    } else {
        assert(s.filter(p) =~= s) by {
            reveal(Seq::filter);
        }
    }
}

pub proof fn lemma_filter_none(s: Seq<Seq<char>>, p: spec_fn(Seq<char>) -> bool)
    requires
        forall|i: int| 0 <= i < s.len() ==> !p(#[trigger] s[i]),
    ensures
        s.filter(p) == Seq::<Seq<char>>::empty(),
    decreases s.len(),
{
    if s.len() > 0 {
        lemma_filter_none(s.drop_last(), p);
        s.drop_last().lemma_filter_push(s.last(), p);
        assert(s.drop_last().push(s.last()) =~= s);
    } else {
        assert(s.filter(p) =~= Seq::<Seq<char>>::empty()) by {
            reveal(Seq::filter);
        }
    }
}

/// Filtering keeps a sequence free of duplicates.
pub proof fn lemma_filter_no_dup(s: Seq<Seq<char>>, p: spec_fn(Seq<char>) -> bool)
    requires
        s.no_duplicates(),
    ensures
        s.filter(p).no_duplicates(),
    decreases s.len(),
{
    if s.len() > 0 {
        let d = s.drop_last();
        assert(d.no_duplicates());
        lemma_filter_no_dup(d, p);
        d.lemma_filter_push(s.last(), p);
        assert(d.push(s.last()) =~= s);
        if p(s.last()) && d.filter(p).contains(s.last()) {
            d.lemma_filter_contains_rev(p, s.last());
            let j = choose|j: int| 0 <= j < d.len() && d[j] == s.last();
            assert(s[j] == s[s.len() - 1]);
        }
    } else {
        assert(s.filter(p) =~= s) by {
            reveal(Seq::filter);
        }
    }
}

/// The canonical order of distinct keys along a list without repeats
/// holds no key twice.
pub proof fn lemma_canonical_order_no_dup(keys: Seq<Seq<char>>, order: Seq<Seq<char>>)
    requires
        keys.no_duplicates(),
        order.no_duplicates(),
    ensures
        canonical_order(keys, order).no_duplicates(),
{
    let listed = |o: Seq<char>| keys.contains(o);
    let unlisted = |k: Seq<char>| !order.contains(k);
    let a = order.filter(listed);
    let b = keys.filter(unlisted);
    lemma_filter_no_dup(order, listed);
    lemma_filter_no_dup(keys, unlisted);
    assert forall|i: int, j: int| 0 <= i < (a + b).len() && 0 <= j < (a + b).len() && i != j
        implies (a + b)[i] != (a + b)[j] by {
        if i < a.len() && j >= a.len() {
            assert(a.contains(a[i]));
            order.lemma_filter_contains_rev(listed, a[i]);
            keys.lemma_filter_pred(unlisted, j - a.len());
        } else if j < a.len() && i >= a.len() {
            assert(a.contains(a[j]));
            order.lemma_filter_contains_rev(listed, a[j]);
            keys.lemma_filter_pred(unlisted, i - a.len());
        }
    }
}

/// The canonical order holds the same keys as the keys it is made from.
pub proof fn lemma_canonical_order_contains(keys: Seq<Seq<char>>, order: Seq<Seq<char>>, x: Seq<char>)
    ensures
        canonical_order(keys, order).contains(x) == keys.contains(x),
{
    let listed = |o: Seq<char>| keys.contains(o);
    let unlisted = |k: Seq<char>| !order.contains(k);
    order.filter_lemma(listed);
    keys.filter_lemma(unlisted);
    let a = order.filter(listed);
    let b = keys.filter(unlisted);
    if keys.contains(x) {
        let i = choose|i: int| 0 <= i < keys.len() && keys[i] == x;
        if order.contains(x) {
            let j = choose|j: int| 0 <= j < order.len() && order[j] == x;
            order.lemma_filter_contains(listed, j);
            assert(a.contains(x));
            let k = choose|k: int| 0 <= k < a.len() && a[k] == x;
            assert((a + b)[k] == x);
        } else {
            keys.lemma_filter_contains(unlisted, i);
            let k = choose|k: int| 0 <= k < b.len() && b[k] == x;
            assert((a + b)[a.len() + k] == x);
        }
    }
    if canonical_order(keys, order).contains(x) {
        let k = choose|k: int| 0 <= k < (a + b).len() && (a + b)[k] == x;
        if k < a.len() {
            assert(listed(a[k]));
        } else {
            assert(b.contains(b[k - a.len()]));
            keys.lemma_filter_contains_rev(unlisted, b[k - a.len()]);
        }
    }
}

/// Putting keys in canonical order twice gives what doing it once gives.
pub proof fn lemma_canonical_order_idempotent(keys: Seq<Seq<char>>, order: Seq<Seq<char>>)
    ensures
        canonical_order(canonical_order(keys, order), order) == canonical_order(keys, order),
{
    let e = canonical_order(keys, order);
    let listed = |o: Seq<char>| keys.contains(o);
    let listed_e = |o: Seq<char>| e.contains(o);
    let unlisted = |k: Seq<char>| !order.contains(k);
    assert forall|x: Seq<char>| #[trigger] listed_e(x) == listed(x) by {
        lemma_canonical_order_contains(keys, order, x);
    }
    assert(listed_e =~= listed);
    let a = order.filter(listed);
    let b = keys.filter(unlisted);
    order.filter_lemma(listed);
    keys.filter_lemma(unlisted);
    Seq::filter_distributes_over_add(a, b, unlisted);
    assert forall|i: int| 0 <= i < a.len() implies !unlisted(#[trigger] a[i]) by {
        assert(a.contains(a[i]));
        order.lemma_filter_contains_rev(listed, a[i]);
    }
    lemma_filter_none(a, unlisted);
    lemma_filter_all(b, unlisted);
    assert(e.filter(unlisted) =~= b);
}

/// Whether the texts of `v` hold `s`.
pub fn contains_str(v: &Vec<String>, s: &String) -> (r: bool)
    ensures
        r == strs(v@).contains(s@),
{
    let mut i: usize = 0;
    while i < v.len()
        invariant
            i <= v@.len(),
            forall|j: int| 0 <= j < i ==> v@[j]@ != s@,
        decreases v@.len() - i,
    {
        if v[i] == *s {
            assert(strs(v@)[i as int] == s@);
            return true;
        }
        i = i + 1;
    }
    proof {
        if strs(v@).contains(s@) {
            let j = choose|j: int| 0 <= j < strs(v@).len() && strs(v@)[j] == s@;
            assert(v@[j]@ == s@);
        }
    }
    false
}

proof fn lemma_strs_push(v: Seq<String>, s: String)
    ensures
        strs(v.push(s)) == strs(v).push(s@),
{
    assert(strs(v.push(s)) =~= strs(v).push(s@));
}

proof fn lemma_strs_take(v: Seq<String>, i: int)
    requires
        0 <= i < v.len(),
    ensures
        strs(v).take(i + 1) == strs(v).take(i).push(v[i]@),
{
    assert(strs(v).take(i + 1) =~= strs(v).take(i).push(v[i]@));
}

/// The keys in canonical order: those that `order` lists first, in its
/// order, then the others in the order they had.
pub fn expected_order(keys: &Vec<String>, order: &Vec<String>) -> (r: Vec<String>)
    ensures
        strs(r@) == canonical_order(strs(keys@), strs(order@)),
{
    let ghost ks = strs(keys@);
    let ghost os = strs(order@);
    let ghost listed = |o: Seq<char>| ks.contains(o);
    let ghost unlisted = |k: Seq<char>| !os.contains(k);
    let mut r: Vec<String> = Vec::new();
    let mut i: usize = 0;
    assert(os.take(0) =~= seq![]);
    while i < order.len()
        invariant
            i <= order@.len(),
            ks == strs(keys@),
            os == strs(order@),
            listed == (|o: Seq<char>| ks.contains(o)),
            strs(r@) == os.take(i as int).filter(listed),
        decreases order@.len() - i,
    {
        proof {
            lemma_strs_take(order@, i as int);
            os.take(i as int).lemma_filter_push(order@[i as int]@, listed);
        }
        let c = contains_str(keys, &order[i]);
        assert(os[i as int] == order@[i as int]@);
        assert(c == listed(os[i as int]));
        if c {
            proof {
                lemma_strs_push(r@, order@[i as int]);
            }
            r.push(order[i].clone());
        }
        assert(strs(r@) == os.take(i + 1).filter(listed));
        i = i + 1;
    }
    assert(os.take(i as int) =~= os);
    let ghost first = strs(r@);
    let mut j: usize = 0;
    assert(ks.take(0) =~= seq![]);
    while j < keys.len()
        invariant
            j <= keys@.len(),
            ks == strs(keys@),
            os == strs(order@),
            first == os.filter(listed),
            unlisted == (|k: Seq<char>| !os.contains(k)),
            strs(r@) == first + ks.take(j as int).filter(unlisted),
        decreases keys@.len() - j,
    {
        proof {
            lemma_strs_take(keys@, j as int);
            ks.take(j as int).lemma_filter_push(keys@[j as int]@, unlisted);
        }
        let c = contains_str(order, &keys[j]);
        assert(ks[j as int] == keys@[j as int]@);
        assert(c != unlisted(ks[j as int]));
        if !c {
            proof {
                lemma_strs_push(r@, keys@[j as int]);
            }
            r.push(keys[j].clone());
            assert(strs(r@) =~= first + ks.take(j + 1).filter(unlisted));
        }
        assert(strs(r@) == first + ks.take(j + 1).filter(unlisted));
        j = j + 1;
    }
    assert(ks.take(j as int) =~= ks);
    r
}

/// Whether two vectors of strings hold the same texts in the same order.
pub fn same_strs(a: &Vec<String>, b: &Vec<String>) -> (r: bool)
    ensures
        r == (strs(a@) == strs(b@)),
{
    if a.len() != b.len() {
        assert(strs(a@).len() != strs(b@).len());
        return false;
    }
    let mut i: usize = 0;
    while i < a.len()
        invariant
            a@.len() == b@.len(),
            i <= a@.len(),
            forall|j: int| 0 <= j < i ==> a@[j]@ == b@[j]@,
        decreases a@.len() - i,
    {
        if a[i] != b[i] {
            assert(strs(a@)[i as int] != strs(b@)[i as int]);
            return false;
        }
        i = i + 1;
    }
    assert(strs(a@) =~= strs(b@));
    true
}

/// Compares two texts in byte-wise order (see `text_le`).
pub fn str_le(a: &String, b: &String) -> (r: bool)
    ensures
        r == text_le(a@, b@),
{
    let sa = a.as_str();
    let sb = b.as_str();
    let na = sa.unicode_len();
    let nb = sb.unicode_len();
    let mut i: usize = 0;
    while i < na && i < nb
        invariant
            na == a@.len(),
            nb == b@.len(),
            i <= na,
            i <= nb,
            sa@ == a@,
            sb@ == b@,
            text_le(a@, b@) == text_le(a@.skip(i as int), b@.skip(i as int)),
        decreases na - i,
    {
        let ca = sa.get_char(i);
        let cb = sb.get_char(i);
        proof {
            assert(a@.skip(i as int).drop_first() =~= a@.skip(i + 1));
            assert(b@.skip(i as int).drop_first() =~= b@.skip(i + 1));
        }
        if (ca as u32) != (cb as u32) {
            return (ca as u32) < (cb as u32);
        }
        i = i + 1;
    }
    i == na
}

proof fn lemma_insert_multiset(s: Seq<Seq<char>>, j: int, x: Seq<char>)
    requires
        0 <= j <= s.len(),
    ensures
        s.insert(j, x).to_multiset() == s.to_multiset().insert(x),
{
    broadcast use vstd::multiset::group_multiset_axioms;

    let t = s.insert(j, x);
    assert(t.remove(j) =~= s);
    vstd::seq_lib::to_multiset_remove(t, j);
    t.to_multiset_ensures();
    assert(t.contains(x)) by {
        assert(t[j] == x);
    }
    assert(t.to_multiset().count(x) > 0);
    assert(t.to_multiset() =~= s.to_multiset().insert(x));
}

/// The keys sorted in byte-wise ascending order; equal keys keep their
/// relative order.
pub fn sorted_keys(keys: &Vec<String>) -> (r: Vec<String>)
    ensures
        ascending(strs(r@)),
        strs(r@).to_multiset() == strs(keys@).to_multiset(),
        ascending(strs(keys@)) ==> strs(r@) == strs(keys@),
{
    let mut r: Vec<String> = Vec::new();
    let mut i: usize = 0;
    assert(strs(keys@).take(0) =~= seq![]);
    assert(strs(r@) =~= seq![]);
    while i < keys.len()
        invariant
            i <= keys@.len(),
            ascending(strs(r@)),
            strs(r@).to_multiset() == strs(keys@).take(i as int).to_multiset(),
            ascending(strs(keys@)) ==> strs(r@) == strs(keys@).take(i as int),
        decreases keys@.len() - i,
    {
        let x = keys[i].clone();
        let mut j: usize = 0;
        while j < r.len() && str_le(&r[j], &x)
            invariant
                j <= r@.len(),
                forall|k: int| 0 <= k < j ==> text_le(#[trigger] r@[k]@, x@),
            decreases r@.len() - j,
        {
            j = j + 1;
        }
        let ghost before = strs(r@);
        proof {
            if ascending(strs(keys@)) {
                assert(j == r@.len()) by {
                    if j < r@.len() {
                        assert(before[j as int] == strs(keys@)[j as int]);
                        assert(text_le(strs(keys@)[j as int], strs(keys@)[i as int]));
                    }
                }
                assert(before.insert(j as int, x@) =~= strs(keys@).take(i + 1));
            }
            lemma_strs_take(keys@, i as int);
            vstd::seq_lib::to_multiset_build(strs(keys@).take(i as int), x@);
            lemma_insert_multiset(before, j as int, x@);
            assert forall|a: int, b: int|
                0 <= a < b < before.len() + 1 implies text_le(
                #[trigger] before.insert(j as int, x@)[a],
                #[trigger] before.insert(j as int, x@)[b],
            ) by {
                let t = before.insert(j as int, x@);
                if j < r@.len() {
                    assert(!text_le(before[j as int], x@));
                    lemma_text_le_total(before[j as int], x@);
                }
                if b < j {
                } else if b == j {
                    assert(text_le(r@[a]@, x@));
                } else if a < j {
                    assert(t[b] == before[b - 1]);
                    assert(text_le(before[a], x@));
                    assert(text_le(x@, before[j as int]));
                    if b - 1 > j {
                        assert(text_le(before[j as int], before[b - 1]));
                        lemma_text_le_trans(x@, before[j as int], before[b - 1]);
                    }
                    lemma_text_le_trans(before[a], x@, before[b - 1]);
                } else if a == j {
                    assert(text_le(x@, before[j as int]));
                    if b - 1 > j {
                        assert(text_le(before[j as int], before[b - 1]));
                        lemma_text_le_trans(x@, before[j as int], before[b - 1]);
                    }
                } else {
                    assert(t[a] == before[a - 1]);
                    assert(t[b] == before[b - 1]);
                }
            }
        }
        r.insert(j, x);
        proof {
            assert(strs(r@) =~= before.insert(j as int, x@));
        }
        i = i + 1;
    }
    assert(strs(keys@).take(i as int) =~= strs(keys@));
    r
}

} // verus!
