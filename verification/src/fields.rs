//! Frontmatter fields are kept as a vector of key/value pairs held in strictly
//! ascending key order. That gives the fields a canonical shape: two field
//! sets with the same map of keys to values are the same sequence, which is
//! what makes rendering deterministic. The abstract content is the map
//! [`entries_map`]; insertion has mapping semantics (a later insert with an
//! equal key overwrites).

use vstd::prelude::*;

use crate::text::{lemma_lex_lt_total, lemma_lex_lt_trans, lex_lt, str_eq, str_lt};

verus! {

/// The keys of the entry sequence are strictly ascending (hence unique).
pub open spec fn entries_sorted<VM>(s: Seq<(Seq<char>, VM)>) -> bool {
    forall|i: int, j: int| 0 <= i < j < s.len() ==> lex_lt(s[i].0, s[j].0)
}

/// Insertion into a sorted entry sequence: an equal key is overwritten in
/// place, otherwise the new pair lands at its ordered position.
pub open spec fn entries_insert<VM>(
    s: Seq<(Seq<char>, VM)>,
    k: Seq<char>,
    v: VM,
) -> Seq<(Seq<char>, VM)>
    decreases s.len(),
{
    if s.len() == 0 {
        seq![(k, v)]
    } else if lex_lt(k, s[0].0) {
        seq![(k, v)] + s
    } else if k == s[0].0 {
        seq![(k, v)] + s.drop_first()
    } else {
        seq![s[0]] + entries_insert(s.drop_first(), k, v)
    }
}

/// The mapping that an entry sequence stands for.
pub open spec fn entries_map<VM>(s: Seq<(Seq<char>, VM)>) -> Map<Seq<char>, VM>
    decreases s.len(),
{
    if s.len() == 0 {
        Map::empty()
    } else {
        entries_map(s.drop_first()).insert(s[0].0, s[0].1)
    }
}

/// A key is in the mapping exactly when some entry carries it.
pub proof fn lemma_entries_map_contains<VM>(s: Seq<(Seq<char>, VM)>, k: Seq<char>)
    ensures
        entries_map(s).contains_key(k) <==> exists|i: int| 0 <= i < s.len() && s[i].0 == k,
    decreases s.len(),
{
    if s.len() > 0 {
        lemma_entries_map_contains(s.drop_first(), k);
        if s[0].0 == k {
            assert(s[0].0 == k && 0 <= 0 < s.len());
        } else if entries_map(s).contains_key(k) {
            let i = choose|i: int| 0 <= i < s.drop_first().len() && s.drop_first()[i].0 == k;
            assert(s[i + 1].0 == k);
        } else {
            assert forall|i: int| 0 <= i < s.len() implies s[i].0 != k by {
                if i > 0 {
                    assert(s.drop_first()[i - 1] == s[i]);
                }
            }
        }
    }
}

/// In a sorted entry sequence the head key is not carried by the tail.
pub proof fn lemma_sorted_head_not_in_tail<VM>(s: Seq<(Seq<char>, VM)>)
    requires
        entries_sorted(s),
        s.len() > 0,
    ensures
        !entries_map(s.drop_first()).contains_key(s[0].0),
        entries_map(s)[s[0].0] == s[0].1,
{
    lemma_entries_map_contains(s.drop_first(), s[0].0);
    if entries_map(s.drop_first()).contains_key(s[0].0) {
        let i = choose|i: int|
            0 <= i < s.drop_first().len() && s.drop_first()[i].0 == s[0].0;
        assert(s[i + 1] == s.drop_first()[i]);
        assert(lex_lt(s[0].0, s[i + 1].0));
        lemma_lex_lt_total(s[0].0, s[i + 1].0);
    }
}

/// Inserting into the entry sequence is inserting into its mapping.
pub proof fn lemma_entries_insert_map<VM>(s: Seq<(Seq<char>, VM)>, k: Seq<char>, v: VM)
    ensures
        entries_map(entries_insert(s, k, v)) =~= entries_map(s).insert(k, v),
    decreases s.len(),
{
    if s.len() == 0 {
        let r = entries_insert(s, k, v);
        let e = r.drop_first();
        assert(e =~= Seq::<(Seq<char>, VM)>::empty());
        assert(entries_map(e) =~= Map::<Seq<char>, VM>::empty());
        assert(entries_map(r) =~= entries_map(s).insert(k, v));
    } else if lex_lt(k, s[0].0) {
        let r = seq![(k, v)] + s;
        assert(r.drop_first() =~= s);
    } else if k == s[0].0 {
        let r = seq![(k, v)] + s.drop_first();
        assert(r.drop_first() =~= s.drop_first());
    } else {
        lemma_lex_lt_total(k, s[0].0);
        lemma_entries_insert_map(s.drop_first(), k, v);
        let rec = entries_insert(s.drop_first(), k, v);
        let r = seq![s[0]] + rec;
        assert(r.drop_first() =~= rec);
        assert(entries_map(r) =~= entries_map(rec).insert(s[0].0, s[0].1));
    }
}

/// Insertion preserves sortedness.
pub proof fn lemma_entries_insert_sorted<VM>(s: Seq<(Seq<char>, VM)>, k: Seq<char>, v: VM)
    requires
        entries_sorted(s),
    ensures
        entries_sorted(entries_insert(s, k, v)),
    decreases s.len(),
{
    let r = entries_insert(s, k, v);
    if s.len() == 0 {
    } else if lex_lt(k, s[0].0) {
        assert forall|i: int, j: int| 0 <= i < j < r.len() implies lex_lt(r[i].0, r[j].0) by {
            if i == 0 {
                if j > 1 {
                    lemma_lex_lt_trans(k, s[0].0, s[j - 1].0);
                }
            } else {
                assert(r[i] == s[i - 1] && r[j] == s[j - 1]);
            }
        }
    } else if k == s[0].0 {
        assert forall|i: int, j: int| 0 <= i < j < r.len() implies lex_lt(r[i].0, r[j].0) by {
            if i == 0 {
                assert(r[j] == s[j]);
            } else {
                assert(r[i] == s[i] && r[j] == s[j]);
            }
        }
    } else {
        lemma_lex_lt_total(k, s[0].0);
        lemma_entries_insert_sorted(s.drop_first(), k, v);
        let rec = entries_insert(s.drop_first(), k, v);
        // every key in `rec` is either `k` or a tail key, so the head is below
        // all of them
        lemma_entries_insert_keys(s.drop_first(), k, v);
        assert forall|i: int, j: int| 0 <= i < j < r.len() implies lex_lt(r[i].0, r[j].0) by {
            if i == 0 {
                assert(r[j] == rec[j - 1]);
                if rec[j - 1].0 == k {
                    assert(lex_lt(s[0].0, k));
                } else {
                    let m = choose|m: int|
                        0 <= m < s.drop_first().len() && s.drop_first()[m].0 == rec[j - 1].0;
                    assert(s[m + 1] == s.drop_first()[m]);
                    assert(lex_lt(s[0].0, s[m + 1].0));
                }
            } else {
                assert(r[i] == rec[i - 1] && r[j] == rec[j - 1]);
            }
        }
    }
}

/// Every key of the inserted sequence is the new key or one of the old keys.
pub proof fn lemma_entries_insert_keys<VM>(s: Seq<(Seq<char>, VM)>, k: Seq<char>, v: VM)
    ensures
        forall|j: int|
            0 <= j < entries_insert(s, k, v).len() ==> (entries_insert(s, k, v)[j].0 == k
                || exists|m: int| 0 <= m < s.len() && s[m].0 == #[trigger] entries_insert(
                s,
                k,
                v,
            )[j].0),
    decreases s.len(),
{
    let r = entries_insert(s, k, v);
    if s.len() == 0 {
    } else if lex_lt(k, s[0].0) {
        assert forall|j: int| 0 <= j < r.len() implies (r[j].0 == k || exists|m: int|
            0 <= m < s.len() && s[m].0 == r[j].0) by {
            if j > 0 {
                assert(s[j - 1].0 == r[j].0);
            }
        }
    } else if k == s[0].0 {
        assert forall|j: int| 0 <= j < r.len() implies (r[j].0 == k || exists|m: int|
            0 <= m < s.len() && s[m].0 == r[j].0) by {
            if j > 0 {
                assert(s[j] == r[j]);
            }
        }
    } else {
        lemma_entries_insert_keys(s.drop_first(), k, v);
        let rec = entries_insert(s.drop_first(), k, v);
        assert forall|j: int| 0 <= j < r.len() implies (r[j].0 == k || exists|m: int|
            0 <= m < s.len() && s[m].0 == r[j].0) by {
            if j == 0 {
                assert(s[0].0 == r[0].0);
            } else {
                assert(r[j] == rec[j - 1]);
                if rec[j - 1].0 != k {
                    let m = choose|m: int|
                        0 <= m < s.drop_first().len() && s.drop_first()[m].0 == rec[j - 1].0;
                    assert(s[m + 1] == s.drop_first()[m]);
                }
            }
        }
    }
}

/// Sorted entry sequences are a canonical form: equal mappings mean equal
/// sequences. This is what makes every use of the fields independent of the
/// order in which they were inserted.
pub proof fn lemma_sorted_entries_canonical<VM>(
    s1: Seq<(Seq<char>, VM)>,
    s2: Seq<(Seq<char>, VM)>,
)
    requires
        entries_sorted(s1),
        entries_sorted(s2),
        entries_map(s1) == entries_map(s2),
    ensures
        s1 == s2,
    decreases s1.len(),
{
    if s1.len() == 0 {
        if s2.len() > 0 {
            lemma_entries_map_contains(s1, s2[0].0);
            lemma_entries_map_contains(s2, s2[0].0);
        }
        assert(s1 =~= s2);
    } else if s2.len() == 0 {
        lemma_entries_map_contains(s1, s1[0].0);
        lemma_entries_map_contains(s2, s1[0].0);
    } else {
        // the heads carry the minimal key of the shared domain, so they agree
        lemma_entries_map_contains(s1, s2[0].0);
        lemma_entries_map_contains(s2, s2[0].0);
        lemma_entries_map_contains(s1, s1[0].0);
        lemma_entries_map_contains(s2, s1[0].0);
        let i = choose|i: int| 0 <= i < s1.len() && s1[i].0 == s2[0].0;
        let j = choose|j: int| 0 <= j < s2.len() && s2[j].0 == s1[0].0;
        if i > 0 && j > 0 {
            assert(lex_lt(s1[0].0, s1[i].0));
            assert(lex_lt(s2[0].0, s2[j].0));
            lemma_lex_lt_trans(s1[0].0, s1[i].0, s2[j].0);
            lemma_lex_lt_total(s1[0].0, s2[j].0);
        }
        assert(s1[0].0 == s2[0].0);
        lemma_sorted_head_not_in_tail(s1);
        lemma_sorted_head_not_in_tail(s2);
        assert(s1[0].1 == entries_map(s1)[s1[0].0]);
        assert(s2[0].1 == entries_map(s2)[s2[0].0]);
        assert(s1[0] == s2[0]);
        assert(entries_map(s1.drop_first()) =~= entries_map(s1).remove(s1[0].0));
        assert(entries_map(s2.drop_first()) =~= entries_map(s2).remove(s2[0].0));
        lemma_sorted_entries_canonical(s1.drop_first(), s2.drop_first());
        assert forall|i: int| 0 <= i < s1.len() implies s1[i] == s2[i] by {
            if i > 0 {
                assert(s1[i] == s1.drop_first()[i - 1]);
                assert(s2[i] == s2.drop_first()[i - 1]);
            }
        }
        assert(s1 =~= s2);
    }
}

/// Where the first `i` keys of sorted `s` lie below `k`, insertion happens at
/// position `i`: the three shapes an executable insert produces.
pub proof fn lemma_entries_insert_at<VM>(s: Seq<(Seq<char>, VM)>, k: Seq<char>, v: VM, i: int)
    requires
        entries_sorted(s),
        0 <= i <= s.len(),
        forall|j: int| 0 <= j < i ==> lex_lt(s[j].0, k),
        i < s.len() ==> !lex_lt(s[i].0, k),
    ensures
        i < s.len() && s[i].0 == k ==> entries_insert(s, k, v) =~= s.take(i) + seq![(k, v)]
            + s.skip(i + 1),
        i < s.len() && s[i].0 != k ==> entries_insert(s, k, v) =~= s.take(i) + seq![(k, v)]
            + s.skip(i),
        i == s.len() ==> entries_insert(s, k, v) =~= s + seq![(k, v)],
    decreases i,
{
    if i == 0 {
        if s.len() == 0 {
            assert(entries_insert(s, k, v) =~= s + seq![(k, v)]);
        } else if s[0].0 == k {
            assert(entries_insert(s, k, v) =~= s.take(0) + seq![(k, v)] + s.skip(1));
        } else {
            lemma_lex_lt_total(k, s[0].0);
            assert(lex_lt(k, s[0].0));
            assert(entries_insert(s, k, v) =~= s.take(0) + seq![(k, v)] + s.skip(0));
        }
    } else {
        let t = s.drop_first();
        assert forall|j: int| 0 <= j < i - 1 implies lex_lt(t[j].0, k) by {
            assert(t[j] == s[j + 1]);
        }
        assert(i - 1 < t.len() ==> t[i - 1] == s[i]);
        lemma_entries_insert_at(t, k, v, i - 1);
        lemma_lex_lt_total(k, s[0].0);
        assert(entries_insert(s, k, v) == seq![s[0]] + entries_insert(t, k, v));
        if i < s.len() && s[i].0 == k {
            assert(seq![s[0]] + (t.take(i - 1) + seq![(k, v)] + t.skip(i)) =~= s.take(i) + seq![
                (k, v),
            ] + s.skip(i + 1));
        } else if i < s.len() {
            assert(seq![s[0]] + (t.take(i - 1) + seq![(k, v)] + t.skip(i - 1)) =~= s.take(i)
                + seq![(k, v)] + s.skip(i));
        } else {
            assert(seq![s[0]] + (t + seq![(k, v)]) =~= s + seq![(k, v)]);
        }
    }
}

/// How the abstract entries read off a concrete field vector.
pub proof fn lemma_entry_views<V: DeepView>(v: Vec<(String, V)>, i: int)
    requires
        0 <= i < v@.len(),
    ensures
        v.deep_view().len() == v@.len(),
        v.deep_view()[i] == (v@[i].0@, v@[i].1.deep_view()),
{
    assert(v.deep_view()[i] == v@[i].deep_view());
}

/// Ordered insert of a key/value pair into a sorted field vector; an equal key
/// overwrites its value in place.
pub fn vec_insert_entry<V: DeepView>(fields: &mut Vec<(String, V)>, key: String, value: V)
    requires
        entries_sorted(old(fields).deep_view()),
    ensures
        final(fields).deep_view() == entries_insert(
            old(fields).deep_view(),
            key@,
            value.deep_view(),
        ),
        entries_sorted(final(fields).deep_view()),
        entries_map(final(fields).deep_view()) == entries_map(old(fields).deep_view()).insert(
            key@,
            value.deep_view(),
        ),
{
    let ghost s = old(fields).deep_view();
    let ghost ov = old(fields)@;
    let mut i: usize = 0;
    loop
        invariant
            i <= fields@.len(),
            *fields == *old(fields),
            s == fields.deep_view(),
            ov == fields@,
            s.len() == fields@.len(),
            forall|j: int| 0 <= j < i ==> lex_lt(s[j].0, key@),
        ensures
            i <= fields@.len(),
            *fields == *old(fields),
            s == fields.deep_view(),
            ov == fields@,
            forall|j: int| 0 <= j < i ==> lex_lt(s[j].0, key@),
            i < fields@.len() ==> !lex_lt(s[i as int].0, key@),
        decreases fields@.len() - i,
    {
        if i == fields.len() {
            break ;
        }
        proof {
            lemma_entry_views(*fields, i as int);
        }
        if !str_lt(fields[i].0.as_str(), key.as_str()) {
            break ;
        }
        i = i + 1;
    }
    proof {
        lemma_entries_insert_at(s, key@, value.deep_view(), i as int);
        lemma_entries_insert_sorted(s, key@, value.deep_view());
        lemma_entries_insert_map(s, key@, value.deep_view());
    }
    let ghost tgt = entries_insert(s, key@, value.deep_view());
    let at_existing = if i < fields.len() {
        proof {
            lemma_entry_views(*fields, i as int);
        }
        str_eq(fields[i].0.as_str(), key.as_str())
    } else {
        false
    };
    if at_existing {
        fields.remove(i);
        fields.insert(i, (key, value));
        proof {
            assert(tgt =~= s.take(i as int) + seq![(key@, value.deep_view())] + s.skip(
                i as int + 1,
            ));
            assert(fields@ =~= ov.take(i as int) + seq![(key, value)] + ov.skip(i as int + 1));
            assert forall|m: int| 0 <= m < fields.deep_view().len() implies fields.deep_view()[m]
                == tgt[m] by {
                lemma_entry_views(*fields, m);
                if m != i {
                    assert(fields@[m] == ov[m]);
                    lemma_entry_views(*old(fields), m);
                }
            }
            assert(fields.deep_view() =~= tgt);
        }
    } else {
        fields.insert(i, (key, value));
        proof {
            if i < s.len() {
                assert(s[i as int].0 != key@);
                assert(tgt =~= s.take(i as int) + seq![(key@, value.deep_view())] + s.skip(
                    i as int,
                ));
            } else {
                assert(tgt =~= s + seq![(key@, value.deep_view())]);
                assert(tgt =~= s.take(i as int) + seq![(key@, value.deep_view())] + s.skip(
                    i as int,
                ));
            }
            assert(fields@ =~= ov.take(i as int) + seq![(key, value)] + ov.skip(i as int));
            assert forall|m: int| 0 <= m < fields.deep_view().len() implies fields.deep_view()[m]
                == tgt[m] by {
                lemma_entry_views(*fields, m);
                if m < i {
                    assert(fields@[m] == ov[m]);
                    lemma_entry_views(*old(fields), m);
                } else if m > i {
                    assert(fields@[m] == ov[m - 1]);
                    lemma_entry_views(*old(fields), m - 1);
                }
            }
            assert(fields.deep_view() =~= tgt);
        }
    }
}

} // verus!
