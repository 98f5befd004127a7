//! String utilities shared by the rest of the crate: building strings one
//! character at a time, the lexicographic order used for folder lists, and
//! a sort for vectors of strings.

use vstd::prelude::*;
use vstd::string::StrSliceExecFns;

verus! {

/// The views of a sequence of strings, element by element.
pub open spec fn views(s: Seq<String>) -> Seq<Seq<char>> {
    s.map_values(|x: String| x@)
}

/// Relies on std's `String::push`: appends the given character to the end
/// of the string.
#[verifier::external_body]
pub fn push_char(s: &mut String, c: char)
    ensures
        final(s)@ == old(s)@.push(c),
{
    s.push(c)
}

/// Lexicographic strict order on character sequences, comparing scalar
/// values position by position from `i` on.
pub open spec fn lex_lt_from(a: Seq<char>, b: Seq<char>, i: int) -> bool
    recommends
        0 <= i <= a.len(),
        i <= b.len(),
    decreases a.len() - i,
{
    if i >= b.len() {
        false
    } else if i >= a.len() {
        true
    } else if (a[i] as int) < (b[i] as int) {
        true
    } else if (a[i] as int) > (b[i] as int) {
        false
    } else {
        lex_lt_from(a, b, i + 1)
    }
}

/// Lexicographic strict order on character sequences by scalar value: the
/// order `str`'s own `Ord` implementation gives.
pub open spec fn lex_lt(a: Seq<char>, b: Seq<char>) -> bool {
    lex_lt_from(a, b, 0)
}

/// Lexicographic reflexive order on character sequences.
pub open spec fn lex_le(a: Seq<char>, b: Seq<char>) -> bool {
    lex_lt(a, b) || a == b
}

/// A sequence of strings in lexicographically non-decreasing order.
pub open spec fn strings_sorted(s: Seq<Seq<char>>) -> bool {
    forall|i: int, j: int| 0 <= i < j < s.len() ==> lex_le(s[i], s[j])
}

proof fn lemma_lex_lt_from_trichotomy(a: Seq<char>, b: Seq<char>, i: int)
    requires
        0 <= i <= a.len(),
        i <= b.len(),
        a.subrange(0, i) == b.subrange(0, i),
    ensures
        !lex_lt_from(a, b, i) && !lex_lt_from(b, a, i) ==> a == b,
    decreases a.len() - i,
{
    if !lex_lt_from(a, b, i) && !lex_lt_from(b, a, i) {
        if i >= b.len() && i >= a.len() {
            assert(a == a.subrange(0, i));
            assert(b == b.subrange(0, i));
        } else if i < a.len() && i < b.len() && a[i] == b[i] {
            assert(a.subrange(0, i + 1) == b.subrange(0, i + 1)) by {
                assert forall|k: int| 0 <= k < i + 1 implies #[trigger] a.subrange(0, i + 1)[k]
                    == b.subrange(0, i + 1)[k] by {
                    if k < i {
                        assert(a.subrange(0, i)[k] == b.subrange(0, i)[k]);
                    }
                }
                assert(a.subrange(0, i + 1) =~= b.subrange(0, i + 1));
            }
            lemma_lex_lt_from_trichotomy(a, b, i + 1);
        }
    }
}

/// Two character sequences that each do not precede the other are equal.
pub proof fn lemma_lex_connex(a: Seq<char>, b: Seq<char>)
    ensures
        lex_le(a, b) || lex_le(b, a),
{
    assert(a.subrange(0, 0) =~= b.subrange(0, 0));
    lemma_lex_lt_from_trichotomy(a, b, 0);
}

proof fn lemma_lex_lt_from_trans(a: Seq<char>, b: Seq<char>, c: Seq<char>, i: int)
    requires
        0 <= i <= a.len(),
        i <= b.len(),
        i <= c.len(),
        lex_lt_from(a, b, i),
        lex_lt_from(b, c, i),
    ensures
        lex_lt_from(a, c, i),
    decreases a.len() - i,
{
    if i >= a.len() {
    } else if (a[i] as int) < (b[i] as int) {
        if (b[i] as int) <= (c[i] as int) {
        }
    } else if a[i] == b[i] {
        if (b[i] as int) < (c[i] as int) {
        } else {
            lemma_lex_lt_from_trans(a, b, c, i + 1);
        }
    }
}

/// Strict lexicographic order is transitive.
pub proof fn lemma_lex_lt_trans(a: Seq<char>, b: Seq<char>, c: Seq<char>)
    requires
        lex_lt(a, b),
        lex_lt(b, c),
    ensures
        lex_lt(a, c),
{
    lemma_lex_lt_from_trans(a, b, c, 0);
}

/// Reflexive lexicographic order is transitive.
pub proof fn lemma_lex_le_trans(a: Seq<char>, b: Seq<char>, c: Seq<char>)
    requires
        lex_le(a, b),
        lex_le(b, c),
    ensures
        lex_le(a, c),
{
    if a != b && b != c {
        lemma_lex_lt_trans(a, b, c);
    }
}

/// Strict lexicographic order is irreflexive.
pub proof fn lemma_lex_lt_irreflexive(a: Seq<char>, b: Seq<char>)
    requires
        lex_lt(a, b),
    ensures
        a != b,
{
    lemma_lex_lt_from_irreflexive(a, 0);
}

proof fn lemma_lex_lt_from_irreflexive(a: Seq<char>, i: int)
    requires
        0 <= i <= a.len(),
    ensures
        !lex_lt_from(a, a, i),
    decreases a.len() - i,
{
    if i < a.len() {
        lemma_lex_lt_from_irreflexive(a, i + 1);
    }
}

/// Whether `a` precedes `b` in the lexicographic order, decided one
/// character at a time.
pub fn string_lt(a: &String, b: &String) -> (r: bool)
    ensures
        r == lex_lt(a@, b@),
{
    let alen = a.as_str().unicode_len();
    let blen = b.as_str().unicode_len();
    let mut i: usize = 0;
    loop
        invariant
            0 <= i <= alen,
            i <= blen,
            alen == a@.len(),
            blen == b@.len(),
            lex_lt(a@, b@) == lex_lt_from(a@, b@, i as int),
        decreases alen - i,
    {
        if i >= blen {
            return false;
        }
        if i >= alen {
            return true;
        }
        let ca = a.as_str().get_char(i);
        let cb = b.as_str().get_char(i);
        if (ca as u32) < (cb as u32) {
            return true;
        }
        if (ca as u32) > (cb as u32) {
            return false;
        }
        i = i + 1;
    }
}

/// Whether `a` does not follow `b` in the lexicographic order.
pub fn string_le(a: &String, b: &String) -> (r: bool)
    ensures
        r == lex_le(a@, b@),
{
    let lt = string_lt(b, a);
    proof {
        lemma_lex_connex(a@, b@);
        if lex_lt(b@, a@) {
            lemma_lex_lt_irreflexive(b@, a@);
            if lex_lt(a@, b@) {
                lemma_lex_lt_trans(a@, b@, a@);
                lemma_lex_lt_irreflexive(a@, a@);
            }
        }
    }
    !lt
}

/// Whether some string in `v` has the same characters as `x`.
pub fn contains_string(v: &Vec<String>, x: &String) -> (r: bool)
    ensures
        r == views(v@).contains(x@),
{
    let mut i: usize = 0;
    while i < v.len()
        invariant
            0 <= i <= v@.len(),
            forall|k: int| 0 <= k < i ==> views(v@)[k] != x@,
        decreases v@.len() - i,
    {
        if v[i] == *x {
            assert(views(v@)[i as int] == x@);
            return true;
        }
        i = i + 1;
    }
    false
}

/// The view of a pushed string lands at the end of the views.
pub proof fn lemma_views_push(s: Seq<String>, x: String)
    ensures
        views(s).len() == s.len(),
        views(s.push(x)) == views(s).push(x@),
{
    assert(views(s).len() == s.len());
    assert(views(s.push(x)).len() == s.len() + 1);
    assert forall|k: int| 0 <= k < s.len() + 1 implies views(s.push(x))[k] == views(s).push(x@)[k]
        by {
        if k < s.len() {
            assert(views(s.push(x))[k] == s[k]@);
            assert(views(s)[k] == s[k]@);
        }
    }
    assert(views(s.push(x)) =~= views(s).push(x@));
}

/// Every element of a filtered sequence comes from the sequence itself.
pub proof fn lemma_filter_subset<A>(s: Seq<A>, p: spec_fn(A) -> bool)
    ensures
        forall|x: A| #[trigger] s.filter(p).contains(x) ==> s.contains(x),
    decreases s.len(),
{
    reveal(Seq::filter);
    if s.len() > 0 {
        let sub = s.drop_last();
        lemma_filter_subset(sub, p);
        assert forall|x: A| #[trigger] s.filter(p).contains(x) implies s.contains(x) by {
            if sub.filter(p).contains(x) {
                assert(sub.contains(x));
                let j = choose|j: int| 0 <= j < sub.len() && sub[j] == x;
                assert(s[j] == x);
            } else {
                assert(x == s.last());
                assert(s[s.len() - 1] == x);
            }
        }
    }
}

/// Filtering a duplicate-free sequence leaves it duplicate-free.
pub proof fn lemma_filter_no_duplicates<A>(s: Seq<A>, p: spec_fn(A) -> bool)
    requires
        s.no_duplicates(),
    ensures
        s.filter(p).no_duplicates(),
    decreases s.len(),
{
    reveal(Seq::filter);
    if s.len() > 0 {
        let sub = s.drop_last();
        assert(sub.no_duplicates());
        lemma_filter_no_duplicates(sub, p);
        if p(s.last()) {
            let fsub = sub.filter(p);
            if fsub.contains(s.last()) {
                lemma_filter_subset(sub, p);
                assert(sub.contains(s.last()));
                let j = choose|j: int| 0 <= j < sub.len() && sub[j] == s.last();
                assert(s[j] == s[s.len() - 1]);
            }
        }
    }
}

/// Filtering keeps distinct whatever key was distinct before.
pub proof fn lemma_filter_distinct_keys<A, K>(s: Seq<A>, p: spec_fn(A) -> bool, key: spec_fn(A) -> K)
    requires
        s.map_values(key).no_duplicates(),
    ensures
        s.filter(p).map_values(key).no_duplicates(),
    decreases s.len(),
{
    reveal(Seq::filter);
    if s.len() > 0 {
        let sub = s.drop_last();
        assert(sub.map_values(key) =~= s.map_values(key).subrange(0, s.len() - 1));
        assert(sub.map_values(key).no_duplicates());
        lemma_filter_distinct_keys(sub, p, key);
        if p(s.last()) {
            let f = s.filter(p);
            let fsub = sub.filter(p);
            assert(f == fsub.push(s.last()));
            assert forall|a: int, b: int|
                0 <= a < b < f.map_values(key).len() implies f.map_values(key)[a] != f.map_values(
                key,
            )[b] by {
                if b < f.len() - 1 {
                    assert(fsub.map_values(key)[a] != fsub.map_values(key)[b]);
                } else {
                    // b is the appended last element; a key match would mean the
                    // same key occurs twice in s
                    if key(fsub[a]) == key(s.last()) {
                        lemma_filter_subset(sub, p);
                        assert(fsub.contains(fsub[a]));
                        assert(sub.contains(fsub[a]));
                        let j = choose|j: int| 0 <= j < sub.len() && sub[j] == fsub[a];
                        assert(s.map_values(key)[j] == key(s.last()));
                        assert(s.map_values(key)[s.len() - 1] == key(s.last()));
                    }
                }
            }
        }
    }
}

/// Removing an element and re-inserting it elsewhere keeps the collection.
pub proof fn lemma_remove_insert_multiset<A>(s: Seq<A>, i: int, p: int)
    requires
        0 <= i < s.len(),
        0 <= p <= s.len() - 1,
    ensures
        s.remove(i).insert(p, s[i]).to_multiset() == s.to_multiset(),
{
    let s1 = s.remove(i);
    let s2 = s1.insert(p, s[i]);
    assert(s1.len() == s.len() - 1);
    assert(s2.len() == s.len());
    s.to_multiset_ensures();
    s2.to_multiset_ensures();
    assert(s1.to_multiset() =~= s.to_multiset().remove(s[i]));
    assert(s2.remove(p) =~= s1);
    assert(s2[p] == s[i]);
    assert(s2.remove(p).to_multiset() =~= s2.to_multiset().remove(s2[p]));
    assert(s.to_multiset().remove(s[i]) =~= s2.to_multiset().remove(s[i]));
    assert(s.to_multiset().count(s[i]) > 0);
    assert(s2.to_multiset().count(s[i]) > 0) by {
        assert(s2.contains(s[i]));
    }
    assert forall|x: A| s2.to_multiset().count(x) == s.to_multiset().count(x) by {
        broadcast use vstd::multiset::group_multiset_axioms;

        assert(s.to_multiset().remove(s[i]).count(x) == s2.to_multiset().remove(s[i]).count(x));
    }
    assert(s2.to_multiset() =~= s.to_multiset());
}

/// Sorts the strings in `v` into lexicographically non-decreasing order,
/// keeping exactly the same collection of strings.
pub fn sort_strings(v: &mut Vec<String>)
    ensures
        strings_sorted(views(final(v)@)),
        views(final(v)@).to_multiset() == views(old(v)@).to_multiset(),
        final(v)@.len() == old(v)@.len(),
{
    let ghost orig = views(old(v)@);
    let mut i: usize = 1;
    while i < v.len()
        invariant
            1 <= i <= v@.len() || v@.len() == 0,
            views(v@).to_multiset() == orig.to_multiset(),
            views(v@).len() == orig.len(),
            strings_sorted(views(v@).subrange(0, i as int)) || i > v@.len(),
        decreases v@.len() - i,
    {
        // find the insertion position of v[i] within the sorted prefix
        let mut p: usize = 0;
        loop
            invariant
                0 <= p <= i < v@.len(),
                forall|k: int| 0 <= k < p ==> lex_le(views(v@)[k], views(v@)[i as int]),
            ensures
                0 <= p <= i < v@.len(),
                forall|k: int| 0 <= k < p ==> lex_le(views(v@)[k], views(v@)[i as int]),
                p < i ==> !lex_le(views(v@)[p as int], views(v@)[i as int]),
            decreases i - p,
        {
            if p >= i {
                break ;
            }
            if !string_le(&v[p], &v[i]) {
                break ;
            }
            p = p + 1;
        }
        let ghost before = views(v@);
        let x = v.remove(i);
        v.insert(p, x);
        proof {
            let after = views(v@);
            assert(after =~= before.remove(i as int).insert(p as int, before[i as int])) by {
                assert forall|k: int| 0 <= k < after.len() implies after[k] == before.remove(
                    i as int,
                ).insert(p as int, before[i as int])[k] by {}
            }
            lemma_remove_insert_multiset(before, i as int, p as int);
            assert(after.to_multiset() == before.to_multiset());
            // the prefix of length i + 1 is now sorted
            let pre = before.subrange(0, i as int);
            assert(forall|k: int| 0 <= k < i ==> pre[k] == before[k]);
            assert forall|a: int, b: int|
                0 <= a < b < i + 1 implies lex_le(after[a], after[b]) by {
                if b < p {
                    assert(lex_le(pre[a], pre[b]));
                } else if a < p && b == p {
                    assert(lex_le(before[a], before[i as int]));
                } else if a < p && b > p {
                    if a < b - 1 {
                        assert(lex_le(pre[a], pre[b - 1]));
                    }
                } else if a == p && b > p {
                    // the element moved down is not preceded by before[p..i)
                    lemma_lex_connex(before[p as int], before[i as int]);
                    assert(lex_le(before[i as int], before[p as int]));
                    if p < b - 1 {
                        assert(lex_le(pre[p as int], pre[b - 1]));
                        lemma_lex_le_trans(before[i as int], before[p as int], before[b - 1]);
                    }
                } else {
                    assert(lex_le(pre[a - 1], pre[b - 1]));
                }
            }
            assert(strings_sorted(views(v@).subrange(0, i as int + 1)));
        }
        i = i + 1;
    }
    proof {
        if v@.len() > 0 {
            assert(views(v@) =~= views(v@).subrange(0, v@.len() as int));
        }
    }
}

} // verus!
