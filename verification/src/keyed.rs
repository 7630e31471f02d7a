//! Identifier-keyed records and the list operations shared by every collection.
use vstd::prelude::*;

verus! {

/// A record identified by a string key.
pub trait Keyed {
    spec fn key(&self) -> Seq<char>;

    fn key_str(&self) -> (r: &str)
        ensures
            r@ == self.key(),
    ;
}

/// A record that belongs to another record, named by a string.
pub trait Owned {
    spec fn owner(&self) -> Seq<char>;

    fn owner_str(&self) -> (r: &str)
        ensures
            r@ == self.owner(),
    ;
}

pub open spec fn has_key<T: Keyed>(s: Seq<T>, k: Seq<char>) -> bool {
    exists|i: int| 0 <= i < s.len() && #[trigger] s[i].key() == k
}

pub open spec fn unique_keys<T: Keyed>(s: Seq<T>) -> bool {
    forall|i: int, j: int| 0 <= i < s.len() && 0 <= j < s.len() && i != j ==> s[i].key() != s[j].key()
}

/// The position of the record with key `k`, when there is one.
pub open spec fn key_index<T: Keyed>(s: Seq<T>, k: Seq<char>) -> int {
    choose|i: int| 0 <= i < s.len() && #[trigger] s[i].key() == k
}

/// The record with key `k`, when there is one.
pub open spec fn keyed<T: Keyed>(s: Seq<T>, k: Seq<char>) -> T {
    s[key_index(s, k)]
}

pub open spec fn key_is_not<T: Keyed>(k: Seq<char>) -> spec_fn(T) -> bool {
    |x: T| x.key() != k
}

/// Is `k` one of the strings in `v`?
pub open spec fn str_in(v: Seq<String>, k: Seq<char>) -> bool {
    exists|i: int| 0 <= i < v.len() && #[trigger] v[i]@ == k
}

/// String slice equality: equal exactly when the two slices hold the same characters,
/// which is when their UTF-8 bytes agree.
pub fn str_eq(a: &str, b: &str) -> (r: bool)
    ensures
        r == (a@ == b@),
{
    let x = crate::text::bytes(a);
    let y = crate::text::bytes(b);
    if x.len() != y.len() {
        return false;
    }
    let n = x.len();
    let mut i: usize = 0;
    while i < n
        invariant
            n == x@.len() && n == y@.len(),
            i <= n,
            x@ == crate::text::utf8(a@) && y@ == crate::text::utf8(b@),
            forall|j: int| 0 <= j < i ==> x@[j] == y@[j],
        decreases n - i,
    {
        if x[i] != y[i] {
            return false;
        }
        i += 1;
    }
    proof {
        assert(x@ =~= y@);
        vstd::utf8::encode_utf8_decode_utf8(a@);
        vstd::utf8::encode_utf8_decode_utf8(b@);
    }
    true
}

pub fn find<T: Keyed>(v: &Vec<T>, k: &str) -> (r: Option<usize>)
    ensures
        r matches Some(i) ==> i < v@.len() && v@[i as int].key() == k@,
        r is None <==> !has_key(v@, k@),
{
    let mut i: usize = 0;
    while i < v.len()
        invariant
            i <= v@.len(),
            forall|j: int| 0 <= j < i ==> #[trigger] v@[j].key() != k@,
        decreases v@.len() - i,
    {
        if str_eq(v[i].key_str(), k) {
            return Some(i);
        }
        i += 1;
    }
    None
}

pub fn contains_str(v: &Vec<String>, k: &str) -> (r: bool)
    ensures
        r == str_in(v@, k@),
{
    let mut i: usize = 0;
    while i < v.len()
        invariant
            i <= v@.len(),
            forall|j: int| 0 <= j < i ==> #[trigger] v@[j]@ != k@,
        decreases v@.len() - i,
    {
        if str_eq(v[i].as_str(), k) {
            return true;
        }
        i += 1;
    }
    false
}

pub proof fn lemma_filter_push<A>(s: Seq<A>, pred: spec_fn(A) -> bool, e: A)
    ensures
        pred(e) ==> s.push(e).filter(pred) == s.filter(pred).push(e),
        !pred(e) ==> s.push(e).filter(pred) == s.filter(pred),
{
    reveal(Seq::filter);
    assert(s.push(e).drop_last() =~= s);
}

/// Filtering a prefix gives a prefix of the filtered sequence.
pub proof fn lemma_filter_prefix<A>(s: Seq<A>, pred: spec_fn(A) -> bool, k: int)
    requires
        0 <= k <= s.len(),
    ensures
        s.subrange(0, k).filter(pred).len() <= s.filter(pred).len(),
        forall|x: int| 0 <= x < s.subrange(0, k).filter(pred).len()
            ==> s.filter(pred)[x] == #[trigger] s.subrange(0, k).filter(pred)[x],
    decreases s.len(),
{
    if k == s.len() {
        assert(s.subrange(0, k) =~= s);
    } else {
        let t = s.drop_last();
        assert(s =~= t.push(s.last()));
        assert(s.subrange(0, k) =~= t.subrange(0, k));
        lemma_filter_prefix(t, pred, k);
        lemma_filter_push(t, pred, s.last());
    }
}

/// Moves the elements of `v` into a vector in reverse order.
pub fn reversed<T>(v: Vec<T>) -> (r: Vec<T>)
    ensures
        r@ == v@.reverse(),
{
    let ghost all = v@;
    let mut v = v;
    let mut r: Vec<T> = Vec::new();
    while v.len() > 0
        invariant
            v@ + r@.reverse() == all,
        decreases v@.len(),
    {
        let ghost before = v@;
        let x = v.pop().unwrap();
        r.push(x);
        proof {
            assert(v@ + r@.reverse() =~= before + (r@.reverse()).drop_first()) by {
                assert(r@.reverse() =~= seq![x] + r@.drop_last().reverse());
            }
            assert(before =~= v@.push(x));
            assert(v@ + r@.reverse() =~= all);
        }
    }
    proof {
        assert(v@ =~= Seq::<T>::empty());
        assert(r@.reverse() =~= all);
        assert(r@ =~= r@.reverse().reverse());
    }
    r
}

pub open spec fn key_not_in<T: Keyed>(drop: Seq<String>) -> spec_fn(T) -> bool {
    |x: T| !str_in(drop, x.key())
}

/// Keeps the records whose key is not in `drop`, in order.
pub fn retain_keys<T: Keyed>(v: Vec<T>, drop: &Vec<String>) -> (r: Vec<T>)
    ensures
        r@ == v@.filter(key_not_in::<T>(drop@)),
{
    let ghost pred = key_not_in::<T>(drop@);
    let ghost all = v@;
    let mut rest = reversed(v);
    let mut r: Vec<T> = Vec::new();
    while rest.len() > 0
        invariant
            pred == key_not_in::<T>(drop@),
            rest@.len() <= all.len(),
            rest@ == all.subrange(all.len() - rest@.len(), all.len() as int).reverse(),
            r@ == all.take(all.len() - rest@.len()).filter(pred),
        decreases rest@.len(),
    {
        let ghost k = all.len() - rest@.len();
        let x = rest.pop().unwrap();
        proof {
            assert(x == all[k]);
            lemma_filter_push(all.take(k), pred, x);
            assert(all.take(k + 1) =~= all.take(k).push(x));
            assert(rest@ =~= all.subrange(k + 1, all.len() as int).reverse());
        }
        let ks = x.key_str();
        let found = contains_str(drop, ks);
        let keep = !found;
        proof {
            assert(pred(x) == keep);
        }
        if keep {
            r.push(x);
        }
    }
    proof {
        assert(all.take(all.len() as int) =~= all);
    }
    r
}

pub open spec fn owner_not_in<T: Owned>(drop: Seq<String>) -> spec_fn(T) -> bool {
    |x: T| !str_in(drop, x.owner())
}

/// Keeps the records whose owner is not in `drop`, in order.
pub fn retain_owners<T: Owned>(v: Vec<T>, drop: &Vec<String>) -> (r: Vec<T>)
    ensures
        r@ == v@.filter(owner_not_in::<T>(drop@)),
{
    let ghost pred = owner_not_in::<T>(drop@);
    let ghost all = v@;
    let mut rest = reversed(v);
    let mut r: Vec<T> = Vec::new();
    while rest.len() > 0
        invariant
            pred == owner_not_in::<T>(drop@),
            rest@.len() <= all.len(),
            rest@ == all.subrange(all.len() - rest@.len(), all.len() as int).reverse(),
            r@ == all.take(all.len() - rest@.len()).filter(pred),
        decreases rest@.len(),
    {
        let ghost k = all.len() - rest@.len();
        let x = rest.pop().unwrap();
        proof {
            assert(x == all[k]);
            lemma_filter_push(all.take(k), pred, x);
            assert(all.take(k + 1) =~= all.take(k).push(x));
            assert(rest@ =~= all.subrange(k + 1, all.len() as int).reverse());
        }
        let ks = x.owner_str();
        let found = contains_str(drop, ks);
        let keep = !found;
        proof {
            assert(pred(x) == keep);
        }
        if keep {
            r.push(x);
        }
    }
    proof {
        assert(all.take(all.len() as int) =~= all);
    }
    r
}


pub proof fn lemma_push_key<T: Keyed>(s: Seq<T>, x: T)
    requires
        unique_keys(s),
        !has_key(s, x.key()),
    ensures
        unique_keys(s.push(x)),
        forall|k: Seq<char>| has_key(s.push(x), k) <==> (has_key(s, k) || k == x.key()),
{
    let t = s.push(x);
    assert forall|i: int, j: int| 0 <= i < t.len() && 0 <= j < t.len() && i != j implies t[i].key() != t[j].key() by {
        if i < s.len() && j < s.len() {
            assert(t[i] == s[i] && t[j] == s[j]);
        } else if i < s.len() {
            assert(t[i] == s[i]);
        } else {
            assert(t[j] == s[j]);
        }
    }
    assert forall|k: Seq<char>| has_key(t, k) <==> (has_key(s, k) || k == x.key()) by {
        if has_key(t, k) {
            let i = choose|i: int| 0 <= i < t.len() && #[trigger] t[i].key() == k;
            if i < s.len() {
                assert(t[i] == s[i]);
            }
        }
        if has_key(s, k) {
            let i = choose|i: int| 0 <= i < s.len() && #[trigger] s[i].key() == k;
            assert(t[i] == s[i]);
        }
        if k == x.key() {
            assert(t[s.len() as int] == x);
        }
    }
}

/// Replacing a record by one with the same key keeps keys and uniqueness.
pub proof fn lemma_update_key<T: Keyed>(s: Seq<T>, i: int, x: T)
    requires
        0 <= i < s.len(),
        x.key() == s[i].key(),
    ensures
        unique_keys(s) ==> unique_keys(s.update(i, x)),
        forall|k: Seq<char>| has_key(s.update(i, x), k) <==> has_key(s, k),
{
    let t = s.update(i, x);
    assert forall|a: int| 0 <= a < s.len() implies #[trigger] t[a].key() == s[a].key() by {}
    assert forall|k: Seq<char>| has_key(t, k) <==> has_key(s, k) by {
        if has_key(t, k) {
            let a = choose|a: int| 0 <= a < t.len() && #[trigger] t[a].key() == k;
            assert(s[a].key() == k);
        }
        if has_key(s, k) {
            let a = choose|a: int| 0 <= a < s.len() && #[trigger] s[a].key() == k;
            assert(t[a].key() == k);
        }
    }
}

/// Removing a record keeps the others' keys.
pub proof fn lemma_remove_key<T: Keyed>(s: Seq<T>, i: int)
    requires
        0 <= i < s.len(),
        unique_keys(s),
    ensures
        unique_keys(s.remove(i)),
        forall|k: Seq<char>| has_key(s.remove(i), k) <==> (has_key(s, k) && k != s[i].key()),
{
    let t = s.remove(i);
    assert forall|a: int| 0 <= a < t.len() implies #[trigger] t[a] == s[if a < i { a } else { a + 1 }] by {}
    assert forall|a: int, b: int| 0 <= a < t.len() && 0 <= b < t.len() && a != b implies t[a].key() != t[b].key() by {
        assert(t[a] == s[if a < i { a } else { a + 1 }]);
        assert(t[b] == s[if b < i { b } else { b + 1 }]);
    }
    assert forall|k: Seq<char>| has_key(t, k) <==> (has_key(s, k) && k != s[i].key()) by {
        if has_key(t, k) {
            let a = choose|a: int| 0 <= a < t.len() && #[trigger] t[a].key() == k;
            assert(t[a] == s[if a < i { a } else { a + 1 }]);
        }
        if has_key(s, k) && k != s[i].key() {
            let a = choose|a: int| 0 <= a < s.len() && #[trigger] s[a].key() == k;
            let b = if a < i { a } else { a - 1 };
            assert(t[b] == s[a]);
        }
    }
}


pub proof fn lemma_str_in_push(v: Seq<String>, x: String)
    ensures
        forall|k: Seq<char>| #[trigger] str_in(v.push(x), k) <==> (str_in(v, k) || k == x@),
{
    assert forall|k: Seq<char>| #[trigger] str_in(v.push(x), k) <==> (str_in(v, k) || k == x@) by {
        let t = v.push(x);
        if str_in(t, k) {
            let i = choose|i: int| 0 <= i < t.len() && #[trigger] t[i]@ == k;
            if i < v.len() {
                assert(v[i] == t[i]);
            }
        }
        if str_in(v, k) {
            let i = choose|i: int| 0 <= i < v.len() && #[trigger] v[i]@ == k;
            assert(t[i] == v[i]);
        }
        if k == x@ {
            assert(t[v.len() as int] == x);
        }
    }
}


/// Sequences with the same keys position by position agree on uniqueness and membership.
pub proof fn lemma_same_keys<T: Keyed>(a: Seq<T>, b: Seq<T>)
    requires
        a.len() == b.len(),
        forall|i: int| 0 <= i < a.len() ==> #[trigger] a[i].key() == b[i].key(),
    ensures
        unique_keys(a) ==> unique_keys(b),
        forall|k: Seq<char>| has_key(a, k) <==> has_key(b, k),
{
    assert forall|k: Seq<char>| has_key(a, k) <==> has_key(b, k) by {
        if has_key(a, k) {
            let i = choose|i: int| 0 <= i < a.len() && #[trigger] a[i].key() == k;
            assert(b[i].key() == k);
        }
        if has_key(b, k) {
            let i = choose|i: int| 0 <= i < b.len() && #[trigger] b[i].key() == k;
            assert(a[i].key() == k);
        }
    }
    if unique_keys(a) {
        assert forall|i: int, j: int| 0 <= i < b.len() && 0 <= j < b.len() && i != j implies b[i].key() != b[j].key() by {
            assert(a[i].key() == b[i].key() && a[j].key() == b[j].key());
        }
    }
}


/// Filtering keeps key uniqueness and only keeps existing records.
pub proof fn lemma_filter_unique<T: Keyed>(s: Seq<T>, p: spec_fn(T) -> bool)
    requires
        unique_keys(s),
    ensures
        unique_keys(s.filter(p)),
        forall|k: Seq<char>| has_key(s.filter(p), k) ==> has_key(s, k),
        forall|i: int| 0 <= i < s.filter(p).len() ==> s.contains(#[trigger] s.filter(p)[i]) && p(s.filter(p)[i]),
        forall|i: int| 0 <= i < s.len() && p(#[trigger] s[i]) ==> has_key(s.filter(p), s[i].key()),
    decreases s.len(),
{
    reveal(Seq::filter);
    let f = s.filter(p);
    assert forall|i: int| 0 <= i < f.len() implies s.contains(#[trigger] f[i]) && p(f[i]) by {
        s.lemma_filter_pred(p, i);
        s.lemma_filter_contains_rev(p, f[i]);
    }
    assert forall|i: int| 0 <= i < s.len() && p(#[trigger] s[i]) implies has_key(f, s[i].key()) by {
        s.lemma_filter_contains(p, i);
        let j = choose|j: int| 0 <= j < f.len() && f[j] == s[i];
        assert(f[j].key() == s[i].key());
    }
    assert forall|k: Seq<char>| has_key(f, k) implies has_key(s, k) by {
        let j = choose|j: int| 0 <= j < f.len() && #[trigger] f[j].key() == k;
        assert(s.contains(f[j]));
        let i = choose|i: int| 0 <= i < s.len() && s[i] == f[j];
        assert(s[i].key() == k);
    }
    if s.len() > 0 {
        let t = s.drop_last();
        assert forall|a: int, b: int| 0 <= a < t.len() && 0 <= b < t.len() && a != b implies t[a].key() != t[b].key() by {
            assert(t[a] == s[a] && t[b] == s[b]);
        }
        lemma_filter_unique(t, p);
        let ft = t.filter(p);
        if p(s.last()) {
            assert(f == ft.push(s.last()));
            assert(!has_key(ft, s.last().key())) by {
                if has_key(ft, s.last().key()) {
                    let i = choose|i: int| 0 <= i < t.len() && #[trigger] t[i].key() == s.last().key();
                    assert(s[i].key() == s[s.len() - 1].key());
                }
            }
            lemma_push_key(ft, s.last());
        } else {
            assert(f == ft);
        }
    }
}

/// Filters by predicates that agree on every element are equal.
pub proof fn lemma_filter_same<A>(s: Seq<A>, p: spec_fn(A) -> bool, q: spec_fn(A) -> bool)
    requires
        forall|i: int| 0 <= i < s.len() ==> p(#[trigger] s[i]) == q(s[i]),
    ensures
        s.filter(p) == s.filter(q),
    decreases s.len(),
{
    reveal(Seq::filter);
    if s.len() > 0 {
        let t = s.drop_last();
        assert forall|i: int| 0 <= i < t.len() implies p(#[trigger] t[i]) == q(t[i]) by {
            assert(t[i] == s[i]);
        }
        lemma_filter_same(t, p, q);
        assert(p(s[s.len() - 1]) == q(s[s.len() - 1]));
    }
}

/// In a sequence with unique keys, the record at `i` is the one found by its key.
pub proof fn lemma_index_of_key<T: Keyed>(s: Seq<T>, i: int)
    requires
        unique_keys(s),
        0 <= i < s.len(),
    ensures
        has_key(s, s[i].key()),
        key_index(s, s[i].key()) == i,
        keyed(s, s[i].key()) == s[i],
{
    assert(s[i].key() == s[i].key());
    let c = key_index(s, s[i].key());
    assert(s[c].key() == s[i].key());
}

} // verus!
