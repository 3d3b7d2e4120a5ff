//! Stable sorting of records by an integer key.
use vstd::prelude::*;

verus! {

/// A record ordered by an integer key.
pub trait Keyed: Sized {
    /// The key of the record.
    spec fn key(&self) -> u64;

    /// Reads the key.
    fn key_of(&self) -> (k: u64)
        ensures
            k == self.key(),
    ;
}

/// Whether keys never decrease along `s`.
pub open spec fn sorted_by_key<T: Keyed>(s: Seq<T>) -> bool {
    forall|i: int, j: int| 0 <= i <= j < s.len() ==> s[i].key() <= s[j].key()
}

/// Whether a record has key `k`.
pub open spec fn key_is<T: Keyed>(k: u64) -> spec_fn(T) -> bool {
    |x: T| x.key() == k
}

/// `out` is `inp` stably sorted by key: same length, keys ascending, and the records of
/// each key in the order they had in `inp`.
pub open spec fn stable_sort_of<T: Keyed>(out: Seq<T>, inp: Seq<T>) -> bool {
    &&& out.len() == inp.len()
    &&& sorted_by_key(out)
    &&& forall|k: u64| #[trigger] out.filter(key_is::<T>(k)) == inp.filter(key_is::<T>(k))
}

proof fn lemma_filter_none<T>(s: Seq<T>, p: spec_fn(T) -> bool)
    requires
        forall|j: int| 0 <= j < s.len() ==> !p(#[trigger] s[j]),
    ensures
        s.filter(p) == Seq::<T>::empty(),
    decreases s.len(),
{
    reveal(Seq::filter);
    if s.len() > 0 {
        lemma_filter_none(s.drop_last(), p);
    }
}

proof fn lemma_filter_one<T>(x: T, p: spec_fn(T) -> bool)
    ensures
        seq![x].filter(p) == if p(x) { seq![x] } else { Seq::<T>::empty() },
{
    reveal(Seq::filter);
    assert(seq![x].drop_last() =~= Seq::<T>::empty());
    assert(Seq::<T>::empty().filter(p) == Seq::<T>::empty());
    assert(Seq::<T>::empty().push(x) =~= seq![x]);
}

proof fn lemma_insert_keeps_filters<T: Keyed>(out: Seq<T>, p: int, x: T, k: u64)
    requires
        0 <= p <= out.len(),
        forall|j: int| p <= j < out.len() ==> #[trigger] out[j].key() > x.key(),
    ensures
        out.insert(p, x).filter(key_is::<T>(k)) == if x.key() == k {
            out.filter(key_is::<T>(k)).push(x)
        } else {
            out.filter(key_is::<T>(k))
        },
{
    let f = key_is::<T>(k);
    let a = out.take(p);
    let b = out.skip(p);
    assert(out =~= a + b);
    assert(out.insert(p, x) =~= a + seq![x] + b);
    Seq::filter_distributes_over_add(a, b, f);
    Seq::filter_distributes_over_add(a + seq![x], b, f);
    Seq::filter_distributes_over_add(a, seq![x], f);
    lemma_filter_one(x, f);
    if x.key() == k {
        lemma_filter_none(b, f);
        assert(a.filter(f) + seq![x] + b.filter(f) =~= (a.filter(f) + b.filter(f)).push(x));
    } else {
        assert(a.filter(f) + Seq::<T>::empty() =~= a.filter(f));
    }
}


proof fn lemma_filter_nonempty<T>(s: Seq<T>, p: spec_fn(T) -> bool) -> (j: int)
    requires
        s.filter(p).len() > 0,
    ensures
        0 <= j < s.len(),
        p(s[j]),
{
    if forall|j: int| 0 <= j < s.len() ==> !p(#[trigger] s[j]) {
        lemma_filter_none(s, p);
        assert(false);
        0
    } else {
        choose|j: int| 0 <= j < s.len() && p(s[j])
    }
}


/// No two records of `s` share a key.
pub open spec fn keys_distinct<T: Keyed>(s: Seq<T>) -> bool {
    forall|i: int, j: int| 0 <= i < j < s.len() ==> s[i].key() != s[j].key()
}

/// `q` holds the records of `p` in some order, keys distinct in both, each record of `q`
/// standing for the record of `p` with its key as `related` allows.
pub open spec fn reorders<T: Keyed>(q: Seq<T>, p: Seq<T>, related: spec_fn(T, T) -> bool) -> bool {
    &&& q.len() == p.len()
    &&& keys_distinct(p)
    &&& keys_distinct(q)
    &&& forall|i: int|
        #![trigger q[i]]
        0 <= i < q.len() ==> exists|j: int|
            0 <= j < p.len() && p[j].key() == q[i].key() && #[trigger] related(q[i], p[j])
    &&& forall|j: int| 0 <= j < p.len() ==> exists|i: int| 0 <= i < q.len() && q[i].key() == #[trigger] p[j].key()
}

proof fn lemma_filter_distinct_key<T: Keyed>(s: Seq<T>, j: int)
    requires
        keys_distinct(s),
        0 <= j < s.len(),
    ensures
        s.filter(key_is::<T>(s[j].key())) == seq![s[j]],
{
    let f = key_is::<T>(s[j].key());
    let a = s.take(j);
    let b = s.skip(j + 1);
    assert(s =~= a + seq![s[j]] + b);
    Seq::filter_distributes_over_add(a + seq![s[j]], b, f);
    Seq::filter_distributes_over_add(a, seq![s[j]], f);
    assert forall|i: int| 0 <= i < a.len() implies !f(#[trigger] a[i]) by {
        assert(a[i] == s[i]);
    }
    assert forall|i: int| 0 <= i < b.len() implies !f(#[trigger] b[i]) by {
        assert(b[i] == s[j + 1 + i]);
    }
    lemma_filter_none(a, f);
    lemma_filter_none(b, f);
    lemma_filter_one(s[j], f);
    assert(Seq::<T>::empty() + seq![s[j]] + Seq::<T>::empty() =~= seq![s[j]]);
}

proof fn lemma_filter_rekeyed<T: Keyed>(a: Seq<T>, b: Seq<T>, k: u64, x: T)
    requires
        a.len() == b.len(),
        forall|i: int| 0 <= i < a.len() ==> #[trigger] b[i].key() == a[i].key(),
        forall|i: int| 0 <= i < a.len() && a[i].key() == k ==> #[trigger] b[i] == x,
    ensures
        b.filter(key_is::<T>(k)) == Seq::new(a.filter(key_is::<T>(k)).len(), |i: int| x),
    decreases a.len(),
{
    reveal(Seq::filter);
    if a.len() > 0 {
        let a2 = a.drop_last();
        let b2 = b.drop_last();
        assert forall|i: int| 0 <= i < a2.len() implies #[trigger] b2[i].key() == a2[i].key() by {
            assert(b2[i] == b[i]);
            assert(a2[i] == a[i]);
        }
        assert forall|i: int| 0 <= i < a2.len() && a2[i].key() == k implies #[trigger] b2[i] == x by {
            assert(b2[i] == b[i]);
            assert(a2[i] == a[i]);
        }
        lemma_filter_rekeyed(a2, b2, k, x);
        assert(b.last().key() == a.last().key());
        assert(b.filter(key_is::<T>(k)) =~= Seq::new(a.filter(key_is::<T>(k)).len(), |i: int| x));
    } else {
        assert(b.filter(key_is::<T>(k)) =~= Seq::new(a.filter(key_is::<T>(k)).len(), |i: int| x));
    }
}

/// When keys are distinct, each record of a stable sort is a record of the input.
proof fn lemma_sorted_records_come_from_input<T: Keyed>(sp: Seq<T>, p: Seq<T>, i: int) -> (j: int)
    requires
        stable_sort_of(sp, p),
        keys_distinct(p),
        0 <= i < sp.len(),
    ensures
        0 <= j < p.len(),
        sp[i] == p[j],
{
    let k = sp[i].key();
    let f = key_is::<T>(k);
    sp.lemma_filter_contains(f, i);
    assert(sp.filter(f) == p.filter(f));
    let j = lemma_filter_nonempty(p, f);
    lemma_filter_distinct_key(p, j);
    assert(p.filter(f).contains(sp[i]));
    j
}

/// Sorting a reordering: when `q` reorders `p` (distinct keys), the stable sort of `q` is
/// the stable sort of `p` with each record replaced by the record of `q` that stands for it.
pub proof fn lemma_sort_of_reordering<T: Keyed>(sp: Seq<T>, p: Seq<T>, q: Seq<T>, related: spec_fn(T, T) -> bool) -> (sq: Seq<T>)
    requires
        stable_sort_of(sp, p),
        reorders(q, p, related),
    ensures
        stable_sort_of(sq, q),
        sq.len() == sp.len(),
        forall|i: int| 0 <= i < sq.len() ==> #[trigger] sq[i].key() == sp[i].key() && related(sq[i], sp[i]),
{
    let pick = |k: u64| q[choose|m: int| 0 <= m < q.len() && q[m].key() == k];
    let sq = Seq::new(sp.len(), |i: int| pick(sp[i].key()));
    assert forall|i: int| 0 <= i < sq.len() implies #[trigger] sq[i].key() == sp[i].key() && related(sq[i], sp[i]) by {
        let j = lemma_sorted_records_come_from_input(sp, p, i);
        let k = sp[i].key();
        assert(p[j].key() == k);
        let m = choose|m: int| 0 <= m < q.len() && q[m].key() == k;
        assert(sq[i] == q[m]);
        let j2 = choose|j2: int| 0 <= j2 < p.len() && p[j2].key() == q[m].key() && #[trigger] related(q[m], p[j2]);
        assert(j2 == j);
    }
    assert forall|k: u64| #[trigger] sq.filter(key_is::<T>(k)) == q.filter(key_is::<T>(k)) by {
        let f = key_is::<T>(k);
        let x = pick(k);
        assert forall|i: int| 0 <= i < sp.len() && sp[i].key() == k implies #[trigger] sq[i] == x by {}
        lemma_filter_rekeyed(sp, sq, k, x);
        if exists|m: int| 0 <= m < q.len() && q[m].key() == k {
            let m = choose|m: int| 0 <= m < q.len() && q[m].key() == k;
            assert(x == q[m]);
            lemma_filter_distinct_key(q, m);
            let j = choose|j: int| 0 <= j < p.len() && p[j].key() == q[m].key() && #[trigger] related(q[m], p[j]);
            lemma_filter_distinct_key(p, j);
            assert(sp.filter(f) == p.filter(f));
            assert(Seq::new(1, |i: int| x) =~= seq![x]);
        } else {
            assert forall|m: int| 0 <= m < q.len() implies !f(#[trigger] q[m]) by {}
            lemma_filter_none(q, f);
            assert forall|j: int| 0 <= j < p.len() implies !f(#[trigger] p[j]) by {
                if p[j].key() == k {
                    let i = choose|i: int| 0 <= i < q.len() && q[i].key() == #[trigger] p[j].key();
                    assert(q[i].key() == k);
                }
            }
            lemma_filter_none(p, f);
            assert(sp.filter(f) == p.filter(f));
            assert(Seq::new(0, |i: int| x) =~= Seq::<T>::empty());
        }
    }
    assert(sorted_by_key(sq));
    sq
}

/// A stable sort has one outcome: two stable sorts of the same records are equal.
pub proof fn lemma_stable_sort_unique<T: Keyed>(a: Seq<T>, b: Seq<T>, inp: Seq<T>)
    requires
        stable_sort_of(a, inp),
        stable_sort_of(b, inp),
    ensures
        a == b,
    decreases a.len(),
{
    if a.len() > 0 {
        reveal(Seq::filter);
        let ka = a.last().key();
        let kb = b.last().key();
        assert(a.filter(key_is::<T>(ka)).len() > 0);
        assert(b.filter(key_is::<T>(kb)).len() > 0);
        assert(a.filter(key_is::<T>(kb)) == inp.filter(key_is::<T>(kb)));
        assert(b.filter(key_is::<T>(ka)) == inp.filter(key_is::<T>(ka)));
        let ja = lemma_filter_nonempty(a, key_is::<T>(kb));
        let jb = lemma_filter_nonempty(b, key_is::<T>(ka));
        assert(a[ja].key() <= ka);
        assert(b[jb].key() <= kb);
        assert(ka == kb);
        assert(a.filter(key_is::<T>(ka)) == b.filter(key_is::<T>(ka)));
        let pk = key_is::<T>(ka);
        assert(a.filter(pk) == a.drop_last().filter(pk).push(a.last()));
        assert(b.filter(pk) == b.drop_last().filter(pk).push(b.last()));
        assert(a.filter(pk).last() == a.last());
        assert(a.last() == b.last());
        let a2 = a.drop_last();
        let b2 = b.drop_last();
        let inp2 = a2;
        assert forall|k: u64| #[trigger] b2.filter(key_is::<T>(k)) == a2.filter(key_is::<T>(k)) by {
            assert(a.filter(key_is::<T>(k)) == b.filter(key_is::<T>(k)));
            if k == ka {
                assert(a2.filter(key_is::<T>(k)) =~= a.filter(key_is::<T>(k)).drop_last());
                assert(b2.filter(key_is::<T>(k)) =~= b.filter(key_is::<T>(k)).drop_last());
            }
        }
        assert(stable_sort_of(a2, inp2));
        assert(stable_sort_of(b2, inp2));
        lemma_stable_sort_unique(a2, b2, inp2);
        assert(a =~= a2.push(a.last()));
        assert(b =~= b2.push(b.last()));
    }
}

/// Sorts `v` by key, keeping records of equal key in their original order.
pub fn sort_by_key<T: Keyed>(v: Vec<T>) -> (r: Vec<T>)
    ensures
        stable_sort_of(r@, v@),
{
    let ghost inp = v@;
    let mut rest = v;
    let mut out: Vec<T> = Vec::new();
    let n = rest.len();
    let mut i: usize = 0;
    while i < n
        invariant
            n == inp.len(),
            i <= n,
            rest@ == inp.skip(i as int),
            out.len() == i,
            sorted_by_key(out@),
            forall|k: u64| #[trigger] out@.filter(key_is::<T>(k)) == inp.take(i as int).filter(key_is::<T>(k)),
        decreases n - i,
    {
        let x = rest.remove(0);
        assert(x == inp[i as int]);
        let kx = x.key_of();
        let mut p: usize = 0;
        while p < out.len() && out[p].key_of() <= kx
            invariant
                p <= out.len(),
                kx == x.key(),
                forall|j: int| 0 <= j < p ==> #[trigger] out@[j].key() <= kx,
            decreases out.len() - p,
        {
            p = p + 1;
        }
        proof {
            assert forall|j: int| p <= j < out@.len() implies #[trigger] out@[j].key() > x.key() by {
                assert(out@[p as int].key() > kx);
                assert(out@[p as int].key() <= out@[j].key());
            }
            assert forall|k: u64| #[trigger] out@.insert(p as int, x).filter(key_is::<T>(k)) == inp.take(
                i + 1,
            ).filter(key_is::<T>(k)) by {
                lemma_insert_keeps_filters(out@, p as int, x, k);
                reveal(Seq::filter);
                assert(inp.take(i + 1).drop_last() =~= inp.take(i as int));
            }
        }
        let ghost before = out@;
        out.insert(p, x);
        proof {
            let s = out@;
            assert forall|a: int, b: int| 0 <= a <= b < s.len() implies s[a].key() <= s[b].key() by {
                if a < p && b > p {
                    assert(s[a] == before[a]);
                    assert(s[b] == before[b - 1]);
                } else if a < p && b == p {
                    assert(s[a] == before[a]);
                } else if a < p {
                    assert(s[a] == before[a]);
                    assert(s[b] == before[b]);
                } else if a == p && b > p {
                    assert(s[b] == before[b - 1]);
                } else if a > p {
                    assert(s[a] == before[a - 1]);
                    assert(s[b] == before[b - 1]);
                }
            }
            assert(rest@ =~= inp.skip(i + 1));
        }
        i = i + 1;
    }
    assert(inp.take(n as int) =~= inp);
    out
}

} // verus!
