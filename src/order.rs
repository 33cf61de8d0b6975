//! The order of dictionary entries in canonical output: by the raw bytes of
//! the key, then by the bytes of the encoded value.
use vstd::prelude::*;
use vstd::relations::{sorted_by, total_ordering};

verus! {

broadcast use vstd::seq_lib::group_to_multiset_ensures;

/// Lexicographic order on byte strings: `a` comes strictly before `b`.
pub open spec fn lex_lt(a: Seq<u8>, b: Seq<u8>) -> bool
    decreases a.len(),
{
    if b.len() == 0 {
        false
    } else if a.len() == 0 {
        true
    } else if a[0] != b[0] {
        a[0] < b[0]
    } else {
        lex_lt(a.drop_first(), b.drop_first())
    }
}

/// An entry: the raw bytes of its key and the encoded bytes of its value.
pub type EntryBytes = (Seq<u8>, Seq<u8>);

/// Entry `p` comes strictly before entry `q`.
pub open spec fn entry_lt(p: EntryBytes, q: EntryBytes) -> bool {
    lex_lt(p.0, q.0) || (p.0 == q.0 && lex_lt(p.1, q.1))
}

pub open spec fn entry_le(p: EntryBytes, q: EntryBytes) -> bool {
    p == q || entry_lt(p, q)
}

pub open spec fn entry_leq() -> spec_fn(EntryBytes, EntryBytes) -> bool {
    |p: EntryBytes, q: EntryBytes| entry_le(p, q)
}

/// The entries in canonical order.
pub open spec fn canonical_order(s: Seq<EntryBytes>) -> Seq<EntryBytes> {
    s.sort_by(entry_leq())
}

proof fn lemma_lex_irreflexive(a: Seq<u8>)
    ensures
        !lex_lt(a, a),
    decreases a.len(),
{
    if a.len() > 0 {
        lemma_lex_irreflexive(a.drop_first());
    }
}

proof fn lemma_lex_asymmetric(a: Seq<u8>, b: Seq<u8>)
    ensures
        !(lex_lt(a, b) && lex_lt(b, a)),
    decreases a.len(),
{
    if a.len() > 0 && b.len() > 0 && a[0] == b[0] {
        lemma_lex_asymmetric(a.drop_first(), b.drop_first());
    }
}

proof fn lemma_lex_transitive(a: Seq<u8>, b: Seq<u8>, c: Seq<u8>)
    requires
        lex_lt(a, b),
        lex_lt(b, c),
    ensures
        lex_lt(a, c),
    decreases a.len(),
{
    if a.len() > 0 && a[0] == b[0] && b[0] == c[0] {
        lemma_lex_transitive(a.drop_first(), b.drop_first(), c.drop_first());
    }
}

proof fn lemma_lex_total(a: Seq<u8>, b: Seq<u8>)
    requires
        a != b,
    ensures
        lex_lt(a, b) || lex_lt(b, a),
    decreases a.len(),
{
    if a.len() == 0 && b.len() == 0 {
        assert(a =~= b);
    }
    if a.len() > 0 && b.len() > 0 && a[0] == b[0] {
        if a.drop_first() == b.drop_first() {
            assert(a =~= seq![a[0]] + a.drop_first());
            assert(b =~= seq![b[0]] + b.drop_first());
        }
        lemma_lex_total(a.drop_first(), b.drop_first());
    }
}

pub proof fn lemma_entry_leq_total()
    ensures
        total_ordering(entry_leq()),
{
    assert forall|p: EntryBytes, q: EntryBytes|
        #[trigger] entry_le(p, q) && #[trigger] entry_le(q, p) implies p == q by {
        lemma_lex_asymmetric(p.0, q.0);
        lemma_lex_asymmetric(p.1, q.1);
        lemma_lex_irreflexive(p.0);
    }
    assert forall|p: EntryBytes, q: EntryBytes, r: EntryBytes|
        #[trigger] entry_le(p, q) && #[trigger] entry_le(q, r) implies entry_le(p, r) by {
        if p != q && q != r {
            lemma_lex_irreflexive(p.0);
            lemma_lex_irreflexive(q.0);
            if lex_lt(p.0, q.0) && lex_lt(q.0, r.0) {
                lemma_lex_transitive(p.0, q.0, r.0);
            }
            if p.0 == q.0 && q.0 == r.0 {
                lemma_lex_transitive(p.1, q.1, r.1);
            }
        }
    }
    assert forall|p: EntryBytes, q: EntryBytes| #[trigger] entry_le(p, q) || entry_le(q, p) by {
        if p != q {
            if p.0 != q.0 {
                lemma_lex_total(p.0, q.0);
            } else {
                assert(p.1 != q.1);
                lemma_lex_total(p.1, q.1);
            }
        }
    }
}

/// Two sequences that are sorted by a total order and hold the same entries
/// are equal.
pub proof fn lemma_sorted_unique(x: Seq<EntryBytes>, y: Seq<EntryBytes>)
    requires
        total_ordering(entry_leq()),
        sorted_by(x, entry_leq()),
        sorted_by(y, entry_leq()),
        x.to_multiset() == y.to_multiset(),
    ensures
        x == y,
    decreases x.len(),
{
    assert(x.len() == x.to_multiset().len());
    assert(y.len() == y.to_multiset().len());
    if x.len() > 0 {
        let leq = entry_leq();
        assert(x.to_multiset().count(x[0]) > 0) by {
            assert(x.contains(x[0]));
        }
        assert(y.contains(x[0]));
        let j = choose|j: int| 0 <= j < y.len() && y[j] == x[0];
        assert(y.to_multiset().count(y[0]) > 0) by {
            assert(y.contains(y[0]));
        }
        assert(x.contains(y[0]));
        let k = choose|k: int| 0 <= k < x.len() && x[k] == y[0];
        if j > 0 {
            assert(leq(y[0], y[j]));
        }
        if k > 0 {
            assert(leq(x[0], x[k]));
        }
        assert(leq(x[0], y[0]) && leq(y[0], x[0]));
        assert(x[0] == y[0]);
        assert(x.remove(0) =~= x.drop_first());
        assert(y.remove(0) =~= y.drop_first());
        assert(x.drop_first().to_multiset() == x.to_multiset().remove(x[0]));
        assert(y.drop_first().to_multiset() == y.to_multiset().remove(y[0]));
        assert(sorted_by(x.drop_first(), leq)) by {
            assert forall|a: int, b: int| 0 <= a < b < x.drop_first().len() implies #[trigger] leq(
                x.drop_first()[a],
                x.drop_first()[b],
            ) by {
                assert(leq(x[a + 1], x[b + 1]));
            }
        }
        assert(sorted_by(y.drop_first(), leq)) by {
            assert forall|a: int, b: int| 0 <= a < b < y.drop_first().len() implies #[trigger] leq(
                y.drop_first()[a],
                y.drop_first()[b],
            ) by {
                assert(leq(y[a + 1], y[b + 1]));
            }
        }
        lemma_sorted_unique(x.drop_first(), y.drop_first());
        assert forall|i: int| 0 <= i < x.len() implies x[i] == y[i] by {
            if i > 0 {
                assert(x[i] == x.drop_first()[i - 1]);
                assert(y[i] == y.drop_first()[i - 1]);
            }
        }
        assert(x =~= y);
    } else {
        assert(x =~= y);
    }
}

/// Sorting by a total order gives the one sorted arrangement of the entries.
pub proof fn lemma_canonical_order_is_sorted(s: Seq<EntryBytes>, t: Seq<EntryBytes>)
    requires
        sorted_by(t, entry_leq()),
        t.to_multiset() == s.to_multiset(),
    ensures
        canonical_order(s) == t,
{
    lemma_entry_leq_total();
    s.lemma_sort_by_ensures(entry_leq());
    lemma_sorted_unique(canonical_order(s), t);
}

/// Whether byte string `a` comes strictly before `b`.
pub fn lex_less(a: &[u8], b: &[u8]) -> (r: bool)
    ensures
        r == lex_lt(a@, b@),
{
    let mut i: usize = 0;
    assert(a@.subrange(0, a@.len() as int) =~= a@);
    assert(b@.subrange(0, b@.len() as int) =~= b@);
    while i < a.len() && i < b.len()
        invariant
            0 <= i <= a@.len(),
            i <= b@.len(),
            lex_lt(a@, b@) == lex_lt(
                a@.subrange(i as int, a@.len() as int),
                b@.subrange(i as int, b@.len() as int),
            ),
        decreases a@.len() - i,
    {
        let ghost sa = a@.subrange(i as int, a@.len() as int);
        let ghost sb = b@.subrange(i as int, b@.len() as int);
        if a[i] != b[i] {
            return a[i] < b[i];
        }
        assert(sa.drop_first() =~= a@.subrange(i + 1, a@.len() as int));
        assert(sb.drop_first() =~= b@.subrange(i + 1, b@.len() as int));
        i = i + 1;
    }
    i == a.len() && i < b.len()
}

/// An entry of a dictionary being written: the raw key and the encoded
/// value.
pub struct Entry {
    pub key: Vec<u8>,
    pub value: Vec<u8>,
}

pub open spec fn entries_view(s: Seq<Entry>) -> Seq<EntryBytes> {
    Seq::new(s.len(), |i: int| (s[i].key@, s[i].value@))
}

/// Whether entry `a` comes strictly before entry `b`.
fn entry_less(a: &Entry, b: &Entry) -> (r: bool)
    ensures
        r == entry_lt((a.key@, a.value@), (b.key@, b.value@)),
{
    if lex_less(a.key.as_slice(), b.key.as_slice()) {
        true
    } else if lex_less(b.key.as_slice(), a.key.as_slice()) {
        false
    } else {
        proof {
            if a.key@ != b.key@ {
                lemma_lex_total(a.key@, b.key@);
            }
        }
        lex_less(a.value.as_slice(), b.value.as_slice())
    }
}

/// Puts the entries in canonical order.
pub fn sort_entries(v: Vec<Entry>) -> (r: Vec<Entry>)
    ensures
        entries_view(r@) == canonical_order(entries_view(v@)),
{
    proof {
        lemma_entry_leq_total();
    }
    let ghost leq = entry_leq();
    let ghost whole = entries_view(v@);
    let mut rest = v;
    let mut sorted: Vec<Entry> = Vec::new();
    while rest.len() > 0
        invariant
            leq == entry_leq(),
            total_ordering(leq),
            sorted_by(entries_view(sorted@), leq),
            entries_view(sorted@).to_multiset().add(entries_view(rest@).to_multiset())
                == whole.to_multiset(),
        decreases rest@.len(),
    {
        let ghost before = rest@;
        let e = rest.pop().unwrap();
        let ghost ev = (e.key@, e.value@);
        assert(entries_view(before) =~= entries_view(rest@).push(ev));
        let mut j: usize = 0;
        while j < sorted.len() && !entry_less(&e, &sorted[j])
            invariant
                0 <= j <= sorted@.len(),
                ev == (e.key@, e.value@),
                leq == entry_leq(),
                total_ordering(leq),
                forall|k: int| 0 <= k < j ==> #[trigger] leq(entries_view(sorted@)[k], ev),
            decreases sorted@.len() - j,
        {
            let ghost sv = entries_view(sorted@)[j as int];
            assert(!entry_lt(ev, sv));
            assert(leq(sv, ev) || leq(ev, sv));
            j = j + 1;
        }
        let ghost old_sorted = entries_view(sorted@);
        proof {
            if j < sorted@.len() {
                assert(entry_lt(ev, old_sorted[j as int]));
                assert(leq(ev, old_sorted[j as int]));
                assert forall|k: int| j <= k < old_sorted.len() implies #[trigger] leq(
                    ev,
                    old_sorted[k],
                ) by {
                    if k > j {
                        assert(leq(old_sorted[j as int], old_sorted[k]));
                        assert(leq(ev, old_sorted[j as int]) && leq(old_sorted[j as int], old_sorted[k]));
                    }
                }
            }
        }
        sorted.insert(j, e);
        proof {
            let nv = entries_view(sorted@);
            assert(nv =~= old_sorted.insert(j as int, ev));
            assert(nv.remove(j as int) =~= old_sorted);
            assert(nv[j as int] == ev);
            assert(nv.to_multiset() =~= old_sorted.to_multiset().insert(ev)) by {
                assert(nv.to_multiset().remove(ev) == old_sorted.to_multiset());
                assert(nv.contains(ev));
                assert(nv.to_multiset().count(ev) > 0);
            }
            assert(nv.to_multiset().add(entries_view(rest@).to_multiset()) =~= whole.to_multiset());
            assert(sorted_by(nv, leq)) by {
                assert forall|a: int, b: int| 0 <= a < b < nv.len() implies #[trigger] leq(
                    nv[a],
                    nv[b],
                ) by {
                    if b < j {
                    } else if b == j {
                    } else if a < j {
                        assert(leq(old_sorted[a], ev));
                        assert(leq(ev, old_sorted[b - 1]));
                    } else if a == j {
                    } else {
                        assert(leq(old_sorted[a - 1], old_sorted[b - 1]));
                    }
                }
            }
        }
    }
    proof {
        assert(entries_view(rest@).to_multiset().len() == 0);
        vstd::multiset::lemma_multiset_empty_len(entries_view(rest@).to_multiset());
        assert(entries_view(sorted@).to_multiset() =~= whole.to_multiset());
        lemma_canonical_order_is_sorted(whole, entries_view(sorted@));
    }
    sorted
}

} // verus!
