//! Ordering by symbol text: targets by identity, with a stable insertion
//! sort, and name/value pairs read as a map, by name.
use vstd::prelude::*;
use crate::records::{Symbol, Target};
use crate::text::chars_of;
use vstd::multiset::Multiset;

verus! {

/// `a` sorts before `b`: character-wise lexicographic order, as `str` orders
/// ASCII text.
pub open spec fn text_lt(a: Seq<char>, b: Seq<char>) -> bool
    decreases a.len(),
{
    if a.len() == 0 {
        b.len() > 0
    } else if b.len() == 0 {
        false
    } else if a[0] != b[0] {
        (a[0] as u32) < (b[0] as u32)
    } else {
        text_lt(a.drop_first(), b.drop_first())
    }
}

pub proof fn lemma_text_lt_transitive(a: Seq<char>, b: Seq<char>, c: Seq<char>)
    requires
        text_lt(a, b),
        text_lt(b, c),
    ensures
        text_lt(a, c),
    decreases a.len(),
{
    if a.len() > 0 && b.len() > 0 && c.len() > 0 && a[0] == b[0] && b[0] == c[0] {
        lemma_text_lt_transitive(a.drop_first(), b.drop_first(), c.drop_first());
    }
}

pub proof fn lemma_text_lt_irreflexive(a: Seq<char>)
    ensures
        !text_lt(a, a),
    decreases a.len(),
{
    if a.len() > 0 {
        lemma_text_lt_irreflexive(a.drop_first());
    }
}

/// Whether `a` sorts before `b`.
pub fn text_less(a: &Vec<char>, b: &Vec<char>) -> (r: bool)
    ensures
        r == text_lt(a@, b@),
{
    let mut i: usize = 0;
    assert(a@.skip(0) =~= a@);
    assert(b@.skip(0) =~= b@);
    while i < a.len() && i < b.len()
        invariant
            i <= a@.len(),
            i <= b@.len(),
            text_lt(a@, b@) == text_lt(a@.skip(i as int), b@.skip(i as int)),
        decreases a.len() - i,
    {
        if a[i] != b[i] {
            proof {
                assert(a@.skip(i as int)[0] == a@[i as int]);
                assert(b@.skip(i as int)[0] == b@[i as int]);
            }
            return (a[i] as u32) < (b[i] as u32);
        }
        proof {
            assert(a@.skip(i as int).drop_first() =~= a@.skip(i + 1));
            assert(b@.skip(i as int).drop_first() =~= b@.skip(i + 1));
        }
        i = i + 1;
    }
    i < b.len()
}

/// Targets in non-decreasing id order.
pub open spec fn sorted_by_id(s: Seq<Target>) -> bool {
    forall|i: int, j: int| 0 <= i < j < s.len() ==> !text_lt(#[trigger] s[j].id@, #[trigger] s[i].id@)
}

/// The targets of `s` whose id is `id`, in their order in `s`.
pub open spec fn with_id(s: Seq<Target>, id: Seq<char>) -> Seq<Target>
    decreases s.len(),
{
    if s.len() == 0 {
        seq![]
    } else if s.last().id@ == id {
        with_id(s.drop_last(), id).push(s.last())
    } else {
        with_id(s.drop_last(), id)
    }
}

proof fn lemma_with_id_add(a: Seq<Target>, b: Seq<Target>, id: Seq<char>)
    ensures
        with_id(a + b, id) == with_id(a, id) + with_id(b, id),
    decreases b.len(),
{
    if b.len() == 0 {
        assert(a + b =~= a);
        assert(with_id(a, id) + seq![] =~= with_id(a, id));
    } else {
        assert((a + b).drop_last() =~= a + b.drop_last());
        assert((a + b).last() == b.last());
        lemma_with_id_add(a, b.drop_last(), id);
        if b.last().id@ == id {
            assert(with_id(a, id) + with_id(b.drop_last(), id).push(b.last()) =~= (with_id(a, id) + with_id(
                b.drop_last(),
                id,
            )).push(b.last()));
        }
    }
}

proof fn lemma_with_id_none(s: Seq<Target>, id: Seq<char>)
    requires
        forall|i: int| 0 <= i < s.len() ==> (#[trigger] s[i]).id@ != id,
    ensures
        with_id(s, id) == Seq::<Target>::empty(),
    decreases s.len(),
{
    if s.len() > 0 {
        assert(s.last() == s[s.len() - 1]);
        lemma_with_id_none(s.drop_last(), id);
    }
}

proof fn lemma_with_id_one(x: Target, id: Seq<char>)
    ensures
        with_id(seq![x], id) == (if x.id@ == id { seq![x] } else { Seq::<Target>::empty() }),
{
    assert(seq![x].drop_last() =~= Seq::<Target>::empty());
    assert(with_id(seq![x].drop_last(), id) == Seq::<Target>::empty());
    assert(seq![x].last() == x);
    if x.id@ == id {
        assert(Seq::<Target>::empty().push(x) =~= seq![x]);
    }
}

/// Any two texts are ordered one way or the other, or are equal.
pub proof fn lemma_text_lt_total(a: Seq<char>, b: Seq<char>)
    ensures
        text_lt(a, b) || text_lt(b, a) || a == b,
    decreases a.len(),
{
    if a.len() > 0 && b.len() > 0 {
        if a[0] == b[0] {
            lemma_text_lt_total(a.drop_first(), b.drop_first());
            if a.drop_first() == b.drop_first() {
                assert(a =~= seq![a[0]] + a.drop_first());
                assert(b =~= seq![b[0]] + b.drop_first());
            }
        } else {
            vstd::utf8::char_u32_cast(a[0], a[0] as u32);
            vstd::utf8::char_u32_cast(b[0], b[0] as u32);
        }
    } else if a.len() == 0 && b.len() == 0 {
        assert(a =~= b);
    }
}

/// A target that `with_id` keeps stands in `s`.
proof fn lemma_with_id_from(s: Seq<Target>, id: Seq<char>)
    requires
        with_id(s, id).len() > 0,
    ensures
        exists|i: int| 0 <= i < s.len() && (#[trigger] s[i]).id@ == id,
    decreases s.len(),
{
    if s.last().id@ == id {
        assert(s[s.len() - 1].id@ == id);
    } else {
        lemma_with_id_from(s.drop_last(), id);
        let i = choose|i: int| 0 <= i < s.drop_last().len() && (#[trigger] s.drop_last()[i]).id@ == id;
        assert(s[i] == s.drop_last()[i]);
    }
}

/// The targets of `v` in id order, those with one id in their order in `v`.
pub open spec fn by_id(v: Seq<Target>) -> Seq<Target> {
    choose|r: Seq<Target>| sorted_by_id(r) && forall|id: Seq<char>| #[trigger] with_id(r, id) == with_id(v, id)
}

/// Two sequences in id order that hold the same targets of each id, in the
/// same order, are one sequence.
proof fn lemma_stable_unique(a: Seq<Target>, b: Seq<Target>)
    requires
        sorted_by_id(a),
        sorted_by_id(b),
        forall|id: Seq<char>| #[trigger] with_id(a, id) == with_id(b, id),
    ensures
        a == b,
    decreases a.len() + b.len(),
{
    if a.len() == 0 && b.len() == 0 {
        assert(a =~= b);
    } else if a.len() == 0 {
        assert(with_id(b, b.last().id@).len() > 0);
        assert(with_id(a, b.last().id@) == Seq::<Target>::empty());
    } else if b.len() == 0 {
        assert(with_id(a, a.last().id@).len() > 0);
        assert(with_id(b, a.last().id@) == Seq::<Target>::empty());
    } else {
        let ma = a.last().id@;
        let mb = b.last().id@;
        assert(with_id(a, ma).len() > 0);
        assert(with_id(b, mb).len() > 0);
        assert(with_id(b, ma) == with_id(a, ma));
        assert(with_id(a, mb) == with_id(b, mb));
        lemma_with_id_from(b, ma);
        lemma_with_id_from(a, mb);
        let i = choose|i: int| 0 <= i < b.len() && (#[trigger] b[i]).id@ == ma;
        let j = choose|j: int| 0 <= j < a.len() && (#[trigger] a[j]).id@ == mb;
        if i < b.len() - 1 {
            assert(!text_lt(b[b.len() - 1].id@, b[i].id@));
        }
        if j < a.len() - 1 {
            assert(!text_lt(a[a.len() - 1].id@, a[j].id@));
        }
        lemma_text_lt_total(ma, mb);
        assert(ma == mb);
        let a2 = a.drop_last();
        let b2 = b.drop_last();
        assert forall|id: Seq<char>| #[trigger] with_id(a2, id) == with_id(b2, id) by {
            assert(with_id(a, id) == with_id(b, id));
            if id == ma {
                assert(with_id(a, id) == with_id(a2, id).push(a.last()));
                assert(with_id(b, id) == with_id(b2, id).push(b.last()));
                assert(with_id(a2, id) =~= with_id(a, id).drop_last());
                assert(with_id(b2, id) =~= with_id(b, id).drop_last());
            }
        }
        assert(sorted_by_id(a2)) by {
            assert forall|x: int, y: int| 0 <= x < y < a2.len() implies !text_lt(#[trigger] a2[y].id@, #[trigger] a2[x].id@) by {
                assert(a2[x] == a[x] && a2[y] == a[y]);
            }
        }
        assert(sorted_by_id(b2)) by {
            assert forall|x: int, y: int| 0 <= x < y < b2.len() implies !text_lt(#[trigger] b2[y].id@, #[trigger] b2[x].id@) by {
                assert(b2[x] == b[x] && b2[y] == b[y]);
            }
        }
        lemma_stable_unique(a2, b2);
        assert(with_id(a, ma).last() == a.last());
        assert(with_id(b, ma).last() == b.last());
        assert(a =~= a2.push(a.last()));
        assert(b =~= b2.push(b.last()));
    }
}

/// A sequence in id order that holds the targets of `v` of each id, in their
/// order in `v`, is `by_id(v)`.
pub proof fn lemma_by_id(r: Seq<Target>, v: Seq<Target>)
    requires
        sorted_by_id(r),
        forall|id: Seq<char>| #[trigger] with_id(r, id) == with_id(v, id),
    ensures
        by_id(v) == r,
{
    let b = by_id(v);
    assert(sorted_by_id(b) && forall|id: Seq<char>| #[trigger] with_id(b, id) == with_id(v, id));
    assert forall|id: Seq<char>| #[trigger] with_id(r, id) == with_id(b, id) by {
        assert(with_id(r, id) == with_id(v, id));
        assert(with_id(b, id) == with_id(v, id));
    }
    lemma_stable_unique(r, b);
}

/// The names of name/value pairs, in order.
pub open spec fn pair_keys<V>(v: Seq<(Symbol, V)>) -> Seq<Seq<char>> {
    v.map_values(|p: (Symbol, V)| p.0@)
}

/// `order`, the places of some keys in ascending key order, with the place
/// `i` of one more key: it replaces the place of an equal key, or goes
/// before the first greater one.
pub open spec fn placed(order: Seq<int>, keys: Seq<Seq<char>>, i: int) -> Seq<int>
    decreases order.len(),
{
    if order.len() == 0 {
        seq![i]
    } else if keys[order[0]] == keys[i] {
        seq![i] + order.drop_first()
    } else if text_lt(keys[i], keys[order[0]]) {
        seq![i] + order
    } else {
        seq![order[0]] + placed(order.drop_first(), keys, i)
    }
}

/// The places of the first `n` of `keys` read as the keys of a map, in
/// ascending key order: one place per distinct key, that of its last
/// occurrence.
pub open spec fn key_order_upto(keys: Seq<Seq<char>>, n: int) -> Seq<int>
    decreases n,
{
    if n <= 0 {
        seq![]
    } else {
        placed(key_order_upto(keys, n - 1), keys, n - 1)
    }
}

/// The places of `keys` read as the keys of a map (see `key_order_upto`):
/// what a map built from them in order holds, in its key order.
pub open spec fn key_order(keys: Seq<Seq<char>>) -> Seq<int> {
    key_order_upto(keys, keys.len() as int)
}

/// Placing `i` keeps every place below `n`.
proof fn lemma_placed_range(order: Seq<int>, keys: Seq<Seq<char>>, i: int, n: int)
    requires
        0 <= i < n,
        forall|k: int| 0 <= k < order.len() ==> 0 <= #[trigger] order[k] < n,
    ensures
        forall|k: int| 0 <= k < placed(order, keys, i).len() ==> 0 <= #[trigger] placed(order, keys, i)[k] < n,
    decreases order.len(),
{
    if order.len() > 0 {
        let rest = order.drop_first();
        assert forall|k: int| 0 <= k < rest.len() implies 0 <= #[trigger] rest[k] < n by {
            assert(rest[k] == order[k + 1]);
        }
        lemma_placed_range(rest, keys, i, n);
        let pl = placed(order, keys, i);
        assert forall|k: int| 0 <= k < pl.len() implies 0 <= #[trigger] pl[k] < n by {
            if keys[order[0]] == keys[i] {
                if k > 0 {
                    assert(pl[k] == rest[k - 1]);
                }
            } else if text_lt(keys[i], keys[order[0]]) {
                if k > 0 {
                    assert(pl[k] == order[k - 1]);
                }
            } else {
                if k > 0 {
                    assert(pl[k] == placed(rest, keys, i)[k - 1]);
                }
            }
        }
    }
}

/// Every place that `key_order` gives is a place of `keys`.
pub proof fn lemma_key_order_range(keys: Seq<Seq<char>>, k: int)
    requires
        0 <= k < key_order(keys).len(),
    ensures
        0 <= key_order(keys)[k] < keys.len(),
{
    lemma_key_order_upto_range(keys, keys.len() as int);
}

proof fn lemma_key_order_upto_range(keys: Seq<Seq<char>>, n: int)
    requires
        0 <= n,
    ensures
        forall|k: int| 0 <= k < key_order_upto(keys, n).len() ==> 0 <= #[trigger] key_order_upto(keys, n)[k] < n,
    decreases n,
{
    if n > 0 {
        lemma_key_order_upto_range(keys, n - 1);
        lemma_placed_range(key_order_upto(keys, n - 1), keys, n - 1, n);
    }
}

/// Placing `i` at `p`, before which every key is smaller and from which
/// none is.
proof fn lemma_placed_at(order: Seq<int>, keys: Seq<Seq<char>>, i: int, p: int)
    requires
        0 <= p <= order.len(),
        forall|q: int| 0 <= q < p ==> text_lt(#[trigger] keys[order[q]], keys[i]),
        p < order.len() ==> !text_lt(keys[order[p]], keys[i]),
    ensures
        placed(order, keys, i) == (if p < order.len() && keys[order[p]] == keys[i] {
            order.update(p, i)
        } else {
            order.insert(p, i)
        }),
    decreases p,
{
    if p == 0 {
        if order.len() > 0 && keys[order[0]] != keys[i] {
            lemma_text_lt_total(keys[i], keys[order[0]]);
            assert(seq![i] + order =~= order.insert(0, i));
        } else if order.len() > 0 {
            assert(seq![i] + order.drop_first() =~= order.update(0, i));
        } else {
            assert(seq![i] =~= order.insert(0, i));
        }
    } else {
        assert(text_lt(keys[order[0]], keys[i]));
        lemma_text_lt_irreflexive(keys[i]);
        if text_lt(keys[i], keys[order[0]]) {
            lemma_text_lt_transitive(keys[i], keys[order[0]], keys[i]);
        }
        let rest = order.drop_first();
        assert forall|q: int| 0 <= q < p - 1 implies text_lt(#[trigger] keys[rest[q]], keys[i]) by {
            assert(rest[q] == order[q + 1]);
        }
        lemma_placed_at(rest, keys, i, p - 1);
        if p < order.len() && keys[order[p]] == keys[i] {
            assert(seq![order[0]] + rest.update(p - 1, i) =~= order.update(p, i));
        } else {
            assert(seq![order[0]] + rest.insert(p - 1, i) =~= order.insert(p, i));
        }
    }
}

/// The places of the names of `v` read as the keys of a map (see
/// `key_order`): one per distinct name, that of its last pair, in
/// ascending name order.
pub fn key_places<V>(v: &Vec<(Symbol, V)>) -> (r: Vec<usize>)
    ensures
        r@.map_values(|x: usize| x as int) == key_order(pair_keys(v@)),
        forall|j: int| 0 <= j < r@.len() ==> #[trigger] r@[j] < v@.len(),
{
    let ghost ks = pair_keys(v@);
    let mut order: Vec<usize> = Vec::new();
    let mut i: usize = 0;
    proof {
        assert(order@.map_values(|x: usize| x as int) =~= key_order_upto(ks, 0));
    }
    while i < v.len()
        invariant
            i <= v@.len(),
            ks == pair_keys(v@),
            order@.map_values(|x: usize| x as int) == key_order_upto(ks, i as int),
            forall|j: int| 0 <= j < order@.len() ==> #[trigger] order@[j] < i,
        decreases v.len() - i,
    {
        let ghost o = order@.map_values(|x: usize| x as int);
        let key = chars_of(v[i].0.as_str());
        let mut p: usize = 0;
        while p < order.len() && text_less(&chars_of(v[order[p]].0.as_str()), &key)
            invariant
                p <= order@.len(),
                i < v@.len(),
                key@ == ks[i as int],
                ks == pair_keys(v@),
                o == order@.map_values(|x: usize| x as int),
                forall|j: int| 0 <= j < order@.len() ==> #[trigger] order@[j] < i,
                forall|q: int| 0 <= q < p ==> text_lt(#[trigger] ks[o[q]], ks[i as int]),
            decreases order.len() - p,
        {
            proof {
                assert(o[p as int] == order@[p as int] as int);
            }
            p = p + 1;
        }
        proof {
            if p < order@.len() {
                assert(o[p as int] == order@[p as int] as int);
            }
            lemma_placed_at(o, ks, i as int, p as int);
        }
        if p < order.len() && v[order[p]].0.same(&v[i].0) {
            order.set(p, i);
            proof {
                assert(order@.map_values(|x: usize| x as int) =~= o.update(p as int, i as int));
            }
        } else {
            order.insert(p, i);
            proof {
                assert(order@.map_values(|x: usize| x as int) =~= o.insert(p as int, i as int));
            }
        }
        proof {
            assert forall|j: int| 0 <= j < order@.len() implies #[trigger] order@[j] < i + 1 by {
            }
        }
        i = i + 1;
    }
    order
}

/// Orders `v` by target id; targets with the same id keep their order.
pub fn sort_by_id(v: Vec<Target>) -> (r: Vec<Target>)
    ensures
        sorted_by_id(r@),
        r@.to_multiset() == v@.to_multiset(),
        forall|id: Seq<char>| #[trigger] with_id(r@, id) == with_id(v@, id),
{
    broadcast use vstd::seq_lib::group_to_multiset_ensures, vstd::multiset::group_multiset_axioms;

    let ghost input = v@;
    let mut rest = v;
    let mut out: Vec<Target> = Vec::new();
    assert(rest@ =~= input);
    proof {
        assert(out@.to_multiset() =~= Multiset::empty());
        assert(out@.to_multiset().add(rest@.to_multiset()) =~= input.to_multiset());
    }
    proof {
        assert forall|id: Seq<char>| #[trigger] with_id(input, id) == with_id(out@, id) + with_id(rest@, id) by {
            assert(with_id(out@, id) =~= Seq::<Target>::empty());
            assert(Seq::<Target>::empty() + with_id(rest@, id) =~= with_id(rest@, id));
        }
    }
    while rest.len() > 0
        invariant
            sorted_by_id(out@),
            out@.to_multiset().add(rest@.to_multiset()) == input.to_multiset(),
            forall|id: Seq<char>| #[trigger] with_id(input, id) == with_id(out@, id) + with_id(rest@, id),
        decreases rest.len(),
    {
        let ghost before_rest = rest@;
        let x = rest.remove(0);
        let key = chars_of(x.id.as_str());
        let mut p: usize = 0;
        while p < out.len()
            invariant
                p <= out@.len(),
                key@ == x.id@,
                forall|q: int| 0 <= q < p ==> !text_lt(key@, #[trigger] out@[q].id@),
            ensures
                p <= out@.len(),
                forall|q: int| 0 <= q < p ==> !text_lt(key@, #[trigger] out@[q].id@),
                p < out@.len() ==> text_lt(key@, out@[p as int].id@),
            decreases out.len() - p,
        {
            let other = chars_of(out[p].id.as_str());
            if text_less(&key, &other) {
                break;
            }
            p = p + 1;
        }
        let ghost before_out = out@;
        proof {
            assert(p < before_out.len() ==> text_lt(x.id@, before_out[p as int].id@)) by {
                if p < before_out.len() {
                }
            }
        }
        out.insert(p, x);
        proof {
            assert(out@ == before_out.insert(p as int, x));
            assert(before_rest.remove(0) == rest@);
            assert(before_rest[0] == x);
            assert(sorted_by_id(out@)) by {
                assert forall|i: int, j: int| 0 <= i < j < out@.len() implies !text_lt(
                    #[trigger] out@[j].id@,
                    #[trigger] out@[i].id@,
                ) by {
                    if i < p && j == p {
                    } else if i < p && j > p {
                        assert(out@[j] == before_out[j - 1]);
                        assert(out@[i] == before_out[i]);
                    } else if i == p && j > p {
                        assert(out@[j] == before_out[j - 1]);
                        if text_lt(before_out[j - 1].id@, x.id@) {
                            if p < before_out.len() {
                                if j - 1 > p {
                                    lemma_text_lt_transitive(before_out[j - 1].id@, x.id@, before_out[p as int].id@);
                                } else {
                                    lemma_text_lt_transitive(x.id@, before_out[p as int].id@, x.id@);
                                    lemma_text_lt_irreflexive(x.id@);
                                }
                            }
                        }
                    } else if i > p {
                        assert(out@[j] == before_out[j - 1]);
                        assert(out@[i] == before_out[i - 1]);
                    } else {
                        assert(out@[j] == before_out[j]);
                        assert(out@[i] == before_out[i]);
                    }
                }
            }
            vstd::seq_lib::to_multiset_insert(before_out, p as int, x);
            vstd::seq_lib::to_multiset_remove(before_rest, 0);
            assert(out@.to_multiset() == before_out.to_multiset().insert(x));
            assert(rest@.to_multiset() == before_rest.to_multiset().remove(x));
            assert(before_rest.contains(x));
            vstd::seq_lib::to_multiset_contains(before_rest, x);
            assert(before_rest.to_multiset().count(x) > 0);
            assert(out@.to_multiset().add(rest@.to_multiset()) =~= before_out.to_multiset().add(before_rest.to_multiset()));
            lemma_insert_keeps_order(before_out, before_rest, p as int, x, input);
        }
    }
    proof {
        assert(rest@.to_multiset() =~= Multiset::empty());
        assert(out@.to_multiset().add(rest@.to_multiset()) =~= out@.to_multiset());
        assert forall|id: Seq<char>| #[trigger] with_id(out@, id) == with_id(input, id) by {
            assert(rest@ =~= Seq::<Target>::empty());
            assert(with_id(out@, id) + Seq::<Target>::empty() =~= with_id(out@, id));
        }
    }
    out
}


/// Moving the first of `rest` into `out` at `p`, after every target whose
/// id does not sort after its own, keeps each id's targets in order.
proof fn lemma_insert_keeps_order(out: Seq<Target>, rest: Seq<Target>, p: int, x: Target, input: Seq<Target>)
    requires
        0 <= p <= out.len(),
        rest.len() > 0,
        rest[0] == x,
        sorted_by_id(out),
        forall|q: int| 0 <= q < p ==> !text_lt(x.id@, #[trigger] out[q].id@),
        p < out.len() ==> text_lt(x.id@, out[p].id@),
        forall|id: Seq<char>| #[trigger] with_id(input, id) == with_id(out, id) + with_id(rest, id),
    ensures
        forall|id: Seq<char>| #[trigger] with_id(input, id) == with_id(out.insert(p, x), id) + with_id(
            rest.drop_first(),
            id,
        ),
{
    assert forall|id: Seq<char>| #[trigger] with_id(input, id) == with_id(out.insert(p, x), id) + with_id(
        rest.drop_first(),
        id,
    ) by {
        let front = out.take(p);
        let back = out.skip(p);
        assert(out =~= front + back);
        assert(out.insert(p, x) =~= front + seq![x] + back);
        assert(rest =~= seq![x] + rest.drop_first());
        lemma_with_id_add(front, back, id);
        lemma_with_id_add(front + seq![x], back, id);
        lemma_with_id_add(front, seq![x], id);
        lemma_with_id_add(seq![x], rest.drop_first(), id);
        lemma_with_id_one(x, id);
        if x.id@ == id {
            assert forall|i: int| 0 <= i < back.len() implies (#[trigger] back[i]).id@ != id by {
                assert(back[i] == out[p + i]);
                if i > 0 {
                    assert(!text_lt(out[p + i].id@, out[p].id@));
                    if out[p + i].id@ == x.id@ {
                        assert(text_lt(out[p + i].id@, out[p].id@));
                    }
                } else {
                    lemma_text_lt_irreflexive(x.id@);
                }
            }
            lemma_with_id_none(back, id);
            assert(with_id(front, id) + Seq::<Target>::empty() =~= with_id(front, id));
            assert(with_id(front + seq![x], id) + Seq::<Target>::empty() =~= with_id(front + seq![x], id));
            assert(with_id(front, id) + seq![x] + with_id(rest.drop_first(), id) =~= with_id(front, id) + (seq![x]
                + with_id(rest.drop_first(), id)));
        } else {
            assert(with_id(front, id) + Seq::<Target>::empty() =~= with_id(front, id));
            assert(Seq::<Target>::empty() + with_id(rest.drop_first(), id) =~= with_id(rest.drop_first(), id));
        }
    }
}

} // verus!
