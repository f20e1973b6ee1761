use vstd::prelude::*;

use crate::text::same_text;

verus! {

/// An item of an ordered list (a pad in a bank, a bank in the configuration):
/// it has an id and a position field that reordering rewrites.
pub trait Listed: Sized {
    /// The id of the item.
    spec fn key(&self) -> Seq<char>;

    /// The item with its position field set to `order`.
    spec fn reindexed(self, order: u32) -> Self;

    fn key_string(&self) -> (r: &String)
        ensures
            r@ == self.key(),
    ;

    fn set_order(&mut self, order: u32)
        ensures
            *final(self) == old(self).reindexed(order),
    ;

    /// Setting the position keeps the id.
    proof fn lemma_reindexed_key(self, order: u32)
        ensures
            self.reindexed(order).key() == self.key(),
    ;
}

/// The characters of each id.
pub open spec fn id_views(ids: Seq<String>) -> Seq<Seq<char>> {
    ids.map_values(|s: String| s@)
}

/// The ids of a sequence of items.
pub open spec fn keys_of<T: Listed>(s: Seq<T>) -> Seq<Seq<char>> {
    s.map_values(|x: T| x.key())
}

/// Index of the first item at or after `j` whose id is `id`; -1 when none is.
pub open spec fn index_from<T: Listed>(s: Seq<T>, id: Seq<char>, j: int) -> int
    decreases s.len() - j,
{
    if j < 0 || j >= s.len() {
        -1
    } else if s[j].key() == id {
        j
    } else {
        index_from(s, id, j + 1)
    }
}

/// Index of the first item whose id is `id`; -1 when none is.
pub open spec fn first_index<T: Listed>(s: Seq<T>, id: Seq<char>) -> int {
    index_from(s, id, 0)
}

/// The items arranged by `ids`: for each id in turn, the first item still
/// left with that id is taken out and placed next; ids that name no item left
/// are skipped; the items left at the end follow, in the order they had.
pub open spec fn arrange<T: Listed>(s: Seq<T>, ids: Seq<Seq<char>>) -> Seq<T>
    decreases ids.len(),
{
    if ids.len() == 0 {
        s
    } else {
        let i = first_index(s, ids[0]);
        if i < 0 {
            arrange(s, ids.drop_first())
        } else {
            seq![s[i]] + arrange(s.remove(i), ids.drop_first())
        }
    }
}

/// Each item with its position field set to its index.
pub open spec fn reindex<T: Listed>(s: Seq<T>) -> Seq<T> {
    Seq::new(s.len(), |i: int| s[i].reindexed(i as u32))
}

/// What reordering a list by `ids` makes of it.
pub open spec fn reordered<T: Listed>(s: Seq<T>, ids: Seq<Seq<char>>) -> Seq<T> {
    reindex(arrange(s, ids))
}

pub proof fn lemma_index_from_range<T: Listed>(s: Seq<T>, id: Seq<char>, j: int)
    requires
        0 <= j,
    ensures
        index_from(s, id, j) == -1 || (j <= index_from(s, id, j) < s.len() && s[index_from(s, id, j)].key()
            == id),
        index_from(s, id, j) == -1 ==> forall|k: int| j <= k < s.len() ==> #[trigger] s[k].key() != id,
        forall|k: int| j <= k < index_from(s, id, j) ==> #[trigger] s[k].key() != id,
    decreases s.len() - j,
{
    if 0 <= j < s.len() && s[j].key() != id {
        lemma_index_from_range(s, id, j + 1);
    }
}

/// Position of the first item whose id is `id`.
pub fn position_of<T: Listed>(items: &Vec<T>, id: &String) -> (r: Option<usize>)
    ensures
        match r {
            Some(p) => first_index(items@, id@) == p as int,
            None => first_index(items@, id@) == -1,
        },
        r matches Some(p) ==> p < items@.len() && items@[p as int].key() == id@,
{
    proof {
        lemma_index_from_range(items@, id@, 0);
    }
    let mut j: usize = 0;
    while j < items.len()
        invariant
            j <= items@.len(),
            first_index(items@, id@) == index_from(items@, id@, j as int),
        decreases items@.len() - j,
    {
        if same_text(items[j].key_string(), id) {
            return Some(j);
        }
        j = j + 1;
    }
    None
}

/// Reorders `items` by `ordered_ids` and renumbers their position fields from
/// zero. Ids missing from the list keep their relative order at the end, so a
/// partial list never loses an item.
pub fn reorder_by_ids<T: Listed>(items: Vec<T>, ordered_ids: &[String]) -> (r: Vec<T>)
    ensures
        r@ == reordered(items@, id_views(ordered_ids@)),
{
    let ghost ids = id_views(ordered_ids@);
    let ghost all = items@;
    let mut remaining = items;
    let mut result: Vec<T> = Vec::new();
    let ghost mut plain: Seq<T> = Seq::empty();
    let mut k: usize = 0;
    assert(ids.skip(0) =~= ids);
    while k < ordered_ids.len()
        invariant
            k <= ordered_ids@.len(),
            ids == id_views(ordered_ids@),
            ids.len() == ordered_ids@.len(),
            plain + arrange(remaining@, ids.skip(k as int)) == arrange(all, ids),
            result@ == reindex(plain),
        decreases ordered_ids@.len() - k,
    {
        let ghost rem = remaining@;
        let ghost rest = ids.skip(k as int);
        assert(rest[0] == ordered_ids@[k as int]@);
        assert(rest.drop_first() =~= ids.skip(k + 1));
        match position_of(&remaining, &ordered_ids[k]) {
            Some(p) => {
                let mut item = remaining.remove(p);
                item.set_order(#[verifier::truncate] (result.len() as u32));
                result.push(item);
                proof {
                    assert(arrange(rem, rest) == seq![rem[p as int]] + arrange(rem.remove(p as int), rest.drop_first()));
                    assert(plain.push(rem[p as int]) + arrange(remaining@, ids.skip(k + 1)) =~= plain + (seq![rem[p as int]] + arrange(remaining@, ids.skip(k + 1))));
                    plain = plain.push(rem[p as int]);
                    assert(result@ =~= reindex(plain));
                }
            },
            None => {
                assert(arrange(rem, rest) == arrange(rem, rest.drop_first()));
            },
        }
        k = k + 1;
    }
    assert(ids.skip(k as int) =~= Seq::<Seq<char>>::empty());
    while remaining.len() > 0
        invariant
            plain + remaining@ == arrange(all, ids),
            result@ == reindex(plain),
        decreases remaining@.len(),
    {
        let ghost rem = remaining@;
        let mut item = remaining.remove(0);
        item.set_order(#[verifier::truncate] (result.len() as u32));
        result.push(item);
        proof {
            assert(plain.push(rem[0]) + remaining@ =~= plain + rem);
            plain = plain.push(rem[0]);
            assert(result@ =~= reindex(plain));
        }
    }
    assert(plain =~= plain + remaining@);
    result
}

proof fn lemma_keys_of_remove<T: Listed>(s: Seq<T>, i: int)
    requires
        0 <= i < s.len(),
    ensures
        keys_of(s.remove(i)) == keys_of(s).remove(i),
{
    assert(keys_of(s.remove(i)) =~= keys_of(s).remove(i));
}

proof fn lemma_keys_of_cons<T: Listed>(x: T, t: Seq<T>)
    ensures
        keys_of(seq![x] + t) == seq![x.key()] + keys_of(t),
{
    assert(keys_of(seq![x] + t) =~= seq![x.key()] + keys_of(t));
}

/// Reindexing keeps every id in its place.
pub proof fn lemma_reindex_keys<T: Listed>(s: Seq<T>)
    ensures
        keys_of(reindex(s)) == keys_of(s),
{
    assert forall|i: int| 0 <= i < s.len() implies #[trigger] keys_of(reindex(s))[i] == keys_of(s)[i] by {
        s[i].lemma_reindexed_key(i as u32);
    }
    assert(keys_of(reindex(s)) =~= keys_of(s));
}

/// Arranging keeps exactly the same ids, as many times each.
pub proof fn lemma_arrange_keys<T: Listed>(s: Seq<T>, ids: Seq<Seq<char>>)
    ensures
        keys_of(arrange(s, ids)).to_multiset() == keys_of(s).to_multiset(),
        arrange(s, ids).len() == s.len(),
    decreases ids.len(),
{
    broadcast use vstd::seq_lib::group_to_multiset_ensures, vstd::multiset::group_multiset_axioms;

    if ids.len() > 0 {
        let i = first_index(s, ids[0]);
        if i < 0 {
            lemma_arrange_keys(s, ids.drop_first());
        } else {
            lemma_index_from_range(s, ids[0], 0);
            lemma_arrange_keys(s.remove(i), ids.drop_first());
            lemma_keys_of_cons(s[i], arrange(s.remove(i), ids.drop_first()));
            lemma_keys_of_remove(s, i);
            vstd::seq_lib::lemma_multiset_commutative(seq![s[i].key()], keys_of(arrange(s.remove(i), ids.drop_first())));
            assert(seq![s[i].key()].to_multiset() =~= vstd::multiset::Multiset::empty().insert(s[i].key())) by {
                assert(seq![s[i].key()] =~= Seq::<Seq<char>>::empty().push(s[i].key()));
            }
            assert(keys_of(s)[i] == s[i].key());
            assert(keys_of(s).to_multiset().contains(s[i].key()));
            assert(keys_of(arrange(s, ids)).to_multiset() =~= keys_of(s).to_multiset());
        }
    }
}

/// Reordering loses no item and adds none: the same ids come out, as many
/// times each, and the list keeps its length.
pub proof fn lemma_reorder_keeps_every_item<T: Listed>(s: Seq<T>, ids: Seq<Seq<char>>)
    ensures
        keys_of(reordered(s, ids)).to_multiset() == keys_of(s).to_multiset(),
        reordered(s, ids).len() == s.len(),
{
    lemma_arrange_keys(s, ids);
    lemma_reindex_keys(arrange(s, ids));
}

/// When the ids name every item exactly once (they are a rearrangement of the
/// items' ids), the items come out in exactly the order of the ids.
pub proof fn lemma_arrange_full_order<T: Listed>(s: Seq<T>, ids: Seq<Seq<char>>)
    requires
        ids.to_multiset() == keys_of(s).to_multiset(),
    ensures
        keys_of(arrange(s, ids)) == ids,
    decreases ids.len(),
{
    broadcast use vstd::seq_lib::group_to_multiset_ensures, vstd::multiset::group_multiset_axioms;

    if ids.len() == 0 {
        assert(ids.to_multiset().len() == 0);
        assert(keys_of(s).to_multiset().len() == keys_of(s).len());
        assert(keys_of(s).len() == 0);
        assert(keys_of(s) =~= ids);
    } else {
        let id = ids[0];
        assert(ids.to_multiset().contains(id)) by {
            assert(ids.contains(id));
        }
        assert(keys_of(s).contains(id));
        let i = first_index(s, id);
        lemma_index_from_range(s, id, 0);
        if i < 0 {
            let k = choose|k: int| 0 <= k < keys_of(s).len() && keys_of(s)[k] == id;
            assert(s[k].key() == id);
            assert(false);
        }
        lemma_keys_of_remove(s, i);
        assert(ids =~= seq![id] + ids.drop_first());
        assert(ids.drop_first().to_multiset() =~= ids.to_multiset().remove(id)) by {
            assert(ids.drop_first() =~= ids.remove(0));
        }
        assert(keys_of(s)[i] == id);
        assert(ids.drop_first().to_multiset() == keys_of(s.remove(i)).to_multiset());
        lemma_arrange_full_order(s.remove(i), ids.drop_first());
        lemma_keys_of_cons(s[i], arrange(s.remove(i), ids.drop_first()));
    }
}

/// When the ids are a rearrangement of the items' ids, reordering puts the
/// items in exactly that order.
pub proof fn lemma_reorder_follows_full_order<T: Listed>(s: Seq<T>, ids: Seq<Seq<char>>)
    requires
        ids.to_multiset() == keys_of(s).to_multiset(),
    ensures
        keys_of(reordered(s, ids)) == ids,
{
    lemma_arrange_full_order(s, ids);
    lemma_reindex_keys(arrange(s, ids));
}

/// No two items share an id.
pub open spec fn unique_keys<T: Listed>(s: Seq<T>) -> bool {
    forall|a: int, b: int| 0 <= a < b < s.len() ==> #[trigger] s[a].key() != #[trigger] s[b].key()
}

/// The items whose id no entry of `ids` names.
pub open spec fn unnamed<T: Listed>(ids: Seq<Seq<char>>) -> spec_fn(T) -> bool {
    |x: T| !ids.contains(x.key())
}

proof fn lemma_filter_agree<A>(s: Seq<A>, p: spec_fn(A) -> bool, q: spec_fn(A) -> bool)
    requires
        forall|i: int| 0 <= i < s.len() ==> p(#[trigger] s[i]) == q(s[i]),
    ensures
        s.filter(p) == s.filter(q),
    decreases s.len(),
{
    reveal(Seq::filter);
    if s.len() > 0 {
        assert forall|i: int| 0 <= i < s.drop_last().len() implies p(#[trigger] s.drop_last()[i]) == q(s.drop_last()[i]) by {
            assert(s.drop_last()[i] == s[i]);
        }
        lemma_filter_agree(s.drop_last(), p, q);
        assert(p(s.last()) == q(s[s.len() - 1]));
    }
}

proof fn lemma_filter_remove_excluded<A>(s: Seq<A>, p: spec_fn(A) -> bool, i: int)
    requires
        0 <= i < s.len(),
        !p(s[i]),
    ensures
        s.remove(i).filter(p) == s.filter(p),
{
    reveal(Seq::filter);
    let a = s.take(i);
    let b = s.skip(i + 1);
    assert(s =~= a + seq![s[i]] + b);
    assert(s.remove(i) =~= a + b);
    Seq::filter_distributes_over_add(a + seq![s[i]], b, p);
    Seq::filter_distributes_over_add(a, seq![s[i]], p);
    Seq::filter_distributes_over_add(a, b, p);
    assert(seq![s[i]] =~= Seq::<A>::empty().push(s[i]));
    Seq::<A>::empty().lemma_filter_push(s[i], p);
    assert(Seq::<A>::empty().filter(p) =~= Seq::<A>::empty());
    assert(seq![s[i]].filter(p) =~= Seq::<A>::empty());
    assert(a.filter(p) + Seq::<A>::empty() =~= a.filter(p));
}

proof fn lemma_filter_all<A>(s: Seq<A>, p: spec_fn(A) -> bool)
    requires
        forall|i: int| 0 <= i < s.len() ==> p(#[trigger] s[i]),
    ensures
        s.filter(p) == s,
    decreases s.len(),
{
    reveal(Seq::filter);
    if s.len() > 0 {
        assert forall|i: int| 0 <= i < s.drop_last().len() implies p(#[trigger] s.drop_last()[i]) by {
            assert(s.drop_last()[i] == s[i]);
        }
        lemma_filter_all(s.drop_last(), p);
        assert(p(s[s.len() - 1]));
        assert(s.drop_last().push(s.last()) =~= s);
    }
}

/// Index of the first occurrence of `x` in `ids`; -1 when it does not occur.
pub open spec fn first_pos(ids: Seq<Seq<char>>, x: Seq<char>) -> int
    decreases ids.len(),
{
    if ids.len() == 0 {
        -1
    } else if ids[0] == x {
        0
    } else {
        let r = first_pos(ids.drop_first(), x);
        if r < 0 { -1 } else { r + 1 }
    }
}

pub proof fn lemma_first_pos(ids: Seq<Seq<char>>, x: Seq<char>)
    ensures
        ids.contains(x) ==> 0 <= first_pos(ids, x) < ids.len() && ids[first_pos(ids, x)] == x,
        !ids.contains(x) ==> first_pos(ids, x) == -1,
    decreases ids.len(),
{
    if ids.len() > 0 {
        if ids[0] == x {
            assert(ids.contains(x));
        } else {
            let rest = ids.drop_first();
            lemma_first_pos(rest, x);
            if ids.contains(x) {
                let j = choose|j: int| 0 <= j < ids.len() && ids[j] == x;
                assert(rest[j - 1] == x);
            }
            if rest.contains(x) {
                let j = choose|j: int| 0 <= j < rest.len() && rest[j] == x;
                assert(ids[j + 1] == x);
            }
        }
    }
}

/// An id other than the first that occurs in the list occurs in the rest,
/// one place earlier.
proof fn lemma_pos_in_rest(ids: Seq<Seq<char>>, x: Seq<char>)
    requires
        ids.len() > 0,
        ids.contains(x),
        x != ids[0],
    ensures
        ids.drop_first().contains(x),
        0 <= first_pos(ids.drop_first(), x),
        first_pos(ids, x) == first_pos(ids.drop_first(), x) + 1,
{
    let j = choose|j: int| 0 <= j < ids.len() && ids[j] == x;
    assert(ids.drop_first()[j - 1] == x);
    lemma_first_pos(ids.drop_first(), x);
}

/// An item that arranging puts anywhere has the id of an item of the list.
proof fn lemma_arranged_key_is_key<T: Listed>(s: Seq<T>, ids: Seq<Seq<char>>, k: int)
    requires
        0 <= k < arrange(s, ids).len(),
    ensures
        exists|j: int| 0 <= j < s.len() && #[trigger] s[j].key() == arrange(s, ids)[k].key(),
{
    broadcast use vstd::seq_lib::group_to_multiset_ensures;

    lemma_arrange_keys(s, ids);
    let ks = keys_of(arrange(s, ids));
    let x = arrange(s, ids)[k].key();
    assert(ks[k] == x);
    assert(ks.contains(x));
    assert(keys_of(s).to_multiset().count(x) > 0);
    assert(keys_of(s).contains(x));
    let j = choose|j: int| 0 <= j < keys_of(s).len() && keys_of(s)[j] == x;
    assert(s[j].key() == x);
}

/// With unique ids, no item left after taking one out has the id of the one taken.
proof fn lemma_other_key<T: Listed>(s: Seq<T>, i: int, k: int)
    requires
        unique_keys(s),
        0 <= i < s.len(),
        0 <= k < s.len() - 1,
    ensures
        s.remove(i)[k].key() != s[i].key(),
{
    let k0 = if k < i { k } else { k + 1 };
    assert(s.remove(i)[k] == s[k0]);
    if k0 < i {
        assert(s[k0].key() != s[i].key());
    } else {
        assert(s[i].key() != s[k0].key());
    }
}

/// With unique ids, arranging puts first some items that the ids name, and
/// then every item that no id names, in its earlier relative order.
pub proof fn lemma_arrange_tail<T: Listed>(s: Seq<T>, ids: Seq<Seq<char>>) -> (m: int)
    requires
        unique_keys(s),
    ensures
        0 <= m <= arrange(s, ids).len(),
        arrange(s, ids).len() == s.len(),
        arrange(s, ids).skip(m) == s.filter(unnamed::<T>(ids)),
        forall|j: int| 0 <= j < m ==> ids.contains(#[trigger] arrange(s, ids)[j].key()),
        forall|k1: int, k2: int|
            0 <= k1 < k2 < m ==> first_pos(ids, #[trigger] arrange(s, ids)[k1].key()) < first_pos(
                ids,
                #[trigger] arrange(s, ids)[k2].key(),
            ),
        forall|j: int|
            0 <= j < s.len() && ids.contains(#[trigger] s[j].key()) ==> exists|k: int|
                0 <= k < m && #[trigger] arrange(s, ids)[k].key() == s[j].key(),
    decreases ids.len(),
{
    lemma_arrange_keys(s, ids);
    if ids.len() == 0 {
        assert forall|i: int| 0 <= i < s.len() implies (unnamed::<T>(ids))(#[trigger] s[i]) by {
            assert(!ids.contains(s[i].key()));
        }
        lemma_filter_all(s, unnamed::<T>(ids));
        assert(arrange(s, ids).skip(0) =~= s);
        0
    } else {
        let id0 = ids[0];
        let rest = ids.drop_first();
        assert(ids =~= seq![id0] + rest);
        let i = first_index(s, id0);
        lemma_index_from_range(s, id0, 0);
        assert forall|k: int| 0 <= k < rest.len() implies ids.contains(#[trigger] rest[k]) by {
            assert(ids[k + 1] == rest[k]);
        }
        if i < 0 {
            let m = lemma_arrange_tail(s, rest);
            assert forall|k: int| 0 <= k < s.len() implies (unnamed::<T>(rest))(#[trigger] s[k]) == (unnamed::<T>(ids))(s[k]) by {
                assert(s[k].key() != id0);
                if ids.contains(s[k].key()) {
                    let j = choose|j: int| 0 <= j < ids.len() && ids[j] == s[k].key();
                    assert(j != 0);
                    assert(rest[j - 1] == s[k].key());
                }
            }
            lemma_filter_agree(s, unnamed::<T>(rest), unnamed::<T>(ids));
            assert forall|j: int| 0 <= j < m implies ids.contains(#[trigger] arrange(s, ids)[j].key()) by {
                assert(rest.contains(arrange(s, rest)[j].key()));
                let k = choose|k: int| 0 <= k < rest.len() && rest[k] == arrange(s, rest)[j].key();
                assert(ids.contains(rest[k]));
            }
            assert forall|k: int| 0 <= k < m implies #[trigger] arrange(s, rest)[k].key() != id0 by {
                lemma_arranged_key_is_key(s, rest, k);
                let j = choose|j: int| 0 <= j < s.len() && #[trigger] s[j].key() == arrange(s, rest)[k].key();
                assert(s[j].key() != id0);
            }
            assert forall|k1: int, k2: int| 0 <= k1 < k2 < m implies first_pos(ids, #[trigger] arrange(s, ids)[k1].key())
                < first_pos(ids, #[trigger] arrange(s, ids)[k2].key()) by {
                let a = arrange(s, rest);
                assert(rest.contains(a[k1].key()) && rest.contains(a[k2].key()));
                assert(a[k1].key() != id0 && a[k2].key() != id0);
                lemma_pos_in_rest(ids, a[k1].key());
                lemma_pos_in_rest(ids, a[k2].key());
            }
            assert forall|j: int| 0 <= j < s.len() && ids.contains(#[trigger] s[j].key()) implies exists|k: int|
                0 <= k < m && #[trigger] arrange(s, ids)[k].key() == s[j].key() by {
                assert(s[j].key() != id0);
                lemma_pos_in_rest(ids, s[j].key());
            }
            m
        } else {
            let t = s.remove(i);
            assert(unique_keys(t)) by {
                assert forall|a: int, b: int| 0 <= a < b < t.len() implies #[trigger] t[a].key() != #[trigger] t[b].key() by {
                    let a0 = if a < i { a } else { a + 1 };
                    let b0 = if b < i { b } else { b + 1 };
                    assert(t[a] == s[a0] && t[b] == s[b0]);
                }
            }
            let m0 = lemma_arrange_tail(t, rest);
            let whole = arrange(s, ids);
            assert(whole == seq![s[i]] + arrange(t, rest));
            assert(whole.skip(m0 + 1) =~= arrange(t, rest).skip(m0));
            assert forall|k: int| 0 <= k < t.len() implies (unnamed::<T>(rest))(#[trigger] t[k]) == (unnamed::<T>(ids))(t[k]) by {
                let k0 = if k < i { k } else { k + 1 };
                assert(t[k] == s[k0]);
                if k0 < i {
                    assert(s[k0].key() != s[i].key());
                } else {
                    assert(s[i].key() != s[k0].key());
                }
                if ids.contains(t[k].key()) {
                    let j = choose|j: int| 0 <= j < ids.len() && ids[j] == t[k].key();
                    assert(j != 0);
                    assert(rest[j - 1] == t[k].key());
                }
            }
            lemma_filter_agree(t, unnamed::<T>(rest), unnamed::<T>(ids));
            assert(ids[0] == s[i].key());
            assert(!(unnamed::<T>(ids))(s[i]));
            lemma_filter_remove_excluded(s, unnamed::<T>(ids), i);
            assert forall|j: int| 0 <= j < m0 + 1 implies ids.contains(#[trigger] whole[j].key()) by {
                if j == 0 {
                    assert(whole[0] == s[i]);
                    assert(ids[0] == s[i].key());
                } else {
                    assert(whole[j] == arrange(t, rest)[j - 1]);
                    assert(rest.contains(arrange(t, rest)[j - 1].key()));
                    let k = choose|k: int| 0 <= k < rest.len() && rest[k] == arrange(t, rest)[j - 1].key();
                    assert(ids.contains(rest[k]));
                }
            }
            let a0 = arrange(t, rest);
            assert forall|k: int| 0 <= k < m0 implies #[trigger] a0[k].key() != id0 by {
                lemma_arranged_key_is_key(t, rest, k);
                let j = choose|j: int| 0 <= j < t.len() && #[trigger] t[j].key() == a0[k].key();
                lemma_other_key(s, i, j);
            }
            assert forall|k1: int, k2: int| 0 <= k1 < k2 < m0 + 1 implies first_pos(ids, #[trigger] whole[k1].key())
                < first_pos(ids, #[trigger] whole[k2].key()) by {
                assert(whole[k2] == a0[k2 - 1]);
                assert(rest.contains(a0[k2 - 1].key()));
                lemma_pos_in_rest(ids, a0[k2 - 1].key());
                if k1 == 0 {
                    assert(whole[0].key() == ids[0]);
                } else {
                    assert(whole[k1] == a0[k1 - 1]);
                    assert(rest.contains(a0[k1 - 1].key()));
                    lemma_pos_in_rest(ids, a0[k1 - 1].key());
                }
            }
            assert forall|j: int| 0 <= j < s.len() && ids.contains(#[trigger] s[j].key()) implies exists|k: int|
                0 <= k < m0 + 1 && #[trigger] whole[k].key() == s[j].key() by {
                if j == i {
                    assert(whole[0].key() == s[j].key());
                } else {
                    let j1 = if j < i { j } else { j - 1 };
                    assert(t[j1] == s[j]);
                    lemma_other_key(s, i, j1);
                    lemma_pos_in_rest(ids, s[j].key());
                    assert(rest.contains(t[j1].key()));
                    let k0 = choose|k0: int| 0 <= k0 < m0 && #[trigger] a0[k0].key() == t[j1].key();
                    assert(whole[k0 + 1] == a0[k0]);
                }
            }
            m0 + 1
        }
    }
}

/// The ids `r` of a reordered list, against the list `s` and the ids asked
/// for: the first `m` are ids named in `ids`, in the order of their first
/// occurrence there, and include every id of the list that `ids` names; the
/// rest are the ids of the items that no id names, in the order they had.
pub open spec fn first_occurrence_shape<T: Listed>(s: Seq<T>, ids: Seq<Seq<char>>, r: Seq<Seq<char>>, m: int) -> bool {
    &&& 0 <= m <= r.len()
    &&& forall|k: int| 0 <= k < m ==> ids.contains(#[trigger] r[k])
    &&& forall|k1: int, k2: int| 0 <= k1 < k2 < m ==> first_pos(ids, #[trigger] r[k1]) < first_pos(ids, #[trigger] r[k2])
    &&& forall|j: int| 0 <= j < s.len() && ids.contains(#[trigger] s[j].key()) ==> r.take(m).contains(s[j].key())
    &&& r.skip(m) == keys_of(s.filter(unnamed::<T>(ids)))
}

/// With unique ids, reordering is a permutation of the items: first those
/// that the ids name, in the order of each id's first occurrence in the list
/// of ids (ids that name no item, and repeated ids, are skipped), then every
/// other item in its earlier relative order. An incomplete list loses
/// nothing and disturbs nothing it does not name.
pub proof fn lemma_reorder_first_occurrence_order<T: Listed>(s: Seq<T>, ids: Seq<Seq<char>>)
    requires
        unique_keys(s),
    ensures
        keys_of(reordered(s, ids)).to_multiset() == keys_of(s).to_multiset(),
        exists|m: int| #[trigger] first_occurrence_shape(s, ids, keys_of(reordered(s, ids)), m),
{
    lemma_reorder_keeps_every_item(s, ids);
    let m = lemma_arrange_tail(s, ids);
    let a = arrange(s, ids);
    lemma_reindex_keys(a);
    let r = keys_of(reordered(s, ids));
    assert(r == keys_of(a));
    assert forall|k: int| 0 <= k < m implies ids.contains(#[trigger] r[k]) by {
        assert(r[k] == a[k].key());
    }
    assert forall|k1: int, k2: int| 0 <= k1 < k2 < m implies first_pos(ids, #[trigger] r[k1]) < first_pos(
        ids,
        #[trigger] r[k2],
    ) by {
        assert(r[k1] == a[k1].key());
        assert(r[k2] == a[k2].key());
    }
    assert forall|j: int| 0 <= j < s.len() && ids.contains(#[trigger] s[j].key()) implies r.take(m).contains(
        s[j].key(),
    ) by {
        let k = choose|k: int| 0 <= k < m && #[trigger] a[k].key() == s[j].key();
        assert(r.take(m)[k] == s[j].key());
    }
    assert(r.skip(m) =~= keys_of(a.skip(m)));
    assert(first_occurrence_shape(s, ids, r, m));
}

} // verus!
