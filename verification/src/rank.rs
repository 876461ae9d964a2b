//! The order in which identifiers are offered: the known ones by falling
//! usage count, then the new ones as they were reported.

use crate::table::{
    distinct_names, entries_map, lemma_entry_in_map, lemma_key_has_entry, Entry, UsageTable,
};
use crate::text::{
    compare, lemma_bytes_less_asymmetric, lemma_bytes_less_irreflexive, lemma_bytes_less_total,
    lemma_bytes_less_transitive, lemma_encoding_injective, name_less, string_texts, texts, Order,
};
use vstd::prelude::*;
use vstd::utf8::encode_utf8;

verus! {

/// Whether `a` is offered before `b`: the higher count first, and among equal
/// counts the smaller identifier in the order of [`name_less`].
pub open spec fn ranked_before(table: Map<Seq<char>, int>, a: Seq<char>, b: Seq<char>) -> bool {
    table[a] > table[b] || (table[a] == table[b] && name_less(a, b))
}

/// Whether `list` holds exactly the keys of `table`, each once, in the order
/// of [`ranked_before`].
pub open spec fn is_ranking(table: Map<Seq<char>, int>, list: Seq<Seq<char>>) -> bool {
    &&& list.no_duplicates()
    &&& forall|name: Seq<char>| list.contains(name) <==> table.contains_key(name)
    &&& forall|i: int, j: int|
        0 <= i < j < list.len() ==> ranked_before(table, #[trigger] list[i], #[trigger] list[j])
}

/// Of two different identifiers one is ranked before the other.
pub proof fn lemma_ranked_total(table: Map<Seq<char>, int>, a: Seq<char>, b: Seq<char>)
    requires
        a != b,
    ensures
        ranked_before(table, a, b) || ranked_before(table, b, a),
{
    if encode_utf8(a) == encode_utf8(b) {
        lemma_encoding_injective(a, b);
    }
    lemma_bytes_less_total(encode_utf8(a), encode_utf8(b));
}

/// No two identifiers are ranked before each other.
pub proof fn lemma_ranked_asymmetric(table: Map<Seq<char>, int>, a: Seq<char>, b: Seq<char>)
    requires
        ranked_before(table, a, b),
    ensures
        !ranked_before(table, b, a),
{
    if name_less(a, b) {
        lemma_bytes_less_asymmetric(encode_utf8(a), encode_utf8(b));
    }
}

/// Being ranked before carries over a middle identifier.
pub proof fn lemma_ranked_transitive(
    table: Map<Seq<char>, int>,
    a: Seq<char>,
    b: Seq<char>,
    c: Seq<char>,
)
    requires
        ranked_before(table, a, b),
        ranked_before(table, b, c),
    ensures
        ranked_before(table, a, c),
{
    if name_less(a, b) && name_less(b, c) {
        lemma_bytes_less_transitive(encode_utf8(a), encode_utf8(b), encode_utf8(c));
    }
}

/// The list that [`is_ranking`] describes for a table.
pub open spec fn ranking(table: Map<Seq<char>, int>) -> Seq<Seq<char>> {
    choose|list: Seq<Seq<char>>| is_ranking(table, list)
}

/// Two rankings of one table agree on their first `n` places.
proof fn lemma_rankings_agree(
    table: Map<Seq<char>, int>,
    first: Seq<Seq<char>>,
    second: Seq<Seq<char>>,
    n: int,
)
    requires
        is_ranking(table, first),
        is_ranking(table, second),
        0 <= n <= first.len(),
        n <= second.len(),
    ensures
        first.take(n) == second.take(n),
    decreases n,
{
    if n == 0 {
        assert(first.take(0) =~= second.take(0));
    } else {
        lemma_rankings_agree(table, first, second, n - 1);
        let x = first[n - 1];
        let y = second[n - 1];
        assert forall|k: int| 0 <= k < n - 1 implies first[k] == second[k] by {
            assert(first.take(n - 1)[k] == second.take(n - 1)[k]);
        }
        if x != y {
            assert(first.contains(x));
            assert(second.contains(x));
            let j = choose|j: int| 0 <= j < second.len() && second[j] == x;
            assert(j > n - 1) by {
                if j < n - 1 {
                    assert(first[j] == x);
                }
            }
            assert(ranked_before(table, second[n - 1], second[j]));
            assert(second.contains(y));
            assert(first.contains(y));
            let k = choose|k: int| 0 <= k < first.len() && first[k] == y;
            assert(k > n - 1) by {
                if k < n - 1 {
                    assert(second[k] == y);
                }
            }
            assert(ranked_before(table, first[n - 1], first[k]));
            lemma_ranked_asymmetric(table, x, y);
        }
        assert(first.take(n) =~= first.take(n - 1).push(x));
        assert(second.take(n) =~= second.take(n - 1).push(y));
    }
}

/// Of two rankings of one table the shorter one is the other.
proof fn lemma_shorter_ranking(
    table: Map<Seq<char>, int>,
    first: Seq<Seq<char>>,
    second: Seq<Seq<char>>,
)
    requires
        is_ranking(table, first),
        is_ranking(table, second),
        first.len() <= second.len(),
    ensures
        first == second,
{
    lemma_rankings_agree(table, first, second, first.len() as int);
    if first.len() < second.len() {
        let extra = second[first.len() as int];
        assert(second.contains(extra));
        assert(first.contains(extra));
        let k = choose|k: int| 0 <= k < first.len() && first[k] == extra;
        assert(second.take(first.len() as int)[k] == first.take(first.len() as int)[k]);
        assert(second[k] == extra);
    }
    assert(first =~= first.take(first.len() as int));
    assert(second =~= second.take(second.len() as int));
}

/// A table has one ranking only: the order leaves no choice.
pub proof fn lemma_ranking_unique(
    table: Map<Seq<char>, int>,
    first: Seq<Seq<char>>,
    second: Seq<Seq<char>>,
)
    requires
        is_ranking(table, first),
        is_ranking(table, second),
    ensures
        first == second,
{
    if first.len() <= second.len() {
        lemma_shorter_ranking(table, first, second);
    } else {
        lemma_shorter_ranking(table, second, first);
    }
}

/// A list in rank order with one more identifier at its place.
spec fn with_inserted(table: Map<Seq<char>, int>, list: Seq<Seq<char>>, name: Seq<char>) -> Seq<
    Seq<char>,
>
    decreases list.len(),
{
    if list.len() == 0 {
        seq![name]
    } else if ranked_before(table, list.last(), name) {
        list.push(name)
    } else {
        with_inserted(table, list.drop_last(), name).push(list.last())
    }
}

/// Whether a list names nothing twice and stands in rank order.
spec fn in_rank_order(table: Map<Seq<char>, int>, list: Seq<Seq<char>>) -> bool {
    &&& list.no_duplicates()
    &&& forall|i: int, j: int|
        0 <= i < j < list.len() ==> ranked_before(table, #[trigger] list[i], #[trigger] list[j])
}

/// Putting a new identifier at its place keeps the rank order and adds
/// nothing else.
proof fn lemma_with_inserted(table: Map<Seq<char>, int>, list: Seq<Seq<char>>, name: Seq<char>)
    requires
        in_rank_order(table, list),
        !list.contains(name),
    ensures
        in_rank_order(table, with_inserted(table, list, name)),
        forall|other: Seq<char>|
            with_inserted(table, list, name).contains(other) <==> list.contains(other) || other
                == name,
    decreases list.len(),
{
    let out = with_inserted(table, list, name);
    if list.len() == 0 {
        assert(out[0] == name);
        assert forall|other: Seq<char>| out.contains(other) <==> list.contains(other) || other
            == name by {
            if out.contains(other) {
                let i = choose|i: int| 0 <= i < out.len() && out[i] == other;
            }
        }
    } else {
        let last = list.last();
        let front = list.drop_last();
        assert(list.contains(last)) by {
            assert(list[list.len() - 1] == last);
        }
        assert forall|other: Seq<char>| list.contains(other) <==> front.contains(other) || other
            == last by {
            if list.contains(other) {
                let i = choose|i: int| 0 <= i < list.len() && list[i] == other;
                if i < front.len() {
                    assert(front[i] == other);
                }
            }
            if front.contains(other) {
                let i = choose|i: int| 0 <= i < front.len() && front[i] == other;
                assert(list[i] == other);
            }
        }
        if ranked_before(table, last, name) {
            assert forall|i: int, j: int| 0 <= i < j < out.len() implies ranked_before(
                table,
                #[trigger] out[i],
                #[trigger] out[j],
            ) by {
                if j == list.len() && i < list.len() - 1 {
                    assert(ranked_before(table, list[i], list[list.len() - 1]));
                    lemma_ranked_transitive(table, list[i], last, name);
                }
            }
            assert forall|other: Seq<char>| out.contains(other) <==> list.contains(other) || other
                == name by {
                if out.contains(other) {
                    let i = choose|i: int| 0 <= i < out.len() && out[i] == other;
                    if i < list.len() {
                        assert(list[i] == other);
                    }
                }
                if list.contains(other) {
                    let i = choose|i: int| 0 <= i < list.len() && list[i] == other;
                    assert(out[i] == other);
                }
                if other == name {
                    assert(out[list.len() as int] == other);
                }
            }
            assert(out.no_duplicates()) by {
                assert forall|i: int, j: int|
                    0 <= i < out.len() && 0 <= j < out.len() && i != j implies out[i]
                    != out[j] by {
                    if i < list.len() {
                        assert(list.contains(out[i]));
                    }
                    if j < list.len() {
                        assert(list.contains(out[j]));
                    }
                }
            }
        } else {
            let inner = with_inserted(table, front, name);
            assert(in_rank_order(table, front)) by {
                assert forall|i: int, j: int| 0 <= i < j < front.len() implies ranked_before(
                    table,
                    #[trigger] front[i],
                    #[trigger] front[j],
                ) by {
                    assert(ranked_before(table, list[i], list[j]));
                }
            }
            assert(!front.contains(last)) by {
                if front.contains(last) {
                    let i = choose|i: int| 0 <= i < front.len() && front[i] == last;
                    assert(list[i] == list[list.len() - 1]);
                }
            }
            lemma_with_inserted(table, front, name);
            lemma_ranked_total(table, name, last);
            assert(!inner.contains(last));
            assert forall|i: int, j: int| 0 <= i < j < out.len() implies ranked_before(
                table,
                #[trigger] out[i],
                #[trigger] out[j],
            ) by {
                if j == inner.len() {
                    assert(inner.contains(inner[i]));
                    if inner[i] != name {
                        assert(front.contains(inner[i]));
                        let k = choose|k: int| 0 <= k < front.len() && front[k] == inner[i];
                        assert(ranked_before(table, list[k], list[list.len() - 1]));
                    }
                } else {
                    assert(ranked_before(table, inner[i], inner[j]));
                }
            }
            assert forall|other: Seq<char>| out.contains(other) <==> list.contains(other) || other
                == name by {
                if out.contains(other) {
                    let i = choose|i: int| 0 <= i < out.len() && out[i] == other;
                    if i < inner.len() {
                        assert(inner.contains(other));
                    }
                }
                if inner.contains(other) {
                    let i = choose|i: int| 0 <= i < inner.len() && inner[i] == other;
                    assert(out[i] == other);
                }
                if other == last {
                    assert(out[inner.len() as int] == other);
                }
            }
            assert(out.no_duplicates()) by {
                assert forall|i: int, j: int|
                    0 <= i < out.len() && 0 <= j < out.len() && i != j implies out[i]
                    != out[j] by {
                    if i < inner.len() {
                        assert(inner.contains(out[i]));
                    }
                    if j < inner.len() {
                        assert(inner.contains(out[j]));
                    }
                }
            }
        }
    }
}

/// A table with finitely many keys has a ranking.
proof fn lemma_some_ranking(table: Map<Seq<char>, int>) -> (list: Seq<Seq<char>>)
    requires
        table.dom().finite(),
    ensures
        is_ranking(table, list),
    decreases table.dom().len(),
{
    if table.dom().len() == 0 {
        let list = Seq::<Seq<char>>::empty();
        assert forall|name: Seq<char>| list.contains(name) <==> table.contains_key(name) by {
            if table.contains_key(name) {
                assert(table.dom().contains(name));
                assert(table.dom() =~= Set::<Seq<char>>::empty());
            }
        }
        list
    } else {
        let name = table.dom().choose();
        assert(table.dom().contains(name)) by {
            if table.dom() =~= Set::<Seq<char>>::empty() {
            }
        }
        let rest = table.remove(name);
        assert(rest.dom() =~= table.dom().remove(name));
        let inner = lemma_some_ranking(rest);
        assert(in_rank_order(table, inner)) by {
            assert forall|i: int, j: int| 0 <= i < j < inner.len() implies ranked_before(
                table,
                #[trigger] inner[i],
                #[trigger] inner[j],
            ) by {
                assert(inner.contains(inner[i]));
                assert(inner.contains(inner[j]));
                assert(ranked_before(rest, inner[i], inner[j]));
            }
        }
        assert(!inner.contains(name)) by {
            assert(!rest.contains_key(name));
        }
        lemma_with_inserted(table, inner, name);
        let list = with_inserted(table, inner, name);
        assert forall|other: Seq<char>| list.contains(other) <==> table.contains_key(other) by {
            assert(inner.contains(other) <==> rest.contains_key(other));
            assert(rest.contains_key(other) <==> table.contains_key(other) && other != name);
        }
        list
    }
}

/// Every table has its ranking: [`ranking`] holds exactly its keys, each
/// once, by falling count, so that of two neighbours the first has been
/// chosen at least as often as the second.
pub proof fn lemma_ranking_of_table(table: Map<Seq<char>, int>)
    requires
        table.dom().finite(),
    ensures
        is_ranking(table, ranking(table)),
        ranking(table).len() == table.dom().len(),
        forall|i: int|
            0 <= i < ranking(table).len() - 1 ==> table[#[trigger] ranking(table)[i]]
                >= table[ranking(table)[i + 1]],
{
    let list = lemma_some_ranking(table);
    let ranked = ranking(table);
    assert forall|i: int| 0 <= i < ranked.len() - 1 implies table[#[trigger] ranked[i]]
        >= table[ranked[i + 1]] by {
        assert(ranked_before(table, ranked[i], ranked[i + 1]));
    }
    ranked.unique_seq_to_set();
    assert(ranked.to_set() =~= table.dom());
}

/// Whether the first entry is offered before the second.
fn entry_before(a: &Entry, b: &Entry) -> (r: bool)
    ensures
        r == (a.count > b.count || (a.count == b.count && name_less(a.name@, b.name@))),
{
    if a.count != b.count {
        a.count > b.count
    } else {
        proof {
            lemma_bytes_less_irreflexive(encode_utf8(a.name@));
        }
        match compare(a.name.as_str(), b.name.as_str()) {
            Order::Less => true,
            _ => false,
        }
    }
}

/// Whether `order` lists the positions below `n`, each once, so that the
/// entries at them stand in the order of [`ranked_before`].
spec fn is_sorted_prefix(entries: Seq<Entry>, order: Seq<usize>, n: int) -> bool {
    &&& order.len() == n
    &&& order.no_duplicates()
    &&& forall|k: int| 0 <= k < order.len() ==> #[trigger] order[k] < n
    &&& forall|p: usize| p < n ==> order.contains(p)
    &&& forall|a: int, b: int|
        0 <= a < b < order.len() ==> ranked_before(
            entries_map(entries),
            entries[#[trigger] order[a] as int].name@,
            entries[#[trigger] order[b] as int].name@,
        )
}

/// The positions of the entries in the order of [`ranked_before`].
fn sorted_positions(entries: &Vec<Entry>) -> (order: Vec<usize>)
    requires
        distinct_names(entries@),
    ensures
        is_sorted_prefix(entries@, order@, entries@.len() as int),
{
    let ghost table = entries_map(entries@);
    let mut order: Vec<usize> = Vec::new();
    let mut n: usize = 0;
    while n < entries.len()
        invariant
            n <= entries@.len(),
            distinct_names(entries@),
            table == entries_map(entries@),
            is_sorted_prefix(entries@, order@, n as int),
        decreases entries@.len() - n,
    {
        let mut p: usize = 0;
        while p < order.len() && !entry_before(&entries[n], &entries[order[p]])
            invariant
                p <= order@.len(),
                n < entries@.len(),
                distinct_names(entries@),
                table == entries_map(entries@),
                is_sorted_prefix(entries@, order@, n as int),
                forall|k: int|
                    0 <= k < p ==> ranked_before(
                        table,
                        entries@[#[trigger] order@[k] as int].name@,
                        entries@[n as int].name@,
                    ),
            decreases order@.len() - p,
        {
            proof {
                let q = order@[p as int] as int;
                lemma_entry_in_map(entries@, q);
                lemma_entry_in_map(entries@, n as int);
                lemma_ranked_total(table, entries@[q].name@, entries@[n as int].name@);
            }
            p = p + 1;
        }
        let ghost before = order@;
        order.insert(p, n);
        proof {
            let after = order@;
            let new_name = entries@[n as int].name@;
            assert(after == before.insert(p as int, n));
            assert forall|a: int, b: int| 0 <= a < b < after.len() implies ranked_before(
                table,
                entries@[#[trigger] after[a] as int].name@,
                entries@[#[trigger] after[b] as int].name@,
            ) by {
                let a0 = if a < p { a } else { a - 1 };
                let b0 = if b < p { b } else { b - 1 };
                if a == p {
                    // the new entry stands before the one at p, and so before all behind it
                    let first = before[p as int] as int;
                    lemma_entry_in_map(entries@, first);
                    lemma_entry_in_map(entries@, n as int);
                    assert(ranked_before(table, new_name, entries@[first].name@));
                    if b0 != p {
                        assert(ranked_before(
                            table,
                            entries@[before[p as int] as int].name@,
                            entries@[before[b0] as int].name@,
                        ));
                        lemma_ranked_transitive(
                            table,
                            new_name,
                            entries@[first].name@,
                            entries@[before[b0] as int].name@,
                        );
                    }
                } else if b == p {
                    assert(after[a] == before[a]);
                } else {
                    assert(after[a] == before[a0]);
                    assert(after[b] == before[b0]);
                }
            }
            assert forall|q: usize| q < n + 1 implies after.contains(q) by {
                if q == n {
                    assert(after[p as int] == n);
                } else {
                    assert(before.contains(q));
                    let k = choose|k: int| 0 <= k < before.len() && before[k] == q;
                    let k1 = if k < p { k } else { k + 1 };
                    assert(after[k1] == q);
                }
            }
            assert(after.no_duplicates()) by {
                assert forall|a: int, b: int|
                    0 <= a < after.len() && 0 <= b < after.len() && a != b implies after[a]
                    != after[b] by {
                    let a0 = if a < p { a } else { a - 1 };
                    let b0 = if b < p { b } else { b - 1 };
                    if a != p && b != p {
                        assert(after[a] == before[a0]);
                        assert(after[b] == before[b0]);
                    } else if a == p {
                        assert(after[b] == before[b0]);
                    } else {
                        assert(after[a] == before[a0]);
                    }
                }
            }
            assert forall|k: int| 0 <= k < after.len() implies #[trigger] after[k] < n + 1 by {
                let k0 = if k < p { k } else { k - 1 };
                if k != p {
                    assert(after[k] == before[k0]);
                }
            }
        }
        n = n + 1;
    }
    order
}

/// The keys of the table in the order in which they are offered: by falling
/// usage count, and among equal counts in the order of [`name_less`].
pub fn map_to_sorted_list(prog_map: &UsageTable) -> (list: Vec<&str>)
    ensures
        is_ranking(prog_map@, texts(list@)),
        texts(list@) == ranking(prog_map@),
        forall|i: int|
            0 <= i < list@.len() - 1 ==> prog_map@[(#[trigger] list@[i])@] >= prog_map@[list@[i
                + 1]@],
{
    let entries = prog_map.entries();
    let order = sorted_positions(entries);
    let mut list: Vec<&str> = Vec::new();
    let mut k: usize = 0;
    while k < order.len()
        invariant
            k <= order@.len(),
            is_sorted_prefix(entries@, order@, entries@.len() as int),
            distinct_names(entries@),
            list@.len() == k,
            forall|i: int| 0 <= i < k ==> (#[trigger] list@[i])@ == entries@[order@[i] as int].name@,
        decreases order@.len() - k,
    {
        list.push(entries[order[k]].name.as_str());
        k = k + 1;
    }
    proof {
        let names = texts(list@);
        let table = prog_map@;
        assert forall|i: int, j: int| 0 <= i < names.len() && 0 <= j < names.len() && i
            != j implies names[i] != names[j] by {
            assert(order@[i] != order@[j]);
        }
        assert forall|name: Seq<char>| names.contains(name) <==> table.contains_key(name) by {
            if names.contains(name) {
                let i = choose|i: int| 0 <= i < names.len() && names[i] == name;
                lemma_entry_in_map(entries@, order@[i] as int);
            }
            if table.contains_key(name) {
                let q = lemma_key_has_entry(entries@, name);
                assert(order@.contains(q as usize));
                let i = choose|i: int| 0 <= i < order@.len() && order@[i] == q as usize;
                assert(names[i] == name);
            }
        }
        assert forall|i: int, j: int| 0 <= i < j < names.len() implies ranked_before(
            table,
            #[trigger] names[i],
            #[trigger] names[j],
        ) by {
            assert(ranked_before(
                table,
                entries@[order@[i] as int].name@,
                entries@[order@[j] as int].name@,
            ));
        }
        assert(is_ranking(table, names));
        lemma_ranking_unique(table, names, ranking(table));
        assert forall|i: int| 0 <= i < list@.len() - 1 implies table[(#[trigger] list@[i])@]
            >= table[list@[i + 1]@] by {
            assert(ranked_before(table, names[i], names[i + 1]));
        }
    }
    list
}

/// The test that picks the identifiers that are no key of `table`.
pub open spec fn is_unknown(table: Map<Seq<char>, int>) -> spec_fn(Seq<char>) -> bool {
    |name: Seq<char>| !table.contains_key(name)
}

/// The candidate list: the ranked keys, then every reported candidate that
/// is no key of the table, in the order in which it was reported. Candidates
/// are held against the keys only, not against each other.
pub open spec fn merged(
    table: Map<Seq<char>, int>,
    ranked: Seq<Seq<char>>,
    fresh: Seq<Seq<char>>,
) -> Seq<Seq<char>> {
    ranked + fresh.filter(is_unknown(table))
}

/// Filtering keeps a list free of duplicates.
proof fn lemma_filter_no_duplicates(list: Seq<Seq<char>>, pred: spec_fn(Seq<char>) -> bool)
    requires
        list.no_duplicates(),
    ensures
        list.filter(pred).no_duplicates(),
        forall|name: Seq<char>| list.filter(pred).contains(name) <==> list.contains(name) && pred(name),
    decreases list.len(),
{
    reveal(Seq::filter);
    if list.len() > 0 {
        let front = list.drop_last();
        let last = list.last();
        lemma_filter_no_duplicates(front, pred);
        let kept = front.filter(pred);
        assert(!front.contains(last));
        assert forall|name: Seq<char>| list.contains(name) <==> front.contains(name) || name
            == last by {
            if list.contains(name) {
                let i = choose|i: int| 0 <= i < list.len() && list[i] == name;
                if i < front.len() {
                    assert(front[i] == name);
                }
            }
            if front.contains(name) {
                let i = choose|i: int| 0 <= i < front.len() && front[i] == name;
                assert(list[i] == name);
            }
            if name == last {
                assert(list[list.len() - 1] == name);
            }
        }
        if pred(last) {
            let out = kept.push(last);
            assert(!kept.contains(last));
            assert forall|name: Seq<char>| out.contains(name) <==> kept.contains(name) || name
                == last by {
                if out.contains(name) {
                    let i = choose|i: int| 0 <= i < out.len() && out[i] == name;
                    if i < kept.len() {
                        assert(kept[i] == name);
                    }
                }
                if kept.contains(name) {
                    let i = choose|i: int| 0 <= i < kept.len() && kept[i] == name;
                    assert(out[i] == name);
                }
                if name == last {
                    assert(out[kept.len() as int] == name);
                }
            }
        }
    }
}

/// The candidate list names nothing twice, as long as no candidate was
/// reported twice.
pub proof fn lemma_merged_no_duplicates(table: Map<Seq<char>, int>, fresh: Seq<Seq<char>>)
    requires
        table.dom().finite(),
        fresh.no_duplicates(),
    ensures
        merged(table, ranking(table), fresh).no_duplicates(),
{
    lemma_ranking_of_table(table);
    let ranked = ranking(table);
    let unknown = fresh.filter(is_unknown(table));
    lemma_filter_no_duplicates(fresh, is_unknown(table));
    let list = merged(table, ranked, fresh);
    assert forall|i: int, j: int| 0 <= i < list.len() && 0 <= j < list.len() && i != j implies list[i]
        != list[j] by {
        if i < ranked.len() && j >= ranked.len() {
            assert(ranked.contains(list[i]));
            assert(unknown.contains(unknown[j - ranked.len()]));
        } else if j < ranked.len() && i >= ranked.len() {
            assert(ranked.contains(list[j]));
            assert(unknown.contains(unknown[i - ranked.len()]));
        }
    }
}

/// In the candidate list every key of the table stands before every
/// candidate that is no key; all keys are in it, and so is every reported
/// candidate that is no key.
pub proof fn lemma_known_before_unknown(table: Map<Seq<char>, int>, fresh: Seq<Seq<char>>)
    requires
        table.dom().finite(),
    ensures
        forall|i: int, j: int|
            #![trigger merged(table, ranking(table), fresh)[i], merged(table, ranking(table), fresh)[j]]
            0 <= i < merged(table, ranking(table), fresh).len() && 0 <= j < merged(
                table,
                ranking(table),
                fresh,
            ).len() && table.contains_key(merged(table, ranking(table), fresh)[i])
                && !table.contains_key(merged(table, ranking(table), fresh)[j]) ==> i < j,
        forall|name: Seq<char>|
            table.contains_key(name) ==> merged(table, ranking(table), fresh).contains(name),
        forall|k: int|
            0 <= k < fresh.len() && !table.contains_key(#[trigger] fresh[k]) ==> merged(
                table,
                ranking(table),
                fresh,
            ).contains(fresh[k]),
{
    lemma_ranking_of_table(table);
    let ranked = ranking(table);
    let unknown = fresh.filter(is_unknown(table));
    let list = merged(table, ranked, fresh);
    assert forall|i: int, j: int|
        0 <= i < list.len() && 0 <= j < list.len() && table.contains_key(list[i])
            && !table.contains_key(list[j]) implies i < j by {
        if i >= ranked.len() {
            fresh.lemma_filter_pred(is_unknown(table), i - ranked.len());
        }
        if j < ranked.len() {
            assert(ranked.contains(list[j]));
        }
    }
    assert forall|name: Seq<char>| table.contains_key(name) implies list.contains(name) by {
        assert(ranked.contains(name));
        let i = choose|i: int| 0 <= i < ranked.len() && ranked[i] == name;
        assert(list[i] == name);
    }
    assert forall|k: int|
        0 <= k < fresh.len() && !table.contains_key(#[trigger] fresh[k]) implies list.contains(
        fresh[k],
    ) by {
        fresh.lemma_filter_contains(is_unknown(table), k);
        let i = choose|i: int| 0 <= i < unknown.len() && unknown[i] == fresh[k];
        assert(list[ranked.len() + i] == fresh[k]);
    }
}

/// Appends to the ranked keys the reported candidates that the table does
/// not know.
pub fn merge<'a>(prog_map: &UsageTable, ranked: Vec<&'a str>, fresh: &'a Vec<String>) -> (list:
    Vec<&'a str>)
    ensures
        texts(list@) == merged(prog_map@, texts(ranked@), string_texts(fresh@)),
{
    let ghost table = prog_map@;
    let ghost known = texts(ranked@);
    let ghost reported = string_texts(fresh@);
    let mut list = ranked;
    let mut i: usize = 0;
    proof {
        reveal(Seq::filter);
        assert(reported.take(0).filter(is_unknown(table)) =~= Seq::<Seq<char>>::empty());
        assert(texts(list@) =~= known + reported.take(0).filter(is_unknown(table)));
    }
    while i < fresh.len()
        invariant
            i <= fresh@.len(),
            table == prog_map@,
            reported == string_texts(fresh@),
            texts(list@) == known + reported.take(i as int).filter(is_unknown(table)),
        decreases fresh@.len() - i,
    {
        let ghost before = texts(list@);
        let candidate = fresh[i].as_str();
        proof {
            reported.take(i as int).lemma_filter_push(candidate@, is_unknown(table));
            assert(reported.take(i + 1) =~= reported.take(i as int).push(candidate@));
        }
        if !prog_map.contains_key(candidate) {
            list.push(candidate);
            assert(texts(list@) =~= before.push(candidate@));
        }
        i = i + 1;
    }
    assert(reported.take(fresh@.len() as int) =~= reported);
    list
}

} // verus!
