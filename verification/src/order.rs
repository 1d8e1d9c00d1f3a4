//! The order in which the entries of an archive are visited.
//!
//! Without an ordering the entries are visited as the archive lists them.
//! With one they are visited by ascending key, and entries whose keys tie
//! keep the order in which the archive lists them.

use vstd::prelude::*;
use vstd::set_lib::{lemma_int_range, lemma_subset_equality, set_int_range};
use crate::compare::{name_less, name_text};
use crate::keys::{
    key_asymmetric, key_irreflexive, key_less, key_tie_transitive, key_total, key_transitive,
    sort_key,
};
use crate::params::Sort;

verus! {

/// A handle on one entry of an archive: where the archive lists it, and its
/// name as it was when the entries were listed. The content stays in the
/// archive.
#[derive(Clone, Debug)]
pub struct Entry {
    /// The position of the entry in the archive.
    pub idx: usize,
    /// The name of the entry; `None` where the archive gave none.
    pub name: Option<String>,
}

/// The names of a sequence of entries.
pub open spec fn names_of(entries: Seq<Entry>) -> Seq<Option<Seq<char>>> {
    entries.map_values(|e: Entry| name_text(e.name))
}

/// Whether position `i` is visited before position `j`. Without an ordering
/// that is the earlier position. With one it is the position whose name has
/// the smaller key, and the earlier position where the keys tie.
pub open spec fn precedes(
    names: Seq<Option<Seq<char>>>,
    sort: Option<Sort>,
    i: int,
    j: int,
) -> bool {
    match sort {
        None => i < j,
        Some(by) => {
            let a = sort_key(by, names[i]);
            let b = sort_key(by, names[j]);
            key_less(a, b) || (!key_less(b, a) && i < j)
        },
    }
}

/// Whether `order` lists positions of `names`, as many as there are names,
/// each before all that it precedes.
pub open spec fn is_visit_order(
    order: Seq<int>,
    names: Seq<Option<Seq<char>>>,
    sort: Option<Sort>,
) -> bool {
    &&& order.len() == names.len()
    &&& forall|k: int| 0 <= k < order.len() ==> 0 <= #[trigger] order[k] < names.len()
    &&& forall|k1: int, k2: int|
        0 <= k1 < k2 < order.len() ==> precedes(
            names,
            sort,
            #[trigger] order[k1],
            #[trigger] order[k2],
        )
}

/// The order in which the positions of `names` are visited: the one sequence
/// that [`is_visit_order`] accepts (see [`visit_order_exists`] and
/// [`visit_order_unique`]).
pub open spec fn visit_order(names: Seq<Option<Seq<char>>>, sort: Option<Sort>) -> Seq<int> {
    choose|order: Seq<int>| is_visit_order(order, names, sort)
}

/// The items of `items` in the given order of positions.
pub open spec fn rearranged<T>(items: Seq<T>, order: Seq<int>) -> Seq<T> {
    Seq::new(order.len(), |k: int| items[order[k]])
}

/// The positions `0, 1, ..` below `n`, in that order.
pub open spec fn in_turn(n: nat) -> Seq<int> {
    Seq::new(n, |k: int| k)
}

/// No position is visited before itself.
pub proof fn precedes_irreflexive(names: Seq<Option<Seq<char>>>, sort: Option<Sort>, i: int)
    ensures
        !precedes(names, sort, i, i),
{
    if let Some(by) = sort {
        key_irreflexive(sort_key(by, names[i]));
    }
}

/// Being visited before is transitive.
pub proof fn precedes_transitive(
    names: Seq<Option<Seq<char>>>,
    sort: Option<Sort>,
    i: int,
    j: int,
    k: int,
)
    requires
        precedes(names, sort, i, j),
        precedes(names, sort, j, k),
    ensures
        precedes(names, sort, i, k),
{
    if let Some(by) = sort {
        let a = sort_key(by, names[i]);
        let b = sort_key(by, names[j]);
        let c = sort_key(by, names[k]);
        key_tie_transitive(a, b, c);
        if key_less(a, b) && key_less(b, c) {
            key_transitive(a, b, c);
        }
    }
}

/// Of two positions at most one is visited before the other.
pub proof fn precedes_asymmetric(
    names: Seq<Option<Seq<char>>>,
    sort: Option<Sort>,
    i: int,
    j: int,
)
    requires
        precedes(names, sort, i, j),
    ensures
        !precedes(names, sort, j, i),
{
    if precedes(names, sort, j, i) {
        precedes_transitive(names, sort, i, j, i);
        precedes_irreflexive(names, sort, i);
    }
}

/// Of two different positions one is visited before the other.
pub proof fn precedes_total(names: Seq<Option<Seq<char>>>, sort: Option<Sort>, i: int, j: int)
    ensures
        i == j || precedes(names, sort, i, j) || precedes(names, sort, j, i),
{
    if let Some(by) = sort {
        key_total(sort_key(by, names[i]), sort_key(by, names[j]));
    }
}

/// A visiting order lists no position twice.
pub proof fn visit_order_distinct(
    order: Seq<int>,
    names: Seq<Option<Seq<char>>>,
    sort: Option<Sort>,
)
    requires
        is_visit_order(order, names, sort),
    ensures
        order.no_duplicates(),
{
    assert forall|k1: int, k2: int|
        0 <= k1 < order.len() && 0 <= k2 < order.len() && k1 != k2 implies order[k1]
        != order[k2] by {
        if order[k1] == order[k2] {
            precedes_irreflexive(names, sort, order[k1]);
            if k1 < k2 {
                assert(precedes(names, sort, order[k1], order[k2]));
            } else {
                assert(precedes(names, sort, order[k2], order[k1]));
            }
        }
    }
}

/// A visiting order lists every position: each entry is visited, and by
/// [`visit_order_distinct`] only once.
pub proof fn visit_order_complete(
    order: Seq<int>,
    names: Seq<Option<Seq<char>>>,
    sort: Option<Sort>,
)
    requires
        is_visit_order(order, names, sort),
    ensures
        forall|i: int| 0 <= i < names.len() ==> order.contains(i),
{
    let n = names.len() as int;
    visit_order_distinct(order, names, sort);
    order.unique_seq_to_set();
    lemma_int_range(0, n);
    assert(order.to_set().subset_of(set_int_range(0, n))) by {
        assert forall|v: int| order.to_set().contains(v) implies set_int_range(0, n).contains(
            v,
        ) by {
            let k = choose|k: int| 0 <= k < order.len() && order[k] == v;
            assert(0 <= order[k] < names.len());
        }
    }
    vstd::seq_lib::seq_to_set_is_finite(order);
    lemma_subset_equality(order.to_set(), set_int_range(0, n));
    assert forall|i: int| 0 <= i < names.len() implies order.contains(i) by {
        assert(set_int_range(0, n).contains(i));
        assert(order.to_set().contains(i));
    }
}

proof fn orders_agree(
    p: Seq<int>,
    q: Seq<int>,
    names: Seq<Option<Seq<char>>>,
    sort: Option<Sort>,
    k: int,
)
    requires
        is_visit_order(p, names, sort),
        is_visit_order(q, names, sort),
        0 <= k <= names.len(),
    ensures
        forall|j: int| 0 <= j < k ==> p[j] == q[j],
    decreases k,
{
    if k > 0 {
        let at = k - 1;
        orders_agree(p, q, names, sort, at);
        visit_order_distinct(p, names, sort);
        visit_order_distinct(q, names, sort);
        visit_order_complete(p, names, sort);
        visit_order_complete(q, names, sort);
        let x = p[at];
        let y = q[at];
        assert(0 <= x < names.len());
        assert(0 <= y < names.len());
        assert(q.contains(x));
        assert(p.contains(y));
        let m = choose|m: int| 0 <= m < q.len() && q[m] == x;
        let w = choose|w: int| 0 <= w < p.len() && p[w] == y;
        if m < at {
            assert(p[m] == q[m]);
            assert(p[m] == p[at]);
        }
        if w < at {
            assert(q[w] == p[w]);
            assert(q[w] == q[at]);
        }
        if m > at && w > at {
            assert(precedes(names, sort, q[at], q[m]));
            assert(precedes(names, sort, p[at], p[w]));
            precedes_asymmetric(names, sort, x, y);
        }
        assert(p[at] == q[at]);
    }
}

/// There is only one visiting order: the same names under the same ordering
/// are always visited in the same order.
pub proof fn visit_order_unique(
    p: Seq<int>,
    q: Seq<int>,
    names: Seq<Option<Seq<char>>>,
    sort: Option<Sort>,
)
    requires
        is_visit_order(p, names, sort),
        is_visit_order(q, names, sort),
    ensures
        p == q,
{
    orders_agree(p, q, names, sort, names.len() as int);
    assert(p =~= q);
}

/// Where `new` goes into `order`: the first place from `from` on that holds
/// a position which `new` precedes, or the end.
spec fn insert_place(
    order: Seq<int>,
    names: Seq<Option<Seq<char>>>,
    sort: Option<Sort>,
    new: int,
    from: int,
) -> int
    decreases order.len() - from,
{
    if from < 0 || from >= order.len() {
        order.len() as int
    } else if precedes(names, sort, new, order[from]) {
        from
    } else {
        insert_place(order, names, sort, new, from + 1)
    }
}

proof fn insert_place_splits(
    order: Seq<int>,
    names: Seq<Option<Seq<char>>>,
    sort: Option<Sort>,
    new: int,
    from: int,
)
    requires
        0 <= from <= order.len(),
    ensures
        from <= insert_place(order, names, sort, new, from) <= order.len(),
        forall|k: int|
            from <= k < insert_place(order, names, sort, new, from) ==> !precedes(
                names,
                sort,
                new,
                #[trigger] order[k],
            ),
        insert_place(order, names, sort, new, from) < order.len() ==> precedes(
            names,
            sort,
            new,
            order[insert_place(order, names, sort, new, from)],
        ),
    decreases order.len() - from,
{
    if from < order.len() && !precedes(names, sort, new, order[from]) {
        insert_place_splits(order, names, sort, new, from + 1);
    }
}

/// The order in which the first `n` positions are visited, built by putting
/// one position after the other in its place.
spec fn built_order(names: Seq<Option<Seq<char>>>, sort: Option<Sort>, n: nat) -> Seq<int>
    decreases n,
{
    if n == 0 {
        Seq::empty()
    } else {
        let rest = built_order(names, sort, (n - 1) as nat);
        let at = insert_place(rest, names, sort, n - 1, 0);
        Seq::new(
            n,
            |k: int|
                if k < at {
                    rest[k]
                } else if k == at {
                    n - 1
                } else {
                    rest[k - 1]
                },
        )
    }
}

/// Whether `order` lists `n` positions below `n`, each before all that it
/// precedes.
spec fn orders_first(
    order: Seq<int>,
    names: Seq<Option<Seq<char>>>,
    sort: Option<Sort>,
    n: nat,
) -> bool {
    &&& order.len() == n
    &&& forall|k: int| 0 <= k < order.len() ==> 0 <= #[trigger] order[k] < n
    &&& forall|k1: int, k2: int|
        0 <= k1 < k2 < order.len() ==> precedes(
            names,
            sort,
            #[trigger] order[k1],
            #[trigger] order[k2],
        )
}

proof fn built_order_is_ordered(names: Seq<Option<Seq<char>>>, sort: Option<Sort>, n: nat)
    ensures
        orders_first(built_order(names, sort, n), names, sort, n),
    decreases n,
{
    if n > 0 {
        let rest = built_order(names, sort, (n - 1) as nat);
        let new = n - 1;
        let at = insert_place(rest, names, sort, new, 0);
        let out = built_order(names, sort, n);
        built_order_is_ordered(names, sort, (n - 1) as nat);
        insert_place_splits(rest, names, sort, new, 0);
        assert forall|k1: int, k2: int| 0 <= k1 < k2 < out.len() implies precedes(
            names,
            sort,
            #[trigger] out[k1],
            #[trigger] out[k2],
        ) by {
            if k2 < at {
                assert(precedes(names, sort, rest[k1], rest[k2]));
            } else if k2 == at {
                assert(0 <= rest[k1] < n - 1);
                precedes_total(names, sort, rest[k1], new);
            } else if k1 < at {
                assert(precedes(names, sort, rest[k1], rest[k2 - 1]));
            } else if k1 == at {
                if k2 - 1 > at {
                    assert(precedes(names, sort, rest[at], rest[k2 - 1]));
                    precedes_transitive(names, sort, new, rest[at], rest[k2 - 1]);
                }
            } else {
                assert(precedes(names, sort, rest[k1 - 1], rest[k2 - 1]));
            }
        }
        assert forall|k: int| 0 <= k < out.len() implies 0 <= #[trigger] out[k] < n by {
            if k < at {
                assert(0 <= rest[k] < n - 1);
            } else if k > at {
                assert(0 <= rest[k - 1] < n - 1);
            }
        }
    }
}

/// Every sequence of names has a visiting order, under every ordering.
pub proof fn visit_order_exists(names: Seq<Option<Seq<char>>>, sort: Option<Sort>)
    ensures
        is_visit_order(visit_order(names, sort), names, sort),
{
    built_order_is_ordered(names, sort, names.len());
    assert(is_visit_order(built_order(names, sort, names.len()), names, sort));
}

/// The visiting order lists every position exactly once: `order[k]` is the
/// position visited at step `k`, and `step` is the one step at which
/// position `i` is visited.
pub proof fn visit_order_is_permutation(names: Seq<Option<Seq<char>>>, sort: Option<Sort>)
    ensures
        visit_order(names, sort).len() == names.len(),
        visit_order(names, sort).no_duplicates(),
        forall|i: int| 0 <= i < names.len() ==> visit_order(names, sort).contains(i),
        forall|k: int|
            0 <= k < names.len() ==> 0 <= #[trigger] visit_order(names, sort)[k] < names.len(),
{
    visit_order_exists(names, sort);
    visit_order_distinct(visit_order(names, sort), names, sort);
    visit_order_complete(visit_order(names, sort), names, sort);
}

/// Without an ordering the entries are visited as the archive lists them.
pub proof fn unsorted_visit_order(names: Seq<Option<Seq<char>>>)
    ensures
        visit_order(names, None) == in_turn(names.len()),
{
    assert(is_visit_order(in_turn(names.len()), names, None));
    visit_order_unique(in_turn(names.len()), visit_order(names, None), names, None);
}

/// Under an ordering the keys never fall along the visit, and where two keys
/// tie the entry that the archive lists first is visited first.
pub proof fn sorted_visit_order(names: Seq<Option<Seq<char>>>, by: Sort, k1: int, k2: int)
    requires
        0 <= k1 < k2 < names.len(),
    ensures
        ({
            let order = visit_order(names, Some(by));
            let a = sort_key(by, names[order[k1]]);
            let b = sort_key(by, names[order[k2]]);
            !key_less(b, a) && (key_less(a, b) || order[k1] < order[k2])
        }),
{
    visit_order_exists(names, Some(by));
    let order = visit_order(names, Some(by));
    assert(precedes(names, Some(by), order[k1], order[k2]));
    let a = sort_key(by, names[order[k1]]);
    let b = sort_key(by, names[order[k2]]);
    if key_less(a, b) {
        key_asymmetric(a, b);
    }
}

/// Under an ordering every entry without a name is visited before every
/// entry that has one.
pub proof fn absent_names_first(names: Seq<Option<Seq<char>>>, by: Sort, k1: int, k2: int)
    requires
        0 <= k1 < k2 < names.len(),
        names[visit_order(names, Some(by))[k2]] is None,
    ensures
        names[visit_order(names, Some(by))[k1]] is None,
{
    sorted_visit_order(names, by, k1, k2);
}

/// Names whose keys never fall are visited as they stand.
pub proof fn ordered_names_stay(names: Seq<Option<Seq<char>>>, by: Sort)
    requires
        forall|i: int, j: int|
            0 <= i < j < names.len() ==> !key_less(
                sort_key(by, #[trigger] names[j]),
                sort_key(by, #[trigger] names[i]),
            ),
    ensures
        visit_order(names, Some(by)) == in_turn(names.len()),
{
    let same = in_turn(names.len());
    assert(is_visit_order(same, names, Some(by)));
    visit_order_exists(names, Some(by));
    visit_order_unique(same, visit_order(names, Some(by)), names, Some(by));
}

/// Ordering what is ordered changes nothing: the names in visiting order are
/// themselves visited as they stand.
pub proof fn ordering_again_changes_nothing(names: Seq<Option<Seq<char>>>, by: Sort)
    ensures
        visit_order(rearranged(names, visit_order(names, Some(by))), Some(by)) == in_turn(
            names.len(),
        ),
{
    let order = visit_order(names, Some(by));
    let ordered = rearranged(names, order);
    visit_order_exists(names, Some(by));
    assert forall|i: int, j: int| 0 <= i < j < ordered.len() implies !key_less(
        sort_key(by, #[trigger] ordered[j]),
        sort_key(by, #[trigger] ordered[i]),
    ) by {
        sorted_visit_order(names, by, i, j);
    }
    ordered_names_stay(ordered, by);
}

/// Whether `run` holds the entries of `all` at the positions `at`, which lie
/// between `lo` and `hi` and stand in visiting order.
spec fn is_run(
    run: Seq<Entry>,
    at: Seq<int>,
    all: Seq<Entry>,
    by: Sort,
    lo: int,
    hi: int,
) -> bool {
    &&& run.len() == at.len()
    &&& forall|k: int|
        0 <= k < at.len() ==> lo <= #[trigger] at[k] < hi && run[k] == all[at[k]]
    &&& forall|k1: int, k2: int|
        0 <= k1 < k2 < at.len() ==> precedes(
            names_of(all),
            Some(by),
            #[trigger] at[k1],
            #[trigger] at[k2],
        )
}

/// Whether `rev` holds the entries of `all` at the positions `at`, which lie
/// between `lo` and `hi` and stand in the reverse of visiting order.
spec fn is_reversed_run(
    rev: Seq<Entry>,
    at: Seq<int>,
    all: Seq<Entry>,
    by: Sort,
    lo: int,
    hi: int,
) -> bool {
    &&& rev.len() == at.len()
    &&& forall|k: int|
        0 <= k < at.len() ==> lo <= #[trigger] at[k] < hi && rev[k] == all[at[k]]
    &&& forall|k1: int, k2: int|
        0 <= k1 < k2 < at.len() ==> precedes(
            names_of(all),
            Some(by),
            #[trigger] at[k2],
            #[trigger] at[k1],
        )
}

/// Whether every position of `early` is visited before every position of
/// `late`.
spec fn all_before(early: Seq<int>, late: Seq<int>, all: Seq<Entry>, by: Sort) -> bool {
    forall|i: int, k: int|
        0 <= i < early.len() && 0 <= k < late.len() ==> precedes(
            names_of(all),
            Some(by),
            #[trigger] early[i],
            #[trigger] late[k],
        )
}

/// Merges two runs that lie side by side into one. Where keys tie, the
/// entries of the left run come first.
fn merge(
    left: Vec<Entry>,
    right: Vec<Entry>,
    by: Sort,
    Ghost(all): Ghost<Seq<Entry>>,
    Ghost(left_at): Ghost<Seq<int>>,
    Ghost(right_at): Ghost<Seq<int>>,
    Ghost(lo): Ghost<int>,
    Ghost(mid): Ghost<int>,
    Ghost(hi): Ghost<int>,
) -> (out: (Vec<Entry>, Ghost<Seq<int>>))
    requires
        0 <= lo <= mid <= hi <= all.len(),
        is_run(left@, left_at, all, by, lo, mid),
        is_run(right@, right_at, all, by, mid, hi),
    ensures
        is_run(out.0@, out.1@, all, by, lo, hi),
        out.0@.len() == left@.len() + right@.len(),
{
    let ghost names = names_of(all);
    let ghost total = left@.len() + right@.len();
    let mut left = left;
    let mut right = right;
    let ghost mut la = left_at;
    let ghost mut ra = right_at;
    // The largest entry that is left goes to `rev` first.
    let mut rev: Vec<Entry> = Vec::new();
    let ghost mut rev_at: Seq<int> = Seq::empty();
    while left.len() > 0 || right.len() > 0
        invariant
            0 <= lo <= mid <= hi <= all.len(),
            names == names_of(all),
            is_run(left@, la, all, by, lo, mid),
            is_run(right@, ra, all, by, mid, hi),
            is_reversed_run(rev@, rev_at, all, by, lo, hi),
            all_before(la, rev_at, all, by),
            all_before(ra, rev_at, all, by),
            left@.len() + right@.len() + rev@.len() == total,
        decreases left@.len() + right@.len(),
    {
        let from_left = if right.len() == 0 {
            true
        } else if left.len() == 0 {
            false
        } else {
            let l = &left[left.len() - 1];
            let r = &right[right.len() - 1];
            proof {
                assert(l == all[la[la.len() - 1]]);
                assert(r == all[ra[ra.len() - 1]]);
                assert(names[la[la.len() - 1]] == name_text(l.name));
                assert(names[ra[ra.len() - 1]] == name_text(r.name));
            }
            name_less(by, &r.name, &l.name)
        };
        if from_left {
            let ghost x = la[la.len() - 1];
            let ghost la_rest = la.drop_last();
            proof {
                assert forall|i: int| 0 <= i < la_rest.len() implies precedes(
                    names,
                    Some(by),
                    #[trigger] la_rest[i],
                    x,
                ) by {
                    assert(la_rest[i] == la[i]);
                    assert(precedes(names, Some(by), la[i], la[la.len() - 1]));
                }
                assert forall|j: int| 0 <= j < ra.len() implies precedes(
                    names,
                    Some(by),
                    #[trigger] ra[j],
                    x,
                ) by {
                    let y = ra[ra.len() - 1];
                    assert(precedes(names, Some(by), y, x));
                    if j < ra.len() - 1 {
                        assert(precedes(names, Some(by), ra[j], ra[ra.len() - 1]));
                        precedes_transitive(names, Some(by), ra[j], y, x);
                    }
                }
                assert forall|k: int| 0 <= k < rev_at.len() implies precedes(
                    names,
                    Some(by),
                    x,
                    #[trigger] rev_at[k],
                ) by {
                    assert(precedes(names, Some(by), la[la.len() - 1], rev_at[k]));
                }
            }
            let e = left.pop().unwrap();
            rev.push(e);
            proof {
                la = la_rest;
                rev_at = rev_at.push(x);
            }
        } else {
            let ghost y = ra[ra.len() - 1];
            let ghost ra_rest = ra.drop_last();
            proof {
                assert forall|j: int| 0 <= j < ra_rest.len() implies precedes(
                    names,
                    Some(by),
                    #[trigger] ra_rest[j],
                    y,
                ) by {
                    assert(ra_rest[j] == ra[j]);
                    assert(precedes(names, Some(by), ra[j], ra[ra.len() - 1]));
                }
                assert forall|i: int| 0 <= i < la.len() implies precedes(
                    names,
                    Some(by),
                    #[trigger] la[i],
                    y,
                ) by {
                    let x = la[la.len() - 1];
                    assert(lo <= x < mid);
                    assert(mid <= y < hi);
                    assert(precedes(names, Some(by), x, y));
                    if i < la.len() - 1 {
                        assert(precedes(names, Some(by), la[i], la[la.len() - 1]));
                        precedes_transitive(names, Some(by), la[i], x, y);
                    }
                }
                assert forall|k: int| 0 <= k < rev_at.len() implies precedes(
                    names,
                    Some(by),
                    y,
                    #[trigger] rev_at[k],
                ) by {
                    assert(precedes(names, Some(by), ra[ra.len() - 1], rev_at[k]));
                }
            }
            let e = right.pop().unwrap();
            rev.push(e);
            proof {
                ra = ra_rest;
                rev_at = rev_at.push(y);
            }
        }
    }
    // Turn `rev` round.
    let mut out: Vec<Entry> = Vec::new();
    let ghost mut out_at: Seq<int> = Seq::empty();
    while rev.len() > 0
        invariant
            names == names_of(all),
            is_reversed_run(rev@, rev_at, all, by, lo, hi),
            is_run(out@, out_at, all, by, lo, hi),
            all_before(out_at, rev_at, all, by),
            rev@.len() + out@.len() == total,
        decreases rev@.len(),
    {
        let ghost x = rev_at[rev_at.len() - 1];
        let ghost rest = rev_at.drop_last();
        proof {
            assert forall|k: int| 0 <= k < rest.len() implies precedes(
                names,
                Some(by),
                x,
                #[trigger] rest[k],
            ) by {
                assert(rest[k] == rev_at[k]);
                assert(precedes(names, Some(by), rev_at[rev_at.len() - 1], rev_at[k]));
            }
            assert forall|m: int| 0 <= m < out_at.len() implies precedes(
                names,
                Some(by),
                #[trigger] out_at[m],
                x,
            ) by {
                assert(precedes(names, Some(by), out_at[m], rev_at[rev_at.len() - 1]));
            }
        }
        let e = rev.pop().unwrap();
        out.push(e);
        proof {
            rev_at = rest;
            out_at = out_at.push(x);
        }
    }
    (out, Ghost(out_at))
}

/// Sorts the entries that `all` holds from position `lo` on: splits them in
/// two halves, sorts each, and merges them.
fn sort_run(
    run: Vec<Entry>,
    by: Sort,
    Ghost(all): Ghost<Seq<Entry>>,
    Ghost(lo): Ghost<int>,
) -> (out: (Vec<Entry>, Ghost<Seq<int>>))
    requires
        0 <= lo,
        lo + run@.len() <= all.len(),
        run@ == all.subrange(lo, lo + run@.len()),
    ensures
        is_run(out.0@, out.1@, all, by, lo, lo + run@.len()),
        out.0@.len() == run@.len(),
    decreases run@.len(),
{
    let len: usize = run.len();
    if len <= 1 {
        let ghost at = Seq::new(len as nat, |k: int| lo + k);
        return (run, Ghost(at));
    }
    let mut left = run;
    let half: usize = len / 2;
    let right = left.split_off(half);
    proof {
        assert(left@ =~= all.subrange(lo, lo + half));
        assert(right@ =~= all.subrange(lo + half, lo + len));
    }
    let (left, Ghost(left_at)) = sort_run(left, by, Ghost(all), Ghost(lo));
    let (right, Ghost(right_at)) = sort_run(right, by, Ghost(all), Ghost(lo + half));
    merge(
        left,
        right,
        by,
        Ghost(all),
        Ghost(left_at),
        Ghost(right_at),
        Ghost(lo),
        Ghost(lo + half),
        Ghost(lo + len),
    )
}

/// Puts the entries in visiting order. Without an ordering they stay as they
/// are. With one they are sorted by the key of their names, and entries whose
/// keys tie keep their order.
pub fn sort_entries(items: &mut Vec<Entry>, sort: Option<Sort>)
    ensures
        final(items)@ == rearranged(old(items)@, visit_order(names_of(old(items)@), sort)),
{
    let ghost all = items@;
    let ghost names = names_of(all);
    match sort {
        None => {
            proof {
                let same = in_turn(all.len());
                assert(is_visit_order(same, names, sort));
                visit_order_unique(same, visit_order(names, sort), names, sort);
                assert(all =~= rearranged(all, same));
            }
        },
        Some(by) => {
            let mut taken: Vec<Entry> = Vec::new();
            std::mem::swap(items, &mut taken);
            proof {
                assert(taken@ =~= all.subrange(0, all.len() as int));
            }
            let (sorted, Ghost(at)) = sort_run(taken, by, Ghost(all), Ghost(0));
            proof {
                assert(is_visit_order(at, names, sort));
                visit_order_unique(at, visit_order(names, sort), names, sort);
                assert(sorted@ =~= rearranged(all, at));
            }
            *items = sorted;
        },
    }
}

} // verus!
