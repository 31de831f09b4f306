//! Exact-value indexes: for each value of one attribute, the ascending list of
//! the catalog positions that hold it.

use vstd::prelude::*;
use vstd::hash_map::StringHashMap;

verus! {

/// Each position is smaller than the next.
pub open spec fn ascending(positions: Seq<usize>) -> bool {
    forall|a: int, b: int| 0 <= a < b < positions.len() ==> positions[a] < positions[b]
}

/// `positions` holds, in ascending order, exactly the positions of `column`
/// at which `value` stands.
pub open spec fn lists_value(
    positions: Seq<usize>,
    column: Seq<Seq<char>>,
    value: Seq<char>,
) -> bool {
    &&& ascending(positions)
    &&& forall|a: int|
        0 <= a < positions.len() ==> (#[trigger] positions[a]) < column.len()
            && column[positions[a] as int] == value
    &&& forall|i: int|
        0 <= i < column.len() && #[trigger] column[i] == value ==> exists|a: int|
            0 <= a < positions.len() && #[trigger] positions[a] == i
}

/// `index` is the index of `column`: its keys are the values that occur in the
/// column, and each key leads to the non-empty list of that value's positions.
pub open spec fn indexes(index: Map<Seq<char>, Vec<usize>>, column: Seq<Seq<char>>) -> bool {
    &&& forall|i: int| 0 <= i < column.len() ==> index.contains_key(#[trigger] column[i])
    &&& forall|value: Seq<char>| #[trigger]
        index.contains_key(value) ==> index[value]@.len() > 0 && lists_value(
            index[value]@,
            column,
            value,
        )
}

/// `after` is `before` with `position` appended to the list under `value`,
/// which is created if it was missing; every other entry is untouched.
pub open spec fn records_position(
    before: Map<Seq<char>, Vec<usize>>,
    after: Map<Seq<char>, Vec<usize>>,
    value: Seq<char>,
    position: usize,
) -> bool {
    &&& after.dom() == before.dom().insert(value)
    &&& after[value]@ == if before.contains_key(value) {
        before[value]@.push(position)
    } else {
        seq![position]
    }
    &&& forall|other: Seq<char>|
        other != value && #[trigger] before.contains_key(other) ==> after[other] == before[other]
}

/// Recording the next position of a column under the value found there turns
/// the index of the column's first `i` entries into that of its first `i + 1`.
pub proof fn lemma_index_grows(
    before: Map<Seq<char>, Vec<usize>>,
    after: Map<Seq<char>, Vec<usize>>,
    column: Seq<Seq<char>>,
    i: usize,
)
    requires
        i < column.len(),
        indexes(before, column.take(i as int)),
        records_position(before, after, column[i as int], i),
    ensures
        indexes(after, column.take(i + 1)),
{
    let shorter = column.take(i as int);
    let longer = column.take(i + 1);
    let here = column[i as int];
    assert forall|j: int| 0 <= j < longer.len() implies after.contains_key(
        #[trigger] longer[j],
    ) by {
        if j < i {
            assert(before.contains_key(shorter[j]));
        }
    }
    assert forall|value: Seq<char>| #[trigger] after.contains_key(value) implies after[value]@.len()
        > 0 && lists_value(after[value]@, longer, value) by {
        let list = after[value]@;
        if value == here {
            if before.contains_key(value) {
                let prior = before[value]@;
                assert(lists_value(prior, shorter, value));
                assert forall|a: int, b: int| 0 <= a < b < list.len() implies list[a]
                    < list[b] by {
                    if b < prior.len() {
                        assert(prior[a] < prior[b]);
                    } else {
                        assert(prior[a] < shorter.len());
                    }
                }
                assert forall|a: int| 0 <= a < list.len() implies (#[trigger] list[a])
                    < longer.len() && longer[list[a] as int] == value by {
                    if a < prior.len() {
                        assert(prior[a] < shorter.len());
                        assert(shorter[prior[a] as int] == value);
                    }
                }
                assert forall|j: int| 0 <= j < longer.len() && #[trigger] longer[j]
                    == value implies exists|a: int|
                    0 <= a < list.len() && #[trigger] list[a] == j by {
                    if j < i {
                        assert(shorter[j] == value);
                        let a = choose|a: int| 0 <= a < prior.len() && #[trigger] prior[a] == j;
                        assert(list[a] == j);
                    } else {
                        assert(list[prior.len() as int] == j);
                    }
                }
            } else {
                assert forall|j: int| 0 <= j < longer.len() && #[trigger] longer[j]
                    == value implies exists|a: int|
                    0 <= a < list.len() && #[trigger] list[a] == j by {
                    if j < i {
                        assert(before.contains_key(shorter[j]));
                    } else {
                        assert(list[0] == j);
                    }
                }
            }
        } else {
            assert(before.contains_key(value));
            assert(lists_value(list, shorter, value));
            assert forall|a: int| 0 <= a < list.len() implies (#[trigger] list[a]) < longer.len()
                && longer[list[a] as int] == value by {
                assert(shorter[list[a] as int] == value);
            }
            assert forall|j: int| 0 <= j < longer.len() && #[trigger] longer[j]
                == value implies exists|a: int| 0 <= a < list.len() && #[trigger] list[a] == j by {
                assert(shorter[j] == value);
            }
        }
    }
}

/// Appends `position` to the list that `index` keeps under `value`, starting
/// a new list where the value was not seen before. The map lends out no
/// mutable entry, so the lengthened list is written back as a new value.
pub fn add_position(index: &mut StringHashMap<Vec<usize>>, value: &String, position: usize)
    ensures
        records_position(old(index)@, final(index)@, value@, position),
{
    let mut list: Vec<usize> = match index.get(value.as_str()) {
        Some(known) => known.clone(),
        None => Vec::new(),
    };
    list.push(position);
    index.insert(value.clone(), list);
    assert(final(index)@.dom() =~= old(index)@.dom().insert(value@));
}

/// Whether `x` is one of the positions in `list`.
pub fn has_position(list: &Vec<usize>, x: usize) -> (r: bool)
    ensures
        r == list@.contains(x),
{
    let mut k: usize = 0;
    while k < list.len()
        invariant
            k <= list.len(),
            forall|t: int| 0 <= t < k ==> list[t] != x,
        decreases list.len() - k,
    {
        if list[k] == x {
            return true;
        }
        k += 1;
    }
    false
}

/// Membership in `list`, as a predicate on positions.
pub open spec fn among(list: Seq<usize>) -> spec_fn(usize) -> bool {
    |x: usize| list.contains(x)
}

/// Filtering an ascending list leaves an ascending list, which holds exactly
/// the elements of the first that pass.
pub proof fn lemma_filter_ascending(list: Seq<usize>, keep: spec_fn(usize) -> bool)
    requires
        ascending(list),
    ensures
        ascending(list.filter(keep)),
        forall|x: usize| #[trigger]
            list.filter(keep).contains(x) <==> list.contains(x) && keep(x),
    decreases list.len(),
{
    reveal(Seq::filter);
    if list.len() > 0 {
        let rest = list.drop_last();
        let last = list.last();
        let kept = rest.filter(keep);
        let out = list.filter(keep);
        lemma_filter_ascending(rest, keep);
        assert forall|x: usize| rest.contains(x) implies list.contains(x) && x < last by {
            let w = choose|w: int| 0 <= w < rest.len() && rest[w] == x;
            assert(list[w] == x);
            assert(list[w] < list[list.len() - 1]);
        }
        assert forall|x: usize| list.contains(x) implies rest.contains(x) || x == last by {
            let w = choose|w: int| 0 <= w < list.len() && list[w] == x;
            if w < rest.len() {
                assert(rest[w] == x);
            }
        }
        assert(list[list.len() - 1] == last);
        if keep(last) {
            assert(out == kept.push(last));
            assert forall|a: int, b: int| 0 <= a < b < out.len() implies out[a] < out[b] by {
                if b < kept.len() {
                    assert(kept[a] < kept[b]);
                } else {
                    let x = kept[a];
                    assert(kept.contains(x));
                    assert(rest.contains(x));
                    assert(out[a] == x && out[b] == last);
                }
            }
            assert forall|x: usize| out.contains(x) <==> list.contains(x) && keep(x) by {
                if out.contains(x) {
                    let w = choose|w: int| 0 <= w < out.len() && out[w] == x;
                    if w < kept.len() {
                        assert(kept.contains(kept[w]));
                    }
                }
                if list.contains(x) && keep(x) {
                    if x == last {
                        assert(out[kept.len() as int] == x);
                    } else {
                        assert(kept.contains(x));
                        let w = choose|w: int| 0 <= w < kept.len() && kept[w] == x;
                        assert(out[w] == x);
                    }
                }
            }
        } else {
            assert(out == kept);
        }
    }
}

/// The positions of `left` that also stand in `right`, in the order of
/// `left`.
pub fn intersect(left: &Vec<usize>, right: &Vec<usize>) -> (both: Vec<usize>)
    ensures
        both@ == left@.filter(among(right@)),
{
    let mut both: Vec<usize> = Vec::new();
    let mut k: usize = 0;
    proof {
        reveal(Seq::filter);
        assert(both@ =~= left@.take(0).filter(among(right@)));
    }
    while k < left.len()
        invariant
            k <= left.len(),
            both@ == left@.take(k as int).filter(among(right@)),
        decreases left.len() - k,
    {
        let x: usize = left[k];
        proof {
            reveal(Seq::filter);
            assert(left@.take(k + 1).drop_last() == left@.take(k as int));
            assert(left@.take(k + 1).last() == x);
        }
        if has_position(right, x) {
            both.push(x);
        }
        k += 1;
    }
    assert(left@.take(k as int) == left@);
    both
}

} // verus!
