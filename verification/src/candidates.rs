//! Candidate lists: ascending lists of catalog positions, and what they hold
//! after each step of a search through the indexes.

use vstd::prelude::*;
use crate::index::{among, ascending, lemma_filter_ascending, lists_value};
use crate::product::{brands, categories, Record};
use crate::query::{absent, criteria, satisfies};
use crate::text::{is_substring, occurs_at};

verus! {

/// `positions` holds, in ascending order, exactly the catalog positions whose
/// record satisfies the criteria.
pub open spec fn lists_matches(
    positions: Seq<usize>,
    catalog: Seq<Record>,
    name: Seq<char>,
    category: Seq<char>,
    brand: Seq<char>,
) -> bool {
    &&& ascending(positions)
    &&& forall|a: int|
        0 <= a < positions.len() ==> (#[trigger] positions[a]) < catalog.len() && satisfies(
            catalog[positions[a] as int],
            name,
            category,
            brand,
        )
    &&& forall|i: int|
        0 <= i < catalog.len() && satisfies(#[trigger] catalog[i], name, category, brand)
            ==> exists|a: int| 0 <= a < positions.len() && #[trigger] positions[a] == i
}

/// The records found at the given positions, in the order of the positions.
pub open spec fn select(catalog: Seq<Record>, positions: Seq<usize>) -> Seq<Record> {
    Seq::new(positions.len(), |a: int| catalog[positions[a] as int])
}

/// Reading the catalog at the ascending list of all satisfying positions gives
/// what filtering the catalog gives.
pub proof fn lemma_select_is_filter(
    positions: Seq<usize>,
    catalog: Seq<Record>,
    name: Seq<char>,
    category: Seq<char>,
    brand: Seq<char>,
)
    requires
        lists_matches(positions, catalog, name, category, brand),
    ensures
        select(catalog, positions) == catalog.filter(criteria(name, category, brand)),
    decreases catalog.len(),
{
    reveal(Seq::filter);
    let p = criteria(name, category, brand);
    if catalog.len() == 0 {
        assert(positions.len() == 0) by {
            if positions.len() > 0 {
                assert(positions[0] < catalog.len());
            }
        }
        assert(select(catalog, positions) =~= catalog.filter(p));
    } else {
        let rest = catalog.drop_last();
        let last = catalog.len() - 1;
        if p(catalog.last()) {
            assert(catalog[last] == catalog.last());
            let a = choose|a: int| 0 <= a < positions.len() && #[trigger] positions[a] == last;
            assert(a == positions.len() - 1) by {
                if a < positions.len() - 1 {
                    assert(positions[a] < positions[positions.len() - 1]);
                }
            }
            let front = positions.drop_last();
            assert(lists_matches(front, rest, name, category, brand)) by {
                assert forall|b: int| 0 <= b < front.len() implies (#[trigger] front[b])
                    < rest.len() && satisfies(rest[front[b] as int], name, category, brand) by {
                    assert(positions[b] < positions[a]);
                }
                assert forall|i: int|
                    0 <= i < rest.len() && satisfies(
                        #[trigger] rest[i],
                        name,
                        category,
                        brand,
                    ) implies exists|b: int| 0 <= b < front.len() && #[trigger] front[b] == i by {
                    assert(satisfies(catalog[i], name, category, brand));
                    let b = choose|b: int| 0 <= b < positions.len() && #[trigger] positions[b] == i;
                    assert(front[b] == i);
                }
            }
            lemma_select_is_filter(front, rest, name, category, brand);
            assert(select(catalog, positions) =~= select(rest, front).push(catalog.last()));
        } else {
            assert(lists_matches(positions, rest, name, category, brand)) by {
                assert forall|b: int| 0 <= b < positions.len() implies (#[trigger] positions[b])
                    < rest.len() && satisfies(rest[positions[b] as int], name, category, brand) by {
                    assert(satisfies(catalog[positions[b] as int], name, category, brand));
                }
                assert forall|i: int|
                    0 <= i < rest.len() && satisfies(
                        #[trigger] rest[i],
                        name,
                        category,
                        brand,
                    ) implies exists|b: int|
                    0 <= b < positions.len() && #[trigger] positions[b] == i by {
                    assert(satisfies(catalog[i], name, category, brand));
                }
            }
            lemma_select_is_filter(positions, rest, name, category, brand);
            assert(select(catalog, positions) =~= select(rest, positions));
        }
    }
}

/// Whether the record at a position has `name` somewhere in its name.
pub open spec fn named(catalog: Seq<Record>, name: Seq<char>) -> spec_fn(usize) -> bool {
    |x: usize| x < catalog.len() && is_substring(name, catalog[x as int].name)
}

/// The list that the category index keeps under a category holds the
/// matches of a query for that category alone.
pub proof fn lemma_category_list_matches(
    listed: Seq<usize>,
    catalog: Seq<Record>,
    category: Seq<char>,
)
    requires
        !absent(category),
        lists_value(listed, categories(catalog), category),
    ensures
        lists_matches(listed, catalog, Seq::empty(), category, Seq::empty()),
{
    assert forall|i: int|
        0 <= i < catalog.len() && satisfies(
            #[trigger] catalog[i],
            Seq::empty(),
            category,
            Seq::empty(),
        ) implies exists|a: int| 0 <= a < listed.len() && #[trigger] listed[a] == i by {
        assert(categories(catalog)[i] == category);
    }
}

/// The list that the brand index keeps under a brand holds the matches of a
/// query for that brand alone.
pub proof fn lemma_brand_list_matches(listed: Seq<usize>, catalog: Seq<Record>, brand: Seq<char>)
    requires
        !absent(brand),
        lists_value(listed, brands(catalog), brand),
    ensures
        lists_matches(listed, catalog, Seq::empty(), Seq::empty(), brand),
{
    assert forall|i: int|
        0 <= i < catalog.len() && satisfies(
            #[trigger] catalog[i],
            Seq::empty(),
            Seq::empty(),
            brand,
        ) implies exists|a: int| 0 <= a < listed.len() && #[trigger] listed[a] == i by {
        assert(brands(catalog)[i] == brand);
    }
}

/// Every position of the catalog, in ascending order, holds the matches of a
/// query that asks for nothing.
pub proof fn lemma_all_positions_match(all: Seq<usize>, catalog: Seq<Record>)
    requires
        all.len() == catalog.len(),
        forall|i: int| 0 <= i < all.len() ==> all[i] == i,
    ensures
        lists_matches(all, catalog, Seq::empty(), Seq::empty(), Seq::empty()),
{
    assert forall|i: int|
        0 <= i < catalog.len() && satisfies(
            #[trigger] catalog[i],
            Seq::empty(),
            Seq::empty(),
            Seq::empty(),
        ) implies exists|a: int| 0 <= a < all.len() && #[trigger] all[a] == i by {
        assert(all[i] == i);
    }
}

/// Narrowing the candidates for a category, or for none, to the list that
/// the brand index keeps under a brand leaves the matches for both.
pub proof fn lemma_narrowed_by_brand(
    kept: Seq<usize>,
    listed: Seq<usize>,
    catalog: Seq<Record>,
    category: Seq<char>,
    brand: Seq<char>,
)
    requires
        lists_matches(kept, catalog, Seq::empty(), category, Seq::empty()),
        !absent(brand),
        lists_value(listed, brands(catalog), brand),
    ensures
        lists_matches(kept.filter(among(listed)), catalog, Seq::empty(), category, brand),
{
    let none = Seq::<char>::empty();
    let narrowed = kept.filter(among(listed));
    lemma_filter_ascending(kept, among(listed));
    assert forall|a: int| 0 <= a < narrowed.len() implies (#[trigger] narrowed[a]) < catalog.len()
        && satisfies(catalog[narrowed[a] as int], none, category, brand) by {
        let x = narrowed[a];
        assert(narrowed.contains(x));
        let w = choose|w: int| 0 <= w < listed.len() && listed[w] == x;
        assert(brands(catalog)[listed[w] as int] == brand);
        let v = choose|v: int| 0 <= v < kept.len() && kept[v] == x;
        assert(satisfies(catalog[kept[v] as int], none, category, none));
    }
    assert forall|i: int|
        0 <= i < catalog.len() && satisfies(
            #[trigger] catalog[i],
            none,
            category,
            brand,
        ) implies exists|a: int| 0 <= a < narrowed.len() && #[trigger] narrowed[a] == i by {
        assert(brands(catalog)[i] == brand);
        let w = choose|w: int| 0 <= w < listed.len() && #[trigger] listed[w] == i;
        assert(listed.contains(i as usize));
        assert(satisfies(catalog[i], none, category, none));
        let v = choose|v: int| 0 <= v < kept.len() && #[trigger] kept[v] == i;
        assert(kept.contains(i as usize));
        assert(narrowed.contains(i as usize));
    }
}

/// Keeping of the candidates for a category and a brand those whose name
/// contains the text asked for leaves the matches of the whole query.
pub proof fn lemma_narrowed_by_name(
    base: Seq<usize>,
    catalog: Seq<Record>,
    name: Seq<char>,
    category: Seq<char>,
    brand: Seq<char>,
)
    requires
        lists_matches(base, catalog, Seq::empty(), category, brand),
    ensures
        lists_matches(base.filter(named(catalog, name)), catalog, name, category, brand),
{
    let none = Seq::<char>::empty();
    let narrowed = base.filter(named(catalog, name));
    lemma_filter_ascending(base, named(catalog, name));
    assert forall|a: int| 0 <= a < narrowed.len() implies (#[trigger] narrowed[a]) < catalog.len()
        && satisfies(catalog[narrowed[a] as int], name, category, brand) by {
        let x = narrowed[a];
        assert(narrowed.contains(x));
        let w = choose|w: int| 0 <= w < base.len() && base[w] == x;
        assert(satisfies(catalog[base[w] as int], none, category, brand));
    }
    assert forall|i: int|
        0 <= i < catalog.len() && satisfies(
            #[trigger] catalog[i],
            name,
            category,
            brand,
        ) implies exists|a: int| 0 <= a < narrowed.len() && #[trigger] narrowed[a] == i by {
        assert(satisfies(catalog[i], none, category, brand));
        let w = choose|w: int| 0 <= w < base.len() && #[trigger] base[w] == i;
        assert(base.contains(i as usize));
        assert(is_substring(name, catalog[i].name)) by {
            if absent(name) {
                assert(catalog[i].name.subrange(0, 0) =~= name);
                assert(occurs_at(name, catalog[i].name, 0));
            }
        }
        assert(narrowed.contains(i as usize));
    }
}

} // verus!
