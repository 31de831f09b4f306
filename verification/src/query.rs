//! What a query asks for, independently of how it is answered.

use vstd::prelude::*;
use crate::candidates::{lemma_select_is_filter, select};
use crate::product::Record;
use crate::text::is_substring;

verus! {

/// A criterion given as the empty string asks for nothing. An attribute that
/// is itself empty can therefore not be asked for by its value.
pub open spec fn absent(criterion: Seq<char>) -> bool {
    criterion.len() == 0
}

/// The record meets every criterion that is present: the name by containment,
/// category and brand by equality.
pub open spec fn satisfies(
    r: Record,
    name: Seq<char>,
    category: Seq<char>,
    brand: Seq<char>,
) -> bool {
    &&& !absent(name) ==> is_substring(name, r.name)
    &&& !absent(category) ==> r.category == category
    &&& !absent(brand) ==> r.brand == brand
}

/// `satisfies` as a predicate on records.
pub open spec fn criteria(name: Seq<char>, category: Seq<char>, brand: Seq<char>) -> spec_fn(
    Record,
) -> bool {
    |r: Record| satisfies(r, name, category, brand)
}

/// The answer to a query: nothing when no criterion is present, otherwise the
/// satisfying records in catalog order, each occurrence on its own.
pub open spec fn answer(
    catalog: Seq<Record>,
    name: Seq<char>,
    category: Seq<char>,
    brand: Seq<char>,
) -> Seq<Record> {
    if absent(name) && absent(category) && absent(brand) {
        Seq::empty()
    } else {
        catalog.filter(criteria(name, category, brand))
    }
}

/// Where no record satisfies the criteria, the answer is empty.
pub proof fn lemma_no_match_no_answer(
    catalog: Seq<Record>,
    name: Seq<char>,
    category: Seq<char>,
    brand: Seq<char>,
)
    requires
        forall|i: int|
            0 <= i < catalog.len() ==> !satisfies(#[trigger] catalog[i], name, category, brand),
    ensures
        answer(catalog, name, category, brand) == Seq::<Record>::empty(),
{
    let nowhere = Seq::<usize>::empty();
    lemma_select_is_filter(nowhere, catalog, name, category, brand);
    assert(select(catalog, nowhere) =~= Seq::empty());
}

/// A query without any criterion is answered with nothing, whatever the
/// catalog holds.
pub proof fn lemma_all_absent_answers_nothing(
    catalog: Seq<Record>,
    name: Seq<char>,
    category: Seq<char>,
    brand: Seq<char>,
)
    requires
        absent(name),
        absent(category),
        absent(brand),
    ensures
        answer(catalog, name, category, brand) == Seq::<Record>::empty(),
{
}

/// A query by name alone is answered with exactly the records whose name
/// contains the text asked for, in catalog order.
pub proof fn lemma_name_alone(catalog: Seq<Record>, name: Seq<char>)
    requires
        !absent(name),
    ensures
        answer(catalog, name, Seq::empty(), Seq::empty()) == catalog.filter(
            |r: Record| is_substring(name, r.name),
        ),
{
    let asked = criteria(name, Seq::empty(), Seq::empty());
    let named = |r: Record| is_substring(name, r.name);
    assert(asked =~= named);
}

/// A query by category alone is answered with exactly the records of that
/// category, in catalog order.
pub proof fn lemma_category_alone(catalog: Seq<Record>, category: Seq<char>)
    requires
        !absent(category),
    ensures
        answer(catalog, Seq::empty(), category, Seq::empty()) == catalog.filter(
            |r: Record| r.category == category,
        ),
{
    let asked = criteria(Seq::empty(), category, Seq::empty());
    let same_category = |r: Record| r.category == category;
    assert(asked =~= same_category);
}

/// A query by brand alone is answered with exactly the records of that
/// brand, in catalog order.
pub proof fn lemma_brand_alone(catalog: Seq<Record>, brand: Seq<char>)
    requires
        !absent(brand),
    ensures
        answer(catalog, Seq::empty(), Seq::empty(), brand) == catalog.filter(
            |r: Record| r.brand == brand,
        ),
{
    let asked = criteria(Seq::empty(), Seq::empty(), brand);
    let same_brand = |r: Record| r.brand == brand;
    assert(asked =~= same_brand);
}

/// A category that no record has gives an empty answer, whatever the other
/// criteria are.
pub proof fn lemma_unknown_category(
    catalog: Seq<Record>,
    name: Seq<char>,
    category: Seq<char>,
    brand: Seq<char>,
)
    requires
        !absent(category),
        forall|i: int| 0 <= i < catalog.len() ==> (#[trigger] catalog[i]).category != category,
    ensures
        answer(catalog, name, category, brand) == Seq::<Record>::empty(),
{
    lemma_no_match_no_answer(catalog, name, category, brand);
}

/// A brand that no record has gives an empty answer, whatever the other
/// criteria are.
pub proof fn lemma_unknown_brand(
    catalog: Seq<Record>,
    name: Seq<char>,
    category: Seq<char>,
    brand: Seq<char>,
)
    requires
        !absent(brand),
        forall|i: int| 0 <= i < catalog.len() ==> (#[trigger] catalog[i]).brand != brand,
    ensures
        answer(catalog, name, category, brand) == Seq::<Record>::empty(),
{
    lemma_no_match_no_answer(catalog, name, category, brand);
}

/// `first` stands in `records` somewhere before `second`.
pub open spec fn in_order(records: Seq<Record>, first: Record, second: Record) -> bool {
    exists|a: int, b: int|
        0 <= a < b < records.len() && #[trigger] records[a] == first && #[trigger] records[b]
            == second
}

/// Two satisfying records at different positions each have their own place in
/// the answer, the earlier one first. In particular two identical records both
/// appear.
pub proof fn lemma_each_occurrence_answers(
    catalog: Seq<Record>,
    name: Seq<char>,
    category: Seq<char>,
    brand: Seq<char>,
    i: int,
    j: int,
)
    requires
        !(absent(name) && absent(category) && absent(brand)),
        0 <= i < j < catalog.len(),
        satisfies(catalog[i], name, category, brand),
        satisfies(catalog[j], name, category, brand),
    ensures
        in_order(answer(catalog, name, category, brand), catalog[i], catalog[j]),
    decreases catalog.len(),
{
    reveal(Seq::filter);
    let asked = criteria(name, category, brand);
    let rest = catalog.drop_last();
    let kept = rest.filter(asked);
    let all = catalog.filter(asked);
    if j == catalog.len() - 1 {
        assert(catalog.last() == catalog[j]);
        assert(all == kept.push(catalog[j]));
        assert(rest[i] == catalog[i]);
        rest.lemma_filter_contains(asked, i);
        let a = choose|a: int| 0 <= a < kept.len() && kept[a] == catalog[i];
        let b = kept.len() as int;
        assert(all[a] == catalog[i] && all[b] == catalog[j]);
    } else {
        assert(rest[i] == catalog[i] && rest[j] == catalog[j]);
        lemma_each_occurrence_answers(rest, name, category, brand, i, j);
        let (a, b) = choose|a: int, b: int|
            0 <= a < b < kept.len() && #[trigger] kept[a] == catalog[i] && #[trigger] kept[b]
                == catalog[j];
        assert(all[a] == catalog[i] && all[b] == catalog[j]);
    }
}

} // verus!
