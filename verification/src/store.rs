//! The store: a catalog with its three indexes, and the two ways to search it.

use vstd::prelude::*;
use vstd::hash_map::StringHashMap;
use crate::candidates::{
    lemma_all_positions_match, lemma_brand_list_matches, lemma_category_list_matches,
    lemma_narrowed_by_brand, lemma_narrowed_by_name, lemma_select_is_filter, lists_matches, named,
    select,
};
use crate::index::{add_position, indexes, intersect, lemma_index_grows};
use crate::product::{brands, categories, names, records_of, Product, Record};
use crate::query::{
    absent, answer, criteria, lemma_unknown_brand, lemma_unknown_category, satisfies,
};
use crate::text::{chars_of, contains_chars};

verus! {

/// A catalog of products, held in the order given, with one exact-value index
/// per attribute.
pub struct Store {
    products: Vec<Product>,
    name_index: StringHashMap<Vec<usize>>,
    category_index: StringHashMap<Vec<usize>>,
    brand_index: StringHashMap<Vec<usize>>,
}

/// Whether the product meets the criteria that are present.
fn meets(product: &Product, name: &Vec<char>, category: &String, brand: &String) -> (r: bool)
    ensures
        r == satisfies(product@, name@, category@, brand@),
{
    if name.len() > 0 {
        let own = chars_of(product.name.as_str());
        if !contains_chars(&own, name) {
            return false;
        }
    }
    if !category.as_str().is_empty() && product.category != *category {
        return false;
    }
    if !brand.as_str().is_empty() && product.brand != *brand {
        return false;
    }
    true
}

/// An empty result.
fn no_products() -> (results: Vec<Product>)
    ensures
        records_of(results@) == Seq::<Record>::empty(),
{
    let results: Vec<Product> = Vec::new();
    assert(records_of(results@) =~= Seq::empty());
    results
}

/// Every position below `len`, in ascending order.
fn all_positions(len: usize) -> (all: Vec<usize>)
    ensures
        all.len() == len,
        forall|i: int| 0 <= i < len ==> all[i] == i,
{
    let mut all: Vec<usize> = Vec::new();
    let mut i: usize = 0;
    while i < len
        invariant
            i <= len,
            all.len() == i,
            forall|j: int| 0 <= j < i ==> all[j] == j,
        decreases len - i,
    {
        all.push(i);
        i += 1;
    }
    all
}

impl Store {
    /// The records of the catalog, by position.
    pub closed spec fn catalog(&self) -> Seq<Record> {
        records_of(self.products@)
    }

    /// The index by exact name.
    pub closed spec fn names_indexed(&self) -> Map<Seq<char>, Vec<usize>> {
        self.name_index@
    }

    /// The index by exact category.
    pub closed spec fn categories_indexed(&self) -> Map<Seq<char>, Vec<usize>> {
        self.category_index@
    }

    /// The index by exact brand.
    pub closed spec fn brands_indexed(&self) -> Map<Seq<char>, Vec<usize>> {
        self.brand_index@
    }

    /// Each of the three indexes is the index of its attribute over the whole
    /// catalog.
    pub open spec fn wf(&self) -> bool {
        &&& indexes(self.names_indexed(), names(self.catalog()))
        &&& indexes(self.categories_indexed(), categories(self.catalog()))
        &&& indexes(self.brands_indexed(), brands(self.catalog()))
    }

    /// A store of the given products, in the given order, with its indexes
    /// built.
    pub fn new(products: Vec<Product>) -> (store: Store)
        ensures
            store.wf(),
            store.catalog() == records_of(products@),
    {
        let mut store = Store {
            products,
            name_index: StringHashMap::new(),
            category_index: StringHashMap::new(),
            brand_index: StringHashMap::new(),
        };
        store.build_indices();
        store
    }

    /// Builds the three indexes from the catalog in one pass, replacing
    /// whatever they held. The catalog is left as it is.
    pub fn build_indices(&mut self)
        ensures
            final(self).wf(),
            final(self).catalog() == old(self).catalog(),
    {
        self.name_index.clear();
        self.category_index.clear();
        self.brand_index.clear();
        let ghost catalog = self.catalog();
        let n: usize = self.products.len();
        let mut i: usize = 0;
        while i < n
            invariant
                i <= n,
                n == self.products.len(),
                self.products == old(self).products,
                catalog == self.catalog(),
                indexes(self.name_index@, names(catalog).take(i as int)),
                indexes(self.category_index@, categories(catalog).take(i as int)),
                indexes(self.brand_index@, brands(catalog).take(i as int)),
            decreases n - i,
        {
            let ghost by_name = self.name_index@;
            let ghost by_category = self.category_index@;
            let ghost by_brand = self.brand_index@;
            add_position(&mut self.name_index, &self.products[i].name, i);
            add_position(&mut self.category_index, &self.products[i].category, i);
            add_position(&mut self.brand_index, &self.products[i].brand, i);
            proof {
                lemma_index_grows(by_name, self.name_index@, names(catalog), i);
                lemma_index_grows(by_category, self.category_index@, categories(catalog), i);
                lemma_index_grows(by_brand, self.brand_index@, brands(catalog), i);
            }
            i += 1;
        }
        proof {
            assert(names(catalog).take(n as int) == names(catalog));
            assert(categories(catalog).take(n as int) == categories(catalog));
            assert(brands(catalog).take(n as int) == brands(catalog));
        }
    }

    /// Answers the query by looking at every product in turn.
    pub fn search(&self, query: &str, category: &str, brand: &str) -> (results: Vec<Product>)
        ensures
            records_of(results@) == answer(self.catalog(), query@, category@, brand@),
    {
        if query.is_empty() && category.is_empty() && brand.is_empty() {
            return no_products();
        }
        let mut results: Vec<Product> = Vec::new();
        let wanted_name = chars_of(query);
        let wanted_category = category.to_owned();
        let wanted_brand = brand.to_owned();
        let ghost catalog = self.catalog();
        let ghost wanted = criteria(query@, category@, brand@);
        let n: usize = self.products.len();
        let mut i: usize = 0;
        proof {
            reveal(Seq::filter);
            assert(records_of(results@) =~= catalog.take(0).filter(wanted));
        }
        while i < n
            invariant
                i <= n,
                n == self.products.len(),
                catalog == self.catalog(),
                wanted == criteria(query@, category@, brand@),
                wanted_name@ == query@,
                wanted_category@ == category@,
                wanted_brand@ == brand@,
                records_of(results@) == catalog.take(i as int).filter(wanted),
            decreases n - i,
        {
            let product = &self.products[i];
            let ghost found = records_of(results@);
            proof {
                reveal(Seq::filter);
                assert(catalog.take(i + 1).drop_last() == catalog.take(i as int));
                assert(catalog.take(i + 1).last() == product@);
            }
            if meets(product, &wanted_name, &wanted_category, &wanted_brand) {
                results.push(product.clone());
                assert(records_of(results@) =~= found.push(product@));
            }
            i += 1;
        }
        assert(catalog.take(n as int) == catalog);
        results
    }

    /// Of the given positions, those whose product's name contains `name`, in
    /// the order given.
    fn keep_named(&self, base: &Vec<usize>, name: &Vec<char>) -> (kept: Vec<usize>)
        requires
            forall|a: int| 0 <= a < base.len() ==> (#[trigger] base[a]) < self.catalog().len(),
        ensures
            kept@ == base@.filter(named(self.catalog(), name@)),
    {
        let ghost wanted = named(self.catalog(), name@);
        let mut kept: Vec<usize> = Vec::new();
        let mut k: usize = 0;
        proof {
            reveal(Seq::filter);
            assert(kept@ =~= base@.take(0).filter(wanted));
        }
        while k < base.len()
            invariant
                k <= base.len(),
                wanted == named(self.catalog(), name@),
                forall|a: int| 0 <= a < base.len() ==> (#[trigger] base[a]) < self.catalog().len(),
                kept@ == base@.take(k as int).filter(wanted),
            decreases base.len() - k,
        {
            let x: usize = base[k];
            proof {
                reveal(Seq::filter);
                assert(base@.take(k + 1).drop_last() == base@.take(k as int));
                assert(base@.take(k + 1).last() == x);
            }
            let own = chars_of(self.products[x].name.as_str());
            if contains_chars(&own, name) {
                kept.push(x);
            }
            k += 1;
        }
        assert(base@.take(k as int) == base@);
        kept
    }

    /// The products at the given positions, in the order of the positions.
    fn collect(&self, positions: &Vec<usize>) -> (results: Vec<Product>)
        requires
            forall|a: int|
                0 <= a < positions.len() ==> (#[trigger] positions[a]) < self.catalog().len(),
        ensures
            records_of(results@) == select(self.catalog(), positions@),
    {
        let mut results: Vec<Product> = Vec::new();
        let mut k: usize = 0;
        while k < positions.len()
            invariant
                k <= positions.len(),
                results.len() == k,
                forall|a: int|
                    0 <= a < positions.len() ==> (#[trigger] positions[a]) < self.catalog().len(),
                forall|a: int| 0 <= a < k ==> results[a]@ == self.catalog()[positions[a] as int],
            decreases positions.len() - k,
        {
            results.push(self.products[positions[k]].clone());
            k += 1;
        }
        assert(records_of(results@) =~= select(self.catalog(), positions@));
        results
    }

    /// Answers the query from the indexes: the position lists of the category
    /// and of the brand are looked up and intersected, a value that no index
    /// knows ends the search at once, and the name is then tested on what is
    /// left. The answer is that of [`Store::search`].
    pub fn search_optimized(&self, query: &str, category: &str, brand: &str) -> (results: Vec<
        Product,
    >)
        requires
            self.wf(),
        ensures
            records_of(results@) == answer(self.catalog(), query@, category@, brand@),
    {
        if query.is_empty() && category.is_empty() && brand.is_empty() {
            return no_products();
        }
        let ghost catalog = self.catalog();
        let ghost none = Seq::<char>::empty();
        let mut candidates: Option<Vec<usize>> = None;

        if !category.is_empty() {
            match self.category_index.get(category) {
                Some(listed) => {
                    proof {
                        lemma_category_list_matches(listed@, catalog, category@);
                    }
                    candidates = Some(listed.clone());
                },
                None => {
                    proof {
                        assert forall|i: int| 0 <= i < catalog.len() implies (
                        #[trigger] catalog[i]).category != category@ by {
                            assert(categories(catalog)[i] == catalog[i].category);
                        }
                        lemma_unknown_category(catalog, query@, category@, brand@);
                    }
                    return no_products();
                },
            }
        }
        assert(match candidates {
            Some(kept) => lists_matches(kept@, catalog, none, category@, none),
            None => absent(category@),
        });

        if !brand.is_empty() {
            match self.brand_index.get(brand) {
                Some(listed) => {
                    let narrowed = match &candidates {
                        Some(kept) => intersect(kept, listed),
                        None => listed.clone(),
                    };
                    proof {
                        match candidates {
                            Some(kept) => {
                                lemma_narrowed_by_brand(
                                    kept@,
                                    listed@,
                                    catalog,
                                    category@,
                                    brand@,
                                );
                            },
                            None => {
                                lemma_brand_list_matches(listed@, catalog, brand@);
                                assert(category@ =~= none);
                            },
                        }
                    }
                    candidates = Some(narrowed);
                },
                None => {
                    proof {
                        assert forall|i: int| 0 <= i < catalog.len() implies (
                        #[trigger] catalog[i]).brand != brand@ by {
                            assert(brands(catalog)[i] == catalog[i].brand);
                        }
                        lemma_unknown_brand(catalog, query@, category@, brand@);
                    }
                    return no_products();
                },
            }
        }
        assert(match candidates {
            Some(kept) => lists_matches(kept@, catalog, none, category@, brand@),
            None => absent(category@) && absent(brand@),
        });

        if !query.is_empty() {
            let base = match candidates {
                Some(kept) => kept,
                None => all_positions(self.products.len()),
            };
            let wanted_name = chars_of(query);
            proof {
                if candidates is None {
                    lemma_all_positions_match(base@, catalog);
                }
                lemma_narrowed_by_name(base@, catalog, query@, category@, brand@);
            }
            candidates = Some(self.keep_named(&base, &wanted_name));
        }
        let positions = match candidates {
            Some(kept) => kept,
            None => Vec::new(),
        };
        proof {
            lemma_select_is_filter(positions@, catalog, query@, category@, brand@);
        }
        self.collect(&positions)
    }
}

/// The scan and the search through the indexes agree: whatever each returns
/// for one query on one store, the two results hold the same records, in the
/// same order and equally often.
pub proof fn lemma_searches_agree(
    store: Store,
    name: Seq<char>,
    category: Seq<char>,
    brand: Seq<char>,
    scanned: Seq<Product>,
    indexed: Seq<Product>,
)
    requires
        store.wf(),
        records_of(scanned) == answer(store.catalog(), name, category, brand),
        records_of(indexed) == answer(store.catalog(), name, category, brand),
    ensures
        records_of(scanned) == records_of(indexed),
        scanned.len() == indexed.len(),
        forall|k: int| 0 <= k < scanned.len() ==> (#[trigger] scanned[k])@ == indexed[k]@,
{
    assert(records_of(scanned).len() == scanned.len());
    assert(records_of(indexed).len() == indexed.len());
    assert forall|k: int| 0 <= k < scanned.len() implies (#[trigger] scanned[k])@
        == indexed[k]@ by {
        assert(records_of(scanned)[k] == scanned[k]@);
        assert(records_of(indexed)[k] == indexed[k]@);
    }
}

} // verus!
