//! Catalog entries and their mathematical model.

use vstd::prelude::*;

verus! {

/// What a product is to the contracts: its three attributes as character
/// sequences.
pub ghost struct Record {
    pub name: Seq<char>,
    pub category: Seq<char>,
    pub brand: Seq<char>,
}

/// One catalog entry. Two entries with the same attributes are still two
/// entries: a catalog tells them apart by position.
#[derive(Debug, PartialEq, Eq)]
pub struct Product {
    pub name: String,
    pub category: String,
    pub brand: String,
}

impl View for Product {
    type V = Record;

    open spec fn view(&self) -> Record {
        Record { name: self.name@, category: self.category@, brand: self.brand@ }
    }
}

impl Clone for Product {
    fn clone(&self) -> (copy: Self)
        ensures
            copy == *self,
    {
        Product {
            name: self.name.clone(),
            category: self.category.clone(),
            brand: self.brand.clone(),
        }
    }
}

/// The records that a sequence of products stands for, position by position.
pub open spec fn records_of(products: Seq<Product>) -> Seq<Record> {
    Seq::new(products.len(), |i: int| products[i]@)
}

/// The name of each record, by position.
pub open spec fn names(catalog: Seq<Record>) -> Seq<Seq<char>> {
    Seq::new(catalog.len(), |i: int| catalog[i].name)
}

/// The category of each record, by position.
pub open spec fn categories(catalog: Seq<Record>) -> Seq<Seq<char>> {
    Seq::new(catalog.len(), |i: int| catalog[i].category)
}

/// The brand of each record, by position.
pub open spec fn brands(catalog: Seq<Record>) -> Seq<Seq<char>> {
    Seq::new(catalog.len(), |i: int| catalog[i].brand)
}

} // verus!
