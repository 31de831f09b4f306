use product_search::product::Product;
use product_search::store::Store;

fn product(name: &str, category: &str, brand: &str) -> Product {
    Product {
        name: name.to_string(),
        category: category.to_string(),
        brand: brand.to_string(),
    }
}

fn shop() -> Store {
    Store::new(vec![
        product("Laptop", "Electronics", "A"),
        product("Smartphone", "Electronics", "B"),
        product("Chair", "Furniture", "C"),
        product("Table", "Furniture", "C"),
    ])
}

fn names(found: &Vec<Product>) -> Vec<String> {
    let mut out = Vec::new();
    for p in found {
        out.push(p.name.clone());
    }
    out
}

#[test]
fn scan_by_name() {
    let found = shop().search("Laptop", "", "");
    assert_eq!(found, vec![product("Laptop", "Electronics", "A")]);
}

#[test]
fn scan_by_category() {
    let found = shop().search("", "Electronics", "");
    assert_eq!(
        found,
        vec![
            product("Laptop", "Electronics", "A"),
            product("Smartphone", "Electronics", "B"),
        ]
    );
}

#[test]
fn scan_by_brand() {
    let found = shop().search("", "", "C");
    assert_eq!(
        found,
        vec![
            product("Chair", "Furniture", "C"),
            product("Table", "Furniture", "C"),
        ]
    );
}

#[test]
fn scan_by_all_three() {
    let found = shop().search("Laptop", "Electronics", "A");
    assert_eq!(found, vec![product("Laptop", "Electronics", "A")]);
}

#[test]
fn scan_finds_no_tablet() {
    assert_eq!(shop().search("Tablet", "", ""), Vec::<Product>::new());
}

#[test]
fn indexed_by_name() {
    let found = shop().search_optimized("Laptop", "", "");
    assert_eq!(found, vec![product("Laptop", "Electronics", "A")]);
}

#[test]
fn indexed_by_category() {
    let found = shop().search_optimized("", "Electronics", "");
    assert_eq!(
        found,
        vec![
            product("Laptop", "Electronics", "A"),
            product("Smartphone", "Electronics", "B"),
        ]
    );
}

#[test]
fn indexed_by_brand() {
    let found = shop().search_optimized("", "", "C");
    assert_eq!(
        found,
        vec![
            product("Chair", "Furniture", "C"),
            product("Table", "Furniture", "C"),
        ]
    );
}

#[test]
fn indexed_by_all_three() {
    let found = shop().search_optimized("Laptop", "Electronics", "A");
    assert_eq!(found, vec![product("Laptop", "Electronics", "A")]);
}

#[test]
fn indexed_finds_no_tablet() {
    assert_eq!(shop().search_optimized("Tablet", "", ""), Vec::<Product>::new());
}

#[test]
fn no_criterion_matches_nothing() {
    let store = shop();
    assert!(store.search("", "", "").is_empty());
    assert!(store.search_optimized("", "", "").is_empty());
}

#[test]
fn empty_catalog_answers_nothing() {
    let store = Store::new(Vec::new());
    assert!(store.search("a", "", "").is_empty());
    assert!(store.search_optimized("a", "", "").is_empty());
    assert!(store.search("", "b", "c").is_empty());
    assert!(store.search_optimized("", "b", "c").is_empty());
    assert!(store.search("", "", "").is_empty());
    assert!(store.search_optimized("", "", "").is_empty());
}

#[test]
fn name_matches_by_containment() {
    let store = shop();
    assert_eq!(names(&store.search("top", "", "")), vec!["Laptop".to_string()]);
    assert_eq!(names(&store.search_optimized("top", "", "")), vec!["Laptop".to_string()]);
    assert_eq!(
        names(&store.search_optimized("a", "", "")),
        vec!["Laptop".to_string(), "Smartphone".to_string(), "Chair".to_string(), "Table".to_string()]
    );
    assert_eq!(
        names(&store.search_optimized("a", "Furniture", "")),
        vec!["Chair".to_string(), "Table".to_string()]
    );
    assert!(store.search_optimized("laptop", "", "").is_empty());
}

#[test]
fn category_and_brand_match_exactly() {
    let store = shop();
    assert!(store.search("", "Electronic", "").is_empty());
    assert!(store.search_optimized("", "Electronic", "").is_empty());
    assert!(store.search("", "", "c").is_empty());
    assert!(store.search_optimized("", "", "c").is_empty());
}

#[test]
fn unknown_category_ends_the_search() {
    let store = shop();
    assert!(store.search("Laptop", "Nonexistent", "A").is_empty());
    assert!(store.search_optimized("Laptop", "Nonexistent", "A").is_empty());
    assert!(store.search_optimized("", "Nonexistent", "").is_empty());
    assert!(store.search_optimized("", "Nonexistent", "C").is_empty());
}

#[test]
fn unknown_brand_ends_the_search() {
    let store = shop();
    assert!(store.search("Laptop", "Electronics", "Z").is_empty());
    assert!(store.search_optimized("Laptop", "Electronics", "Z").is_empty());
    assert!(store.search_optimized("", "", "Z").is_empty());
}

#[test]
fn criteria_that_exclude_each_other() {
    let store = shop();
    assert!(store.search("", "Electronics", "C").is_empty());
    assert!(store.search_optimized("", "Electronics", "C").is_empty());
    assert!(store.search_optimized("Chair", "Electronics", "").is_empty());
}

#[test]
fn category_and_brand_intersect() {
    let store = Store::new(vec![
        product("One", "Tools", "X"),
        product("Two", "Toys", "X"),
        product("Three", "Tools", "Y"),
        product("Four", "Tools", "X"),
        product("Five", "Toys", "Y"),
    ]);
    let both = store.search_optimized("", "Tools", "X");
    assert_eq!(names(&both), vec!["One".to_string(), "Four".to_string()]);
    assert_eq!(both, store.search("", "Tools", "X"));
    let narrowed = store.search_optimized("ou", "Tools", "X");
    assert_eq!(names(&narrowed), vec!["Four".to_string()]);
}

#[test]
fn duplicates_each_appear() {
    let store = Store::new(vec![
        product("Pen", "Office", "P"),
        product("Desk", "Office", "D"),
        product("Pen", "Office", "P"),
    ]);
    let twice = vec![product("Pen", "Office", "P"), product("Pen", "Office", "P")];
    assert_eq!(store.search("Pen", "", ""), twice);
    assert_eq!(store.search_optimized("Pen", "", ""), twice);
    assert_eq!(store.search_optimized("", "Office", "P"), twice);
    assert_eq!(store.search_optimized("", "Office", "").len(), 3);
}

#[test]
fn empty_attribute_is_never_asked_for() {
    let store = Store::new(vec![product("Loose", "", ""), product("Boxed", "Kits", "K")]);
    assert_eq!(names(&store.search("o", "", "")), vec!["Loose".to_string(), "Boxed".to_string()]);
    assert_eq!(
        names(&store.search_optimized("o", "", "")),
        vec!["Loose".to_string(), "Boxed".to_string()]
    );
    assert_eq!(names(&store.search_optimized("", "Kits", "")), vec!["Boxed".to_string()]);
}

#[test]
fn names_beyond_ascii() {
    let store = Store::new(vec![
        product("Cafeteira", "Eletrônicos", "MarcaA"),
        product("Sofá", "Móveis", "MarcaC"),
        product("Mesa", "Móveis", "MarcaC"),
    ]);
    assert_eq!(names(&store.search("fá", "", "")), vec!["Sofá".to_string()]);
    assert_eq!(names(&store.search_optimized("fá", "", "")), vec!["Sofá".to_string()]);
    assert_eq!(
        names(&store.search_optimized("", "Móveis", "MarcaC")),
        vec!["Sofá".to_string(), "Mesa".to_string()]
    );
    assert!(store.search_optimized("", "Moveis", "").is_empty());
}

#[test]
fn both_searches_agree() {
    let store = Store::new(vec![
        product("Laptop", "Electronics", "A"),
        product("Smartphone", "Electronics", "B"),
        product("Chair", "Furniture", "C"),
        product("Table", "Furniture", "C"),
        product("Tablet", "Electronics", "A"),
        product("Laptop", "Electronics", "A"),
        product("Lamp", "Furniture", "A"),
    ]);
    let words = ["", "La", "a", "Tabl", "Laptop", "zzz", "p"];
    let categories = ["", "Electronics", "Furniture", "Garden"];
    let brands = ["", "A", "B", "C", "D"];
    for w in words {
        for c in categories {
            for b in brands {
                assert_eq!(store.search(w, c, b), store.search_optimized(w, c, b));
            }
        }
    }
    assert_eq!(store.search_optimized("La", "", "A").len(), 3);
    assert_eq!(store.search_optimized("", "Electronics", "A").len(), 3);
}

#[test]
fn rebuilding_the_indexes_changes_nothing() {
    let mut store = shop();
    store.build_indices();
    store.build_indices();
    assert_eq!(names(&store.search_optimized("", "Furniture", "")), vec!["Chair".to_string(), "Table".to_string()]);
    assert_eq!(store.search_optimized("", "", "C"), store.search("", "", "C"));
}

#[test]
fn a_copy_equals_its_product() {
    let p = product("Laptop", "Electronics", "A");
    let q = p.clone();
    assert_eq!(p, q);
    assert_ne!(p, product("Laptop", "Electronics", "B"));
}
