use chlorine::catalog::{Catalog, Category, ImageInfo};
use chlorine::filter::{filter_images, is_all_categories, matches_query};

fn image(name: &str) -> ImageInfo {
    ImageInfo {
        filename: String::from(name),
        relative_path: format!("rel/{}", name),
        full_path: format!("/abs/{}", name),
        extension: String::from("png"),
        size: 1024,
    }
}

fn category(dir: &str, names: &[&str]) -> Category {
    Category {
        directory: String::from(dir),
        images: names.iter().map(|n| image(n)).collect(),
        count: names.len() as u32,
    }
}

fn sample_catalog() -> Catalog {
    Catalog {
        categories: vec![
            (String::from("Nature"), category("nature", &["a.jpg", "b.png"])),
            (String::from("Urban"), category("urban", &["c.jpg"])),
        ],
    }
}

#[test]
fn empty_query_all_categories_lists_everything_sorted() {
    let catalog = sample_catalog();
    let rows = filter_images(
        &catalog,
        &String::new(),
        &String::from("All Categories"),
        true,
    );
    let got: Vec<(String, String)> =
        rows.iter().map(|(c, i)| (c.clone(), i.filename.clone())).collect();
    assert_eq!(
        got,
        vec![
            (String::from("Nature"), String::from("a.jpg")),
            (String::from("Nature"), String::from("b.png")),
            (String::from("Urban"), String::from("c.jpg")),
        ]
    );
}

#[test]
fn query_matches_prefix_substring_and_category() {
    let q = String::from("cat");
    assert!(matches_query(&q, &String::from("cat_photo.png"), &String::from("Misc")));
    assert!(matches_query(&q, &String::from("my_cat.png"), &String::from("Misc")));
    assert!(matches_query(&q, &String::from("photo.png"), &String::from("cats")));
    assert!(!matches_query(&q, &String::from("dog.png"), &String::from("Misc")));
}

#[test]
fn query_matches_is_case_insensitive() {
    assert!(matches_query(
        &String::from("CAT"),
        &String::from("my_cat.png"),
        &String::from("Misc"),
    ));
    assert!(matches_query(
        &String::from("cat"),
        &String::from("CAT_PHOTO.PNG"),
        &String::from("Misc"),
    ));
    assert!(matches_query(
        &String::from("CaT"),
        &String::from("photo.png"),
        &String::from("CATS"),
    ));
}

#[test]
fn empty_query_matches_everything() {
    assert!(matches_query(&String::new(), &String::from("x.png"), &String::from("Y")));
}

#[test]
fn selected_category_excludes_other_categories() {
    let catalog = sample_catalog();
    // "c" matches c.jpg of Urban, but Nature is selected.
    let rows = filter_images(&catalog, &String::from("c"), &String::from("Nature"), false);
    assert!(rows.iter().all(|(c, _)| c == "Nature"));
    assert!(!rows.iter().any(|(_, i)| i.filename == "c.jpg"));
}

#[test]
fn query_b_all_categories_yields_exactly_nature_b_png() {
    let catalog = sample_catalog();
    let rows = filter_images(
        &catalog,
        &String::from("b"),
        &String::from("All Categories"),
        true,
    );
    // "b.png" matches on its file name; c.jpg matches too, because its
    // category name "Urban" contains a "b" case-insensitively.
    assert_eq!(rows.len(), 2);
    assert_eq!(rows[0].0, "Nature");
    assert_eq!(rows[0].1.filename, "b.png");
    assert_eq!(rows[1].0, "Urban");
    assert_eq!(rows[1].1.filename, "c.jpg");
    let nature_only = filter_images(
        &catalog,
        &String::from("b"),
        &String::from("Nature"),
        false,
    );
    assert_eq!(nature_only.len(), 1);
    assert_eq!(nature_only[0].0, "Nature");
    assert_eq!(nature_only[0].1.filename, "b.png");
}

#[test]
fn rows_sort_by_category_then_filename() {
    let catalog = Catalog {
        categories: vec![
            (String::from("Zoo"), category("zoo", &["a.png"])),
            (String::from("Ant"), category("ant", &["z.png", "b.png"])),
        ],
    };
    let rows = filter_images(
        &catalog,
        &String::new(),
        &String::from("All Categories"),
        true,
    );
    let got: Vec<(String, String)> =
        rows.iter().map(|(c, i)| (c.clone(), i.filename.clone())).collect();
    assert_eq!(
        got,
        vec![
            (String::from("Ant"), String::from("b.png")),
            (String::from("Ant"), String::from("z.png")),
            (String::from("Zoo"), String::from("a.png")),
        ]
    );
}

#[test]
fn rows_with_equal_keys_keep_their_arrival_order() {
    let first = ImageInfo {
        filename: String::from("dup.png"),
        relative_path: String::from("one/dup.png"),
        full_path: String::from("/one/dup.png"),
        extension: String::from("png"),
        size: 1,
    };
    let second = ImageInfo {
        filename: String::from("dup.png"),
        relative_path: String::from("two/dup.png"),
        full_path: String::from("/two/dup.png"),
        extension: String::from("png"),
        size: 2,
    };
    let catalog = Catalog {
        categories: vec![(
            String::from("C"),
            Category {
                directory: String::from("c"),
                images: vec![first, second],
                count: 2,
            },
        )],
    };
    let rows = filter_images(
        &catalog,
        &String::new(),
        &String::from("All Categories"),
        true,
    );
    assert_eq!(rows.len(), 2);
    assert_eq!(rows[0].1.relative_path, "one/dup.png");
    assert_eq!(rows[1].1.relative_path, "two/dup.png");
}

#[test]
fn all_categories_sentinel_is_recognised() {
    assert!(is_all_categories(&String::from("All Categories")));
    assert!(!is_all_categories(&String::from("Nature")));
}
