use vstd::prelude::*;

verus! {

/// One image of the catalog: names, location and byte size. Immutable once
/// loaded; the cache borrows its full path as the cache key.
pub struct ImageInfo {
    pub filename: String,
    pub relative_path: String,
    pub full_path: String,
    pub extension: String,
    pub size: u64,
}

impl Clone for ImageInfo {
    /// The copy carries exactly the fields of the original.
    fn clone(&self) -> (r: Self)
        ensures
            r == *self,
    {
        let r = ImageInfo {
            filename: self.filename.clone(),
            relative_path: self.relative_path.clone(),
            full_path: self.full_path.clone(),
            extension: self.extension.clone(),
            size: self.size,
        };
        r
    }
}

/// One named group of images, with the directory it came from and the
/// record count the loader wrote beside it.
pub struct Category {
    pub directory: String,
    pub images: Vec<ImageInfo>,
    pub count: u32,
}

/// The catalog: category name to category, ordered as loaded.
pub struct Catalog {
    pub categories: Vec<(String, Category)>,
}

impl Catalog {
    /// Category names act as keys of a map: each occurs at most once.
    pub open spec fn wf(self) -> bool {
        forall|i: int, j: int|
            0 <= i < j < self.categories@.len() ==> self.categories@[i].0@
                != self.categories@[j].0@
    }

    /// A catalog with no categories at all.
    pub fn new() -> (c: Catalog)
        ensures
            c.categories@.len() == 0,
            c.wf(),
    {
        Catalog { categories: Vec::new() }
    }
}

} // verus!
