use vstd::prelude::*;
use crate::catalog::{Catalog, Category, ImageInfo};
use vstd::string::StringExecFns;
use crate::strutil::{
    chars_vec, contains_chars, contains_seq, lemma_lex_le_antisym, lemma_lex_le_total,
    lemma_lex_le_trans, lex_le, lex_le_chars, lower_of, lowercase, starts_with_chars,
};

verus! {

broadcast use vstd::seq_lib::group_to_multiset_ensures;

/// The match rule for one candidate row, case-insensitive through
/// `lower_of`: an empty query matches everything; otherwise the folded
/// query must open the folded file name, or occur inside it, or occur
/// inside the folded category name. The opening clause is implied by the
/// substring clause and is kept as the rule is stated.
pub open spec fn query_matches(q: Seq<char>, filename: Seq<char>, category: Seq<char>) -> bool {
    ||| q.len() == 0
    ||| lower_of(q).is_prefix_of(lower_of(filename))
    ||| contains_seq(lower_of(filename), lower_of(q))
    ||| contains_seq(lower_of(category), lower_of(q))
}

/// Whether the image named `filename` under `category` matches `query`.
pub fn matches_query(query: &String, filename: &String, category: &String) -> (r: bool)
    ensures
        r == query_matches(query@, filename@, category@),
{
    if query.as_str().is_empty() {
        return true;
    }
    let ql = lowercase(query.as_str());
    let fl = lowercase(filename.as_str());
    let cl = lowercase(category.as_str());
    let qc = chars_vec(ql.as_str());
    let fc = chars_vec(fl.as_str());
    let cc = chars_vec(cl.as_str());
    if starts_with_chars(&qc, &fc) {
        return true;
    }
    if contains_chars(&fc, &qc) {
        return true;
    }
    contains_chars(&cc, &qc)
}

/// Whether the selector names every category or this one.
pub open spec fn in_scope(show_all: bool, selected: Seq<char>, name: Seq<char>) -> bool {
    show_all || selected == name
}

/// The predicate a category's images are sifted with.
pub open spec fn match_pred(q: Seq<char>, name: String) -> spec_fn(ImageInfo) -> bool {
    |img: ImageInfo| query_matches(q, img.filename@, name@)
}

/// Pairs an image with its category name.
pub open spec fn row_of(name: String) -> spec_fn(ImageInfo) -> (String, ImageInfo) {
    |img: ImageInfo| (name, img)
}

/// The rows the first `j` images of a category contribute.
pub open spec fn cat_rows_upto(name: String, c: Category, q: Seq<char>, j: int) -> Seq<
    (String, ImageInfo),
> {
    c.images@.take(j).filter(match_pred(q, name)).map_values(row_of(name))
}

/// The rows one category contributes, in catalog order.
pub open spec fn cat_rows(name: String, c: Category, q: Seq<char>) -> Seq<(String, ImageInfo)> {
    cat_rows_upto(name, c, q, c.images@.len() as int)
}

/// Every matching (category, image) pair of the catalog, category by
/// category in catalog order.
pub open spec fn spec_rows(
    cats: Seq<(String, Category)>,
    q: Seq<char>,
    selected: Seq<char>,
    show_all: bool,
) -> Seq<(String, ImageInfo)>
    decreases cats.len(),
{
    if cats.len() == 0 {
        Seq::empty()
    } else {
        (if in_scope(show_all, selected, cats[0].0@) {
            cat_rows(cats[0].0, cats[0].1, q)
        } else {
            Seq::empty()
        }) + spec_rows(cats.drop_first(), q, selected, show_all)
    }
}

/// Display order: category name first, file name second, both
/// lexicographic by code point.
pub open spec fn row_le(a: (String, ImageInfo), b: (String, ImageInfo)) -> bool {
    if a.0@ == b.0@ {
        lex_le(a.1.filename@, b.1.filename@)
    } else {
        lex_le(a.0@, b.0@)
    }
}

/// Every earlier row is at or below every later row.
pub open spec fn sorted_rows(s: Seq<(String, ImageInfo)>) -> bool {
    forall|i: int, j: int| 0 <= i < j < s.len() ==> row_le(s[i], s[j])
}

/// Any two rows compare one way or the other.
proof fn lemma_row_le_total(a: (String, ImageInfo), b: (String, ImageInfo))
    ensures
        row_le(a, b) || row_le(b, a),
{
    if a.0@ == b.0@ {
        lemma_lex_le_total(a.1.filename@, b.1.filename@);
    } else {
        lemma_lex_le_total(a.0@, b.0@);
    }
}

/// The row order chains.
proof fn lemma_row_le_trans(a: (String, ImageInfo), b: (String, ImageInfo), c: (String, ImageInfo))
    requires
        row_le(a, b),
        row_le(b, c),
    ensures
        row_le(a, c),
{
    if a.0@ == b.0@ && b.0@ == c.0@ {
        lemma_lex_le_trans(a.1.filename@, b.1.filename@, c.1.filename@);
    } else if a.0@ != b.0@ && b.0@ != c.0@ {
        lemma_lex_le_trans(a.0@, b.0@, c.0@);
        if a.0@ == c.0@ {
            lemma_lex_le_antisym(a.0@, b.0@);
        }
    }
}

/// Whether row `a` sorts at or before row `b`.
fn row_le_rows(a: &(String, ImageInfo), b: &(String, ImageInfo)) -> (r: bool)
    ensures
        r == row_le(*a, *b),
{
    if a.0 == b.0 {
        let fa = chars_vec(a.1.filename.as_str());
        let fb = chars_vec(b.1.filename.as_str());
        lex_le_chars(&fa, &fb)
    } else {
        let ca = chars_vec(a.0.as_str());
        let cb = chars_vec(b.0.as_str());
        lex_le_chars(&ca, &cb)
    }
}

/// Where a row lands among rows already sorted: after every row at or
/// below it, before the rest. A row whose key ties rows already present
/// therefore lands after them, which keeps arrival order among ties.
pub open spec fn insert_row(
    s: Seq<(String, ImageInfo)>,
    x: (String, ImageInfo),
) -> Seq<(String, ImageInfo)>
    decreases s.len(),
{
    if s.len() > 0 && row_le(s[0], x) {
        seq![s[0]] + insert_row(s.drop_first(), x)
    } else {
        seq![x] + s
    }
}

/// Insertion sort of the rows, one row after the other in arrival order;
/// by `insert_row` it is stable: rows with equal keys keep their order.
pub open spec fn sort_spec(s: Seq<(String, ImageInfo)>) -> Seq<(String, ImageInfo)>
    decreases s.len(),
{
    if s.len() == 0 {
        Seq::empty()
    } else {
        insert_row(sort_spec(s.drop_last()), s.last())
    }
}

/// `insert_row` splices the row in at the first position whose row is not
/// at or below it.
proof fn lemma_insert_row_at(s: Seq<(String, ImageInfo)>, x: (String, ImageInfo), p: int)
    requires
        0 <= p <= s.len(),
        forall|j: int| 0 <= j < p ==> row_le(s[j], x),
        p < s.len() ==> !row_le(s[p], x),
    ensures
        insert_row(s, x) == s.subrange(0, p) + seq![x] + s.subrange(p, s.len() as int),
    decreases s.len(),
{
    if p == 0 {
        if s.len() > 0 {
            assert(!row_le(s[0], x));
        }
        assert(insert_row(s, x) == seq![x] + s);
        assert(s.subrange(0, 0) + seq![x] + s.subrange(0, s.len() as int) =~= seq![x] + s);
    } else {
        assert(row_le(s[0], x));
        let d = s.drop_first();
        assert forall|j: int| 0 <= j < p - 1 implies row_le(d[j], x) by {
            assert(d[j] == s[j + 1]);
        }
        if p - 1 < d.len() {
            assert(d[p - 1] == s[p]);
        }
        lemma_insert_row_at(d, x, p - 1);
        assert(insert_row(s, x) == seq![s[0]] + insert_row(d, x));
        assert(seq![s[0]] + (d.subrange(0, p - 1) + seq![x] + d.subrange(p - 1, d.len() as int))
            =~= s.subrange(0, p) + seq![x] + s.subrange(p, s.len() as int));
    }
}

/// First position of the sorted vector at which `x` may stand.
#[verifier::loop_isolation(false)]
fn find_pos(out: &Vec<(String, ImageInfo)>, x: &(String, ImageInfo)) -> (p: usize)
    requires
        sorted_rows(out@),
    ensures
        p <= out@.len(),
        forall|j: int| 0 <= j < p ==> row_le(out@[j], *x),
        forall|j: int| p <= j < out@.len() ==> row_le(*x, out@[j]),
        p < out@.len() ==> !row_le(out@[p as int], *x),
{
    let mut p: usize = 0;
    while p < out.len() && row_le_rows(&out[p], x)
        invariant
            p <= out@.len(),
            forall|j: int| 0 <= j < p ==> row_le(out@[j], *x),
        decreases out@.len() - p,
    {
        p += 1;
    }
    proof {
        if p < out@.len() {
            assert(!row_le(out@[p as int], *x));
        }
        assert forall|j: int| p <= j < out@.len() implies row_le(*x, out@[j]) by {
            lemma_row_le_total(out@[p as int], *x);
            if j > p {
                assert(row_le(out@[p as int], out@[j]));
                lemma_row_le_trans(*x, out@[p as int], out@[j]);
            }
        }
    }
    p
}

/// Slides `x` into its place, keeping the vector sorted; the rows held
/// afterwards are the old ones plus `x`.
fn insert_sorted(out: &mut Vec<(String, ImageInfo)>, x: (String, ImageInfo))
    requires
        sorted_rows(old(out)@),
    ensures
        sorted_rows(final(out)@),
        final(out)@ == insert_row(old(out)@, x),
        final(out)@.to_multiset() == old(out)@.to_multiset().insert(x),
{
    let p = find_pos(out, &x);
    let ghost before = out@;
    out.insert(p, x);
    proof {
        before.insert_ensures(p as int, x);
        vstd::seq_lib::to_multiset_insert(before, p as int, x);
        assert(out@.to_multiset() =~= before.to_multiset().insert(x));
        lemma_insert_row_at(before, x, p as int);
        assert(out@ =~= before.subrange(0, p as int) + seq![x] + before.subrange(
            p as int,
            before.len() as int,
        ));
        assert forall|i: int, j: int| 0 <= i < j < out@.len() implies row_le(
            out@[i],
            out@[j],
        ) by {
            let pi: int = p as int;
            if i < pi && j < pi {
                assert(out@[i] == before[i]);
                assert(out@[j] == before[j]);
            } else if i < pi && j == pi {
                assert(out@[i] == before[i]);
            } else if i < pi && j > pi {
                assert(out@[i] == before[i]);
                assert(out@[j] == before[j - 1]);
            } else if i == pi && j > pi {
                assert(out@[j] == before[j - 1]);
            } else if i > pi && j > pi {
                assert(out@[i] == before[i - 1]);
                assert(out@[j] == before[j - 1]);
            }
        }
    }
}

/// Sorts rows by (category name, file name), stably: the output is the
/// insertion sort of the input, so it holds exactly the rows given and
/// rows with equal keys keep their relative order.
#[verifier::loop_isolation(false)]
pub fn sort_rows(rows: Vec<(String, ImageInfo)>) -> (out: Vec<(String, ImageInfo)>)
    ensures
        out@ == sort_spec(rows@),
        out@.to_multiset() == rows@.to_multiset(),
        sorted_rows(out@),
{
    let mut out: Vec<(String, ImageInfo)> = Vec::new();
    proof {
        assert(rows@.take(0) =~= Seq::<(String, ImageInfo)>::empty());
        assert(out@ =~= sort_spec(rows@.take(0)));
    }
    let mut i: usize = 0;
    while i < rows.len()
        invariant
            i <= rows@.len(),
            out@ == sort_spec(rows@.take(i as int)),
            sorted_rows(out@),
            out@.to_multiset() == rows@.take(i as int).to_multiset(),
        decreases rows@.len() - i,
    {
        let ghost prev = out@;
        let x = (rows[i].0.clone(), rows[i].1.clone());
        proof {
            assert(x == rows@[i as int]);
        }
        insert_sorted(&mut out, x);
        proof {
            assert(rows@.take(i as int + 1).drop_last() =~= rows@.take(i as int));
            assert(rows@.take(i as int + 1).last() == rows@[i as int]);
            assert(out@ == insert_row(sort_spec(rows@.take(i as int)), rows@[i as int]));
            assert(out@ == sort_spec(rows@.take(i as int + 1)));
            assert(rows@.take(i as int + 1) =~= rows@.take(i as int).push(rows@[i as int]));
            assert(rows@.take(i as int + 1).to_multiset() =~= rows@.take(
                i as int,
            ).to_multiset().insert(rows@[i as int]));
        }
        i += 1;
    }
    proof {
        assert(rows@.take(rows@.len() as int) =~= rows@);
    }
    out
}

/// One step of a category's contribution: taking one more image keeps the
/// rows or appends the pair, as the image matches or not.
proof fn lemma_cat_rows_upto_step(name: String, c: Category, q: Seq<char>, j: int)
    requires
        0 <= j < c.images@.len(),
    ensures
        cat_rows_upto(name, c, q, j + 1) == (if query_matches(q, c.images@[j].filename@, name@) {
            cat_rows_upto(name, c, q, j).push((name, c.images@[j]))
        } else {
            cat_rows_upto(name, c, q, j)
        }),
{
    reveal(Seq::filter);
    let s = c.images@;
    let pred = match_pred(q, name);
    assert(s.take(j + 1).drop_last() =~= s.take(j));
    assert(s.take(j + 1).last() == s[j]);
    assert(s.take(j + 1).filter(pred) == if pred(s[j]) {
        s.take(j).filter(pred).push(s[j])
    } else {
        s.take(j).filter(pred)
    });
    if pred(s[j]) {
        assert(s.take(j).filter(pred).push(s[j]).map_values(row_of(name)) =~= s.take(j).filter(
            pred,
        ).map_values(row_of(name)).push((name, s[j])));
    }
}

/// Sifting a full category with an empty query keeps every image.
proof fn lemma_cat_rows_upto_all(name: String, c: Category, q: Seq<char>, j: int)
    requires
        q.len() == 0,
        0 <= j <= c.images@.len(),
    ensures
        cat_rows_upto(name, c, q, j) == c.images@.take(j).map_values(row_of(name)),
    decreases j,
{
    if j > 0 {
        lemma_cat_rows_upto_all(name, c, q, j - 1);
        lemma_cat_rows_upto_step(name, c, q, j - 1);
        assert(c.images@.take(j).map_values(row_of(name)) =~= c.images@.take(j - 1).map_values(
            row_of(name),
        ).push((name, c.images@[j - 1])));
    } else {
        reveal(Seq::filter);
        assert(c.images@.take(0) =~= Seq::<ImageInfo>::empty());
        assert(c.images@.take(0).filter(match_pred(q, name)) =~= Seq::<ImageInfo>::empty());
        assert(cat_rows_upto(name, c, q, 0) =~= Seq::<(String, ImageInfo)>::empty());
        assert(c.images@.take(0).map_values(row_of(name)) =~= Seq::<(String, ImageInfo)>::empty());
    }
}

/// Every (category, image) pair of the catalog, category by category.
pub open spec fn all_pairs(cats: Seq<(String, Category)>) -> Seq<(String, ImageInfo)>
    decreases cats.len(),
{
    if cats.len() == 0 {
        Seq::empty()
    } else {
        cats[0].1.images@.map_values(row_of(cats[0].0)) + all_pairs(cats.drop_first())
    }
}

/// An empty query with every category in scope lists every pair of the
/// catalog: nothing is sifted out.
pub proof fn lemma_empty_query_lists_all(cats: Seq<(String, Category)>, q: Seq<char>, sel: Seq<char>)
    requires
        q.len() == 0,
    ensures
        spec_rows(cats, q, sel, true) == all_pairs(cats),
    decreases cats.len(),
{
    if cats.len() > 0 {
        lemma_empty_query_lists_all(cats.drop_first(), q, sel);
        lemma_cat_rows_upto_all(cats[0].0, cats[0].1, q, cats[0].1.images@.len() as int);
        assert(cats[0].1.images@.take(cats[0].1.images@.len() as int) =~= cats[0].1.images@);
    }
}

/// Every listed row is in scope for the selector and matches the query.
pub proof fn lemma_spec_rows_elements(
    cats: Seq<(String, Category)>,
    q: Seq<char>,
    sel: Seq<char>,
    all: bool,
)
    ensures
        forall|t: (String, ImageInfo)|
            #[trigger] spec_rows(cats, q, sel, all).contains(t) ==> in_scope(all, sel, t.0@)
                && query_matches(q, t.1.filename@, t.0@),
    decreases cats.len(),
{
    if cats.len() > 0 {
        lemma_spec_rows_elements(cats.drop_first(), q, sel, all);
        let name = cats[0].0;
        let c = cats[0].1;
        let head: Seq<(String, ImageInfo)> = if in_scope(all, sel, name@) {
            cat_rows(name, c, q)
        } else {
            Seq::empty()
        };
        let tail = spec_rows(cats.drop_first(), q, sel, all);
        assert forall|t: (String, ImageInfo)|
            #[trigger] spec_rows(cats, q, sel, all).contains(t) implies in_scope(all, sel, t.0@)
            && query_matches(q, t.1.filename@, t.0@) by {
            let k = choose|k: int|
                0 <= k < spec_rows(cats, q, sel, all).len() && spec_rows(cats, q, sel, all)[k]
                    == t;
            if k < head.len() {
                let filtered = c.images@.take(c.images@.len() as int).filter(match_pred(q, name));
                assert(head[k] == filtered.map_values(row_of(name))[k]);
                assert(t == (name, filtered[k]));
                c.images@.take(c.images@.len() as int).lemma_filter_pred(match_pred(q, name), k);
            } else {
                assert(tail[k - head.len()] == t);
                assert(tail.contains(t));
            }
        }
    }
}

/// Computes the rows to display: every image of every category in scope
/// whose pair matches the query, sorted by (category name, file name).
#[verifier::loop_isolation(false)]
pub fn filter_images(
    catalog: &Catalog,
    query: &String,
    selected: &String,
    show_all: bool,
) -> (rows: Vec<(String, ImageInfo)>)
    ensures
        rows@ == sort_spec(spec_rows(catalog.categories@, query@, selected@, show_all)),
        rows@.to_multiset() == spec_rows(
            catalog.categories@,
            query@,
            selected@,
            show_all,
        ).to_multiset(),
        sorted_rows(rows@),
        forall|idx: int|
            0 <= idx < rows@.len() ==> in_scope(show_all, selected@, #[trigger] rows@[idx].0@)
                && query_matches(query@, rows@[idx].1.filename@, rows@[idx].0@),
{
    let cats = &catalog.categories;
    let ghost total = spec_rows(cats@, query@, selected@, show_all);
    let mut collected: Vec<(String, ImageInfo)> = Vec::new();
    proof {
        assert(cats@.skip(0) =~= cats@);
    }
    let mut i: usize = 0;
    while i < cats.len()
        invariant
            i <= cats@.len(),
            collected@ + spec_rows(cats@.skip(i as int), query@, selected@, show_all) == total,
        decreases cats@.len() - i,
    {
        let ghost entry = cats@[i as int];
        proof {
            assert(cats@.skip(i as int)[0] == entry);
            assert(cats@.skip(i as int).drop_first() =~= cats@.skip(i as int + 1));
        }
        let scoped = if show_all {
            true
        } else {
            *selected == cats[i].0
        };
        if scoped {
            let ghost base = collected@;
            let mut j: usize = 0;
            proof {
                reveal(Seq::filter);
                assert(entry.1.images@.take(0) =~= Seq::<ImageInfo>::empty());
                assert(entry.1.images@.take(0).filter(match_pred(query@, entry.0)) =~= Seq::<
                    ImageInfo,
                >::empty());
                assert(cat_rows_upto(entry.0, entry.1, query@, 0) =~= Seq::<
                    (String, ImageInfo),
                >::empty());
                assert(collected@ =~= base + cat_rows_upto(entry.0, entry.1, query@, 0));
            }
            while j < cats[i].1.images.len()
                invariant
                    i < cats@.len(),
                    entry == cats@[i as int],
                    j <= entry.1.images@.len(),
                    collected@ == base + cat_rows_upto(entry.0, entry.1, query@, j as int),
                decreases entry.1.images@.len() - j,
            {
                let image = &cats[i].1.images[j];
                if matches_query(query, &image.filename, &cats[i].0) {
                    let pair = (cats[i].0.clone(), image.clone());
                    collected.push(pair);
                }
                proof {
                    lemma_cat_rows_upto_step(entry.0, entry.1, query@, j as int);
                    if query_matches(query@, entry.1.images@[j as int].filename@, entry.0@) {
                        assert(collected@ =~= base + cat_rows_upto(
                            entry.0,
                            entry.1,
                            query@,
                            j as int + 1,
                        ));
                    }
                }
                j += 1;
            }
            proof {
                assert(collected@ == base + cat_rows(entry.0, entry.1, query@));
                assert(collected@ + spec_rows(cats@.skip(i as int + 1), query@, selected@, show_all)
                    =~= total);
            }
        } else {
            proof {
                assert(collected@ + spec_rows(cats@.skip(i as int + 1), query@, selected@, show_all)
                    =~= total);
            }
        }
        i += 1;
    }
    proof {
        assert(cats@.skip(cats@.len() as int) =~= Seq::<(String, Category)>::empty());
        assert(collected@ =~= total);
    }
    let rows = sort_rows(collected);
    proof {
        lemma_spec_rows_elements(cats@, query@, selected@, show_all);
        assert forall|idx: int| 0 <= idx < rows@.len() implies in_scope(
            show_all,
            selected@,
            #[trigger] rows@[idx].0@,
        ) && query_matches(query@, rows@[idx].1.filename@, rows@[idx].0@) by {
            assert(rows@.contains(rows@[idx]));
            assert(rows@.to_multiset().count(rows@[idx]) > 0);
            assert(total.to_multiset().count(rows@[idx]) > 0);
            assert(total.contains(rows@[idx]));
        }
    }
    rows
}

/// Whether the selector is the sentinel that keeps every category in scope.
pub fn is_all_categories(selected: &String) -> (r: bool)
    ensures
        r == (selected@ == "All Categories"@),
{
    let sentinel = String::from_str("All Categories");
    *selected == sentinel
}

} // verus!
