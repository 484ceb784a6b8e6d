//! Properties that hold across the operations of the catalog.

use vstd::prelude::*;

use crate::app::SortStyle;
use crate::library::{first_downloadable, items_size, lemma_first_downloadable, lemma_with_enabled, Category, LibraryItem};
use crate::navigate::node_at;
use crate::sort::{
    enabled_count, first_with_name, goes_before, lemma_at_most_one_is_count, lemma_count_nonneg, lemma_first_with_name,
    lemma_items_size_is_sum, lemma_sum_remove, sorted_by_style, sorts_to, sum_of,
};
use crate::text::{eq_ignore_case, lemma_text_less_total, text_less};

verus! {

/// The size of a category counts every child: its total size is the sum of the
/// total sizes of its children, at every level of the tree.
pub proof fn lemma_size_is_sum_of_children(c: Category)
    ensures
        LibraryItem::Category(c).spec_size(false) == sum_of(c.items@, |it: LibraryItem| it.spec_size(false)),
        forall|i: int|
            0 <= i < c.items@.len() && (#[trigger] c.items@[i]) is Category ==> c.items@[i].spec_size(false)
                == items_size(c.items@[i]->Category_0.items@, false),
{
    lemma_items_size_is_sum(c.items@, false);
}

/// In a well-formed single-selection category, zero or one child is chosen.
pub proof fn lemma_single_selection_exclusive(c: Category)
    requires
        c.wf(),
        c.single_selection,
    ensures
        0 <= enabled_count(c.items@) <= 1,
{
    lemma_at_most_one_is_count(c.items@);
    lemma_count_nonneg(c.items@);
}

/// `path` leads from `c` down through child categories.
pub open spec fn path_valid(c: Category, path: Seq<int>) -> bool
    decreases path.len(),
{
    path.len() == 0 || {
        &&& 0 <= path[0] < c.items@.len()
        &&& c.items@[path[0]] is Category
        &&& path_valid(c.items@[path[0]]->Category_0, path.drop_first())
    }
}

/// In a well-formed tree every single-selection category, at any depth, has
/// zero or one chosen child. Every operation that changes a category keeps it
/// well formed, so this holds at all times.
pub proof fn lemma_exclusive_at_every_depth(c: Category, path: Seq<int>)
    requires
        c.wf(),
        path_valid(c, path),
    ensures
        node_at(c, path).wf(),
        node_at(c, path).single_selection ==> 0 <= enabled_count(node_at(c, path).items@) <= 1,
    decreases path.len(),
{
    if path.len() > 0 {
        assert(c.items@[path[0]].wf());
        lemma_exclusive_at_every_depth(c.items@[path[0]]->Category_0, path.drop_first());
    } else if c.single_selection {
        lemma_single_selection_exclusive(c);
    }
}

/// Toggling the same child of a category without single selection twice in a
/// row gives back the children it started with.
pub proof fn lemma_toggle_twice(a: Category, b: Category, c: Category)
    requires
        a.wf(),
        !a.single_selection,
        a.items@.len() > 0,
        Category::toggles_to(a, b),
        Category::toggles_to(b, c),
    ensures
        c.items@ == a.items@,
{
    let i = a.counter.index() as int;
    assert(b.counter.index() == i);
    let x = a.items@[i];
    assert(x.wf());
    lemma_with_enabled(x, !x.spec_enabled() && x.spec_can_download());
    let y = b.items@[i];
    lemma_with_enabled(y, !y.spec_enabled() && y.spec_can_download());
    assert(c.items@ =~= a.items@);
}

/// In a single-selection category with another downloadable child, toggling
/// the chosen child under the cursor chooses exactly one child instead: the
/// first other downloadable one, in order.
pub proof fn lemma_toggle_hands_over(a: Category, b: Category)
    requires
        a.wf(),
        a.single_selection,
        a.items@.len() > 0,
        a.cursor_item().spec_enabled(),
        exists|j: int|
            0 <= j < a.items@.len() && j != a.counter.index() && (#[trigger] a.items@[j]).spec_can_download(),
        Category::toggles_to(a, b),
    ensures
        ({
            let f = first_downloadable(a.items@, a.counter.index() as int, 0);
            &&& 0 <= f < b.items@.len()
            &&& f != a.counter.index()
            &&& b.items@[f].spec_enabled()
            &&& forall|j: int| 0 <= j < b.items@.len() && j != f ==> !(#[trigger] b.items@[j]).spec_enabled()
        }),
        enabled_count(b.items@) == 1,
{
    let s = a.items@;
    let i = a.counter.index() as int;
    let f = first_downloadable(s, i, 0);
    lemma_first_downloadable(s, i, 0);
    lemma_with_enabled(s[f], true);
    lemma_with_enabled(s[i], false);
    assert forall|j: int| 0 <= j < b.items@.len() && j != f implies !(#[trigger] b.items@[j]).spec_enabled() by {
        if j != i {
            assert(s[i].spec_enabled() && (s[j].spec_enabled() ==> false));
        }
    }
    lemma_count_nonneg(b.items@);
    lemma_count_nonneg(b.items@.remove(f));
    lemma_sum_remove_count(b.items@, f);
    assert forall|j: int| 0 <= j < b.items@.remove(f).len() implies !(#[trigger] b.items@.remove(f)[j]).spec_enabled() by {
        if j < f {
            assert(b.items@.remove(f)[j] == b.items@[j]);
        } else {
            assert(b.items@.remove(f)[j] == b.items@[j + 1]);
        }
    }
}

proof fn lemma_sum_remove_count(s: Seq<LibraryItem>, f: int)
    requires
        0 <= f < s.len(),
    ensures
        enabled_count(s) == enabled_count(s.remove(f)) + (if s[f].spec_enabled() { 1int } else { 0int }),
{
    lemma_sum_remove(s, f, |it: LibraryItem| if it.spec_enabled() { 1int } else { 0int });
}

/// No two items of a run have the same name.
pub open spec fn names_distinct(s: Seq<LibraryItem>) -> bool {
    forall|g: int, h: int|
        0 <= g < s.len() && 0 <= h < s.len() && g != h ==> #[trigger] s[g].spec_name() != #[trigger] s[h].spec_name()
}

/// No two items of a run have names that are equal up to the case of ASCII letters.
pub open spec fn names_distinct_ignoring_case(s: Seq<LibraryItem>) -> bool {
    forall|g: int, h: int|
        0 <= g < s.len() && 0 <= h < s.len() && g != h ==> !eq_ignore_case(
            #[trigger] s[g].spec_name(),
            #[trigger] s[h].spec_name(),
        )
}

proof fn lemma_eq_ignore_case_refl(a: Seq<char>)
    ensures
        eq_ignore_case(a, a),
{
}

/// Reordering a run keeps its names distinct.
proof fn lemma_names_distinct_permutation(x: Seq<LibraryItem>, y: Seq<LibraryItem>)
    requires
        names_distinct(x),
        x.to_multiset() == y.to_multiset(),
    ensures
        names_distinct(y),
{
    broadcast use vstd::seq_lib::group_to_multiset_ensures;

    assert forall|g: int, h: int|
        0 <= g < y.len() && 0 <= h < y.len() && g != h implies #[trigger] y[g].spec_name()
        != #[trigger] y[h].spec_name() by {
        if y[g].spec_name() == y[h].spec_name() {
            assert(y.to_multiset().count(y[g]) > 0) by {
                assert(y.contains(y[g]));
            }
            assert(x.contains(y[g]));
            let g2 = choose|k: int| 0 <= k < x.len() && x[k] == y[g];
            assert(x.remove(g2).to_multiset() == y.remove(g).to_multiset());
            let h1 = if h < g { h } else { h - 1 };
            assert(y.remove(g)[h1] == y[h]);
            assert(y.remove(g).contains(y[h]));
            assert(y.remove(g).to_multiset().count(y[h]) > 0);
            assert(x.remove(g2).contains(y[h]));
            let h2 = choose|k: int| 0 <= k < x.remove(g2).len() && x.remove(g2)[k] == y[h];
            let h3 = if h2 < g2 { h2 } else { h2 + 1 };
            assert(x[h3] == x.remove(g2)[h2]);
            assert(h3 != g2);
            assert(x[g2].spec_name() != x[h3].spec_name());
        }
    }
}

/// Two runs holding the same items, both in name order, with distinct names,
/// are the same run.
proof fn lemma_name_order_unique(x: Seq<LibraryItem>, y: Seq<LibraryItem>)
    requires
        x.to_multiset() == y.to_multiset(),
        sorted_by_style(x, SortStyle::Alphabetical),
        sorted_by_style(y, SortStyle::Alphabetical),
        names_distinct(x),
    ensures
        x == y,
    decreases x.len(),
{
    broadcast use vstd::seq_lib::group_to_multiset_ensures;

    if x.len() == 0 {
        assert(y.to_multiset().len() == 0);
        assert(y.len() == 0);
        assert(x =~= y);
    } else {
        assert(x.to_multiset().count(x[0]) > 0) by {
            assert(x.contains(x[0]));
        }
        assert(y.contains(x[0]));
        assert(y.len() > 0);
        assert(y.to_multiset().count(y[0]) > 0) by {
            assert(y.contains(y[0]));
        }
        assert(x.contains(y[0]));
        let i = choose|k: int| 0 <= k < x.len() && x[k] == y[0];
        let j = choose|k: int| 0 <= k < y.len() && y[k] == x[0];
        if i > 0 {
            assert(!text_less(x[i].spec_name(), x[0].spec_name()));
        }
        if j > 0 {
            assert(!text_less(y[j].spec_name(), y[0].spec_name()));
        }
        if x[0].spec_name() != y[0].spec_name() {
            lemma_text_less_total(x[0].spec_name(), y[0].spec_name());
            assert(false);
        }
        if i != 0 {
            assert(x[0].spec_name() != x[i].spec_name());
            assert(false);
        }
        assert(x[0] == y[0]);
        let x1 = x.drop_first();
        let y1 = y.drop_first();
        assert(x1 =~= x.remove(0));
        assert(y1 =~= y.remove(0));
        assert(x1.to_multiset() == y1.to_multiset());
        assert(names_distinct(x1)) by {
            assert forall|g: int, h: int| 0 <= g < x1.len() && 0 <= h < x1.len() && g != h implies #[trigger] x1[
                g].spec_name() != #[trigger] x1[h].spec_name() by {
                assert(x1[g] == x[g + 1] && x1[h] == x[h + 1]);
            }
        }
        assert(sorted_by_style(x1, SortStyle::Alphabetical)) by {
            assert forall|a: int, b: int| 0 <= a < b < x1.len() implies !goes_before(
                SortStyle::Alphabetical,
                #[trigger] x1[b],
                #[trigger] x1[a],
            ) by {
                assert(x1[a] == x[a + 1] && x1[b] == x[b + 1]);
            }
        }
        assert(sorted_by_style(y1, SortStyle::Alphabetical)) by {
            assert forall|a: int, b: int| 0 <= a < b < y1.len() implies !goes_before(
                SortStyle::Alphabetical,
                #[trigger] y1[b],
                #[trigger] y1[a],
            ) by {
                assert(y1[a] == y[a + 1] && y1[b] == y[b + 1]);
            }
        }
        lemma_name_order_unique(x1, y1);
        assert(x =~= y) by {
            assert forall|k: int| 0 <= k < x.len() implies x[k] == y[k] by {
                if k > 0 {
                    assert(x[k] == x1[k - 1] && y[k] == y1[k - 1]);
                }
            }
        }
    }
}

/// Sorting by name, then by size, then by name again gives back the order of
/// the first sort, where no two children have the same name.
pub proof fn lemma_sort_round_trip(c0: Category, c1: Category, c2: Category, c3: Category)
    requires
        names_distinct(c0.items@),
        sorts_to(c0, SortStyle::Alphabetical, c1),
        sorts_to(c1, SortStyle::Size, c2),
        sorts_to(c2, SortStyle::Alphabetical, c3),
    ensures
        c3.items@ == c1.items@,
{
    lemma_names_distinct_permutation(c0.items@, c1.items@);
    lemma_name_order_unique(c1.items@, c3.items@);
}

/// Where the cursor is not on the first row and no two children have names
/// equal up to ASCII case, sorting leaves the cursor on the child it was on.
pub proof fn lemma_sort_keeps_cursor_name(a: Category, style: SortStyle, b: Category)
    requires
        a.counter.len() == a.items@.len(),
        a.counter.index() < a.items@.len(),
        a.counter.index() != 0,
        names_distinct_ignoring_case(a.items@),
        sorts_to(a, style, b),
    ensures
        b.counter.index() < b.items@.len(),
        b.cursor_item() == a.cursor_item(),
{
    broadcast use vstd::seq_lib::group_to_multiset_ensures;

    let i0 = a.counter.index() as int;
    let x = a.items@[i0];
    let n = x.spec_name();
    assert(a.items@.to_multiset().count(x) > 0) by {
        assert(a.items@.contains(x));
    }
    assert(b.items@.contains(x));
    let j = choose|k: int| 0 <= k < b.items@.len() && b.items@[k] == x;
    lemma_first_with_name(b.items@, n, 0);
    lemma_eq_ignore_case_refl(n);
    let f = first_with_name(b.items@, n, 0);
    assert(f <= j);
    assert(b.items@.to_multiset().count(b.items@[f]) > 0) by {
        assert(b.items@.contains(b.items@[f]));
    }
    assert(a.items@.contains(b.items@[f]));
    let g = choose|k: int| 0 <= k < a.items@.len() && a.items@[k] == b.items@[f];
    if g != i0 {
        assert(!eq_ignore_case(a.items@[g].spec_name(), a.items@[i0].spec_name()));
    }
}

} // verus!
