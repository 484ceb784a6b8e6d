//! Building the tree: adding items, merging categories of the same name.

use vstd::prelude::*;

use crate::counter::StatefulListCounter;
use crate::library::{
    any_can_download, counters_reset, enables_to, lemma_any_pointwise, lemma_enables_to, lemma_with_enabled,
    Category, LibraryItem,
};
use crate::text::{eq_ignore_case, names_match};

verus! {

broadcast use vstd::std_specs::vec::axiom_vec_index_decreases;

/// The first position at or after `k` holding a category whose name equals
/// `name` up to the case of ASCII letters; the length of the run if none does.
pub open spec fn first_named(s: Seq<LibraryItem>, name: Seq<char>, k: int) -> int
    decreases s.len() - k,
{
    if k < 0 || k >= s.len() {
        s.len() as int
    } else if s[k] is Category && eq_ignore_case(s[k]->Category_0.name@, name) {
        k
    } else {
        first_named(s, name, k + 1)
    }
}

/// `r` is `c` with `it` appended to its children, a fresh cursor, and chosen
/// exactly when some child can be downloaded.
pub open spec fn appends_to(c: Category, it: LibraryItem, r: Category) -> bool {
    &&& r == (Category { items: r.items, counter: r.counter, enabled: any_can_download(r.items@), ..c })
    &&& r.items@ == c.items@.push(it)
    &&& r.counter.len() == r.items@.len()
    &&& r.counter.pos() is None
}

/// `r` is `c` after `item` was added to it. A document is appended. A category
/// without children changes nothing. A category whose name matches a child
/// category of `c` (ignoring ASCII case) has its children added one by one to
/// the first such child; any other category is appended. What is appended to a
/// non-empty single-selection category is dropped first, and in a
/// single-selection category the child merged into keeps its chosen flag.
/// Whenever the children change, `c` is chosen exactly when one of them can be
/// downloaded.
pub open spec fn adds_to(c: Category, item: LibraryItem, r: Category) -> bool
    decreases item,
{
    let it = if c.single_selection && c.items@.len() > 0 {
        item.with_enabled(false)
    } else {
        item
    };
    match item {
        LibraryItem::Document(_) => appends_to(c, it, r),
        LibraryItem::Category(ic) => if ic.items@.len() == 0 {
            r == c
        } else {
            let m = first_named(c.items@, ic.name@, 0);
            if m < c.items@.len() {
                &&& r == (Category { items: r.items, enabled: any_can_download(r.items@), ..c })
                &&& r.items@.len() == c.items@.len()
                &&& forall|j: int| 0 <= j < c.items@.len() && j != m ==> #[trigger] r.items@[j] == c.items@[j]
                &&& r.items@[m] is Category
                &&& exists|rm: Category|
                    #![trigger rm.items@]
                    adds_all_to(c.items@[m]->Category_0, ic.items@, rm) && r.items@[m]->Category_0 == (
                    if c.single_selection {
                        Category { enabled: c.items@[m]->Category_0.enabled, ..rm }
                    } else {
                        rm
                    })
            } else {
                appends_to(c, it, r)
            }
        },
    }
}

/// `r` is `c` after each item of `s` was added to it in turn.
pub open spec fn adds_all_to(c: Category, s: Seq<LibraryItem>, r: Category) -> bool
    decreases s,
{
    if s.len() == 0 {
        r == c
    } else {
        exists|mid: Category| #![trigger mid.items@] adds_all_to(c, s.drop_last(), mid) && adds_to(mid, s.last(), r)
    }
}

proof fn lemma_first_named(s: Seq<LibraryItem>, name: Seq<char>, k: int)
    requires
        0 <= k <= s.len(),
    ensures
        k <= first_named(s, name, k) <= s.len(),
        first_named(s, name, k) < s.len() ==> {
            let m = first_named(s, name, k);
            s[m] is Category && eq_ignore_case(s[m]->Category_0.name@, name)
        },
        forall|j: int|
            k <= j < first_named(s, name, k) ==> !(#[trigger] s[j] is Category && eq_ignore_case(
                s[j]->Category_0.name@,
                name,
            )),
    decreases s.len() - k,
{
    if k < s.len() {
        lemma_first_named(s, name, k + 1);
    }
}

/// Runs whose items are downloadable wherever those of another run are.
proof fn lemma_any_monotone(a: Seq<LibraryItem>, b: Seq<LibraryItem>)
    requires
        a.len() == b.len(),
        forall|i: int| 0 <= i < a.len() && #[trigger] a[i].spec_can_download() ==> b[i].spec_can_download(),
    ensures
        any_can_download(a) ==> any_can_download(b),
    decreases a.len(),
{
    if a.len() > 0 {
        lemma_any_monotone(a.drop_last(), b.drop_last());
        assert(a.last().spec_can_download() ==> b.last().spec_can_download());
    }
}

proof fn lemma_appends_to(c: Category, it: LibraryItem, r: Category)
    requires
        appends_to(c, it, r),
        c.wf(),
        it.wf(),
        c.single_selection && c.items@.len() > 0 ==> !it.spec_enabled(),
    ensures
        r.wf(),
        any_can_download(c.items@) ==> any_can_download(r.items@),
{
    assert(r.items@.drop_last() =~= c.items@);
    assert forall|j: int| 0 <= j < r.items@.len() implies (#[trigger] r.items@[j]).wf() by {
        if j < c.items@.len() {
            assert(c.items@[j].wf());
        }
    }
    if c.single_selection {
        assert forall|a: int, b: int|
            #![trigger r.items@[a].spec_enabled(), r.items@[b].spec_enabled()]
            0 <= a < r.items@.len() && 0 <= b < r.items@.len() && a != b && r.items@[a].spec_enabled()
                implies !r.items@[b].spec_enabled() by {
            if a < c.items@.len() && b < c.items@.len() {
                assert(c.items@[a] == r.items@[a]);
                assert(c.items@[b] == r.items@[b]);
            }
        }
    }
}

/// A category whose child at `m`, a category, was replaced by a well-formed
/// category with no fewer downloadable items (and, under single selection, the
/// same chosen flag) stays well formed when its own flag is recomputed.
proof fn lemma_child_replaced(c: Category, m: int, r: Category)
    requires
        c.wf(),
        0 <= m < c.items@.len(),
        c.items@[m] is Category,
        r == (Category { items: r.items, enabled: any_can_download(r.items@), ..c }),
        r.items@.len() == c.items@.len(),
        forall|j: int| 0 <= j < c.items@.len() && j != m ==> #[trigger] r.items@[j] == c.items@[j],
        r.items@[m] is Category,
        r.items@[m]->Category_0.wf(),
        c.single_selection ==> r.items@[m]->Category_0.enabled == c.items@[m]->Category_0.enabled,
        any_can_download(c.items@[m]->Category_0.items@) ==> any_can_download(r.items@[m]->Category_0.items@),
    ensures
        r.wf(),
        any_can_download(c.items@) ==> any_can_download(r.items@),
{
    assert forall|j: int| 0 <= j < r.items@.len() implies {
        &&& (#[trigger] r.items@[j]).wf()
        &&& (c.single_selection ==> r.items@[j].spec_enabled() == c.items@[j].spec_enabled())
        &&& c.items@[j].spec_can_download() ==> r.items@[j].spec_can_download()
    } by {
        assert(c.items@[j].wf());
    }
    lemma_any_monotone(c.items@, r.items@);
    if c.single_selection {
        assert forall|a: int, b: int|
            #![trigger r.items@[a].spec_enabled(), r.items@[b].spec_enabled()]
            0 <= a < r.items@.len() && 0 <= b < r.items@.len() && a != b && r.items@[a].spec_enabled()
                implies !r.items@[b].spec_enabled() by {
            assert(r.items@[a].spec_enabled() == c.items@[a].spec_enabled());
            assert(r.items@[b].spec_enabled() == c.items@[b].spec_enabled());
        }
    }
    assert(r.local_wf());
}

impl Category {
    /// Adds an item to this category. A document is appended. A category
    /// without children is discarded. A category whose name matches that of a
    /// child category, ignoring ASCII case, is merged into the first such child
    /// by adding its children one by one; any other category is appended. In a
    /// non-empty single-selection category the appended item is dropped first.
    pub fn add(&mut self, item: LibraryItem)
        requires
            old(self).wf(),
            item.wf(),
        ensures
            adds_to(*old(self), item, *final(self)),
            final(self).wf(),
            final(self).name == old(self).name,
            final(self).single_selection == old(self).single_selection,
            item is Category && item->Category_0.items@.len() == 0 ==> *final(self) == *old(self),
            !(item is Category && item->Category_0.items@.len() == 0) ==> final(self).enabled
                == any_can_download(final(self).items@),
            any_can_download(old(self).items@) ==> any_can_download(final(self).items@),
        decreases item,
    {
        let ghost c0 = *self;
        let ghost item0 = item;
        let single_selection = self.single_selection;
        let mut item = item;
        if self.single_selection && self.items.len() > 0 {
            item.set_enabled(false);
        }
        proof {
            lemma_with_enabled(item0, false);
        }
        if item.is_document() {
            self.items.push(item);
            self.counter = StatefulListCounter::new(self.items.len());
        } else {
            match item {
                LibraryItem::Document(_) => {},
                LibraryItem::Category(category) => {
                    if category.items.len() == 0 {
                        return;
                    }
                    let ghost ic = item0->Category_0;
                    let ghost m = first_named(c0.items@, ic.name@, 0);
                    proof {
                        lemma_first_named(c0.items@, ic.name@, 0);
                    }
                    let len = self.items.len();
                    let mut j: usize = 0;
                    while j < len
                        invariant
                            *self == c0,
                            len == c0.items@.len(),
                            category.name == ic.name,
                            j <= m <= len,
                            m == first_named(c0.items@, ic.name@, 0),
                            forall|x: int|
                                0 <= x < m ==> !(#[trigger] c0.items@[x] is Category && eq_ignore_case(
                                    c0.items@[x]->Category_0.name@,
                                    ic.name@,
                                )),
                            m < len ==> c0.items@[m] is Category && eq_ignore_case(
                                c0.items@[m]->Category_0.name@,
                                ic.name@,
                            ),
                        ensures
                            j == m,
                        decreases len - j,
                    {
                        let hit = match &self.items[j] {
                            LibraryItem::Document(_) => false,
                            LibraryItem::Category(cat) => names_match(cat.name.as_str(), category.name.as_str()),
                        };
                        if hit {
                            break;
                        }
                        j = j + 1;
                    }
                    if j < len {
                        proof {
                            assert(c0.items@[j as int].wf());
                            assert forall|i: int| 0 <= i < category.items@.len() implies (
                            #[trigger] category.items@[i]).wf() by {
                                assert(ic.items@[i].wf());
                            }
                            assert(decreases_to!(item0 => item0->Category_0));
                            assert(decreases_to!(ic => ic.items));
                        }
                        match &mut self.items[j] {
                            LibraryItem::Document(_) => {},
                            LibraryItem::Category(merge) => {
                                let was = merge.enabled;
                                merge_into(merge, category.items);
                                if single_selection {
                                    proof {
                                        lemma_with_enabled(LibraryItem::Category(*merge), was);
                                        assert(Category { enabled: was, ..*merge } == (LibraryItem::Category(
                                            *merge,
                                        ).with_enabled(was))->Category_0);
                                    }
                                    merge.enabled = was;
                                }
                            },
                        }
                    } else {
                        self.items.push(LibraryItem::Category(category));
                        self.counter = StatefulListCounter::new(self.items.len());
                    }
                },
            }
        }
        self.enabled = self.can_download();
        proof {
            let it = if c0.single_selection && c0.items@.len() > 0 {
                item0.with_enabled(false)
            } else {
                item0
            };
            if let LibraryItem::Category(ic) = item0 {
                if ic.items@.len() > 0 {
                    let m = first_named(c0.items@, ic.name@, 0);
                    if m < c0.items@.len() {
                        assert(c0.items@[m].wf());
                        lemma_child_replaced(c0, m, *self);
                    } else {
                        lemma_appends_to(c0, it, *self);
                    }
                }
            } else {
                lemma_appends_to(c0, it, *self);
            }
        }
    }
}

/// Adds each of `items` in turn to `target`.
fn merge_into(target: &mut Category, items: Vec<LibraryItem>)
    requires
        old(target).wf(),
        forall|i: int| 0 <= i < items@.len() ==> (#[trigger] items@[i]).wf(),
    ensures
        adds_all_to(*old(target), items@, *final(target)),
        final(target).wf(),
        final(target).name == old(target).name,
        final(target).single_selection == old(target).single_selection,
        any_can_download(old(target).items@) ==> any_can_download(final(target).items@),
    decreases items,
{
    let ghost all = items@;
    let ghost t0 = *target;
    let mut rest = items;
    let ghost mut k: int = 0;
    proof {
        assert(all.take(0).len() == 0);
        assert(rest@ =~= all.skip(0));
    }
    while rest.len() > 0
        invariant
            0 <= k <= all.len(),
            rest@ == all.skip(k),
            all == items@,
            adds_all_to(t0, all.take(k), *target),
            target.wf(),
            target.name == t0.name,
            target.single_selection == t0.single_selection,
            any_can_download(t0.items@) ==> any_can_download(target.items@),
            forall|i: int| 0 <= i < all.len() ==> (#[trigger] all[i]).wf(),
        decreases rest@.len(),
    {
        let next = rest.remove(0);
        proof {
            assert(next == all[k]);
            assert(decreases_to!(items => items@));
            assert(decreases_to!(items@ => items@[k]));
        }
        let ghost before = *target;
        target.add(next);
        proof {
            assert(all.take(k + 1).drop_last() =~= all.take(k));
            assert(all.take(k + 1).last() == all[k]);
            assert(adds_all_to(t0, all.take(k + 1).drop_last(), before));
            assert(any_can_download(t0.items@) ==> any_can_download(before.items@));
            k = k + 1;
            assert(rest@ =~= all.skip(k));
        }
    }
    proof {
        assert(all.take(k) =~= all);
    }
}

/// Builds a catalog named `name` from `items`: each is added in turn, every
/// cursor is reset, and every item below the root is chosen exactly when it can
/// be downloaded (children of single-selection categories keep their state).
pub fn build_library(name: String, items: Vec<LibraryItem>) -> (r: Category)
    requires
        forall|i: int| 0 <= i < items@.len() ==> (#[trigger] items@[i]).wf(),
    ensures
        r.wf(),
        r.name == name,
        !r.single_selection,
        exists|start: Category, merged: Category, reset: Category|
            #![trigger adds_all_to(start, items@, merged), counters_reset(merged, reset)]
            {
                &&& start.name == name
                &&& start.items@.len() == 0
                &&& !start.single_selection
                &&& !start.enabled
                &&& adds_all_to(start, items@, merged)
                &&& counters_reset(merged, reset)
                &&& r == (Category { items: r.items, ..reset })
                &&& r.items@.len() == reset.items@.len()
                &&& forall|i: int| 0 <= i < r.items@.len() ==> enables_to(#[trigger] reset.items@[i], r.items@[i])
            },
{
    let mut root = Category::new(name, Vec::new(), false);
    let ghost start = root;
    proof {
        assert(start.items@ =~= Seq::<LibraryItem>::empty());
        assert(!any_can_download(start.items@));
    }
    merge_into(&mut root, items);
    let ghost merged = root;
    root.fix_counter();
    let ghost reset = root;
    let mut i: usize = 0;
    while i < root.items.len()
        invariant
            reset.wf(),
            root == (Category { items: root.items, ..reset }),
            i <= root.items@.len(),
            root.items@.len() == reset.items@.len(),
            forall|j: int| 0 <= j < i ==> enables_to(#[trigger] reset.items@[j], root.items@[j]),
            forall|j: int| i <= j < root.items@.len() ==> #[trigger] root.items@[j] == reset.items@[j],
        decreases root.items@.len() - i,
    {
        root.items[i].set_enabled_recursive();
        i = i + 1;
    }
    proof {
        assert forall|j: int| 0 <= j < root.items@.len() implies {
            &&& (#[trigger] root.items@[j]).wf()
            &&& root.items@[j].spec_can_download() == reset.items@[j].spec_can_download()
        } by {
            assert(reset.items@[j].wf());
            lemma_enables_to(reset.items@[j], root.items@[j]);
            assert(!reset.single_selection);
        }
        lemma_any_pointwise(root.items@, reset.items@);
        assert(root.local_wf());
    }
    root
}

} // verus!
