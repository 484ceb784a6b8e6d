//! Resolving the user's depth to a category, and replacing categories inside the tree.

use vstd::prelude::*;

use crate::library::{
    any_can_download, items_size, lemma_any_pointwise, lemma_item_within_run, lemma_size_pointwise, populated,
    Category, LibraryItem,
};

verus! {

broadcast use vstd::std_specs::vec::axiom_vec_index_decreases;

impl Category {
    /// The child under the cursor.
    pub open spec fn cursor_item(&self) -> LibraryItem {
        self.items@[self.counter.index() as int]
    }

    /// The child under the cursor is a category.
    pub open spec fn spec_selected_is_category(&self) -> bool {
        self.cursor_item() is Category
    }

    /// The child under the cursor is a category that holds documents only.
    pub open spec fn spec_selected_last(&self) -> bool {
        &&& self.cursor_item() is Category
        &&& forall|i: int|
            0 <= i < self.cursor_item()->Category_0.items@.len() ==> (
            #[trigger] self.cursor_item()->Category_0.items@[i]) is Document
    }

    /// Resolving `depth` from here only visits categories whose cursor lies on a child.
    pub open spec fn navigable(&self, depth: int) -> bool
        decreases self,
    {
        depth <= 0 || {
            &&& self.counter.index() < self.items@.len()
            &&& (self.spec_selected_last() || !self.spec_selected_is_category() || {
                proof {
                    assert(decreases_to!(self => self.items));
                    assert(decreases_to!(self.items => self.items@));
                    assert(decreases_to!(self.items@ => self.cursor_item()));
                    assert(decreases_to!(self.cursor_item() => self.cursor_item()->Category_0));
                }
                self.cursor_item()->Category_0.navigable(depth - 1)
            })
        }
    }

    /// The positions followed from here when resolving `depth`: down through the
    /// child under each cursor while depth remains and that child is a category
    /// that is not a last one.
    pub open spec fn selection_path(&self, depth: int) -> Seq<int>
        decreases self,
    {
        if depth <= 0 || self.counter.index() >= self.items@.len() || self.spec_selected_last()
            || !self.spec_selected_is_category() {
            Seq::empty()
        } else {
            proof {
                assert(decreases_to!(self => self.items));
                assert(decreases_to!(self.items => self.items@));
                assert(decreases_to!(self.items@ => self.cursor_item()));
                assert(decreases_to!(self.cursor_item() => self.cursor_item()->Category_0));
            }
            seq![self.counter.index() as int] + self.cursor_item()->Category_0.selection_path(depth - 1)
        }
    }

    /// The depth left over where resolution stops: what remains at a last
    /// category or at depth zero, one more than what remains at a document.
    pub open spec fn selection_rest(&self, depth: int) -> int
        decreases self,
    {
        if depth <= 0 || self.counter.index() >= self.items@.len() || self.spec_selected_last() {
            depth
        } else if self.spec_selected_is_category() {
            proof {
                assert(decreases_to!(self => self.items));
                assert(decreases_to!(self.items => self.items@));
                assert(decreases_to!(self.items@ => self.cursor_item()));
                assert(decreases_to!(self.cursor_item() => self.cursor_item()->Category_0));
            }
            self.cursor_item()->Category_0.selection_rest(depth - 1)
        } else {
            depth + 1
        }
    }
}

/// The category reached from `c` by following `path`.
pub open spec fn node_at(c: Category, path: Seq<int>) -> Category
    decreases path.len(),
{
    if path.len() == 0 {
        c
    } else {
        node_at(c.items@[path[0]]->Category_0, path.drop_first())
    }
}

/// `r` is `c` with the category at `path` replaced by `new`.
pub open spec fn replaced_at(c: Category, path: Seq<int>, new: Category, r: Category) -> bool
    decreases path.len(),
{
    if path.len() == 0 {
        r == new
    } else {
        let p = path[0];
        &&& r == (Category { items: r.items, ..c })
        &&& r.items@.len() == c.items@.len()
        &&& forall|j: int| 0 <= j < c.items@.len() && j != p ==> #[trigger] r.items@[j] == c.items@[j]
        &&& 0 <= p < c.items@.len()
        &&& c.items@[p] is Category
        &&& r.items@[p] is Category
        &&& replaced_at(c.items@[p]->Category_0, path.drop_first(), new, r.items@[p]->Category_0)
    }
}

impl LibraryItem {
    /// The category that this item holds; the item must be a category.
    pub fn category_mut(&mut self) -> (r: &mut Category)
        requires
            *old(self) is Category,
        ensures
            *r == (*old(self))->Category_0,
            *final(self) == LibraryItem::Category(*final(r)),
    {
        match self {
            LibraryItem::Category(cat) => cat,
            LibraryItem::Document(_) => {
                let missing: Option<&mut Category> = None;
                missing.unwrap()
            },
        }
    }
}

impl Category {
    /// Whether the child under the cursor is a category.
    pub fn is_selected_category(&self) -> (r: bool)
        requires
            self.counter.index() < self.items@.len(),
        ensures
            r == self.spec_selected_is_category(),
    {
        let index = self.counter.current();
        match &self.items[index] {
            LibraryItem::Document(_) => false,
            LibraryItem::Category(_) => true,
        }
    }

    /// Whether the child under the cursor is a category holding documents only.
    pub fn is_selected_last(&self) -> (r: bool)
        requires
            self.counter.index() < self.items@.len(),
        ensures
            r == self.spec_selected_last(),
    {
        let index = self.counter.current();
        match &self.items[index] {
            LibraryItem::Document(_) => false,
            LibraryItem::Category(cat) => {
                let mut i: usize = 0;
                while i < cat.items.len()
                    invariant
                        self.cursor_item() == LibraryItem::Category(*cat),
                        i <= cat.items@.len(),
                        forall|j: int| 0 <= j < i ==> (#[trigger] cat.items@[j]) is Document,
                    decreases cat.items@.len() - i,
                {
                    if !cat.items[i].is_document() {
                        return false;
                    }
                    i = i + 1;
                }
                true
            },
        }
    }

    /// The depth left over when resolving `depth` from here; see `selection_rest`.
    pub(crate) fn selected_rest(&self, depth: usize) -> (r: usize)
        requires
            self.navigable(depth as int),
            depth < usize::MAX,
        ensures
            r == self.selection_rest(depth as int),
        decreases self,
    {
        if depth == 0 || self.is_selected_last() {
            depth
        } else if self.is_selected_category() {
            let index = self.counter.current();
            match &self.items[index] {
                LibraryItem::Category(cat) => cat.selected_rest(depth - 1),
                LibraryItem::Document(_) => depth + 1,
            }
        } else {
            depth + 1
        }
    }

    /// Follows the cursors down from here for `depth` levels and returns the
    /// category reached with the depth left over; see `selection_path` and
    /// `selection_rest`.
    pub fn get_selected_category(&mut self, depth: usize) -> (ret: (&mut Self, usize))
        requires
            old(self).navigable(depth as int),
            depth < usize::MAX,
        ensures
            *ret.0 == node_at(*old(self), old(self).selection_path(depth as int)),
            ret.1 == old(self).selection_rest(depth as int),
            replaced_at(*old(self), old(self).selection_path(depth as int), *final(ret.0), *final(self)),
        decreases *old(self),
    {
        if depth == 0 || self.is_selected_last() {
            (self, depth)
        } else if self.is_selected_category() {
            let index = self.counter.current();
            let ghost c0 = *self;
            proof {
                assert(decreases_to!(c0 => c0.items));
                assert(decreases_to!(c0.items => c0.items@));
                assert(decreases_to!(c0.items@ => c0.items@[index as int]));
                assert(decreases_to!(c0.items@[index as int] => c0.items@[index as int]->Category_0));
            }
            let ghost p = c0.items@[index as int]->Category_0.selection_path(depth - 1);
            proof {
                assert((seq![index as int] + p).drop_first() =~= p);
            }
            let r = self.items[index].category_mut().get_selected_category(depth - 1);
            r
        } else {
            (self, depth + 1)
        }
    }
}

/// A well-formed populated category can resolve any depth.
pub proof fn lemma_navigable(c: Category, depth: int)
    requires
        c.wf(),
        populated(c),
    ensures
        c.navigable(depth),
    decreases c,
{
    if depth > 0 {
        let i = c.counter.index() as int;
        assert(c.items@[i].wf());
        if c.spec_selected_is_category() && !c.spec_selected_last() {
            assert(decreases_to!(c => c.items));
            assert(decreases_to!(c.items => c.items@));
            assert(decreases_to!(c.items@ => c.items@[i]));
            assert(decreases_to!(c.items@[i] => c.items@[i]->Category_0));
            lemma_navigable(c.items@[i]->Category_0, depth - 1);
        }
    }
}

/// The category that resolving a depth reaches is well formed, populated, and
/// no larger than the tree.
pub proof fn lemma_selection_node(c: Category, depth: int)
    requires
        c.wf(),
        populated(c),
        depth >= 0,
    ensures
        node_at(c, c.selection_path(depth)).wf(),
        populated(node_at(c, c.selection_path(depth))),
        items_size(node_at(c, c.selection_path(depth)).items@, false) <= items_size(c.items@, false),
        c.selection_rest(depth) != 0 && !node_at(c, c.selection_path(depth)).spec_selected_last() ==> !node_at(
            c,
            c.selection_path(depth),
        ).spec_selected_is_category(),
        0 <= c.selection_rest(depth) <= depth + 1,
    decreases c,
{
    let i = c.counter.index() as int;
    if depth > 0 && c.spec_selected_is_category() && !c.spec_selected_last() {
        let child = c.items@[i]->Category_0;
        assert(c.items@[i].wf());
        assert(decreases_to!(c => c.items));
        assert(decreases_to!(c.items => c.items@));
        assert(decreases_to!(c.items@ => c.items@[i]));
        assert(decreases_to!(c.items@[i] => c.items@[i]->Category_0));
        lemma_selection_node(child, depth - 1);
        let p = c.selection_path(depth);
        assert(p.drop_first() =~= child.selection_path(depth - 1));
        lemma_item_within_run(c.items@, i);
    }
}

/// Replacing a category inside a tree by one with the same flags, sizes and
/// downloadability keeps the tree well formed and populated.
pub proof fn lemma_replaced_at(c: Category, path: Seq<int>, new: Category, r: Category)
    requires
        c.wf(),
        populated(c),
        replaced_at(c, path, new, r),
        new.wf(),
        populated(new),
        new.enabled == node_at(c, path).enabled,
        any_can_download(new.items@) == any_can_download(node_at(c, path).items@),
        items_size(new.items@, false) == items_size(node_at(c, path).items@, false),
    ensures
        r.wf(),
        populated(r),
        r.enabled == c.enabled,
        any_can_download(r.items@) == any_can_download(c.items@),
        items_size(r.items@, false) == items_size(c.items@, false),
    decreases path.len(),
{
    if path.len() > 0 {
        let p = path[0];
        let cp = c.items@[p]->Category_0;
        let rp = r.items@[p]->Category_0;
        assert(c.items@[p].wf());
        lemma_replaced_at(cp, path.drop_first(), new, rp);
        lemma_child_updated(c, p, r);
    }
}

/// A category whose child at `m` was replaced by a category with the same
/// flags, sizes and downloadability, well formed and populated, stays so too.
pub proof fn lemma_child_updated(c: Category, m: int, r: Category)
    requires
        c.wf(),
        populated(c),
        0 <= m < c.items@.len(),
        c.items@[m] is Category,
        r == (Category { items: r.items, counter: r.counter, ..c }),
        r.counter.len() == c.counter.len(),
        r.counter.wf(),
        r.items@.len() == c.items@.len(),
        forall|j: int| 0 <= j < c.items@.len() && j != m ==> #[trigger] r.items@[j] == c.items@[j],
        r.items@[m] is Category,
        r.items@[m]->Category_0.wf(),
        populated(r.items@[m]->Category_0),
        r.items@[m]->Category_0.enabled == c.items@[m]->Category_0.enabled,
        any_can_download(r.items@[m]->Category_0.items@) == any_can_download(c.items@[m]->Category_0.items@),
        items_size(r.items@[m]->Category_0.items@, false) == items_size(c.items@[m]->Category_0.items@, false),
    ensures
        r.wf(),
        populated(r),
        any_can_download(r.items@) == any_can_download(c.items@),
        items_size(r.items@, false) == items_size(c.items@, false),
{
    assert forall|j: int| 0 <= j < r.items@.len() implies {
        &&& (#[trigger] r.items@[j]).wf()
        &&& r.items@[j].spec_enabled() == c.items@[j].spec_enabled()
        &&& r.items@[j].spec_can_download() == c.items@[j].spec_can_download()
        &&& r.items@[j].spec_size(false) == c.items@[j].spec_size(false)
        &&& (r.items@[j] is Category ==> populated(r.items@[j]->Category_0))
    } by {
        assert(c.items@[j].wf());
    }
    lemma_any_pointwise(r.items@, c.items@);
    lemma_size_pointwise(r.items@, c.items@);
    if c.single_selection {
        assert forall|a: int, b: int|
            #![trigger r.items@[a].spec_enabled(), r.items@[b].spec_enabled()]
            0 <= a < r.items@.len() && 0 <= b < r.items@.len() && a != b && r.items@[a].spec_enabled()
                implies !r.items@[b].spec_enabled() by {
            assert(r.items@[a].spec_enabled() == c.items@[a].spec_enabled());
            assert(r.items@[b].spec_enabled() == c.items@[b].spec_enabled());
        }
    }
    assert(r.local_wf());
}

/// Reordering the children of a populated category keeps it populated.
pub proof fn lemma_populated_permuted(a: Category, b: Category)
    requires
        populated(a),
        b.items@.to_multiset() == a.items@.to_multiset(),
    ensures
        populated(b),
{
    broadcast use vstd::seq_lib::group_to_multiset_ensures;

    assert(b.items@.len() == a.items@.len()) by {
        assert(b.items@.to_multiset().len() == b.items@.len());
        assert(a.items@.to_multiset().len() == a.items@.len());
    }
    assert forall|k: int| 0 <= k < b.items@.len() && (#[trigger] b.items@[k]) is Category implies populated(
        b.items@[k]->Category_0,
    ) by {
        assert(b.items@.contains(b.items@[k]));
        assert(b.items@.to_multiset().count(b.items@[k]) > 0);
        assert(a.items@.contains(b.items@[k]));
        let j = choose|j: int| 0 <= j < a.items@.len() && a.items@[j] == b.items@[k];
        assert(a.items@[j] is Category);
    }
}

/// Following one more step into the child at `idx` of the replaced category.
pub proof fn lemma_replaced_at_extend(
    c: Category,
    path: Seq<int>,
    idx: int,
    n1: Category,
    child: Category,
    r: Category,
)
    requires
        replaced_at(c, path, n1, r),
        0 <= idx < node_at(c, path).items@.len(),
        node_at(c, path).items@[idx] is Category,
        n1 == (Category { items: n1.items, ..node_at(c, path) }),
        n1.items@ == node_at(c, path).items@.update(idx, LibraryItem::Category(child)),
    ensures
        replaced_at(c, path.push(idx), child, r),
        node_at(c, path.push(idx)) == node_at(c, path).items@[idx]->Category_0,
    decreases path.len(),
{
    reveal_with_fuel(replaced_at, 2);
    reveal_with_fuel(node_at, 2);
    if path.len() == 0 {
        assert(path.push(idx).drop_first() =~= Seq::<int>::empty());
        assert(path.push(idx)[0] == idx);
    } else {
        let p = path[0];
        assert(path.push(idx).drop_first() =~= path.drop_first().push(idx));
        assert(path.push(idx)[0] == p);
        lemma_replaced_at_extend(
            c.items@[p]->Category_0,
            path.drop_first(),
            idx,
            n1,
            child,
            r.items@[p]->Category_0,
        );
    }
}

} // verus!
