//! Ordering the children of a category, by name or by chosen size.

use vstd::prelude::*;

use crate::app::SortStyle;
use crate::library::{
    any_can_download, at_most_one_enabled, items_size, lemma_item_within_run, Category, LibraryItem,
};
use crate::text::{
    eq_ignore_case, lemma_text_less_irreflexive, lemma_text_less_total, lemma_text_less_transitive, name_less,
    names_match, text_less,
};

verus! {

broadcast use vstd::std_specs::vec::axiom_vec_index_decreases;

/// The sum of `f` over a run of items.
pub open spec fn sum_of(s: Seq<LibraryItem>, f: spec_fn(LibraryItem) -> int) -> int
    decreases s.len(),
{
    if s.len() == 0 {
        0
    } else {
        sum_of(s.drop_last(), f) + f(s.last())
    }
}

/// The number of chosen items in a run.
pub open spec fn enabled_count(s: Seq<LibraryItem>) -> int {
    sum_of(s, |it: LibraryItem| if it.spec_enabled() { 1int } else { 0int })
}

proof fn lemma_sum_concat(a: Seq<LibraryItem>, b: Seq<LibraryItem>, f: spec_fn(LibraryItem) -> int)
    ensures
        sum_of(a + b, f) == sum_of(a, f) + sum_of(b, f),
    decreases b.len(),
{
    if b.len() == 0 {
        assert(a + b =~= a);
    } else {
        assert((a + b).drop_last() =~= a + b.drop_last());
        lemma_sum_concat(a, b.drop_last(), f);
    }
}

pub(crate) proof fn lemma_sum_remove(s: Seq<LibraryItem>, i: int, f: spec_fn(LibraryItem) -> int)
    requires
        0 <= i < s.len(),
    ensures
        sum_of(s, f) == sum_of(s.remove(i), f) + f(s[i]),
{
    let a = s.subrange(0, i);
    let b = s.subrange(i + 1, s.len() as int);
    assert(s =~= a + seq![s[i]] + b);
    assert(s.remove(i) =~= a + b);
    lemma_sum_concat(a + seq![s[i]], b, f);
    lemma_sum_concat(a, seq![s[i]], f);
    lemma_sum_concat(a, b, f);
    assert(seq![s[i]].drop_last() =~= Seq::<LibraryItem>::empty());
    assert(sum_of(Seq::<LibraryItem>::empty(), f) == 0);
    assert(sum_of(seq![s[i]], f) == f(s[i]));
}

/// Runs holding the same items, in any order, have the same sum.
pub(crate) proof fn lemma_sum_permutation(a: Seq<LibraryItem>, b: Seq<LibraryItem>, f: spec_fn(LibraryItem) -> int)
    requires
        a.to_multiset() == b.to_multiset(),
    ensures
        sum_of(a, f) == sum_of(b, f),
    decreases a.len(),
{
    broadcast use vstd::seq_lib::group_to_multiset_ensures;

    if a.len() == 0 {
        assert(b.to_multiset().len() == 0);
        assert(b.len() == 0);
    } else {
        let x = a.last();
        assert(a.to_multiset().count(x) > 0) by {
            assert(a.contains(x)) by {
                assert(a[a.len() - 1] == x);
            }
        }
        assert(b.contains(x));
        let j = choose|j: int| 0 <= j < b.len() && b[j] == x;
        assert(a.drop_last() =~= a.remove(a.len() - 1));
        assert(a.drop_last().to_multiset() == b.remove(j).to_multiset());
        lemma_sum_permutation(a.drop_last(), b.remove(j), f);
        lemma_sum_remove(b, j, f);
    }
}

pub(crate) proof fn lemma_items_size_is_sum(s: Seq<LibraryItem>, enabled_only: bool)
    ensures
        items_size(s, enabled_only) == sum_of(s, |it: LibraryItem| it.spec_size(enabled_only)),
    decreases s.len(),
{
    if s.len() > 0 {
        lemma_items_size_is_sum(s.drop_last(), enabled_only);
    }
}

proof fn lemma_any_is_sum(s: Seq<LibraryItem>)
    ensures
        any_can_download(s) == (sum_of(s, |it: LibraryItem| if it.spec_can_download() { 1int } else { 0int })
            > 0),
        sum_of(s, |it: LibraryItem| if it.spec_can_download() { 1int } else { 0int }) >= 0,
    decreases s.len(),
{
    if s.len() > 0 {
        lemma_any_is_sum(s.drop_last());
    }
}

pub(crate) proof fn lemma_count_nonneg(s: Seq<LibraryItem>)
    ensures
        enabled_count(s) >= 0,
        enabled_count(s) == 0 <==> forall|i: int| 0 <= i < s.len() ==> !(#[trigger] s[i]).spec_enabled(),
    decreases s.len(),
{
    if s.len() > 0 {
        lemma_count_nonneg(s.drop_last());
        if enabled_count(s) == 0 {
            assert forall|i: int| 0 <= i < s.len() implies !(#[trigger] s[i]).spec_enabled() by {
                if i < s.len() - 1 {
                    assert(s.drop_last()[i] == s[i]);
                }
            }
        }
        if forall|i: int| 0 <= i < s.len() ==> !(#[trigger] s[i]).spec_enabled() {
            assert forall|i: int| 0 <= i < s.drop_last().len() implies !(#[trigger] s.drop_last()[i]).spec_enabled() by {
                assert(s[i] == s.drop_last()[i]);
            }
            assert(!s[s.len() - 1].spec_enabled());
        }
    }
}

/// At most one chosen item is the same as a count of chosen items of at most one.
pub proof fn lemma_at_most_one_is_count(s: Seq<LibraryItem>)
    ensures
        at_most_one_enabled(s) <==> enabled_count(s) <= 1,
    decreases s.len(),
{
    lemma_count_nonneg(s);
    if s.len() > 0 {
        let d = s.drop_last();
        let n = s.len() - 1;
        lemma_at_most_one_is_count(d);
        lemma_count_nonneg(d);
        if at_most_one_enabled(s) {
            assert(at_most_one_enabled(d)) by {
                assert forall|a: int, b: int|
                    #![trigger d[a].spec_enabled(), d[b].spec_enabled()]
                    0 <= a < d.len() && 0 <= b < d.len() && a != b && d[a].spec_enabled()
                        implies !d[b].spec_enabled() by {
                    assert(s[a] == d[a] && s[b] == d[b]);
                    assert(s[a].spec_enabled() && (s[b].spec_enabled() ==> false));
                }
            }
            if s[n].spec_enabled() {
                assert forall|i: int| 0 <= i < d.len() implies !(#[trigger] d[i]).spec_enabled() by {
                    assert(s[i] == d[i]);
                    assert(s[n].spec_enabled() && (s[i].spec_enabled() ==> false));
                }
            }
        }
        if enabled_count(s) <= 1 {
            assert forall|a: int, b: int|
                #![trigger s[a].spec_enabled(), s[b].spec_enabled()]
                0 <= a < s.len() && 0 <= b < s.len() && a != b && s[a].spec_enabled() implies !s[b].spec_enabled() by {
                if s[b].spec_enabled() {
                    if a == n {
                        assert(d[b] == s[b]);
                    } else if b == n {
                        assert(d[a] == s[a]);
                    } else {
                        assert(d[a] == s[a] && d[b] == s[b]);
                        assert(!at_most_one_enabled(d));
                    }
                }
            }
        }
    }
}

/// What sorting by size compares: the chosen size of the item, which is zero
/// for an item that is not chosen.
pub open spec fn size_key(it: LibraryItem) -> int {
    it.spec_size(true)
}

/// `a` is listed strictly before `b` in `style`.
pub open spec fn goes_before(style: SortStyle, a: LibraryItem, b: LibraryItem) -> bool {
    match style {
        SortStyle::Alphabetical => text_less(a.spec_name(), b.spec_name()),
        SortStyle::Size => size_key(a) > size_key(b),
    }
}

/// No item of the run should be listed before an earlier one.
pub open spec fn sorted_by_style(s: Seq<LibraryItem>, style: SortStyle) -> bool {
    forall|i: int, j: int| 0 <= i < j < s.len() ==> !goes_before(style, #[trigger] s[j], #[trigger] s[i])
}

/// The first position at or after `k` whose item has a name equal to `name`
/// ignoring ASCII case; the length of the run if there is none.
pub open spec fn first_with_name(s: Seq<LibraryItem>, name: Seq<char>, k: int) -> int
    decreases s.len() - k,
{
    if k < 0 || k >= s.len() {
        s.len() as int
    } else if eq_ignore_case(s[k].spec_name(), name) {
        k
    } else {
        first_with_name(s, name, k + 1)
    }
}

pub(crate) proof fn lemma_first_with_name(s: Seq<LibraryItem>, name: Seq<char>, k: int)
    requires
        0 <= k <= s.len(),
    ensures
        k <= first_with_name(s, name, k) <= s.len(),
        first_with_name(s, name, k) < s.len() ==> eq_ignore_case(
            s[first_with_name(s, name, k)].spec_name(),
            name,
        ),
        forall|j: int| k <= j < first_with_name(s, name, k) ==> !eq_ignore_case((#[trigger] s[j]).spec_name(), name),
    decreases s.len() - k,
{
    if k < s.len() {
        lemma_first_with_name(s, name, k + 1);
    }
}

/// One step of insertion sort: the item at `i` of `s`, whose first `i` items
/// are sorted, moves to `p`, before the first of them that it goes before; the
/// first `i + 1` items are then sorted.
proof fn lemma_insertion_sorted(style: SortStyle, s: Seq<LibraryItem>, t: Seq<LibraryItem>, i: int, p: int)
    requires
        0 <= p <= i < s.len(),
        t == s.remove(i).insert(p, s[i]),
        sorted_by_style(s.take(i), style),
        p < i ==> goes_before(style, s[i], s[p]),
        forall|k: int| 0 <= k < p ==> !goes_before(style, s[i], #[trigger] s[k]),
    ensures
        sorted_by_style(t.take(i + 1), style),
{
    let x = s[i];
    let st = s.take(i);
    assert forall|a: int, b: int| 0 <= a < b < i + 1 implies !goes_before(
        style,
        #[trigger] t.take(i + 1)[b],
        #[trigger] t.take(i + 1)[a],
    ) by {
        if b < p {
            assert(t[a] == st[a] && t[b] == st[b]);
        } else if b == p {
            assert(t[a] == s[a] && t[b] == x);
        } else if a < p {
            assert(t[a] == st[a] && t[b] == st[b - 1]);
        } else if a == p {
            assert(t[a] == x && t[b] == s[b - 1]);
            lemma_goes_before_order(style, s[b - 1], x, s[p]);
            if b - 1 > p {
                assert(st[b - 1] == s[b - 1] && st[p] == s[p]);
            }
            lemma_goes_before_order(style, s[p], s[p], s[p]);
        } else {
            assert(t[a] == st[a - 1] && t[b] == st[b - 1]);
        }
    }
}

/// The same step keeps track of where each item came from, and keeps tied items
/// in their order.
proof fn lemma_insertion_perm(
    style: SortStyle,
    orig: Seq<LibraryItem>,
    s: Seq<LibraryItem>,
    t: Seq<LibraryItem>,
    perm: Seq<int>,
    q: Seq<int>,
    i: int,
    p: int,
)
    requires
        0 <= p <= i < s.len(),
        s.len() == orig.len(),
        t == s.remove(i).insert(p, s[i]),
        q == perm.remove(i).insert(p, i),
        sorted_by_style(s.take(i), style),
        p < i ==> goes_before(style, s[i], s[p]),
        forall|k: int| 0 <= k < p ==> !goes_before(style, s[i], #[trigger] s[k]),
        perm.len() == s.len(),
        forall|k: int| 0 <= k < s.len() ==> 0 <= #[trigger] perm[k] < s.len() && s[k] == orig[perm[k]],
        forall|k: int| i <= k < s.len() ==> #[trigger] perm[k] == k,
        forall|k: int| 0 <= k < i ==> #[trigger] perm[k] < i,
        forall|k: int, l: int| 0 <= k < l < s.len() ==> #[trigger] perm[k] != #[trigger] perm[l],
        forall|k: int, l: int|
            0 <= k < l < i && ties(style, #[trigger] s[k], #[trigger] s[l]) ==> perm[k] < perm[l],
    ensures
        q.len() == t.len(),
        forall|k: int| 0 <= k < t.len() ==> 0 <= #[trigger] q[k] < t.len() && t[k] == orig[q[k]],
        forall|k: int| i + 1 <= k < t.len() ==> #[trigger] q[k] == k,
        forall|k: int| 0 <= k < i + 1 ==> #[trigger] q[k] < i + 1,
        forall|k: int, l: int| 0 <= k < l < t.len() ==> #[trigger] q[k] != #[trigger] q[l],
        forall|k: int, l: int|
            0 <= k < l < i + 1 && ties(style, #[trigger] t[k], #[trigger] t[l]) ==> q[k] < q[l],
{
    let len = s.len();
    let x = s[i];
    let st = s.take(i);
    assert forall|k: int| 0 <= k < len implies 0 <= #[trigger] q[k] < len && t[k] == orig[q[k]] by {
        if k < p {
            assert(q[k] == perm[k] && t[k] == s[k]);
        } else if k == p {
            assert(q[k] == i && t[k] == s[i]);
        } else if k <= i {
            assert(q[k] == perm[k - 1] && t[k] == s[k - 1]);
        } else {
            assert(q[k] == perm[k] && t[k] == s[k]);
        }
    }
    assert forall|k: int, l: int| 0 <= k < l < len implies #[trigger] q[k] != #[trigger] q[l] by {
        let k0 = if k < p { k } else if k == p { i } else if k <= i { k - 1 } else { k };
        let l0 = if l < p { l } else if l == p { i } else if l <= i { l - 1 } else { l };
        assert(q[k] == perm[k0] && q[l] == perm[l0]);
        if k0 < l0 {
            assert(perm[k0] != perm[l0]);
        } else {
            assert(perm[l0] != perm[k0]);
        }
    }
    assert forall|k: int, l: int| 0 <= k < l < i + 1 && ties(style, #[trigger] t[k], #[trigger] t[l]) implies q[k]
        < q[l] by {
        if l == p {
            assert(q[k] == perm[k] && q[l] == i);
        } else if k == p {
            assert(t[l] == s[l - 1]);
            if l - 1 > p {
                assert(st[l - 1] == s[l - 1] && st[p] == s[p]);
            }
            lemma_goes_before_order(style, s[p], s[p], s[p]);
            lemma_goes_before_weak(style, x, s[p], s[l - 1]);
        } else {
            let k0 = if k < p { k } else { k - 1 };
            let l0 = if l < p { l } else { l - 1 };
            assert(q[k] == perm[k0] && q[l] == perm[l0]);
            assert(t[k] == s[k0] && t[l] == s[l0]);
        }
    }
    assert forall|k: int| i + 1 <= k < len implies #[trigger] q[k] == k by {
        assert(q[k] == perm[k]);
    }
    assert forall|k: int| 0 <= k < i + 1 implies #[trigger] q[k] < i + 1 by {
        if k < p {
            assert(q[k] == perm[k]);
        } else if k > p {
            assert(q[k] == perm[k - 1]);
        }
    }
}

/// What is listed before an item is listed before whatever that item is not
/// listed after.
proof fn lemma_goes_before_weak(style: SortStyle, a: LibraryItem, b: LibraryItem, c: LibraryItem)
    requires
        goes_before(style, a, b),
        !goes_before(style, c, b),
    ensures
        goes_before(style, a, c),
{
    if style == SortStyle::Alphabetical {
        if c.spec_name() != b.spec_name() {
            lemma_text_less_total(c.spec_name(), b.spec_name());
            lemma_text_less_transitive(a.spec_name(), b.spec_name(), c.spec_name());
        }
    }
}

pub(crate) proof fn lemma_goes_before_order(style: SortStyle, a: LibraryItem, b: LibraryItem, c: LibraryItem)
    ensures
        !goes_before(style, a, a),
        goes_before(style, a, b) && goes_before(style, b, c) ==> goes_before(style, a, c),
{
    lemma_text_less_irreflexive(a.spec_name());
    if goes_before(style, a, b) && goes_before(style, b, c) && style == SortStyle::Alphabetical {
        lemma_text_less_transitive(a.spec_name(), b.spec_name(), c.spec_name());
    }
}

/// A category whose children were reordered stays well formed and keeps its sizes.
pub(crate) proof fn lemma_permuted(a: Category, b: Category)
    requires
        a.wf(),
        b == (Category { items: b.items, counter: b.counter, ..a }),
        b.items@.to_multiset() == a.items@.to_multiset(),
        b.counter.len() == b.items@.len(),
        b.counter.wf(),
    ensures
        b.wf(),
        items_size(b.items@, false) == items_size(a.items@, false),
        items_size(b.items@, true) == items_size(a.items@, true),
        any_can_download(b.items@) == any_can_download(a.items@),
        enabled_count(b.items@) == enabled_count(a.items@),
{
    broadcast use vstd::seq_lib::group_to_multiset_ensures;

    lemma_sum_permutation(a.items@, b.items@, |it: LibraryItem| it.spec_size(false));
    lemma_sum_permutation(a.items@, b.items@, |it: LibraryItem| it.spec_size(true));
    lemma_items_size_is_sum(a.items@, false);
    lemma_items_size_is_sum(b.items@, false);
    lemma_items_size_is_sum(a.items@, true);
    lemma_items_size_is_sum(b.items@, true);
    lemma_sum_permutation(a.items@, b.items@, |it: LibraryItem| if it.spec_can_download() { 1int } else { 0int });
    lemma_any_is_sum(a.items@);
    lemma_any_is_sum(b.items@);
    lemma_sum_permutation(a.items@, b.items@, |it: LibraryItem| if it.spec_enabled() { 1int } else { 0int });
    lemma_at_most_one_is_count(a.items@);
    lemma_at_most_one_is_count(b.items@);
    assert forall|k: int| 0 <= k < b.items@.len() implies (#[trigger] b.items@[k]).wf() by {
        assert(b.items@.contains(b.items@[k]));
        assert(b.items@.to_multiset().count(b.items@[k]) > 0);
        assert(a.items@.to_multiset().count(b.items@[k]) > 0);
        assert(a.items@.contains(b.items@[k]));
        let j = choose|j: int| 0 <= j < a.items@.len() && a.items@[j] == b.items@[k];
        assert(a.items@[j].wf());
    }
}

/// What sorting by size compares, for an item whose sizes fit in 64 bits.
fn sort_key(item: &LibraryItem) -> (r: u64)
    requires
        item.spec_size(false) <= u64::MAX,
    ensures
        r == size_key(*item),
{
    item.size(true)
}

/// Whether `a` is listed strictly before `b` in `style`.
fn listed_before(style: SortStyle, a: &LibraryItem, b: &LibraryItem) -> (r: bool)
    requires
        style == SortStyle::Size ==> a.spec_size(false) <= u64::MAX,
        style == SortStyle::Size ==> b.spec_size(false) <= u64::MAX,
    ensures
        r == goes_before(style, *a, *b),
{
    match style {
        SortStyle::Alphabetical => name_less(a.name(), b.name()),
        SortStyle::Size => sort_key(a) > sort_key(b),
    }
}

/// Neither item is listed before the other in `style`.
pub open spec fn ties(style: SortStyle, a: LibraryItem, b: LibraryItem) -> bool {
    !goes_before(style, a, b) && !goes_before(style, b, a)
}

/// `b` holds the items of `a`, the item at `k` being the one `a` has at
/// `perm[k]`, with items that tie in `style` in the order `a` has them.
pub open spec fn stable_reorder(a: Seq<LibraryItem>, b: Seq<LibraryItem>, perm: Seq<int>, style: SortStyle) -> bool {
    &&& perm.len() == b.len()
    &&& b.len() == a.len()
    &&& forall|k: int| 0 <= k < b.len() ==> 0 <= #[trigger] perm[k] < a.len() && b[k] == a[perm[k]]
    &&& forall|k: int, l: int| 0 <= k < l < b.len() ==> #[trigger] perm[k] != #[trigger] perm[l]
    &&& forall|k: int, l: int|
        0 <= k < l < b.len() && ties(style, #[trigger] b[k], #[trigger] b[l]) ==> perm[k] < perm[l]
}

/// `b` is `a` after sorting by `style`: the same children, in order, those that
/// tie keeping their order, with the cursor moved as `Category::sort` describes.
pub open spec fn sorts_to(a: Category, style: SortStyle, b: Category) -> bool {
    &&& b == (Category { items: b.items, counter: b.counter, ..a })
    &&& b.items@.to_multiset() == a.items@.to_multiset()
    &&& sorted_by_style(b.items@, style)
    &&& exists|perm: Seq<int>| #[trigger] stable_reorder(a.items@, b.items@, perm, style)
    &&& b.counter.len() == a.counter.len()
    &&& b.counter.pos() == Some(
        ({
            let i0 = a.counter.index() as int;
            let f = first_with_name(b.items@, a.items@[i0].spec_name(), 0);
            if i0 != 0 && f < b.items@.len() {
                f as nat
            } else {
                i0 as nat
            }
        }),
    )
}

impl Category {
    /// Reorders the children by `style`: by name, or by chosen size with the
    /// largest first; equal children keep their order. Where the cursor was on a
    /// row other than the first, it then moves to the first child whose name
    /// equals, ignoring ASCII case, that of the child it was on. Sorting by
    /// size needs the sizes to fit in 64 bits.
    pub fn sort(&mut self, style: SortStyle)
        requires
            old(self).wf(),
            style == SortStyle::Size ==> old(self).size_fits(),
            old(self).items@.len() > 0,
        ensures
            final(self).wf(),
            old(self).size_fits() ==> final(self).size_fits(),
            enabled_count(final(self).items@) == enabled_count(old(self).items@),
            sorts_to(*old(self), style, *final(self)),
    {
        let ghost c0 = *self;
        let name = self.items[self.counter.selected()].name().to_owned();
        let old_selected = self.counter.selected();
        let ghost c1 = *self;
        let len = self.items.len();
        let mut i: usize = 1;
        let ghost mut perm: Seq<int> = Seq::new(len as nat, |k: int| k);
        proof {
            assert(sorted_by_style(self.items@.take(1), style));
        }
        while i < len
            invariant
                1 <= i <= len,
                c0.items@.len() == len,
                perm.len() == len,
                forall|k: int| 0 <= k < len ==> 0 <= #[trigger] perm[k] < len && self.items@[k] == c0.items@[perm[k]],
                forall|k: int| i <= k < len ==> #[trigger] perm[k] == k,
                forall|k: int| 0 <= k < i ==> #[trigger] perm[k] < i,
                forall|k: int, l: int| 0 <= k < l < len ==> #[trigger] perm[k] != #[trigger] perm[l],
                forall|k: int, l: int|
                    0 <= k < l < i && ties(style, #[trigger] self.items@[k], #[trigger] self.items@[l]) ==> perm[k]
                        < perm[l],
                len == self.items@.len(),
                *self == (Category { items: self.items, ..c1 }),
                c1 == (Category { counter: c1.counter, ..c0 }),
                c1.counter.len() == len,
                c1.counter.wf(),
                c0.wf(),
                style == SortStyle::Size ==> c0.size_fits(),
                self.items@.to_multiset() == c0.items@.to_multiset(),
                items_size(self.items@, false) == items_size(c0.items@, false),
                sorted_by_style(self.items@.take(i as int), style),
            decreases len - i,
        {
            let ghost s = self.items@;
            proof {
                lemma_item_within_run(s, i as int);
            }
            let mut p: usize = 0;
            while p < i
                invariant
                    p <= i < len,
                    len == s.len(),
                    s == self.items@,
                    style == SortStyle::Size ==> self.size_fits(),
                    style == SortStyle::Size ==> s[i as int].spec_size(false) <= u64::MAX,
                    forall|k: int| 0 <= k < p ==> !goes_before(style, s[i as int], #[trigger] s[k]),
                ensures
                    p <= i,
                    p < i ==> goes_before(style, s[i as int], s[p as int]),
                    forall|k: int| 0 <= k < p ==> !goes_before(style, s[i as int], #[trigger] s[k]),
                decreases i - p,
            {
                proof {
                    lemma_item_within_run(s, p as int);
                }
                if listed_before(style, &self.items[i], &self.items[p]) {
                    break;
                }
                p = p + 1;
            }
            let x = self.items.remove(i);
            self.items.insert(p, x);
            proof {
                broadcast use vstd::seq_lib::group_to_multiset_ensures;

                let t = self.items@;
                assert(x == s[i as int]);
                assert(t == s.remove(i as int).insert(p as int, x));
                assert(s.remove(i as int).to_multiset() == s.to_multiset().remove(x));
                assert(t.to_multiset() == s.remove(i as int).to_multiset().insert(x));
                assert(s.contains(x));
                assert(s.to_multiset().count(x) > 0);
                assert(t.to_multiset() =~= s.to_multiset());
                assert(self.items@.to_multiset() == c0.items@.to_multiset());
                assert(*self == (Category { items: self.items, counter: self.counter, ..c0 }));
                lemma_permuted(c0, *self);
                let q = perm.remove(i as int).insert(p as int, i as int);
                lemma_insertion_sorted(style, s, t, i as int, p as int);
                lemma_insertion_perm(style, c0.items@, s, t, perm, q, i as int, p as int);
                perm = q;
            }
            i = i + 1;
        }
        proof {
            assert(self.items@.take(len as int) =~= self.items@);
            assert(stable_reorder(c0.items@, self.items@, perm, style));
        }
        if old_selected != 0 {
            let ghost n0 = c0.items@[c0.counter.index() as int].spec_name();
            proof {
                lemma_first_with_name(self.items@, n0, 0);
            }
            let ghost sorted = self.items@;
            let mut k: usize = 0;
            while k < len
                invariant
                    len == self.items@.len(),
                    len > 0,
                    self.items@ == sorted,
                    c1.counter.len() == len,
                    name@ == n0,
                    *self == (Category { items: self.items, ..c1 }),
                    forall|j: int| 0 <= j < k ==> !eq_ignore_case((#[trigger] self.items@[j]).spec_name(), n0),
                    k <= first_with_name(self.items@, n0, 0) <= len,
                    first_with_name(self.items@, n0, 0) < len ==> eq_ignore_case(
                        self.items@[first_with_name(self.items@, n0, 0)].spec_name(),
                        n0,
                    ),
                    forall|j: int|
                        0 <= j < first_with_name(self.items@, n0, 0) ==> !eq_ignore_case(
                            (#[trigger] self.items@[j]).spec_name(),
                            n0,
                        ),
                ensures
                    k == first_with_name(self.items@, n0, 0),
                decreases len - k,
            {
                if names_match(self.items[k].name(), name.as_str()) {
                    break;
                }
                k = k + 1;
            }
            if k < len {
                self.counter.set_selected(k);
            }
        }
        proof {
            lemma_permuted(c0, *self);
        }
    }
}

} // verus!
