//! The catalog tree: documents, categories, their sizes, chosen states and
//! well-formedness, and the updates that choose and drop items.

use vstd::prelude::*;

use crate::counter::StatefulListCounter;

verus! {

broadcast use vstd::std_specs::vec::axiom_vec_index_decreases;
/// How the files of a document are fetched.
#[derive(Debug, PartialEq, Eq, Clone, Copy, Structural)]
pub enum DownloadType {
    /// Plain HTTP(S) GET requests.
    Http,
    /// The rsync program.
    Rsync,
    /// Either of the two; rsync is preferred where it can be used.
    Either,
}

/// A file, or a group of files, that can be downloaded.
#[derive(Debug)]
pub struct Document {
    /// The name shown for the files.
    pub name: String,
    /// Where the files are found.
    pub url: String,
    /// The total size of the files in bytes.
    pub size: u64,
    /// How the files are fetched.
    pub download_type: DownloadType,
    /// Whether these files are chosen for download.
    pub enabled: bool,
    /// Whether the rsync program can be run on this machine.
    pub rsync_usable: bool,
}

/// A named, ordered group of items, with a cursor over them.
#[derive(Debug)]
pub struct Category {
    /// The name of the group.
    pub name: String,
    /// The children, in display order.
    pub items: Vec<LibraryItem>,
    /// At most one child may be chosen at a time.
    pub single_selection: bool,
    /// Whether this group is chosen for download.
    pub enabled: bool,
    /// The highlighted child.
    pub counter: StatefulListCounter,
}

/// A node of the catalog: a document or a category.
#[derive(Debug)]
pub enum LibraryItem {
    Document(Document),
    Category(Category),
}

impl Document {
    /// The files can be fetched: they need no rsync, or rsync can be run here.
    pub open spec fn spec_can_download(&self) -> bool {
        self.download_type != DownloadType::Rsync || self.rsync_usable
    }

    /// A document, chosen for download exactly when it can be downloaded.
    /// `rsync_usable` tells whether the rsync program can be run on this machine.
    pub fn new(name: String, url: String, size: u64, d_type: DownloadType, rsync_usable: bool) -> (r: Self)
        ensures
            r.name == name,
            r.url == url,
            r.size == size,
            r.download_type == d_type,
            r.rsync_usable == rsync_usable,
            r.enabled == r.spec_can_download(),
    {
        let enabled = !matches!(d_type, DownloadType::Rsync) || rsync_usable;
        Document { name, url, size, download_type: d_type, enabled, rsync_usable }
    }

    /// The name of the document.
    pub fn name(&self) -> (r: &str)
        ensures
            r@ == self.name@,
    {
        self.name.as_str()
    }

    /// Where the files are found.
    pub fn url(&self) -> (r: &str)
        ensures
            r@ == self.url@,
    {
        self.url.as_str()
    }

    /// The size in bytes.
    pub fn size(&self) -> (r: u64)
        ensures
            r == self.size,
    {
        self.size
    }

    /// The way the files are fetched.
    pub fn download_type(&self) -> (r: DownloadType)
        ensures
            r == self.download_type,
    {
        self.download_type
    }

    /// The size in bytes if the document is chosen, else zero.
    pub fn enabled_size(&self) -> (r: u64)
        ensures
            r == (if self.enabled { self.size } else { 0 }),
    {
        if self.enabled {
            self.size
        } else {
            0
        }
    }

    /// Whether the files can be fetched on this machine.
    pub fn can_download(&self) -> (r: bool)
        ensures
            r == self.spec_can_download(),
    {
        !matches!(self.download_type, DownloadType::Rsync) || self.rsync_usable
    }
}


/// The total size of a run of items, counting only chosen ones where
/// `enabled_only` holds.
pub open spec fn items_size(s: Seq<LibraryItem>, enabled_only: bool) -> int
    decreases s,
{
    if s.len() == 0 {
        0
    } else {
        items_size(s.drop_last(), enabled_only) + s.last().spec_size(enabled_only)
    }
}

/// Some item of the run can be downloaded.
pub open spec fn any_can_download(s: Seq<LibraryItem>) -> bool
    decreases s,
{
    if s.len() == 0 {
        false
    } else {
        any_can_download(s.drop_last()) || s.last().spec_can_download()
    }
}

impl LibraryItem {
    /// The size in bytes; where `enabled_only` holds, an item that is not
    /// chosen counts zero, and so does everything inside it.
    pub open spec fn spec_size(&self, enabled_only: bool) -> int
        decreases self,
    {
        match self {
            LibraryItem::Document(d) => if enabled_only && !d.enabled { 0 } else { d.size as int },
            LibraryItem::Category(c) => if enabled_only && !c.enabled {
                0
            } else {
                items_size(c.items@, enabled_only)
            },
        }
    }

    /// A document that can be fetched here, or a category holding one at any depth.
    pub open spec fn spec_can_download(&self) -> bool
        decreases self,
    {
        match self {
            LibraryItem::Document(d) => d.spec_can_download(),
            LibraryItem::Category(c) => any_can_download(c.items@),
        }
    }

    /// The item's own chosen flag.
    pub open spec fn spec_enabled(&self) -> bool {
        match self {
            LibraryItem::Document(d) => d.enabled,
            LibraryItem::Category(c) => c.enabled,
        }
    }

    /// The name of the item.
    pub open spec fn spec_name(&self) -> Seq<char> {
        match self {
            LibraryItem::Document(d) => d.name@,
            LibraryItem::Category(c) => c.name@,
        }
    }

    /// The same item with its own chosen flag set to `b`.
    pub open spec fn with_enabled(self, b: bool) -> LibraryItem {
        match self {
            LibraryItem::Document(d) => LibraryItem::Document(Document { enabled: b, ..d }),
            LibraryItem::Category(c) => LibraryItem::Category(Category { enabled: b, ..c }),
        }
    }
}

impl Category {
    /// Some child can be downloaded.
    pub open spec fn spec_can_download(&self) -> bool {
        any_can_download(self.items@)
    }

    /// The sizes of all documents below fit in 64 bits.
    pub open spec fn size_fits(&self) -> bool {
        items_size(self.items@, false) <= u64::MAX
    }
}

proof fn lemma_item_size_bounds(it: LibraryItem)
    ensures
        0 <= it.spec_size(true) <= it.spec_size(false),
    decreases it,
{
    if let LibraryItem::Category(c) = it {
        lemma_items_size_bounds(c.items@);
    }
}

proof fn lemma_items_size_bounds(s: Seq<LibraryItem>)
    ensures
        0 <= items_size(s, true) <= items_size(s, false),
    decreases s,
{
    if s.len() > 0 {
        lemma_items_size_bounds(s.drop_last());
        lemma_item_size_bounds(s.last());
    }
}

/// Taking one more item of a run adds that item.
proof fn lemma_take_one_more(s: Seq<LibraryItem>, k: int)
    requires
        0 <= k < s.len(),
    ensures
        items_size(s.take(k + 1), true) == items_size(s.take(k), true) + s[k].spec_size(true),
        items_size(s.take(k + 1), false) == items_size(s.take(k), false) + s[k].spec_size(false),
        any_can_download(s.take(k + 1)) == (any_can_download(s.take(k)) || s[k].spec_can_download()),
{
    assert(s.take(k + 1).drop_last() =~= s.take(k));
}

/// A prefix of a run is no larger than the run.
proof fn lemma_prefix_size(s: Seq<LibraryItem>, k: int, enabled_only: bool)
    requires
        0 <= k <= s.len(),
    ensures
        items_size(s.take(k), enabled_only) <= items_size(s, enabled_only),
    decreases s.len() - k,
{
    if k == s.len() {
        assert(s.take(k) =~= s);
    } else {
        lemma_take_one_more(s, k);
        lemma_item_size_bounds(s[k]);
        lemma_prefix_size(s, k + 1, enabled_only);
    }
}

/// Each item of a run is no larger than the run.
pub(crate) proof fn lemma_item_within_run(s: Seq<LibraryItem>, k: int)
    requires
        0 <= k < s.len(),
    ensures
        s[k].spec_size(true) <= s[k].spec_size(false) <= items_size(s, false),
{
    lemma_take_one_more(s, k);
    lemma_items_size_bounds(s.take(k));
    lemma_item_size_bounds(s[k]);
    lemma_prefix_size(s, k + 1, false);
}

impl LibraryItem {
    /// The size in bytes; with `enabled_only`, only what is chosen counts.
    pub fn size(&self, enabled_only: bool) -> (r: u64)
        requires
            self.spec_size(false) <= u64::MAX,
        ensures
            r == self.spec_size(enabled_only),
        decreases self, 2nat,
    {
        match self {
            LibraryItem::Document(doc) => {
                if enabled_only {
                    doc.enabled_size()
                } else {
                    doc.size()
                }
            },
            LibraryItem::Category(cat) => {
                if enabled_only {
                    cat.enabled_size()
                } else {
                    cat.size(false)
                }
            },
        }
    }

    /// The name of the item.
    pub fn name(&self) -> (r: &str)
        ensures
            r@ == self.spec_name(),
    {
        match self {
            LibraryItem::Document(doc) => doc.name(),
            LibraryItem::Category(cat) => cat.name(),
        }
    }

    /// Whether the item is chosen for download.
    pub fn enabled(&self) -> (r: bool)
        ensures
            r == self.spec_enabled(),
    {
        match self {
            LibraryItem::Document(doc) => doc.enabled,
            LibraryItem::Category(cat) => cat.enabled,
        }
    }

    /// Chooses or drops the item; an item that cannot be downloaded is always
    /// dropped. Returns the resulting state.
    pub fn set_enabled(&mut self, enabled: bool) -> (r: bool)
        ensures
            r == (enabled && old(self).spec_can_download()),
            *final(self) == old(self).with_enabled(r),
    {
        match self {
            LibraryItem::Document(doc) => {
                if doc.can_download() {
                    doc.enabled = enabled;
                } else {
                    doc.enabled = false;
                }
                doc.enabled
            },
            LibraryItem::Category(cat) => {
                if cat.can_download() {
                    cat.enabled = enabled;
                } else {
                    cat.enabled = false;
                }
                cat.enabled
            },
        }
    }

    /// Whether a document, or some document inside the category, can be fetched here.
    pub fn can_download(&self) -> (r: bool)
        ensures
            r == self.spec_can_download(),
        decreases self,
    {
        match self {
            LibraryItem::Document(doc) => doc.can_download(),
            LibraryItem::Category(cat) => cat.can_download(),
        }
    }

    /// Whether the item is a document.
    pub fn is_document(&self) -> (r: bool)
        ensures
            r == (self is Document),
    {
        match self {
            LibraryItem::Document(_) => true,
            LibraryItem::Category(_) => false,
        }
    }
}

impl Category {
    /// The name of the category.
    pub fn name(&self) -> (r: &str)
        ensures
            r@ == self.name@,
    {
        self.name.as_str()
    }

    /// Whether at most one child may be chosen at a time.
    pub fn single_selection(&self) -> (r: bool)
        ensures
            r == self.single_selection,
    {
        self.single_selection
    }

    /// The summed size of the children; with `enabled_only`, only what is chosen
    /// counts, though this category's own flag is not consulted.
    pub fn size(&self, enabled_only: bool) -> (r: u64)
        requires
            self.size_fits(),
        ensures
            r == items_size(self.items@, enabled_only),
        decreases self, 0nat,
    {
        let mut total: u64 = 0;
        let mut i: usize = 0;
        while i < self.items.len()
            invariant
                i <= self.items@.len(),
                total == items_size(self.items@.take(i as int), enabled_only),
                self.size_fits(),
            decreases self.items@.len() - i,
        {
            proof {
                lemma_take_one_more(self.items@, i as int);
                lemma_item_within_run(self.items@, i as int);
                lemma_prefix_size(self.items@, i as int + 1, enabled_only);
                lemma_prefix_size(self.items@, i as int + 1, false);
                lemma_items_size_bounds(self.items@);
            }
            let s = self.items[i].size(enabled_only);
            total = total + s;
            i = i + 1;
        }
        proof {
            assert(self.items@.take(i as int) =~= self.items@);
        }
        total
    }

    /// The size of what is chosen below, or zero where this category is not chosen.
    pub fn enabled_size(&self) -> (r: u64)
        requires
            self.size_fits(),
        ensures
            r == (if self.enabled { items_size(self.items@, true) } else { 0 }),
        decreases self, 1nat,
    {
        if self.enabled {
            self.size(true)
        } else {
            0
        }
    }

    /// Whether some child can be downloaded.
    pub fn can_download(&self) -> (r: bool)
        ensures
            r == self.spec_can_download(),
        decreases self,
    {
        vec_any_can_download(&self.items)
    }
}

/// A run that has a downloadable prefix is downloadable.
proof fn lemma_any_prefix(s: Seq<LibraryItem>, k: int)
    requires
        0 <= k <= s.len(),
        any_can_download(s.take(k)),
    ensures
        any_can_download(s),
    decreases s.len() - k,
{
    if k == s.len() {
        assert(s.take(k) =~= s);
    } else {
        lemma_take_one_more(s, k);
        lemma_any_prefix(s, k + 1);
    }
}

/// No two distinct items of the run are chosen.
pub open spec fn at_most_one_enabled(s: Seq<LibraryItem>) -> bool {
    forall|i: int, j: int|
        #![trigger s[i].spec_enabled(), s[j].spec_enabled()]
        0 <= i < s.len() && 0 <= j < s.len() && i != j && s[i].spec_enabled() ==> !s[j].spec_enabled()
}

/// The first position at or after `k`, other than `skip`, holding a downloadable
/// item; the length of the run if there is none.
pub open spec fn first_downloadable(s: Seq<LibraryItem>, skip: int, k: int) -> int
    decreases s.len() - k,
{
    if k < 0 || k >= s.len() {
        s.len() as int
    } else if k != skip && s[k].spec_can_download() {
        k
    } else {
        first_downloadable(s, skip, k + 1)
    }
}

impl LibraryItem {
    /// Every item below is well formed, and a chosen document can be downloaded.
    pub open spec fn wf(&self) -> bool
        decreases self,
    {
        match self {
            LibraryItem::Document(d) => d.enabled ==> d.spec_can_download(),
            LibraryItem::Category(c) => c.wf(),
        }
    }
}

impl Category {
    /// What must hold of this category itself: its cursor spans its children and
    /// reports one of them, it is chosen only if it can be downloaded, and in a
    /// single-selection category at most one child is chosen.
    pub open spec fn local_wf(&self) -> bool {
        &&& self.counter.len() == self.items@.len()
        &&& self.counter.wf()
        &&& self.enabled ==> self.spec_can_download()
        &&& self.single_selection ==> at_most_one_enabled(self.items@)
    }

    /// The category and everything below it is well formed.
    pub open spec fn wf(&self) -> bool
        decreases self,
    {
        &&& self.local_wf()
        &&& forall|i: int| 0 <= i < self.items@.len() ==> (#[trigger] self.items@[i]).wf()
    }

    /// The children after toggling the child under the cursor.
    pub open spec fn toggled_items(&self) -> Seq<LibraryItem> {
        let s = self.items@;
        let i = self.counter.index() as int;
        if self.single_selection {
            if !s[i].spec_enabled() && s[i].spec_can_download() {
                Seq::new(
                    s.len(),
                    |j: int| if j == i { s[j].with_enabled(true) } else { s[j].with_enabled(false) },
                )
            } else if s[i].spec_enabled() {
                let f = first_downloadable(s, i, 0);
                Seq::new(
                    s.len(),
                    |j: int|
                        if j == i {
                            s[j].with_enabled(false)
                        } else if j == f {
                            s[j].with_enabled(true)
                        } else {
                            s[j]
                        },
                )
            } else {
                s
            }
        } else {
            s.update(i, s[i].with_enabled(!s[i].spec_enabled() && s[i].spec_can_download()))
        }
    }

    /// `b` is `a` after toggling the child under the cursor of `a`.
    pub open spec fn toggles_to(a: Category, b: Category) -> bool {
        &&& b == Category { items: b.items, counter: b.counter, ..a }
        &&& b.items@ == a.toggled_items()
        &&& b.counter.len() == a.counter.len()
        &&& b.counter.pos() == Some(a.counter.index())
    }
}

pub(crate) proof fn lemma_with_enabled(it: LibraryItem, b: bool)
    ensures
        it.with_enabled(b).spec_can_download() == it.spec_can_download(),
        it.with_enabled(b).spec_size(false) == it.spec_size(false),
        it.with_enabled(b).spec_enabled() == b,
        it.with_enabled(b).spec_name() == it.spec_name(),
        it.wf() && (b ==> it.spec_can_download()) ==> it.with_enabled(b).wf(),
        !it.spec_enabled() ==> it.with_enabled(false) == it,
        it.with_enabled(it.spec_enabled()) == it,
{
    if let LibraryItem::Category(c) = it {
        let c2 = Category { enabled: b, ..c };
        assert(c2.items@ == c.items@);
        if c.wf() && (b ==> it.spec_can_download()) {
            assert(c2.local_wf());
            assert forall|i: int| 0 <= i < c2.items@.len() implies (#[trigger] c2.items@[i]).wf() by {
                assert(c.items@[i].wf());
            }
        }
    }
}

/// Runs whose items agree one by one on being downloadable agree as a whole.
pub(crate) proof fn lemma_any_pointwise(a: Seq<LibraryItem>, b: Seq<LibraryItem>)
    requires
        a.len() == b.len(),
        forall|i: int| 0 <= i < a.len() ==> #[trigger] a[i].spec_can_download() == b[i].spec_can_download(),
    ensures
        any_can_download(a) == any_can_download(b),
    decreases a.len(),
{
    if a.len() > 0 {
        lemma_any_pointwise(a.drop_last(), b.drop_last());
        assert(a.last().spec_can_download() == b.last().spec_can_download());
    }
}

/// Runs whose items agree one by one on their total size agree as a whole.
pub(crate) proof fn lemma_size_pointwise(a: Seq<LibraryItem>, b: Seq<LibraryItem>)
    requires
        a.len() == b.len(),
        forall|i: int| 0 <= i < a.len() ==> #[trigger] a[i].spec_size(false) == b[i].spec_size(false),
    ensures
        items_size(a, false) == items_size(b, false),
    decreases a.len(),
{
    if a.len() > 0 {
        lemma_size_pointwise(a.drop_last(), b.drop_last());
        assert(a.last().spec_size(false) == b.last().spec_size(false));
    }
}

/// A downloadable run has a first downloadable item.
pub(crate) proof fn lemma_first_downloadable(s: Seq<LibraryItem>, skip: int, k: int)
    requires
        0 <= k <= s.len(),
    ensures
        k <= first_downloadable(s, skip, k) <= s.len(),
        first_downloadable(s, skip, k) < s.len() ==> {
            let f = first_downloadable(s, skip, k);
            f != skip && s[f].spec_can_download()
        },
        forall|j: int|
            k <= j < first_downloadable(s, skip, k) && j != skip ==> !(#[trigger] s[j].spec_can_download()),
        (exists|j: int| k <= j < s.len() && j != skip && #[trigger] s[j].spec_can_download())
            ==> first_downloadable(s, skip, k) < s.len(),
    decreases s.len() - k,
{
    if k < s.len() {
        lemma_first_downloadable(s, skip, k + 1);
    }
}

impl Category {
    /// A category of the given children. It is chosen exactly when some child
    /// can be downloaded. In a single-selection category every child but the
    /// first downloadable one is dropped.
    pub fn new(name: String, items: Vec<LibraryItem>, single_selection: bool) -> (r: Self)
        ensures
            r.name == name,
            r.single_selection == single_selection,
            r.enabled == any_can_download(items@),
            r.counter.len() == items@.len(),
            r.counter.pos() is None,
            r.items@ == (if single_selection {
                Seq::new(
                    items@.len(),
                    |j: int|
                        if j == first_downloadable(items@, -1, 0) {
                            items@[j]
                        } else {
                            items@[j].with_enabled(false)
                        },
                )
            } else {
                items@
            }),
            (forall|i: int| 0 <= i < items@.len() ==> (#[trigger] items@[i]).wf()) ==> r.wf(),
    {
        let mut items = items;
        let ghost orig = items@;
        if single_selection {
            let ghost f = first_downloadable(orig, -1, 0);
            proof {
                lemma_first_downloadable(orig, -1, 0);
            }
            let mut found = false;
            let mut i: usize = 0;
            while i < items.len()
                invariant
                    i <= items@.len(),
                    items@.len() == orig.len(),
                    f == first_downloadable(orig, -1, 0),
                    0 <= f <= orig.len(),
                    found <==> f < i,
                    forall|j: int| 0 <= j < f && j != -1 ==> !(#[trigger] orig[j].spec_can_download()),
                    f < orig.len() ==> orig[f].spec_can_download(),
                    forall|j: int|
                        0 <= j < i ==> #[trigger] items@[j] == (if j == f {
                            orig[j]
                        } else {
                            orig[j].with_enabled(false)
                        }),
                    forall|j: int| i <= j < items@.len() ==> #[trigger] items@[j] == orig[j],
                decreases items@.len() - i,
            {
                if !found && items[i].can_download() {
                    found = true;
                } else {
                    items[i].set_enabled(false);
                }
                i = i + 1;
            }
            proof {
                let expect = Seq::new(
                    orig.len(),
                    |j: int| if j == f { orig[j] } else { orig[j].with_enabled(false) },
                );
                assert(items@ =~= expect);
            }
        }
        proof {
            assert forall|j: int| 0 <= j < items@.len() implies #[trigger] items@[j].spec_can_download()
                == orig[j].spec_can_download() && items@[j].spec_size(false) == orig[j].spec_size(false) by {
                lemma_with_enabled(orig[j], false);
            }
            lemma_any_pointwise(items@, orig);
        }
        let enabled = vec_any_can_download(&items);
        let len = items.len();
        let r = Category { name, items, single_selection, enabled, counter: StatefulListCounter::new(len) };
        proof {
            if forall|i: int| 0 <= i < orig.len() ==> (#[trigger] orig[i]).wf() {
                assert forall|j: int| 0 <= j < r.items@.len() implies (#[trigger] r.items@[j]).wf() by {
                    assert(orig[j].wf());
                    lemma_with_enabled(orig[j], false);
                }
                if single_selection {
                    assert forall|a: int, b: int|
                        #![trigger r.items@[a].spec_enabled(), r.items@[b].spec_enabled()]
                        0 <= a < r.items@.len() && 0 <= b < r.items@.len() && a != b
                            && r.items@[a].spec_enabled() implies !r.items@[b].spec_enabled() by {
                        lemma_with_enabled(orig[a], false);
                        lemma_with_enabled(orig[b], false);
                    }
                }
            }
        }
        r
    }
}

/// Whether some item of the vector can be downloaded.
fn vec_any_can_download(items: &Vec<LibraryItem>) -> (r: bool)
    ensures
        r == any_can_download(items@),
    decreases items,
{
    let mut i: usize = 0;
    while i < items.len()
        invariant
            i <= items@.len(),
            !any_can_download(items@.take(i as int)),
        decreases items@.len() - i,
    {
        proof {
            lemma_take_one_more(items@, i as int);
        }
        if items[i].can_download() {
            proof {
                lemma_any_prefix(items@, i as int + 1);
            }
            return true;
        }
        i = i + 1;
    }
    proof {
        assert(items@.take(i as int) =~= items@);
    }
    false
}

/// `b` is `a` after every chosen flag below `a` has been reset to whether its
/// item can be downloaded; the children of a single-selection category keep
/// their flags.
pub open spec fn enables_to(a: LibraryItem, b: LibraryItem) -> bool
    decreases a,
{
    match a {
        LibraryItem::Document(d) => b == LibraryItem::Document(
            Document { enabled: d.spec_can_download(), ..d },
        ),
        LibraryItem::Category(c) => {
            &&& b is Category
            &&& b->Category_0 == Category {
                items: b->Category_0.items,
                enabled: any_can_download(c.items@),
                ..c
            }
            &&& b->Category_0.items@.len() == c.items@.len()
            &&& if c.single_selection {
                b->Category_0.items@ == c.items@
            } else {
                forall|i: int|
                    0 <= i < c.items@.len() ==> enables_to(
                        #[trigger] c.items@[i],
                        b->Category_0.items@[i],
                    )
            }
        },
    }
}

/// `b` is `a` with every cursor below it reset to the first row, highlighted.
pub open spec fn counters_reset(a: Category, b: Category) -> bool
    decreases a,
{
    &&& b == Category { items: b.items, counter: b.counter, ..a }
    &&& b.counter.len() == a.items@.len()
    &&& b.counter.pos() == Some(0nat)
    &&& b.items@.len() == a.items@.len()
    &&& forall|i: int|
        0 <= i < a.items@.len() ==> match #[trigger] a.items@[i] {
            LibraryItem::Document(_) => b.items@[i] == a.items@[i],
            LibraryItem::Category(ac) => b.items@[i] is Category && counters_reset(
                ac,
                b.items@[i]->Category_0,
            ),
        }
}

proof fn lemma_with_enabled_twice(it: LibraryItem, a: bool, b: bool)
    ensures
        it.with_enabled(a).with_enabled(b) == it.with_enabled(b),
{
}

pub(crate) proof fn lemma_enables_to(a: LibraryItem, b: LibraryItem)
    requires
        enables_to(a, b),
    ensures
        b.spec_can_download() == a.spec_can_download(),
        b.spec_size(false) == a.spec_size(false),
        b.spec_name() == a.spec_name(),
        a.wf() ==> b.wf(),
    decreases a,
{
    if let LibraryItem::Category(c) = a {
        let nc = b->Category_0;
        if c.single_selection {
            assert(nc.items@ == c.items@);
        } else {
            assert forall|i: int| 0 <= i < c.items@.len() implies {
                &&& (#[trigger] nc.items@[i]).spec_can_download() == c.items@[i].spec_can_download()
                &&& nc.items@[i].spec_size(false) == c.items@[i].spec_size(false)
                &&& c.items@[i].wf() ==> nc.items@[i].wf()
            } by {
                lemma_enables_to(c.items@[i], nc.items@[i]);
            }
        }
        lemma_any_pointwise(nc.items@, c.items@);
        lemma_size_pointwise(nc.items@, c.items@);
        if c.wf() {
            assert(nc.local_wf());
            assert forall|i: int| 0 <= i < nc.items@.len() implies (#[trigger] nc.items@[i]).wf() by {
                assert(c.items@[i].wf());
            }
        }
    }
}

proof fn lemma_counters_reset(a: Category, b: Category)
    requires
        counters_reset(a, b),
    ensures
        b == (Category { items: b.items, counter: b.counter, ..a }),
        any_can_download(b.items@) == any_can_download(a.items@),
        items_size(b.items@, false) == items_size(a.items@, false),
        a.wf() ==> b.wf(),
    decreases a,
{
    assert forall|i: int| 0 <= i < a.items@.len() implies {
        &&& (#[trigger] b.items@[i]).spec_can_download() == a.items@[i].spec_can_download()
        &&& b.items@[i].spec_size(false) == a.items@[i].spec_size(false)
        &&& b.items@[i].spec_enabled() == a.items@[i].spec_enabled()
        &&& a.items@[i].wf() ==> b.items@[i].wf()
    } by {
        match a.items@[i] {
            LibraryItem::Document(_) => {},
            LibraryItem::Category(ac) => {
                let bc = b.items@[i]->Category_0;
                lemma_counters_reset(ac, bc);
                assert(bc.enabled == ac.enabled);
                assert(b.items@[i].spec_can_download() == any_can_download(bc.items@));
                assert(b.items@[i].spec_size(false) == items_size(bc.items@, false));
                assert(b.items@[i].wf() == bc.wf());
            },
        }
    }
    lemma_any_pointwise(b.items@, a.items@);
    lemma_size_pointwise(b.items@, a.items@);
    if a.wf() {
        assert(b.local_wf());
        assert forall|i: int| 0 <= i < b.items@.len() implies (#[trigger] b.items@[i]).wf() by {
            assert(a.items@[i].wf());
        }
    }
}

impl LibraryItem {
    /// Chooses every item below that can be downloaded and drops the rest,
    /// leaving the children of single-selection categories as they are.
    pub fn set_enabled_recursive(&mut self)
        ensures
            enables_to(*old(self), *final(self)),
            final(self).spec_can_download() == old(self).spec_can_download(),
            final(self).spec_size(false) == old(self).spec_size(false),
            old(self).wf() ==> final(self).wf(),
        decreases *old(self),
    {
        let ghost start = *self;
        match self {
            LibraryItem::Document(doc) => {
                doc.enabled = doc.can_download();
            },
            LibraryItem::Category(cat) => {
                let ghost c0 = *cat;
                assert(start == LibraryItem::Category(c0));
                cat.enabled = cat.can_download();
                if !cat.single_selection {
                    let mut i: usize = 0;
                    while i < cat.items.len()
                        invariant
                            start == LibraryItem::Category(c0),
                            start == *old(self),
                            *cat == (Category { items: cat.items, enabled: any_can_download(c0.items@), ..c0 }),
                            i <= cat.items@.len(),
                            cat.items@.len() == c0.items@.len(),
                            !c0.single_selection,
                            forall|j: int| 0 <= j < i ==> enables_to(#[trigger] c0.items@[j], cat.items@[j]),
                            forall|j: int| i <= j < cat.items@.len() ==> #[trigger] cat.items@[j] == c0.items@[j],
                        decreases cat.items@.len() - i,
                    {
                        proof {
                            assert(cat.items@[i as int] == c0.items@[i as int]);
                            assert(decreases_to!(start => start->Category_0));
                            assert(decreases_to!(c0 => c0.items));
                            assert(decreases_to!(c0.items => c0.items@));
                            assert(decreases_to!(c0.items@ => c0.items@[i as int]));
                        }
                        cat.items[i].set_enabled_recursive();
                        i = i + 1;
                    }
                }
            },
        }
        proof {
            lemma_enables_to(start, *self);
        }
    }
}

impl Category {
    /// Resets every cursor below to the first row, highlighted.
    pub fn fix_counter(&mut self)
        ensures
            counters_reset(*old(self), *final(self)),
            any_can_download(final(self).items@) == any_can_download(old(self).items@),
            items_size(final(self).items@, false) == items_size(old(self).items@, false),
            old(self).wf() ==> final(self).wf(),
        decreases *old(self),
    {
        let ghost c0 = *self;
        self.counter = StatefulListCounter::new(self.items.len());
        self.counter.selected();
        let mut i: usize = 0;
        while i < self.items.len()
            invariant
                *self == (Category { items: self.items, counter: self.counter, ..c0 }),
                c0 == *old(self),
                self.counter.len() == c0.items@.len(),
                self.counter.pos() == Some(0nat),
                i <= self.items@.len(),
                self.items@.len() == c0.items@.len(),
                forall|j: int|
                    0 <= j < i ==> match #[trigger] c0.items@[j] {
                        LibraryItem::Document(_) => self.items@[j] == c0.items@[j],
                        LibraryItem::Category(ac) => self.items@[j] is Category && counters_reset(
                            ac,
                            self.items@[j]->Category_0,
                        ),
                    },
                forall|j: int| i <= j < self.items@.len() ==> #[trigger] self.items@[j] == c0.items@[j],
            decreases self.items@.len() - i,
        {
            proof {
                assert(self.items@[i as int] == c0.items@[i as int]);
                assert(decreases_to!(c0 => c0.items));
                assert(decreases_to!(c0.items => c0.items@));
                assert(decreases_to!(c0.items@ => c0.items@[i as int]));
            }
            match &mut self.items[i] {
                LibraryItem::Document(_) => {},
                LibraryItem::Category(cat) => {
                    proof {
                        assert(*cat == c0.items@[i as int]->Category_0);
                        assert(decreases_to!(c0.items@[i as int] => c0.items@[i as int]->Category_0));
                    }
                    cat.fix_counter();
                },
            }
            i = i + 1;
        }
        proof {
            lemma_counters_reset(c0, *self);
        }
    }

    /// Flips the chosen state of every child, unless this is a single-selection
    /// category, which is left as it is.
    pub fn toggle_all_items(&mut self)
        requires
            old(self).wf(),
        ensures
            final(self).wf(),
            any_can_download(final(self).items@) == any_can_download(old(self).items@),
            items_size(final(self).items@, false) == items_size(old(self).items@, false),
            populated(*old(self)) ==> populated(*final(self)),
            old(self).single_selection ==> *final(self) == *old(self),
            !old(self).single_selection ==> {
                &&& *final(self) == (Category { items: final(self).items, ..*old(self) })
                &&& final(self).items@ == Seq::new(
                    old(self).items@.len(),
                    |j: int|
                        old(self).items@[j].with_enabled(
                            !old(self).items@[j].spec_enabled() && old(self).items@[j].spec_can_download(),
                        ),
                )
            },
    {
        if !self.single_selection() {
            let ghost c0 = *self;
            let mut i: usize = 0;
            while i < self.items.len()
                invariant
                    *self == (Category { items: self.items, ..c0 }),
                    c0.wf(),
                    !c0.single_selection,
                    i <= self.items@.len(),
                    self.items@.len() == c0.items@.len(),
                    forall|j: int|
                        0 <= j < i ==> #[trigger] self.items@[j] == c0.items@[j].with_enabled(
                            !c0.items@[j].spec_enabled() && c0.items@[j].spec_can_download(),
                        ),
                    forall|j: int| i <= j < self.items@.len() ==> #[trigger] self.items@[j] == c0.items@[j],
                decreases self.items@.len() - i,
            {
                let state = !self.items[i].enabled();
                self.items[i].set_enabled(state);
                i = i + 1;
            }
            proof {
                let expect = Seq::new(
                    c0.items@.len(),
                    |j: int| c0.items@[j].with_enabled(!c0.items@[j].spec_enabled() && c0.items@[j].spec_can_download()),
                );
                assert(self.items@ =~= expect);
                lemma_items_rechosen(c0, *self);
                assert forall|j: int| 0 <= j < c0.items@.len() implies #[trigger] self.items@[j]
                    == c0.items@[j].with_enabled(self.items@[j].spec_enabled()) by {
                    lemma_with_enabled(c0.items@[j], !c0.items@[j].spec_enabled() && c0.items@[j].spec_can_download());
                }
                lemma_rechosen_shape(c0, *self);
            }
        }
    }

    /// Toggles the child under the cursor. In a single-selection category a
    /// dropped child that can be downloaded becomes the only chosen one, and a
    /// chosen child is dropped in favour of the first other downloadable child.
    pub fn toggle_selected_item(&mut self)
        requires
            old(self).wf(),
            old(self).items@.len() > 0,
        ensures
            Category::toggles_to(*old(self), *final(self)),
            final(self).wf(),
            any_can_download(final(self).items@) == any_can_download(old(self).items@),
            items_size(final(self).items@, false) == items_size(old(self).items@, false),
            populated(*old(self)) ==> populated(*final(self)),
    {
        let ghost c0 = *self;
        let single_selection = self.single_selection();
        let index = self.counter.selected();
        let ghost c1 = *self;
        let enabled = self.items[index].enabled();
        let can_download = self.items[index].can_download();
        let len = self.items.len();
        if single_selection {
            if !enabled && can_download {
                let mut i: usize = 0;
                while i < len
                    invariant
                        *self == (Category { items: self.items, ..c1 }),
                        len == c0.items@.len(),
                        i <= len,
                        self.items@.len() == len,
                        forall|j: int| 0 <= j < i ==> #[trigger] self.items@[j] == c0.items@[j].with_enabled(false),
                        forall|j: int| i <= j < len ==> #[trigger] self.items@[j] == c0.items@[j],
                    decreases len - i,
                {
                    self.items[i].set_enabled(false);
                    i = i + 1;
                }
                proof {
                    lemma_with_enabled(c0.items@[index as int], false);
                    lemma_with_enabled_twice(c0.items@[index as int], false, true);
                }
                self.items[index].set_enabled(true);
            } else if enabled {
                self.items[index].set_enabled(false);
                let ghost f = first_downloadable(c0.items@, index as int, 0);
                proof {
                    lemma_first_downloadable(c0.items@, index as int, 0);
                }
                let mut k: usize = 0;
                while k < len
                    invariant
                        *self == (Category { items: self.items, ..c1 }),
                        len == c0.items@.len(),
                        0 <= index < len,
                        k <= f <= len,
                        f == first_downloadable(c0.items@, index as int, 0),
                        forall|j: int| 0 <= j < f && j != index ==> !(#[trigger] c0.items@[j].spec_can_download()),
                        f < len ==> f != index && c0.items@[f].spec_can_download(),
                        self.items@ == c0.items@.update(index as int, c0.items@[index as int].with_enabled(false)),
                    ensures
                        k == f,
                    decreases len - k,
                {
                    if k != index && self.items[k].can_download() {
                        break;
                    }
                    k = k + 1;
                }
                if k < len {
                    self.items[k].set_enabled(true);
                }
            }
        } else {
            self.items[index].set_enabled(!enabled);
        }
        proof {
            let s = c0.items@;
            let i = index as int;
            assert(self.items@ =~= c0.toggled_items());
            assert forall|j: int| 0 <= j < s.len() implies (#[trigger] self.items@[j]).spec_can_download()
                == s[j].spec_can_download() && (s[j].wf() ==> self.items@[j].wf()) by {
                lemma_with_enabled(s[j], true);
                lemma_with_enabled(s[j], false);
                lemma_with_enabled(s[j], !s[j].spec_enabled() && s[j].spec_can_download());
            }
            lemma_any_pointwise(self.items@, s);
            assert forall|j: int| 0 <= j < s.len() implies (#[trigger] self.items@[j]).wf() by {
                assert(s[j].wf());
            }
            assert forall|j: int| 0 <= j < s.len() implies #[trigger] self.items@[j] == s[j].with_enabled(
                self.items@[j].spec_enabled(),
            ) by {
                lemma_with_enabled(s[j], true);
                lemma_with_enabled(s[j], false);
                lemma_with_enabled(s[j], !s[j].spec_enabled() && s[j].spec_can_download());
            }
            lemma_rechosen_shape(c0, *self);
            if single_selection {
                assert forall|a: int, b: int|
                    #![trigger self.items@[a].spec_enabled(), self.items@[b].spec_enabled()]
                    0 <= a < s.len() && 0 <= b < s.len() && a != b && self.items@[a].spec_enabled()
                        implies !self.items@[b].spec_enabled() by {
                    lemma_with_enabled(s[a], true);
                    lemma_with_enabled(s[a], false);
                    lemma_with_enabled(s[b], true);
                    lemma_with_enabled(s[b], false);
                    if enabled {
                        if a != i {
                            assert(!s[a].spec_enabled());
                        }
                        if b != i {
                            assert(!s[b].spec_enabled());
                        }
                    }
                }
            }
            assert(self.local_wf());
        }
    }
}

/// Flipping each child of a well-formed category keeps it well formed.
proof fn lemma_items_rechosen(a: Category, b: Category)
    requires
        a.wf(),
        !a.single_selection,
        b == (Category { items: b.items, ..a }),
        b.items@ == Seq::new(
            a.items@.len(),
            |j: int| a.items@[j].with_enabled(!a.items@[j].spec_enabled() && a.items@[j].spec_can_download()),
        ),
    ensures
        b.wf(),
{
    let s = a.items@;
    assert forall|j: int| 0 <= j < s.len() implies (#[trigger] b.items@[j]).spec_can_download()
        == s[j].spec_can_download() && b.items@[j].wf() by {
        assert(s[j].wf());
        lemma_with_enabled(s[j], !s[j].spec_enabled() && s[j].spec_can_download());
    }
    lemma_any_pointwise(b.items@, s);
    assert(b.local_wf());
}

/// The text that humansize gives for a byte count in its WINDOWS format.
pub uninterp spec fn size_text(bytes: u64) -> Seq<char>;

/// Relies on humansize::format_size with the WINDOWS options (binary
/// multiples, decimal unit names): the text depends on the byte count alone.
#[verifier::external_body]
fn format_size(bytes: u64) -> (r: String)
    ensures
        r@ == size_text(bytes),
{
    humansize::format_size(bytes, humansize::WINDOWS)
}

impl Document {
    /// The size, written for people to read.
    pub fn human_readable_size(&self) -> (r: String)
        ensures
            r@ == size_text(self.size),
    {
        format_size(self.size)
    }
}

impl Category {
    /// The size of what is chosen below, written for people to read.
    pub fn human_readable_size(&self) -> (r: String)
        requires
            self.size_fits(),
        ensures
            r@ == size_text(items_size(self.items@, true) as u64),
    {
        format_size(self.size(true))
    }
}

impl LibraryItem {
    /// The size of a document, or the chosen size of a category's children,
    /// written for people to read.
    pub fn human_readable_size(&self) -> (r: String)
        requires
            self.spec_size(false) <= u64::MAX,
        ensures
            r@ == size_text(
                match *self {
                    LibraryItem::Document(d) => d.size,
                    LibraryItem::Category(c) => items_size(c.items@, true) as u64,
                },
            ),
    {
        match self {
            LibraryItem::Document(doc) => doc.human_readable_size(),
            LibraryItem::Category(cat) => cat.human_readable_size(),
        }
    }
}

/// Every category from here down has at least one child.
pub open spec fn populated(c: Category) -> bool
    decreases c,
{
    &&& c.items@.len() > 0
    &&& forall|i: int|
        0 <= i < c.items@.len() && (#[trigger] c.items@[i]) is Category ==> populated(c.items@[i]->Category_0)
}

/// A category whose children only had their own chosen flags changed keeps its
/// sizes, its downloadability and, if populated, stays populated.
proof fn lemma_rechosen_shape(a: Category, b: Category)
    requires
        b.items@.len() == a.items@.len(),
        forall|j: int|
            0 <= j < a.items@.len() ==> #[trigger] b.items@[j] == a.items@[j].with_enabled(b.items@[j].spec_enabled()),
    ensures
        any_can_download(b.items@) == any_can_download(a.items@),
        items_size(b.items@, false) == items_size(a.items@, false),
        populated(a) ==> populated(b),
{
    assert forall|j: int| 0 <= j < a.items@.len() implies {
        &&& (#[trigger] b.items@[j]).spec_can_download() == a.items@[j].spec_can_download()
        &&& b.items@[j].spec_size(false) == a.items@[j].spec_size(false)
        &&& (b.items@[j] is Category <==> a.items@[j] is Category)
        &&& (b.items@[j] is Category ==> b.items@[j]->Category_0.items == a.items@[j]->Category_0.items)
    } by {
        lemma_with_enabled(a.items@[j], b.items@[j].spec_enabled());
    }
    lemma_any_pointwise(b.items@, a.items@);
    lemma_size_pointwise(b.items@, a.items@);
    if populated(a) {
        assert forall|j: int| 0 <= j < b.items@.len() && (#[trigger] b.items@[j]) is Category implies populated(
            b.items@[j]->Category_0,
        ) by {
            let x = a.items@[j]->Category_0;
            let y = b.items@[j]->Category_0;
            assert(populated(x));
            assert(y.items@ == x.items@);
        }
    }
}

impl LibraryItem {
    /// The total size, or `None` where it does not fit in 64 bits.
    pub fn checked_size(&self) -> (r: Option<u64>)
        ensures
            r is Some <==> self.spec_size(false) <= u64::MAX,
            r is Some ==> r->0 == self.spec_size(false),
        decreases self,
    {
        match self {
            LibraryItem::Document(doc) => Some(doc.size),
            LibraryItem::Category(cat) => cat.checked_size(),
        }
    }
}

impl Category {
    /// The total size of the children, or `None` where it does not fit in 64 bits.
    pub fn checked_size(&self) -> (r: Option<u64>)
        ensures
            r is Some <==> self.size_fits(),
            r is Some ==> r->0 == items_size(self.items@, false),
        decreases self,
    {
        let mut total: u64 = 0;
        let mut i: usize = 0;
        while i < self.items.len()
            invariant
                i <= self.items@.len(),
                total == items_size(self.items@.take(i as int), false),
            decreases self.items@.len() - i,
        {
            proof {
                lemma_take_one_more(self.items@, i as int);
                lemma_prefix_size(self.items@, i as int + 1, false);
                lemma_items_size_bounds(self.items@.take(i as int + 1));
                lemma_item_size_bounds(self.items@[i as int]);
            }
            match self.items[i].checked_size() {
                Some(s) => {
                    if s > u64::MAX - total {
                        return None;
                    }
                    total = total + s;
                },
                None => {
                    return None;
                },
            }
            i = i + 1;
        }
        proof {
            assert(self.items@.take(i as int) =~= self.items@);
        }
        Some(total)
    }

    /// Whether this category and every category below it has children.
    pub fn is_populated(&self) -> (r: bool)
        ensures
            r == populated(*self),
        decreases self,
    {
        if self.items.len() == 0 {
            return false;
        }
        let mut i: usize = 0;
        while i < self.items.len()
            invariant
                i <= self.items@.len(),
                self.items@.len() > 0,
                forall|j: int|
                    0 <= j < i && (#[trigger] self.items@[j]) is Category ==> populated(
                        self.items@[j]->Category_0,
                    ),
            decreases self.items@.len() - i,
        {
            if let LibraryItem::Category(cat) = &self.items[i] {
                if !cat.is_populated() {
                    return false;
                }
            }
            i = i + 1;
        }
        true
    }
}

} // verus!
