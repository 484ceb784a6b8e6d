//! The browsing state: which category is shown, how deep the user has gone,
//! and how children are ordered.

use vstd::prelude::*;

use crate::library::{any_can_download, items_size, lemma_item_within_run, populated, Category, LibraryItem};
use crate::navigate::{
    lemma_child_updated, lemma_navigable, lemma_populated_permuted, lemma_replaced_at, lemma_replaced_at_extend,
    lemma_selection_node, node_at, replaced_at,
};
use crate::sort::{lemma_permuted, sorts_to};

verus! {

/// The order in which children are listed.
#[derive(Debug, Clone, Copy, PartialEq, Eq, Structural)]
pub enum SortStyle {
    /// By name, in the order of character codes.
    Alphabetical,
    /// By the size of what is chosen, largest first.
    Size,
}

/// The browsing state of the catalog.
#[derive(Debug)]
pub struct App {
    /// The user asked to leave.
    pub should_quit: bool,
    /// The root of the catalog.
    pub category: Category,
    /// How many levels the user has gone down.
    pub depth: usize,
    /// The download summary is shown.
    pub download: bool,
    /// The order in which children are listed.
    pub sort_style: SortStyle,
}

/// `n2` is `n` sorted by `style`, with the child then under its cursor sorted
/// too where that child is a category.
pub open spec fn sorted_with_child(n: Category, style: SortStyle, n2: Category) -> bool {
    exists|n1: Category|
        #![trigger sorts_to(n, style, n1)]
        sorts_to(n, style, n1) && ({
            let i = n1.counter.index() as int;
            if n1.items@[i] is Category {
                &&& n2 == (Category { items: n2.items, ..n1 })
                &&& n2.items@.len() == n1.items@.len()
                &&& forall|j: int| 0 <= j < n1.items@.len() && j != i ==> #[trigger] n2.items@[j] == n1.items@[j]
                &&& n2.items@[i] is Category
                &&& sorts_to(n1.items@[i]->Category_0, style, n2.items@[i]->Category_0)
            } else {
                n2 == n1
            }
        })
}

impl App {
    /// The catalog is well formed, every category in it has children, its
    /// sizes fit in 64 bits, and the depth leaves room to go down.
    pub open spec fn wf(&self) -> bool {
        &&& self.category.wf()
        &&& self.category.size_fits()
        &&& populated(self.category)
        &&& self.depth < usize::MAX - 1
    }

    /// The positions leading to the category that the depth resolves to.
    pub open spec fn spec_path(&self) -> Seq<int> {
        self.category.selection_path(self.depth as int)
    }

    /// The category that the depth resolves to.
    pub open spec fn spec_node(&self) -> Category {
        node_at(self.category, self.spec_path())
    }

    /// The depth left over by the resolution.
    pub open spec fn spec_rest(&self) -> int {
        self.category.selection_rest(self.depth as int)
    }

    /// Whether the keys act on the last category under the resolved one's cursor
    /// rather than on the resolved one.
    pub open spec fn focus_is_child(&self) -> bool {
        self.spec_rest() != 0 && self.spec_node().spec_selected_last()
    }

    /// The positions leading to the category that the cursor keys and the
    /// toggles act on.
    pub open spec fn focus_path(&self) -> Seq<int> {
        if self.focus_is_child() {
            self.spec_path().push(self.spec_node().counter.index() as int)
        } else {
            self.spec_path()
        }
    }

    /// The category that the cursor keys and the toggles act on.
    pub open spec fn focus(&self) -> Category {
        node_at(self.category, self.focus_path())
    }

    /// `b` is `a` with the category in focus replaced by `n`.
    pub open spec fn refocused(a: App, n: Category, b: App) -> bool {
        &&& b == (App { category: b.category, ..a })
        &&& replaced_at(a.category, a.focus_path(), n, b.category)
    }

    /// `b` is `a` with the resolved category sorted in `a`'s style, and the child
    /// under its cursor too where that is a category.
    pub open spec fn sorted_view(a: App, b: App) -> bool {
        &&& b == (App { category: b.category, ..a })
        &&& exists|n2: Category|
            #![trigger replaced_at(a.category, a.spec_path(), n2, b.category)]
            replaced_at(a.category, a.spec_path(), n2, b.category) && sorted_with_child(
                a.spec_node(),
                a.sort_style,
                n2,
            )
    }

    /// `b` is `a` after moving the cursor in focus to `pos` and then sorting the
    /// resolved category.
    pub open spec fn moved_and_sorted(a: App, pos: nat, b: App) -> bool {
        exists|mid: App| #![trigger App::sorted_view(mid, b)] App::cursor_moved(a, pos, mid) && App::sorted_view(mid, b)
    }

    /// `b` is `a` after toggling the child under the cursor in focus.
    pub open spec fn toggled(a: App, b: App) -> bool {
        exists|n: Category| #![trigger App::refocused(a, n, b)] App::refocused(a, n, b) && Category::toggles_to(a.focus(), n)
    }

    /// `b` is `a` after flipping every child of the category in focus.
    pub open spec fn all_toggled(a: App, b: App) -> bool {
        exists|n: Category|
            #![trigger App::refocused(a, n, b)]
            App::refocused(a, n, b) && if a.focus().single_selection {
                n == a.focus()
            } else {
                &&& n == (Category { items: n.items, ..a.focus() })
                &&& n.items@ == Seq::new(
                    a.focus().items@.len(),
                    |j: int|
                        a.focus().items@[j].with_enabled(
                            !a.focus().items@[j].spec_enabled() && a.focus().items@[j].spec_can_download(),
                        ),
                )
            }
    }

    /// The depth that going right leads to: one more, less whatever the
    /// resolution then reports beyond one.
    pub open spec fn right_depth(a: App) -> int {
        let d = a.depth + 1;
        let rest = a.category.selection_rest(d);
        d - (if rest > 1 { rest - 1 } else { 0 })
    }

    /// `b` is `a` with the cursor of the category in focus moved to `pos`.
    pub open spec fn cursor_moved(a: App, pos: nat, b: App) -> bool {
        exists|n: Category|
            #![trigger App::refocused(a, n, b)]
            App::refocused(a, n, b) && n == (Category { counter: n.counter, ..a.focus() })
                && n.counter.len() == a.focus().counter.len() && n.counter.pos() == Some(pos)
    }
}

proof fn lemma_focus(a: App)
    requires
        a.wf(),
    ensures
        a.spec_node().wf(),
        populated(a.spec_node()),
        a.spec_node().size_fits(),
        a.focus().wf(),
        populated(a.focus()),
        a.focus().size_fits(),
        a.focus().items@.len() > 0,
        a.category.navigable(a.depth as int),
        a.spec_rest() >= 0,
        a.spec_rest() != 0 && !a.spec_node().spec_selected_last() ==> !a.spec_node().spec_selected_is_category(),
        a.focus_is_child() ==> a.focus() == a.spec_node().cursor_item()->Category_0,
        a.spec_node().counter.index() < a.spec_node().items@.len(),
{
    lemma_navigable(a.category, a.depth as int);
    lemma_selection_node(a.category, a.depth as int);
    let n = a.spec_node();
    let i = n.counter.index() as int;
    if a.focus_is_child() {
        assert(n.items@[i].wf());
        lemma_item_within_run(n.items@, i);
        assert(populated(n.items@[i]->Category_0));
        lemma_focus_child(a);
    }
}

proof fn lemma_focus_child(a: App)
    requires
        a.wf(),
        a.focus_is_child(),
        a.spec_node().wf(),
        populated(a.spec_node()),
    ensures
        a.focus() == a.spec_node().cursor_item()->Category_0,
{
    reveal_with_fuel(node_at, 2);
    lemma_path_extends(a.category, a.spec_path(), a.spec_node().counter.index() as int);
    assert(seq![a.spec_node().counter.index() as int].drop_first() =~= Seq::<int>::empty());
}

proof fn lemma_path_extends(c: Category, path: Seq<int>, idx: int)
    ensures
        node_at(c, path.push(idx)) == node_at(node_at(c, path), seq![idx]),
    decreases path.len(),
{
    if path.len() == 0 {
        assert(path.push(idx) =~= seq![idx]);
    } else {
        assert(path.push(idx).drop_first() =~= path.drop_first().push(idx));
        lemma_path_extends(c.items@[path[0]]->Category_0, path.drop_first(), idx);
    }
}

impl App {
    /// A browsing state at the top of `category`, with the root's children and
    /// those of each child category listed by name.
    pub fn new(category: Category) -> (r: App)
        requires
            category.wf(),
            category.size_fits(),
            populated(category),
        ensures
            r.wf(),
            !r.should_quit,
            r.depth == 0,
            !r.download,
            r.sort_style == SortStyle::Alphabetical,
            exists|c1: Category|
                #![trigger sorts_to(category, SortStyle::Alphabetical, c1)]
                {
                    &&& sorts_to(category, SortStyle::Alphabetical, c1)
                    &&& r.category == (Category { items: r.category.items, ..c1 })
                    &&& r.category.items@.len() == c1.items@.len()
                    &&& forall|i: int|
                        0 <= i < c1.items@.len() ==> match #[trigger] c1.items@[i] {
                            LibraryItem::Document(_) => r.category.items@[i] == c1.items@[i],
                            LibraryItem::Category(sub) => r.category.items@[i] is Category && sorts_to(
                                sub,
                                SortStyle::Alphabetical,
                                r.category.items@[i]->Category_0,
                            ),
                        }
                },
    {
        let mut category = category;
        let ghost c0 = category;
        category.sort(SortStyle::Alphabetical);
        let ghost c1 = category;
        proof {
            lemma_permuted(c0, c1);
            lemma_populated_permuted(c0, c1);
        }
        let len = category.items.len();
        let mut i: usize = 0;
        while i < len
            invariant
                len == c1.items@.len(),
                c1.wf(),
                populated(c1),
                c1.size_fits(),
                category == (Category { items: category.items, ..c1 }),
                category.items@.len() == len,
                category.wf(),
                populated(category),
                items_size(category.items@, false) == items_size(c1.items@, false),
                i <= len,
                forall|j: int|
                    0 <= j < i ==> match #[trigger] c1.items@[j] {
                        LibraryItem::Document(_) => category.items@[j] == c1.items@[j],
                        LibraryItem::Category(sub) => category.items@[j] is Category && sorts_to(
                            sub,
                            SortStyle::Alphabetical,
                            category.items@[j]->Category_0,
                        ),
                    },
                forall|j: int| i <= j < len ==> #[trigger] category.items@[j] == c1.items@[j],
            decreases len - i,
        {
            if !category.items[i].is_document() {
                let ghost before = category;
                proof {
                    assert(c1.items@[i as int].wf());
                    lemma_item_within_run(c1.items@, i as int);
                    assert(populated(c1.items@[i as int]->Category_0));
                }
                category.items[i].category_mut().sort(SortStyle::Alphabetical);
                proof {
                    let sub0 = before.items@[i as int]->Category_0;
                    let sub1 = category.items@[i as int]->Category_0;
                    lemma_permuted(sub0, sub1);
                    lemma_populated_permuted(sub0, sub1);
                    lemma_child_updated(before, i as int, category);
                }
            }
            i = i + 1;
        }
        App {
            should_quit: false,
            category,
            depth: 0,
            download: false,
            sort_style: SortStyle::Alphabetical,
        }
    }

    /// The category that the depth resolves to, with the depth left over.
    pub fn get_selected_category(&mut self) -> (ret: (&mut Category, usize))
        requires
            old(self).wf(),
        ensures
            *ret.0 == old(self).spec_node(),
            ret.1 == old(self).spec_rest(),
            replaced_at(old(self).category, old(self).spec_path(), *final(ret.0), final(self).category),
            *final(self) == (App { category: final(self).category, ..*old(self) }),
    {
        proof {
            lemma_navigable(self.category, self.depth as int);
        }
        self.category.get_selected_category(self.depth)
    }

    /// The category that the cursor keys and toggles act on: the resolved one,
    /// or the last category under its cursor where depth is left over.
    fn focused(&mut self) -> (ret: &mut Category)
        requires
            old(self).wf(),
        ensures
            *ret == old(self).focus(),
            *final(self) == (App { category: final(self).category, ..*old(self) }),
            exists|n1: Category|
                #![trigger replaced_at(old(self).category, old(self).spec_path(), n1, final(self).category)]
                replaced_at(old(self).category, old(self).spec_path(), n1, final(self).category) && if old(
                    self,
                ).focus_is_child() {
                    &&& n1 == (Category { items: n1.items, ..old(self).spec_node() })
                    &&& n1.items@ == old(self).spec_node().items@.update(
                        old(self).spec_node().counter.index() as int,
                        LibraryItem::Category(*final(ret)),
                    )
                } else {
                    n1 == *final(ret)
                },
    {
        let ghost a = *self;
        proof {
            lemma_focus(a);
        }
        let (cat, rest) = self.get_selected_category();
        if rest == 0 || !cat.is_selected_last() {
            cat
        } else {
            let index = cat.counter.current();
            proof {
                lemma_focus_child(a);
            }
            cat.items[index].category_mut()
        }
    }

    /// Applies the focus relation along the full path.
    proof fn lemma_refocus(a: App, n: Category, b: App)
        requires
            a.wf(),
            b == (App { category: b.category, ..a }),
            exists|n1: Category|
                #![trigger replaced_at(a.category, a.spec_path(), n1, b.category)]
                replaced_at(a.category, a.spec_path(), n1, b.category) && if a.focus_is_child() {
                    &&& n1 == (Category { items: n1.items, ..a.spec_node() })
                    &&& n1.items@ == a.spec_node().items@.update(
                        a.spec_node().counter.index() as int,
                        LibraryItem::Category(n),
                    )
                } else {
                    n1 == n
                },
        ensures
            App::refocused(a, n, b),
    {
        let n1 = choose|n1: Category|
            #![trigger replaced_at(a.category, a.spec_path(), n1, b.category)]
            replaced_at(a.category, a.spec_path(), n1, b.category) && if a.focus_is_child() {
                &&& n1 == (Category { items: n1.items, ..a.spec_node() })
                &&& n1.items@ == a.spec_node().items@.update(
                    a.spec_node().counter.index() as int,
                    LibraryItem::Category(n),
                )
            } else {
                n1 == n
            };
        if a.focus_is_child() {
            lemma_focus(a);
            lemma_replaced_at_extend(
                a.category,
                a.spec_path(),
                a.spec_node().counter.index() as int,
                n1,
                n,
                b.category,
            );
        }
    }

    /// After the category in focus was replaced by one with the same children,
    /// flags and sizes, the state is still well formed.
    proof fn lemma_refocused_wf(a: App, n: Category, b: App)
        requires
            a.wf(),
            App::refocused(a, n, b),
            n.wf(),
            populated(n),
            n.enabled == a.focus().enabled,
            any_can_download(n.items@) == any_can_download(a.focus().items@),
            items_size(n.items@, false) == items_size(a.focus().items@, false),
        ensures
            b.wf(),
    {
        lemma_replaced_at(a.category, a.focus_path(), n, b.category);
    }

    /// Moves the cursor in focus to the first row.
    pub fn home(&mut self)
        requires
            old(self).wf(),
        ensures
            final(self).wf(),
            App::cursor_moved(*old(self), 0, *final(self)),
    {
        let ghost a = *self;
        proof {
            lemma_focus(a);
        }
        let cat = self.focused();
        cat.counter.set_selected(0);
        proof {
            App::lemma_refocus(a, *cat, *self);
            App::lemma_refocused_wf(a, *cat, *self);
        }
    }

    /// Moves the cursor in focus to the last row.
    pub fn end(&mut self)
        requires
            old(self).wf(),
        ensures
            final(self).wf(),
            App::cursor_moved(*old(self), (old(self).focus().items@.len() - 1) as nat, *final(self)),
    {
        let ghost a = *self;
        proof {
            lemma_focus(a);
        }
        let cat = self.focused();
        let max = cat.counter.size();
        cat.counter.set_selected(max - 1);
        proof {
            App::lemma_refocus(a, *cat, *self);
            App::lemma_refocused_wf(a, *cat, *self);
        }
    }

    /// Moves the cursor in focus down one row, wrapping round, then sorts.
    pub fn next(&mut self)
        requires
            old(self).wf(),
        ensures
            final(self).wf(),
            App::moved_and_sorted(*old(self), old(self).focus().counter.next_index(), *final(self)),
    {
        let ghost a = *self;
        proof {
            lemma_focus(a);
        }
        let cat = self.focused();
        cat.counter.next();
        proof {
            App::lemma_refocus(a, *cat, *self);
            App::lemma_refocused_wf(a, *cat, *self);
        }
        let ghost mid = *self;
        self.sort();
        proof {
            assert(App::cursor_moved(a, a.focus().counter.next_index(), mid));
        }
    }

    /// Moves the cursor in focus up one row, wrapping round, then sorts.
    pub fn previous(&mut self)
        requires
            old(self).wf(),
        ensures
            final(self).wf(),
            App::moved_and_sorted(*old(self), old(self).focus().counter.previous_index(), *final(self)),
    {
        let ghost a = *self;
        proof {
            lemma_focus(a);
        }
        let cat = self.focused();
        cat.counter.previous();
        proof {
            App::lemma_refocus(a, *cat, *self);
            App::lemma_refocused_wf(a, *cat, *self);
        }
        let ghost mid = *self;
        self.sort();
        proof {
            assert(App::cursor_moved(a, a.focus().counter.previous_index(), mid));
        }
    }

    /// Toggles the child under the cursor in focus.
    pub fn toggle(&mut self)
        requires
            old(self).wf(),
        ensures
            final(self).wf(),
            App::toggled(*old(self), *final(self)),
    {
        let ghost a = *self;
        proof {
            lemma_focus(a);
        }
        let cat = self.focused();
        cat.toggle_selected_item();
        proof {
            App::lemma_refocus(a, *cat, *self);
            App::lemma_refocused_wf(a, *cat, *self);
        }
    }

    /// Flips every child of the category in focus, unless it is single-selection.
    pub fn toggle_all(&mut self)
        requires
            old(self).wf(),
        ensures
            final(self).wf(),
            App::all_toggled(*old(self), *final(self)),
    {
        let ghost a = *self;
        proof {
            lemma_focus(a);
        }
        let cat = self.focused();
        cat.toggle_all_items();
        proof {
            App::lemma_refocus(a, *cat, *self);
            App::lemma_refocused_wf(a, *cat, *self);
        }
    }

    /// Sorts the resolved category in the current style, and the child under
    /// its cursor too where that is a category.
    pub fn sort(&mut self)
        requires
            old(self).wf(),
        ensures
            final(self).wf(),
            App::sorted_view(*old(self), *final(self)),
    {
        let ghost a = *self;
        proof {
            lemma_focus(a);
        }
        let style = self.sort_style;
        let (cat, _) = self.get_selected_category();
        let ghost n0 = *cat;
        cat.sort(style);
        let ghost n1 = *cat;
        proof {
            lemma_permuted(n0, n1);
            lemma_populated_permuted(n0, n1);
        }
        let index = cat.counter.current();
        if !cat.items[index].is_document() {
            proof {
                assert(n1.items@[index as int].wf());
                lemma_item_within_run(n1.items@, index as int);
                assert(populated(n1.items@[index as int]->Category_0));
            }
            cat.items[index].category_mut().sort(style);
        }
        proof {
            let n2 = *cat;
            if n1.items@[index as int] is Category {
                let s0 = n1.items@[index as int]->Category_0;
                let s1 = n2.items@[index as int]->Category_0;
                lemma_permuted(s0, s1);
                lemma_populated_permuted(s0, s1);
                lemma_child_updated(n1, index as int, n2);
            }
            assert(sorted_with_child(n0, style, n2));
            lemma_replaced_at(a.category, a.spec_path(), n2, self.category);
        }
    }

    /// Switches between the two orders and sorts.
    pub fn toggle_sort_style(&mut self)
        requires
            old(self).wf(),
        ensures
            final(self).wf(),
            App::sorted_view(
                App {
                    sort_style: match old(self).sort_style {
                        SortStyle::Alphabetical => SortStyle::Size,
                        SortStyle::Size => SortStyle::Alphabetical,
                    },
                    ..*old(self)
                },
                *final(self),
            ),
    {
        match self.sort_style {
            SortStyle::Alphabetical => self.sort_style = SortStyle::Size,
            SortStyle::Size => self.sort_style = SortStyle::Alphabetical,
        }
        self.sort();
    }

    /// Goes up one level (not past the top) and sorts.
    pub fn left(&mut self)
        requires
            old(self).wf(),
        ensures
            final(self).wf(),
            App::sorted_view(
                App { depth: (if old(self).depth > 0 { old(self).depth - 1 } else { 0 }) as usize, ..*old(self) },
                *final(self),
            ),
    {
        if self.depth > 0 {
            self.depth = self.depth - 1;
        }
        self.sort();
    }

    /// Goes down one level, as far as the branch under the cursors reaches, and
    /// sorts. Nothing happens once the depth counter has reached its limit.
    pub fn right(&mut self)
        requires
            old(self).wf(),
        ensures
            final(self).wf(),
            old(self).depth < usize::MAX - 2 ==> App::sorted_view(
                App { depth: App::right_depth(*old(self)) as usize, ..*old(self) },
                *final(self),
            ),
            old(self).depth >= usize::MAX - 2 ==> *final(self) == *old(self),
    {
        if self.depth < usize::MAX - 2 {
            let ghost a = *self;
            self.depth = self.depth + 1;
            proof {
                lemma_selection_node(self.category, self.depth as int);
                lemma_navigable(self.category, self.depth as int);
            }
            let depth = self.category.selected_rest(self.depth);
            let over = if depth > 1 { depth - 1 } else { 0 };
            self.depth = self.depth - over;
            self.sort();
        }
    }

    /// Asks to leave.
    pub fn quit(&mut self)
        ensures
            *final(self) == (App { should_quit: true, ..*old(self) }),
    {
        self.should_quit = true;
    }

    /// Called on every tick of the event loop; the state does not change.
    pub fn tick(&self) {
    }
}

/// A key the user pressed.
#[derive(Debug, Clone, Copy, PartialEq, Eq, Structural)]
pub enum Key {
    Esc,
    Char(char),
    Up,
    Down,
    Left,
    Right,
    Home,
    End,
    Enter,
    Tab,
    /// Any other key.
    Other,
}

/// Whether the key asks to leave (or to close the download summary): Esc,
/// `q`, or `c` with Control.
pub open spec fn is_leave_key(key: Key, control: bool) -> bool {
    key == Key::Esc || key == Key::Char('q') || (control && (key == Key::Char('c') || key == Key::Char('C')))
}

/// Whether the key has a meaning of its own while browsing: the arrows, Home,
/// End, Space, Enter, Tab and `s`.
pub open spec fn is_command_key(key: Key) -> bool {
    ||| key == Key::Up
    ||| key == Key::Down
    ||| key == Key::Left
    ||| key == Key::Right
    ||| key == Key::Home
    ||| key == Key::End
    ||| key == Key::Char(' ')
    ||| key == Key::Enter
    ||| key == Key::Tab
    ||| key == Key::Char('s')
    ||| key == Key::Char('S')
}

/// Applies a key press to the browsing state. `control` tells whether Control,
/// and no other modifier, was held. While the download summary is shown, a
/// leave key closes it and Enter asks to leave; otherwise a leave key asks to
/// leave, the arrows, Home and End move, Space toggles the child under the
/// cursor, Tab toggles all children, `s` switches the order, and Enter shows the
/// download summary.
pub fn update(app: &mut App, key: Key, control: bool)
    requires
        old(app).wf(),
    ensures
        final(app).wf(),
        old(app).download ==> {
            &&& is_leave_key(key, control) ==> *final(app) == (App { download: false, ..*old(app) })
            &&& key == Key::Enter ==> *final(app) == (App { should_quit: true, ..*old(app) })
            &&& !is_leave_key(key, control) && key != Key::Enter ==> *final(app) == *old(app)
        },
        !old(app).download ==> {
            &&& is_leave_key(key, control) ==> *final(app) == (App { should_quit: true, ..*old(app) })
            &&& key == Key::Up ==> App::moved_and_sorted(
                *old(app),
                old(app).focus().counter.previous_index(),
                *final(app),
            )
            &&& key == Key::Down ==> App::moved_and_sorted(
                *old(app),
                old(app).focus().counter.next_index(),
                *final(app),
            )
            &&& key == Key::Left ==> App::sorted_view(
                App { depth: (if old(app).depth > 0 { old(app).depth - 1 } else { 0 }) as usize, ..*old(app) },
                *final(app),
            )
            &&& key == Key::Right && old(app).depth < usize::MAX - 2 ==> App::sorted_view(
                App { depth: App::right_depth(*old(app)) as usize, ..*old(app) },
                *final(app),
            )
            &&& key == Key::Home ==> App::cursor_moved(*old(app), 0, *final(app))
            &&& key == Key::End ==> App::cursor_moved(
                *old(app),
                (old(app).focus().items@.len() - 1) as nat,
                *final(app),
            )
            &&& key == Key::Char(' ') ==> App::toggled(*old(app), *final(app))
            &&& key == Key::Enter ==> *final(app) == (App { download: true, ..*old(app) })
            &&& key == Key::Tab ==> App::all_toggled(*old(app), *final(app))
            &&& (key == Key::Char('s') || key == Key::Char('S')) ==> App::sorted_view(
                App {
                    sort_style: match old(app).sort_style {
                        SortStyle::Alphabetical => SortStyle::Size,
                        SortStyle::Size => SortStyle::Alphabetical,
                    },
                    ..*old(app)
                },
                *final(app),
            )
            &&& !is_leave_key(key, control) && !is_command_key(key) ==> *final(app) == *old(app)
        },
{
    if app.download {
        match key {
            Key::Esc | Key::Char('q') => {
                app.download = false;
            },
            Key::Char('c') | Key::Char('C') => {
                if control {
                    app.download = false;
                }
            },
            Key::Enter => app.quit(),
            _ => {},
        }
    } else {
        match key {
            Key::Esc | Key::Char('q') => app.quit(),
            Key::Char('c') | Key::Char('C') => {
                if control {
                    app.quit();
                }
            },
            Key::Up => app.previous(),
            Key::Down => app.next(),
            Key::Left => app.left(),
            Key::Right => app.right(),
            Key::Home => app.home(),
            Key::End => app.end(),
            Key::Char(' ') => app.toggle(),
            Key::Enter => app.download = true,
            Key::Tab => app.toggle_all(),
            Key::Char('s') | Key::Char('S') => app.toggle_sort_style(),
            _ => {},
        }
    }
}

} // verus!
