//! Planning a download: which folders to make and which files to fetch, and how.

use vstd::prelude::*;
use vstd::string::{StrSliceExecFns, StringExecFns};

use crate::library::{Category, DownloadType, Document, LibraryItem};

verus! {

/// One thing to do to download the chosen part of a catalog.
#[derive(Debug)]
pub enum DownloadStep {
    /// Make sure a folder exists at this path.
    CreateFolder(String),
    /// Fetch `url` over HTTP(S) into the file at `path`.
    Http { url: String, path: String },
    /// Mirror the rsync address `url` into `path` with the rsync program.
    Rsync { url: String, path: String },
}

/// A download step as plain text values.
pub enum StepView {
    CreateFolder(Seq<char>),
    Http(Seq<char>, Seq<char>),
    Rsync(Seq<char>, Seq<char>),
}

impl View for DownloadStep {
    type V = StepView;

    open spec fn view(&self) -> StepView {
        match self {
            DownloadStep::CreateFolder(p) => StepView::CreateFolder(p@),
            DownloadStep::Http { url, path } => StepView::Http(url@, path@),
            DownloadStep::Rsync { url, path } => StepView::Rsync(url@, path@),
        }
    }
}

/// The views of a run of steps.
pub open spec fn steps_view(s: Seq<DownloadStep>) -> Seq<StepView> {
    s.map_values(|d: DownloadStep| d@)
}

/// `p` followed by a slash and `name`.
pub open spec fn joined(p: Seq<char>, name: Seq<char>) -> Seq<char> {
    p + seq!['/'] + name
}

/// `s` starts with `prefix`.
pub open spec fn has_prefix(s: Seq<char>, prefix: Seq<char>) -> bool {
    prefix.len() <= s.len() && s.subrange(0, prefix.len() as int) == prefix
}

pub open spec fn http_scheme() -> Seq<char> {
    seq!['h', 't', 't', 'p', ':', '/', '/']
}

pub open spec fn rsync_scheme() -> Seq<char> {
    seq!['r', 's', 'y', 'n', 'c', ':', '/', '/']
}

/// The rsync address for `url`: an `http://` scheme is dropped, and `rsync://`
/// is put in front of what does not already start with it.
pub open spec fn rsync_address(url: Seq<char>) -> Seq<char> {
    let u = if has_prefix(url, http_scheme()) {
        url.skip(http_scheme().len() as int)
    } else {
        url
    };
    if has_prefix(u, rsync_scheme()) {
        u
    } else {
        rsync_scheme() + u
    }
}

/// What follows the last slash of `s`; all of `s` if it holds none.
pub open spec fn last_segment(s: Seq<char>) -> Seq<char>
    decreases s.len(),
{
    if s.len() == 0 {
        s
    } else if s.last() == '/' {
        Seq::empty()
    } else {
        last_segment(s.drop_last()).push(s.last())
    }
}

/// Whether a document is fetched with rsync: it must be, or it may be, rsync
/// can run here, and HTTP is not preferred.
pub open spec fn uses_rsync(d: Document, prefer_http: bool) -> bool {
    match d.download_type {
        DownloadType::Http => false,
        DownloadType::Rsync => true,
        DownloadType::Either => d.rsync_usable && !prefer_http,
    }
}

/// The steps that download `item` below the folder `path`. Nothing is done for
/// an item that is not chosen. A document is fetched by HTTP into the file
/// named by the last segment of its URL, or by rsync into a folder named after
/// it. A category gets a folder of its name, and its children are planned in
/// turn inside it.
pub open spec fn plan(path: Seq<char>, item: LibraryItem, prefer_http: bool) -> Seq<StepView>
    decreases item,
{
    if !item.spec_enabled() {
        Seq::empty()
    } else {
        match item {
            LibraryItem::Document(d) => if uses_rsync(d, prefer_http) {
                seq![StepView::Rsync(rsync_address(d.url@), joined(path, d.name@))]
            } else {
                seq![StepView::Http(d.url@, joined(path, last_segment(d.url@)))]
            },
            LibraryItem::Category(c) => seq![StepView::CreateFolder(joined(path, c.name@))]
                + plan_items(joined(path, c.name@), c.items@, prefer_http),
        }
    }
}

/// The steps for each item of a run in turn.
pub open spec fn plan_items(path: Seq<char>, s: Seq<LibraryItem>, prefer_http: bool) -> Seq<StepView>
    decreases s,
{
    if s.len() == 0 {
        Seq::empty()
    } else {
        plan_items(path, s.drop_last(), prefer_http) + plan(path, s.last(), prefer_http)
    }
}

/// `path`, a slash and `name`.
pub fn join_path(path: &str, name: &str) -> (r: String)
    ensures
        r@ == joined(path@, name@),
{
    let mut r = String::from_str(path);
    r.append("/");
    r.append(name);
    proof {
        reveal_strlit("/");
    }
    r
}

/// Whether `s` starts with `prefix`.
fn starts_with(s: &str, prefix: &str) -> (r: bool)
    ensures
        r == has_prefix(s@, prefix@),
{
    let n = prefix.unicode_len();
    if n > s.unicode_len() {
        return false;
    }
    let mut i: usize = 0;
    while i < n
        invariant
            n == prefix@.len(),
            n <= s@.len(),
            i <= n,
            forall|j: int| 0 <= j < i ==> s@[j] == prefix@[j],
        decreases n - i,
    {
        if s.get_char(i) != prefix.get_char(i) {
            assert(s@.subrange(0, n as int)[i as int] == s@[i as int]);
            return false;
        }
        i = i + 1;
    }
    assert(s@.subrange(0, n as int) =~= prefix@);
    true
}

/// The rsync address for a URL; see `rsync_address`.
pub fn rsync_url(url: &str) -> (r: String)
    ensures
        r@ == rsync_address(url@),
{
    proof {
        reveal_strlit("http://");
        reveal_strlit("rsync://");
        assert("http://"@ =~= http_scheme());
        assert("rsync://"@ =~= rsync_scheme());
    }
    let rest = if starts_with(url, "http://") {
        url.substring_char(7, url.unicode_len())
    } else {
        url
    };
    proof {
        assert(has_prefix(url@, http_scheme()) ==> rest@ =~= url@.skip(7));
    }
    if starts_with(rest, "rsync://") {
        String::from_str(rest)
    } else {
        let mut r = String::from_str("rsync://");
        r.append(rest);
        r
    }
}

/// What follows the last slash of `s`.
pub fn last_url_segment(s: &str) -> (r: &str)
    ensures
        r@ == last_segment(s@),
{
    let n = s.unicode_len();
    let mut start: usize = n;
    proof {
        assert(s@.subrange(n as int, n as int) =~= Seq::<char>::empty());
        assert(s@.subrange(0, n as int) =~= s@);
    }
    while start > 0 && s.get_char(start - 1) != '/'
        invariant
            n == s@.len(),
            start <= n,
            last_segment(s@) == last_segment(s@.subrange(0, start as int)) + s@.subrange(start as int, n as int),
        decreases start,
    {
        proof {
            let t = s@.subrange(0, start as int);
            assert(t.drop_last() =~= s@.subrange(0, start - 1));
            assert(s@.subrange(start - 1, n as int) =~= seq![t.last()] + s@.subrange(start as int, n as int));
            assert(last_segment(t) == last_segment(t.drop_last()).push(t.last()));
            assert(last_segment(t) + s@.subrange(start as int, n as int) =~= last_segment(t.drop_last())
                + s@.subrange(start - 1, n as int));
        }
        start = start - 1;
    }
    proof {
        let t = s@.subrange(0, start as int);
        if start > 0 {
            assert(t.last() == '/');
        }
        assert(last_segment(t) =~= Seq::<char>::empty());
        assert(last_segment(s@) =~= s@.subrange(start as int, n as int));
    }
    s.substring_char(start, n)
}

/// Appends to `steps` what downloading `item` below the folder `path` takes;
/// see `plan`.
pub fn get_item(path: &str, item: &LibraryItem, prefer_http: bool, steps: &mut Vec<DownloadStep>)
    ensures
        steps_view(final(steps)@) == steps_view(old(steps)@) + plan(path@, *item, prefer_http),
    decreases item,
{
    if !item.enabled() {
        assert(steps_view(steps@) =~= steps_view(steps@) + Seq::<StepView>::empty());
        return;
    }
    let ghost before = steps@;
    match item {
        LibraryItem::Document(doc) => {
            let rsync = match doc.download_type {
                DownloadType::Http => false,
                DownloadType::Rsync => true,
                DownloadType::Either => doc.rsync_usable && !prefer_http,
            };
            if rsync {
                let target = join_path(path, doc.name.as_str());
                steps.push(DownloadStep::Rsync { url: rsync_url(doc.url.as_str()), path: target });
            } else {
                let target = join_path(path, last_url_segment(doc.url.as_str()));
                steps.push(DownloadStep::Http { url: String::from_str(doc.url.as_str()), path: target });
            }
            assert(steps_view(steps@) =~= steps_view(before) + plan(path@, *item, prefer_http));
        },
        LibraryItem::Category(cat) => {
            let folder = join_path(path, cat.name.as_str());
            let ghost sub = folder@;
            steps.push(DownloadStep::CreateFolder(folder.clone()));
            let ghost mid = steps@;
            assert(steps_view(mid) =~= steps_view(before) + seq![StepView::CreateFolder(sub)]);
            let mut i: usize = 0;
            assert(cat.items@.take(0) =~= Seq::<LibraryItem>::empty());
            while i < cat.items.len()
                invariant
                    *item == LibraryItem::Category(*cat),
                    i <= cat.items@.len(),
                    folder@ == sub,
                    steps_view(steps@) == steps_view(mid) + plan_items(sub, cat.items@.take(i as int), prefer_http),
                decreases cat.items@.len() - i,
            {
                proof {
                    assert(decreases_to!(*item => (*item)->Category_0));
                    assert(decreases_to!(*cat => cat.items));
                    assert(decreases_to!(cat.items => cat.items@));
                    assert(decreases_to!(cat.items@ => cat.items@[i as int]));
                }
                get_item(folder.as_str(), &cat.items[i], prefer_http, steps);
                proof {
                    assert(cat.items@.take(i + 1).drop_last() =~= cat.items@.take(i as int));
                    assert(cat.items@.take(i + 1).last() == cat.items@[i as int]);
                }
                i = i + 1;
            }
            assert(cat.items@.take(i as int) =~= cat.items@);
            assert(steps_view(steps@) =~= steps_view(before) + plan(path@, *item, prefer_http));
        },
    }
}

/// The steps that download everything chosen below the root `root` into the
/// folder `path`: each child of the root is planned in turn.
pub fn plan_download(path: &str, root: &Category, prefer_http: bool) -> (r: Vec<DownloadStep>)
    ensures
        steps_view(r@) == plan_items(path@, root.items@, prefer_http),
{
    let mut steps: Vec<DownloadStep> = Vec::new();
    let mut i: usize = 0;
    assert(root.items@.take(0) =~= Seq::<LibraryItem>::empty());
    assert(steps_view(steps@) =~= Seq::<StepView>::empty());
    while i < root.items.len()
        invariant
            i <= root.items@.len(),
            steps_view(steps@) == plan_items(path@, root.items@.take(i as int), prefer_http),
        decreases root.items@.len() - i,
    {
        get_item(path, &root.items[i], prefer_http, &mut steps);
        proof {
            assert(root.items@.take(i + 1).drop_last() =~= root.items@.take(i as int));
            assert(root.items@.take(i + 1).last() == root.items@[i as int]);
        }
        i = i + 1;
    }
    assert(root.items@.take(i as int) =~= root.items@);
    steps
}

} // verus!
