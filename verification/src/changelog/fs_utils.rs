//! A snapshot of a directory tree, as plain values, and the scan of a
//! directory's children that the readers share.

use crate::changelog::config::{Config, ConfigView};
use crate::changelog::parsing_utils::same_text;
use crate::changelog::seq_utils::{
    items_view, lemma_try_map_first_failure, lemma_try_map_success, results_view, same_items,
    try_map,
};
use crate::error::{Error, ErrorView};
use vstd::prelude::*;

verus! {

/// A regular file, as it was found.
#[derive(Debug)]
pub struct FileSnapshot {
    /// The file's path, for messages.
    pub path: String,
    /// The last component of the path, if there is one and it is valid
    /// UTF-8.
    pub name: Option<String>,
    /// The file's text, or the message of the failure to read it.
    pub contents: Result<String, String>,
}

/// A directory, as it was found.
#[derive(Debug)]
pub struct DirSnapshot {
    /// The directory's path, for messages.
    pub path: String,
    /// The last component of the path, if there is one and it is valid
    /// UTF-8.
    pub name: Option<String>,
    /// The directory's children in the order in which they were enumerated,
    /// or the message of the failure to enumerate them.
    pub listing: Result<Vec<DirEntry>, String>,
}

/// One child of a directory, as its enumeration yielded it.
#[derive(Debug)]
pub enum DirEntry {
    /// A regular file.
    File(FileSnapshot),
    /// A sub-directory.
    Dir(DirSnapshot),
    /// Neither a regular file nor a directory.
    Other,
    /// The child or its metadata could not be read; holds the failure's
    /// message.
    Failed(String),
}

/// What a path leads to.
#[derive(Debug)]
pub enum PathSnapshot {
    /// Nothing: the path does not exist.
    Missing,
    /// It could not be found out whether the path exists; holds the
    /// failure's message.
    Unreadable(String),
    /// Something: holds what reading it as a directory gave. Of what is not
    /// a directory, the enumeration has failed.
    Exists(DirSnapshot),
}

/// The mathematical value of a [`FileSnapshot`].
pub struct FileView {
    pub path: Seq<char>,
    pub name: Option<Seq<char>>,
    pub contents: Result<Seq<char>, Seq<char>>,
}

/// The mathematical value of a [`DirSnapshot`].
pub struct DirView {
    pub path: Seq<char>,
    pub name: Option<Seq<char>>,
    pub listing: Result<Seq<DirEntryView>, Seq<char>>,
}

/// The mathematical value of a [`DirEntry`].
pub enum DirEntryView {
    File(FileView),
    Dir(DirView),
    Other,
    Failed(Seq<char>),
}

/// The mathematical value of a [`PathSnapshot`].
pub enum PathView {
    Missing,
    Unreadable(Seq<char>),
    Exists(DirView),
}

/// The mathematical value of an optional string.
pub open spec fn opt_text(s: Option<String>) -> Option<Seq<char>> {
    match s {
        Some(t) => Some(t@),
        None => None,
    }
}

impl View for FileSnapshot {
    type V = FileView;

    open spec fn view(&self) -> FileView {
        FileView {
            path: self.path@,
            name: opt_text(self.name),
            contents: match self.contents {
                Ok(t) => Ok(t@),
                Err(m) => Err(m@),
            },
        }
    }
}

/// The value of a directory snapshot: that of each of its parts.
pub open spec fn dir_view(d: DirSnapshot) -> DirView
    decreases d,
{
    DirView {
        path: d.path@,
        name: opt_text(d.name),
        listing: match d.listing {
            Ok(v) => Ok(
                Seq::new(
                    v.len() as nat,
                    |i: int|
                        if 0 <= i < v.len() {
                            dir_entry_view(v[i])
                        } else {
                            DirEntryView::Other
                        },
                ),
            ),
            Err(m) => Err(m@),
        },
    }
}

/// The value of a directory's child: that of each of its parts.
pub open spec fn dir_entry_view(e: DirEntry) -> DirEntryView
    decreases e,
{
    match e {
        DirEntry::File(f) => DirEntryView::File(f@),
        DirEntry::Dir(d) => DirEntryView::Dir(dir_view(d)),
        DirEntry::Other => DirEntryView::Other,
        DirEntry::Failed(m) => DirEntryView::Failed(m@),
    }
}

impl View for DirSnapshot {
    type V = DirView;

    open spec fn view(&self) -> DirView {
        dir_view(*self)
    }
}

impl View for DirEntry {
    type V = DirEntryView;

    open spec fn view(&self) -> DirEntryView {
        dir_entry_view(*self)
    }
}

impl View for PathSnapshot {
    type V = PathView;

    open spec fn view(&self) -> PathView {
        match *self {
            PathSnapshot::Missing => PathView::Missing,
            PathSnapshot::Unreadable(m) => PathView::Unreadable(m@),
            PathSnapshot::Exists(d) => PathView::Exists(d@),
        }
    }
}

/// The mathematical value of what a classifier says of one child: nothing
/// where the child is passed over, else what is kept of it or the error.
pub open spec fn outcome_view<T: View>(o: Option<Result<T, Error>>) -> Option<
    Result<T::V, ErrorView>,
> {
    match o {
        None => None,
        Some(Ok(x)) => Some(Ok(x@)),
        Some(Err(e)) => Some(Err(e@)),
    }
}

/// What a scan of the children `entries` with the classifier `filter`
/// yields: what the classifier keeps, in the order of the children, or the
/// error of the first child for which it reports one.
pub open spec fn read_and_filter_spec<V>(
    entries: Seq<DirEntryView>,
    filter: spec_fn(DirEntryView) -> Option<Result<V, ErrorView>>,
) -> Result<Seq<V>, ErrorView>
    decreases entries.len(),
{
    if entries.len() == 0 {
        Ok(Seq::empty())
    } else {
        match read_and_filter_spec(entries.drop_last(), filter) {
            Err(e) => Err(e),
            Ok(kept) => match filter(entries.last()) {
                None => Ok(kept),
                Some(Err(e)) => Err(e),
                Some(Ok(x)) => Ok(kept.push(x)),
            },
        }
    }
}

/// What a scan of the directory `dir` with the classifier `filter` yields:
/// an I/O error where the directory could not be enumerated, else the scan
/// of its children.
pub open spec fn read_and_filter_dir_spec<V>(
    dir: DirView,
    filter: spec_fn(DirEntryView) -> Option<Result<V, ErrorView>>,
) -> Result<Seq<V>, ErrorView> {
    match dir.listing {
        Err(m) => Err(ErrorView::Io(m)),
        Ok(entries) => read_and_filter_spec(entries, filter),
    }
}

/// Scans the children of `dir` in the order of their enumeration. The
/// classifier `filter` is asked about each child in turn; what it keeps is
/// collected, and the first error that it reports ends the scan. The result
/// is not sorted.
///
/// `spec_filter` says what `filter` computes.
pub fn read_and_filter_dir<'a, T: View, F>(
    dir: &'a DirSnapshot,
    filter: F,
    Ghost(spec_filter): Ghost<spec_fn(DirEntryView) -> Option<Result<T::V, ErrorView>>>,
) -> (r: Result<Vec<T>, Error>) where F: Fn(&'a DirEntry) -> Option<Result<T, Error>>
    requires
        forall|e: &'a DirEntry| call_requires(filter, (e,)),
        forall|e: &'a DirEntry, o: Option<Result<T, Error>>|
            call_ensures(filter, (e,), o) ==> outcome_view(o) == spec_filter(e@),
    ensures
        results_view(r) == read_and_filter_dir_spec(dir@, spec_filter),
{
    match &dir.listing {
        Err(m) => Err(Error::Io(m.clone())),
        Ok(entries) => {
            let ghost views = dir@.listing->Ok_0;
            let mut kept: Vec<T> = Vec::new();
            let mut i: usize = 0;
            assert(views.take(0) == Seq::<DirEntryView>::empty());
            assert(items_view(kept@) == Seq::<T::V>::empty());
            while i < entries.len()
                invariant
                    i <= entries.len(),
                    views.len() == entries.len(),
                    dir@.listing == Ok::<Seq<DirEntryView>, Seq<char>>(views),
                    forall|j: int| 0 <= j < entries.len() ==> views[j] == (#[trigger] entries[j])@,
                    forall|e: &'a DirEntry| call_requires(filter, (e,)),
                    forall|e: &'a DirEntry, o: Option<Result<T, Error>>|
                        call_ensures(filter, (e,), o) ==> outcome_view(o) == spec_filter(e@),
                    read_and_filter_spec(views.take(i as int), spec_filter) == Ok::<
                        Seq<T::V>,
                        ErrorView,
                    >(items_view(kept@)),
                decreases entries.len() - i,
            {
                let ghost before = items_view(kept@);
                assert(views.take(i + 1).drop_last() == views.take(i as int));
                assert(views.take(i + 1).last() == entries[i as int]@);
                match filter(&entries[i]) {
                    None => {},
                    Some(Err(e)) => {
                        proof {
                            assert(read_and_filter_spec(views.take(i + 1), spec_filter) == Err::<
                                Seq<T::V>,
                                ErrorView,
                            >(e@));
                            lemma_scan_failure(views, i + 1, spec_filter);
                        }
                        return Err(e);
                    },
                    Some(Ok(x)) => {
                        kept.push(x);
                        assert(items_view(kept@) == before.push(x@));
                    },
                }
                i += 1;
            }
            assert(views.take(entries.len() as int) == views);
            Ok(kept)
        },
    }
}

/// A scan that fails on the first `i` children fails in the same way on
/// all of them: the first error ends it.
pub proof fn lemma_scan_failure<V>(
    entries: Seq<DirEntryView>,
    i: int,
    filter: spec_fn(DirEntryView) -> Option<Result<V, ErrorView>>,
)
    requires
        0 <= i <= entries.len(),
        read_and_filter_spec(entries.take(i), filter) is Err,
    ensures
        read_and_filter_spec(entries, filter) == read_and_filter_spec(entries.take(i), filter),
    decreases entries.len() - i,
{
    if i < entries.len() {
        assert(entries.take(i + 1).drop_last() == entries.take(i));
        lemma_scan_failure(entries, i + 1, filter);
    } else {
        assert(entries.take(i) == entries);
    }
}

/// Whether the classifier's answer `o` is to keep something.
pub open spec fn keeps<V>(o: Option<Result<V, ErrorView>>) -> bool {
    o matches Some(Ok(_))
}

/// A scan that succeeds keeps what the classifier keeps of each child, and
/// nothing else.
pub proof fn lemma_scan_success<V>(
    entries: Seq<DirEntryView>,
    filter: spec_fn(DirEntryView) -> Option<Result<V, ErrorView>>,
)
    requires
        read_and_filter_spec(entries, filter) is Ok,
    ensures
        forall|i: int|
            0 <= i < entries.len() ==> !(filter(#[trigger] entries[i]) matches Some(Err(_))),
        forall|i: int|
            0 <= i < entries.len() && keeps(filter(#[trigger] entries[i]))
                ==> read_and_filter_spec(entries, filter)->Ok_0.contains(
                filter(entries[i])->Some_0->Ok_0,
            ),
        forall|x: V| #[trigger]
            read_and_filter_spec(entries, filter)->Ok_0.contains(x) ==> exists|i: int|
                0 <= i < entries.len() && filter(#[trigger] entries[i]) == Some(
                    Ok::<V, ErrorView>(x),
                ),
    decreases entries.len(),
{
    let kept = read_and_filter_spec(entries, filter)->Ok_0;
    if entries.len() > 0 {
        let rest = entries.drop_last();
        let last = entries.last();
        let before = read_and_filter_spec(rest, filter)->Ok_0;
        lemma_scan_success(rest, filter);
        assert forall|i: int| 0 <= i < entries.len() implies !(filter(
            #[trigger] entries[i],
        ) matches Some(Err(_))) by {
            if i < rest.len() {
                assert(rest[i] == entries[i]);
            }
        }
        assert forall|i: int| 0 <= i < entries.len() && keeps(filter(#[trigger] entries[i]))
            implies kept.contains(filter(entries[i])->Some_0->Ok_0) by {
            let x = filter(entries[i])->Some_0->Ok_0;
            if i < rest.len() {
                assert(rest[i] == entries[i]);
                assert(before.contains(x));
                let k = choose|k: int| 0 <= k < before.len() && before[k] == x;
                assert(kept[k] == x);
            } else {
                assert(kept[kept.len() - 1] == x);
            }
        }
        assert forall|x: V| #[trigger] kept.contains(x) implies exists|i: int|
            0 <= i < entries.len() && filter(#[trigger] entries[i]) == Some(
                Ok::<V, ErrorView>(x),
            ) by {
            let k = choose|k: int| 0 <= k < kept.len() && kept[k] == x;
            if k < before.len() {
                assert(before[k] == x);
                assert(before.contains(x));
                let i = choose|i: int|
                    0 <= i < rest.len() && filter(#[trigger] rest[i]) == Some(
                        Ok::<V, ErrorView>(x),
                    );
                assert(entries[i] == rest[i]);
            } else {
                assert(filter(entries[entries.len() - 1]) == Some(Ok::<V, ErrorView>(x)));
            }
        }
    }
}

/// Scans of the same children, where both succeed, keep the same items.
pub proof fn lemma_scan_same_items<V>(
    a: Seq<DirEntryView>,
    b: Seq<DirEntryView>,
    filter: spec_fn(DirEntryView) -> Option<Result<V, ErrorView>>,
)
    requires
        read_and_filter_spec(a, filter) is Ok,
        read_and_filter_spec(b, filter) is Ok,
        same_items(a, b),
    ensures
        same_items(read_and_filter_spec(a, filter)->Ok_0, read_and_filter_spec(b, filter)->Ok_0),
{
    lemma_scan_success(a, filter);
    lemma_scan_success(b, filter);
    let ka = read_and_filter_spec(a, filter)->Ok_0;
    let kb = read_and_filter_spec(b, filter)->Ok_0;
    assert forall|x: V| ka.contains(x) <==> kb.contains(x) by {
        if ka.contains(x) {
            let i = choose|i: int|
                0 <= i < a.len() && filter(#[trigger] a[i]) == Some(Ok::<V, ErrorView>(x));
            assert(a.contains(a[i]));
            assert(b.contains(a[i]));
            let j = choose|j: int| 0 <= j < b.len() && b[j] == a[i];
            assert(keeps(filter(b[j])));
        }
        if kb.contains(x) {
            let i = choose|i: int|
                0 <= i < b.len() && filter(#[trigger] b[i]) == Some(Ok::<V, ErrorView>(x));
            assert(b.contains(b[i]));
            assert(a.contains(b[i]));
            let j = choose|j: int| 0 <= j < a.len() && a[j] == b[i];
            assert(keeps(filter(a[j])));
        }
    }
}

/// What the classifier that keeps sub-directories says of the child `e`:
/// a child that could not be read is an I/O error, a directory is kept, and
/// anything else is passed over.
pub open spec fn dir_filter_spec(e: DirEntryView) -> Option<Result<DirView, ErrorView>> {
    match e {
        DirEntryView::Failed(m) => Some(Err(ErrorView::Io(m))),
        DirEntryView::Dir(d) => Some(Ok(d)),
        _ => None,
    }
}

/// The classifier that keeps sub-directories, as a function.
pub open spec fn dir_filter() -> spec_fn(DirEntryView) -> Option<Result<DirView, ErrorView>> {
    |e: DirEntryView| dir_filter_spec(e)
}

/// Whether a file of the name `name` is hidden: its name starts with a dot.
pub open spec fn is_hidden(name: Seq<char>) -> bool {
    name.len() > 0 && name[0] == '.'
}

/// Whether the file `f` is recognised as an entry: it has a name, is not
/// hidden, and is not the summary.
pub open spec fn is_entry_file(config: ConfigView, f: FileView) -> bool {
    match f.name {
        Some(name) => !is_hidden(name) && name != config.summary_filename,
        None => false,
    }
}

/// What the classifier that keeps entry files says of the child `e`: a
/// child that could not be read is an I/O error, a regular file that is
/// recognised as an entry is kept, and anything else is passed over.
pub open spec fn entry_filter_spec(config: ConfigView, e: DirEntryView) -> Option<
    Result<FileView, ErrorView>,
> {
    match e {
        DirEntryView::Failed(m) => Some(Err(ErrorView::Io(m))),
        DirEntryView::File(f) => if is_entry_file(config, f) {
            Some(Ok(f))
        } else {
            None
        },
        _ => None,
    }
}

/// The classifier that keeps entry files, as a function.
pub open spec fn entry_file_filter(config: ConfigView) -> spec_fn(DirEntryView) -> Option<
    Result<FileView, ErrorView>,
> {
    |e: DirEntryView| entry_filter_spec(config, e)
}

/// A scan for sub-directories of children among which there is no
/// directory, and none that could not be read, keeps nothing.
pub proof fn lemma_no_sub_dirs(entries: Seq<DirEntryView>)
    requires
        forall|i: int|
            0 <= i < entries.len() ==> !((#[trigger] entries[i]) is Dir) && !(entries[i] is Failed),
    ensures
        read_and_filter_spec(entries, dir_filter()) == Ok::<Seq<DirView>, ErrorView>(Seq::empty()),
    decreases entries.len(),
{
    if entries.len() > 0 {
        let rest = entries.drop_last();
        assert forall|i: int| 0 <= i < rest.len() implies !((#[trigger] rest[i]) is Dir) && !(
        rest[i] is Failed) by {
            assert(rest[i] == entries[i]);
        }
        lemma_no_sub_dirs(rest);
        assert(!(entries[entries.len() - 1] is Dir));
    }
}

/// Whether the classifier `filter` reports an error for none of the
/// children `entries`.
pub open spec fn scan_is_clean<V>(
    entries: Seq<DirEntryView>,
    filter: spec_fn(DirEntryView) -> Option<Result<V, ErrorView>>,
) -> bool {
    forall|j: int| 0 <= j < entries.len() ==> !(filter(#[trigger] entries[j]) matches Some(Err(_)))
}

/// Whether none of the children `entries` is one that could not be read.
pub open spec fn all_readable(entries: Seq<DirEntryView>) -> bool {
    forall|j: int| 0 <= j < entries.len() ==> !((#[trigger] entries[j]) is Failed)
}

/// A scan succeeds where the classifier reports an error for no child.
pub proof fn lemma_scan_total<V>(
    entries: Seq<DirEntryView>,
    filter: spec_fn(DirEntryView) -> Option<Result<V, ErrorView>>,
)
    requires
        scan_is_clean(entries, filter),
    ensures
        read_and_filter_spec(entries, filter) is Ok,
    decreases entries.len(),
{
    if entries.len() > 0 {
        let rest = entries.drop_last();
        assert forall|j: int| 0 <= j < rest.len() implies !(filter(
            #[trigger] rest[j],
        ) matches Some(Err(_))) by {
            assert(rest[j] == entries[j]);
        }
        lemma_scan_total(rest, filter);
        assert(!(filter(entries[entries.len() - 1]) matches Some(Err(_))));
    }
}

/// What a scan that succeeds keeps of the first `i` children stands at the
/// front of what it keeps of all of them.
pub proof fn lemma_scan_prefix<V>(
    entries: Seq<DirEntryView>,
    filter: spec_fn(DirEntryView) -> Option<Result<V, ErrorView>>,
    i: int,
)
    requires
        read_and_filter_spec(entries, filter) is Ok,
        0 <= i <= entries.len(),
    ensures
        read_and_filter_spec(entries.take(i), filter) is Ok,
        read_and_filter_spec(entries.take(i), filter)->Ok_0.len() <= read_and_filter_spec(
            entries,
            filter,
        )->Ok_0.len(),
        read_and_filter_spec(entries.take(i), filter)->Ok_0 == read_and_filter_spec(
            entries,
            filter,
        )->Ok_0.take(read_and_filter_spec(entries.take(i), filter)->Ok_0.len() as int),
    decreases entries.len() - i,
{
    let all = read_and_filter_spec(entries, filter)->Ok_0;
    if i == entries.len() {
        assert(entries.take(i) == entries);
        assert(all.take(all.len() as int) == all);
    } else {
        lemma_scan_prefix(entries, filter, i + 1);
        let longer = read_and_filter_spec(entries.take(i + 1), filter)->Ok_0;
        assert(entries.take(i + 1).drop_last() == entries.take(i));
        let shorter = read_and_filter_spec(entries.take(i), filter)->Ok_0;
        assert(shorter == longer.take(shorter.len() as int));
        assert(longer.take(shorter.len() as int) == all.take(longer.len() as int).take(
            shorter.len() as int,
        ));
        assert(all.take(longer.len() as int).take(shorter.len() as int) == all.take(
            shorter.len() as int,
        ));
    }
}

/// The first child of which something is kept on which `f` fails decides
/// the outcome of a scan whose results `f` is applied to: where the
/// classifier reports no error, the collection fails with the error of `f`
/// on what was kept of that child.
pub proof fn lemma_first_failure_decides<V, B>(
    entries: Seq<DirEntryView>,
    filter: spec_fn(DirEntryView) -> Option<Result<V, ErrorView>>,
    f: spec_fn(V) -> Result<B, ErrorView>,
    i: int,
)
    requires
        0 <= i < entries.len(),
        scan_is_clean(entries, filter),
        keeps(filter(entries[i])),
        f(filter(entries[i])->Some_0->Ok_0) is Err,
        forall|j: int|
            0 <= j < i && keeps(filter(#[trigger] entries[j])) ==> f(
                filter(entries[j])->Some_0->Ok_0,
            ) is Ok,
    ensures
        read_and_filter_spec(entries, filter) is Ok,
        try_map(read_and_filter_spec(entries, filter)->Ok_0, f) == Err::<Seq<B>, ErrorView>(
            f(filter(entries[i])->Some_0->Ok_0)->Err_0,
        ),
{
    lemma_scan_total(entries, filter);
    let all = read_and_filter_spec(entries, filter)->Ok_0;
    let x = filter(entries[i])->Some_0->Ok_0;
    lemma_scan_prefix(entries, filter, i);
    lemma_scan_prefix(entries, filter, i + 1);
    let before = read_and_filter_spec(entries.take(i), filter)->Ok_0;
    let upto = read_and_filter_spec(entries.take(i + 1), filter)->Ok_0;
    assert(entries.take(i + 1).drop_last() == entries.take(i));
    assert(entries.take(i + 1).last() == entries[i]);
    assert(upto == before.push(x));
    let k = before.len() as int;
    assert(all.take(k + 1)[k] == x);
    assert(all[k] == x);
    lemma_scan_success(entries.take(i), filter);
    assert forall|m: int| 0 <= m < k implies f(#[trigger] all[m]) is Ok by {
        assert(all.take(k)[m] == all[m]);
        assert(before[m] == all[m]);
        assert(before.contains(all[m]));
        let j = choose|j: int|
            0 <= j < entries.take(i).len() && filter(#[trigger] entries.take(i)[j]) == Some(
                Ok::<V, ErrorView>(all[m]),
            );
        assert(entries.take(i)[j] == entries[j]);
        assert(keeps(filter(entries[j])));
    }
    lemma_try_map_first_failure(all, f, k);
}

/// Where a scan and the collection of `f` over what it keeps succeed, `f`
/// succeeds on what is kept of each child: nothing is left out.
pub proof fn lemma_success_reads_every_child<V, B>(
    entries: Seq<DirEntryView>,
    filter: spec_fn(DirEntryView) -> Option<Result<V, ErrorView>>,
    f: spec_fn(V) -> Result<B, ErrorView>,
)
    requires
        read_and_filter_spec(entries, filter) is Ok,
        try_map(read_and_filter_spec(entries, filter)->Ok_0, f) is Ok,
    ensures
        forall|j: int|
            0 <= j < entries.len() && keeps(filter(#[trigger] entries[j])) ==> f(
                filter(entries[j])->Some_0->Ok_0,
            ) is Ok,
{
    let kept = read_and_filter_spec(entries, filter)->Ok_0;
    lemma_scan_success(entries, filter);
    lemma_try_map_success(kept, f);
    assert forall|j: int| 0 <= j < entries.len() && keeps(filter(#[trigger] entries[j])) implies f(
        filter(entries[j])->Some_0->Ok_0,
    ) is Ok by {
        let x = filter(entries[j])->Some_0->Ok_0;
        assert(kept.contains(x));
        let k = choose|k: int| 0 <= k < kept.len() && kept[k] == x;
        assert(f(kept[k]) is Ok);
    }
}

/// Whether the child `e` is a regular file that is recognised as an entry.
pub open spec fn is_entry_child(config: ConfigView, e: DirEntryView) -> bool {
    e is File && is_entry_file(config, e->File_0)
}

/// Neither classifier reports an error where every child could be read.
pub proof fn lemma_readable_children_scan_cleanly(config: ConfigView, entries: Seq<DirEntryView>)
    requires
        all_readable(entries),
    ensures
        scan_is_clean(entries, dir_filter()),
        scan_is_clean(entries, entry_file_filter(config)),
{
    assert forall|j: int| 0 <= j < entries.len() implies !(dir_filter()(
        #[trigger] entries[j],
    ) matches Some(Err(_))) by {
        assert(!(entries[j] is Failed));
    }
    assert forall|j: int| 0 <= j < entries.len() implies !(entry_file_filter(config)(
        #[trigger] entries[j],
    ) matches Some(Err(_))) by {
        assert(!(entries[j] is Failed));
    }
}

/// Keeps the child `e` if it is a sub-directory.
pub fn sub_dir_filter<'a>(e: &'a DirEntry) -> (o: Option<Result<&'a DirSnapshot, Error>>)
    ensures
        outcome_view(o) == dir_filter_spec(e@),
{
    match e {
        DirEntry::Failed(m) => Some(Err(Error::Io(m.clone()))),
        DirEntry::Dir(d) => Some(Ok(d)),
        _ => None,
    }
}

/// Keeps the child `e` if it is a regular file that is recognised as an
/// entry: one with a name that does not start with a dot and is not that of
/// the summary.
pub fn entry_filter<'a>(config: &Config, e: &'a DirEntry) -> (o: Option<
    Result<&'a FileSnapshot, Error>,
>)
    ensures
        outcome_view(o) == entry_filter_spec(config@, e@),
{
    match e {
        DirEntry::Failed(m) => Some(Err(Error::Io(m.clone()))),
        DirEntry::File(f) => {
            match &f.name {
                None => None,
                Some(name) => {
                    let first_is_dot = name.as_str().unicode_len() > 0 && name.as_str().get_char(0)
                        == '.';
                    if first_is_dot || same_text(
                        name.as_str(),
                        config.change_sets.summary_filename.as_str(),
                    ) {
                        None
                    } else {
                        Some(Ok(f))
                    }
                },
            }
        },
        _ => None,
    }
}

} // verus!
