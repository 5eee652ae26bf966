//! A single entry of a changelog.

use crate::changelog::config::ConfigView;
use crate::changelog::fs_utils::{
    all_readable, entry_file_filter, is_entry_child, keeps, lemma_first_failure_decides,
    lemma_readable_children_scan_cleanly, lemma_success_reads_every_child,
    read_and_filter_spec, DirEntryView, FileSnapshot, FileView,
};
use crate::changelog::parsing_utils::{
    decimal_value, entry_id_spec, extract_entry_id, leading_digits, trim_newlines,
    trim_newlines_spec,
};
use crate::changelog::seq_utils::{collect_results, items_view, result_view, results_view, try_map};
use crate::changelog::sorting::{
    is_sorted, key_of, lemma_stable_sorted_is_sorted, lemma_stable_sorted_view, sort_stable,
    stable_sorted, Ranked, SortKey,
};
use crate::error::{Error, ErrorView};
use vstd::prelude::*;

verus! {

/// A single entry in a set of changes.
#[derive(Debug, Clone)]
pub struct Entry {
    /// The number of the issue or pull request that the entry relates to.
    pub id: u64,
    /// The content of the entry.
    pub details: String,
}

/// The mathematical value of an [`Entry`].
pub struct EntryView {
    pub id: u64,
    pub details: Seq<char>,
}

impl View for Entry {
    type V = EntryView;

    open spec fn view(&self) -> EntryView {
        EntryView { id: self.id, details: self.details@ }
    }
}

impl Ranked for Entry {
    open spec fn sort_key(&self) -> SortKey {
        SortKey::Number(self.id)
    }

    fn ranks_le(&self, other: &Self) -> (r: bool) {
        self.id <= other.id
    }
}

/// The key of an entry: its ID.
pub open spec fn entry_key() -> spec_fn(EntryView) -> SortKey {
    |e: EntryView| SortKey::Number(e.id)
}

/// The entry that the file `f` holds. Its ID comes from the file's name
/// and its details are the file's text without the newlines at its edges.
/// A file without a name, with a name that encodes no valid ID, or whose
/// text could not be read holds none; the checks are made in this order.
pub open spec fn entry_of_file(f: FileView) -> Result<EntryView, ErrorView> {
    match f.name {
        None => Err(ErrorView::CannotObtainName(f.path)),
        Some(name) => match entry_id_spec(name) {
            Err(e) => Err(e),
            Ok(id) => match f.contents {
                Err(m) => Err(ErrorView::Io(m)),
                Ok(text) => Ok(EntryView { id, details: trim_newlines_spec(text) }),
            },
        },
    }
}

/// [`entry_of_file`], as a function.
pub open spec fn entry_reader() -> spec_fn(FileView) -> Result<EntryView, ErrorView> {
    |f: FileView| entry_of_file(f)
}

/// The entries that the files `files` hold, sorted by ID, or the error of
/// the first file that holds none. Entries with the same ID stay in the
/// order of their files.
pub open spec fn entries_of_files(files: Seq<FileView>) -> Result<Seq<EntryView>, ErrorView> {
    match try_map(files, entry_reader()) {
        Err(e) => Err(e),
        Ok(entries) => Ok(stable_sorted(entries, entry_key())),
    }
}

/// The entries that the entry files among the children `entries` hold,
/// sorted by ID, or the error of the scan or of the first file that holds
/// none.
pub open spec fn entries_of_children(config: ConfigView, entries: Seq<DirEntryView>) -> Result<
    Seq<EntryView>,
    ErrorView,
> {
    match read_and_filter_spec(entries, entry_file_filter(config)) {
        Err(e) => Err(e),
        Ok(files) => entries_of_files(files),
    }
}

/// A file whose name does not start with a decimal digit holds no entry:
/// its entry ID is invalid. A file whose leading digits exceed the range of
/// the ID holds none either: its entry number is invalid. What the file's
/// text is, and whether it can be read, does not matter.
pub proof fn lemma_name_decides_entry_error(f: FileView)
    requires
        f.name is Some,
    ensures
        leading_digits(f.name->0).len() == 0 ==> entry_of_file(f) == Err::<EntryView, ErrorView>(
            ErrorView::InvalidEntryId(f.name->0),
        ),
        decimal_value(leading_digits(f.name->0)) > u64::MAX ==> entry_of_file(f) == Err::<
            EntryView,
            ErrorView,
        >(ErrorView::InvalidEntryNumber(leading_digits(f.name->0))),
{
    assert(decimal_value(Seq::<char>::empty()) == 0);
}

/// Whether the children `entries` could all be read and the `i`-th of them
/// is the first entry file, in the order of the enumeration, that holds no
/// entry.
pub open spec fn first_bad_entry_at(config: ConfigView, entries: Seq<DirEntryView>, i: int) -> bool {
    &&& all_readable(entries)
    &&& 0 <= i < entries.len()
    &&& is_entry_child(config, entries[i])
    &&& entry_of_file(entries[i]->File_0) is Err
    &&& forall|j: int|
        0 <= j < i && is_entry_child(config, #[trigger] entries[j]) ==> entry_of_file(
            entries[j]->File_0,
        ) is Ok
}

/// The first entry file, in the order of the enumeration, that holds no
/// entry decides the outcome of reading the entries of a directory whose
/// children could all be read: the read fails with the error of that file.
/// For a file with a name that gives no ID, that is the invalid entry ID or
/// the invalid entry number.
pub proof fn lemma_first_bad_entry_fails_read(
    config: ConfigView,
    entries: Seq<DirEntryView>,
    i: int,
)
    requires
        first_bad_entry_at(config, entries, i),
    ensures
        entries_of_children(config, entries) == Err::<Seq<EntryView>, ErrorView>(
            entry_of_file(entries[i]->File_0)->Err_0,
        ),
        leading_digits(entries[i]->File_0.name->0).len() == 0 ==> entries_of_children(
            config,
            entries,
        ) == Err::<Seq<EntryView>, ErrorView>(
            ErrorView::InvalidEntryId(entries[i]->File_0.name->0),
        ),
        decimal_value(leading_digits(entries[i]->File_0.name->0)) > u64::MAX
            ==> entries_of_children(config, entries) == Err::<Seq<EntryView>, ErrorView>(
            ErrorView::InvalidEntryNumber(leading_digits(entries[i]->File_0.name->0)),
        ),
{
    let filter = entry_file_filter(config);
    lemma_readable_children_scan_cleanly(config, entries);
    assert forall|j: int| 0 <= j < i && keeps(filter(#[trigger] entries[j]))
        implies entry_reader()(filter(entries[j])->Some_0->Ok_0) is Ok by {
        assert(is_entry_child(config, entries[j]));
    }
    lemma_first_failure_decides(entries, filter, entry_reader(), i);
    lemma_name_decides_entry_error(entries[i]->File_0);
}

/// Where the entries of a directory are read, each of its entry files holds
/// an entry: none is passed over.
pub proof fn lemma_read_skips_no_entry(config: ConfigView, entries: Seq<DirEntryView>)
    requires
        entries_of_children(config, entries) is Ok,
    ensures
        forall|j: int|
            0 <= j < entries.len() && is_entry_child(config, #[trigger] entries[j])
                ==> entry_of_file(entries[j]->File_0) is Ok,
{
    let filter = entry_file_filter(config);
    lemma_success_reads_every_child(entries, filter, entry_reader());
    assert forall|j: int|
        0 <= j < entries.len() && is_entry_child(config, #[trigger] entries[j]) implies entry_of_file(
        entries[j]->File_0,
    ) is Ok by {
        assert(keeps(filter(entries[j])));
        assert(entry_reader()(filter(entries[j])->Some_0->Ok_0) is Ok);
    }
}

impl Entry {
    /// Reads a single entry from the given file.
    ///
    /// A name without a leading decimal digit is rejected as an invalid
    /// entry ID, and one whose leading digits exceed the range of the ID as
    /// an invalid entry number.
    pub fn read_from_file(file: &FileSnapshot) -> (r: Result<Entry, Error>)
        ensures
            result_view(r) == entry_of_file(file@),
            file@.name is Some && leading_digits(file@.name->0).len() == 0 ==> result_view(r)
                == Err::<EntryView, ErrorView>(ErrorView::InvalidEntryId(file@.name->0)),
            file@.name is Some && decimal_value(leading_digits(file@.name->0)) > u64::MAX
                ==> result_view(r) == Err::<EntryView, ErrorView>(
                ErrorView::InvalidEntryNumber(leading_digits(file@.name->0)),
            ),
    {
        match &file.name {
            None => Err(Error::CannotObtainName(file.path.clone())),
            Some(name) => {
                let id = match extract_entry_id(name.as_str()) {
                    Ok(id) => id,
                    Err(e) => {
                        return Err(e);
                    },
                };
                match &file.contents {
                    Err(m) => Err(Error::Io(m.clone())),
                    Ok(text) => Ok(Entry { id, details: trim_newlines(text.as_str()) }),
                }
            },
        }
    }

    /// The entry as it is displayed: its details.
    pub fn to_string(&self) -> (r: String)
        ensures
            r@ == self@.details,
    {
        self.details.clone()
    }
}

/// Reads the entries of the given files and sorts them by ID. The first
/// file that holds no entry ends the read with its error.
pub fn read_entries_sorted(entry_files: Vec<&FileSnapshot>) -> (r: Result<Vec<Entry>, Error>)
    ensures
        results_view(r) == entries_of_files(items_view(entry_files@)),
        r matches Ok(entries) ==> is_sorted(items_view(entries@), entry_key()),
{
    let read = |f: &FileSnapshot| -> (o: Result<Entry, Error>)
        ensures
            result_view(o) == entry_of_file(f@),
        { Entry::read_from_file(f) };
    let mut entries = match collect_results(&entry_files, read, Ghost(entry_reader())) {
        Ok(entries) => entries,
        Err(e) => {
            return Err(e);
        },
    };
    proof {
        lemma_stable_sorted_view(entries@, key_of::<Entry>(), entry_key());
        lemma_stable_sorted_is_sorted(items_view(entries@), entry_key());
    }
    sort_stable(&mut entries);
    Ok(entries)
}

} // verus!
