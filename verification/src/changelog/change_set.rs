//! A set of changes: the unreleased ones, or those of one release.

use crate::changelog::change_set_section::{
    lemma_first_bad_component_fails_section, lemma_first_bad_entry_fails_section,
    lemma_section_renders_below_its_heading, rendered_components, section_key, section_of_dir,
    section_reader, ChangeSetSection, ChangeSetSectionView, SectionBodyView,
};
use crate::changelog::component_section::{
    component_section_of_dir, lemma_first_bad_entry_fails_component, ComponentSectionView,
};
use crate::changelog::config::find_component;
use crate::changelog::entry::{entry_of_file, first_bad_entry_at};
use crate::changelog::config::{Config, ConfigView};
use crate::changelog::fs_utils::{
    all_readable, dir_filter, dir_filter_spec, keeps, lemma_first_failure_decides,
    lemma_no_sub_dirs, lemma_readable_children_scan_cleanly, lemma_scan_same_items,
    lemma_success_reads_every_child, outcome_view,
    read_and_filter_dir, read_and_filter_dir_spec, read_and_filter_spec, sub_dir_filter, DirEntry, DirEntryView, DirSnapshot, DirView, FileView, PathSnapshot,
    PathView,
};
use crate::changelog::parsing_utils::{
    decimal_value, leading_digits, same_text, trim_newlines, trim_newlines_spec,
};
use crate::changelog::rendering::{join, join_strings, lemma_join_prepend};
use crate::changelog::seq_utils::{
    collect_results, items_view, lemma_try_map_same_items, result_view, same_items, try_map,
};
use crate::changelog::sorting::{
    is_sorted, key_of, keys_are_distinct, lemma_sort_ignores_order,
    lemma_stable_sorted_is_sorted, lemma_stable_sorted_reflects_distinct_keys,
    lemma_stable_sorted_view, sort_stable, stable_sorted,
};
use crate::error::{Error, ErrorView};
use vstd::prelude::*;

verus! {

/// A set of changes, either associated with a release or not.
#[derive(Debug, Clone)]
pub struct ChangeSet {
    /// An optional high-level summary of the set of changes.
    pub maybe_summary: Option<String>,
    /// The sections making up the change set.
    pub sections: Vec<ChangeSetSection>,
}

/// The mathematical value of a [`ChangeSet`].
pub struct ChangeSetView {
    pub maybe_summary: Option<Seq<char>>,
    pub sections: Seq<ChangeSetSectionView>,
}

impl View for ChangeSet {
    type V = ChangeSetView;

    open spec fn view(&self) -> ChangeSetView {
        ChangeSetView {
            maybe_summary: match self.maybe_summary {
                Some(s) => Some(s@),
                None => None,
            },
            sections: items_view(self.sections@),
        }
    }
}

/// The rendered sections of `sections` that are not empty, in their order.
pub open spec fn rendered_sections(
    sections: Seq<ChangeSetSectionView>,
    config: ConfigView,
) -> Seq<Seq<char>>
    decreases sections.len(),
{
    if sections.len() == 0 {
        Seq::empty()
    } else {
        let done = rendered_sections(sections.drop_last(), config);
        if sections.last().is_empty() {
            done
        } else {
            done.push(sections.last().render(config))
        }
    }
}

impl ChangeSetView {
    /// Whether the change set has a summary with any text in it.
    pub open spec fn has_summary(self) -> bool {
        match self.maybe_summary {
            Some(s) => s.len() > 0,
            None => false,
        }
    }

    /// Whether each of the sections is empty.
    pub open spec fn are_sections_empty(self) -> bool {
        forall|i: int| 0 <= i < self.sections.len() ==> (#[trigger] self.sections[i]).is_empty()
    }

    /// Whether the change set holds nothing: no summary text, and no
    /// section that is not empty.
    pub open spec fn is_empty(self) -> bool {
        !self.has_summary() && self.are_sections_empty()
    }

    /// The paragraphs of the rendered change set: the summary, where there
    /// is one with text in it, then each section that is not empty.
    pub open spec fn paragraphs(self, config: ConfigView) -> Seq<Seq<char>> {
        if self.has_summary() {
            seq![self.maybe_summary->0] + rendered_sections(self.sections, config)
        } else {
            rendered_sections(self.sections, config)
        }
    }

    /// The rendered change set: its paragraphs, with a blank line between
    /// each two neighbours.
    pub open spec fn render(self, config: ConfigView) -> Seq<char> {
        join(self.paragraphs(config), seq!['\n', '\n'])
    }
}

/// The first regular file among `entries` that has the name `filename`, if
/// there is one.
pub open spec fn find_file(entries: Seq<DirEntryView>, filename: Seq<char>) -> Option<FileView>
    decreases entries.len(),
{
    if entries.len() == 0 {
        None
    } else {
        match entries[0] {
            DirEntryView::File(f) => if f.name == Some(filename) {
                Some(f)
            } else {
                find_file(entries.drop_first(), filename)
            },
            _ => find_file(entries.drop_first(), filename),
        }
    }
}

/// The summary of the change set in the directory `dir`: the text of the
/// file with the configured name, without the newlines at its edges. A
/// directory without such a file has no summary; a file that cannot be read
/// is an I/O error.
pub open spec fn summary_of_dir(config: ConfigView, dir: DirView) -> Result<
    Option<Seq<char>>,
    ErrorView,
> {
    match dir.listing {
        Err(_) => Ok(None),
        Ok(entries) => match find_file(entries, config.summary_filename) {
            None => Ok(None),
            Some(f) => match f.contents {
                Ok(text) => Ok(Some(trim_newlines_spec(text))),
                Err(m) => Err(ErrorView::Io(m)),
            },
        },
    }
}

/// The change set that the directory `dir` holds: its summary, and the
/// sections that its sub-directories hold, sorted by title. Sections with
/// the same title stay in the order of their directories. The first
/// failure ends the read: that of the summary, then that of the
/// directory's enumeration, then that of the first section that cannot be
/// read.
pub open spec fn change_set_of_dir(config: ConfigView, dir: DirView) -> Result<
    ChangeSetView,
    ErrorView,
> {
    match summary_of_dir(config, dir) {
        Err(e) => Err(e),
        Ok(maybe_summary) => match read_and_filter_dir_spec(dir, dir_filter()) {
            Err(e) => Err(e),
            Ok(dirs) => match try_map(dirs, section_reader(config)) {
                Err(e) => Err(e),
                Ok(sections) => Ok(
                    ChangeSetView {
                        maybe_summary,
                        sections: stable_sorted(sections, section_key()),
                    },
                ),
            },
        },
    }
}

/// The outcome of reading a change set that is there, as the outcome of
/// reading one that may be absent: the same change set, or the same error.
pub open spec fn present(r: Result<ChangeSetView, ErrorView>) -> Result<
    Option<ChangeSetView>,
    ErrorView,
> {
    match r {
        Ok(change_set) => Ok(Some(change_set)),
        Err(e) => Err(e),
    }
}

/// The change set that the path `path` leads to: none where the path does
/// not exist, an I/O error where that could not be found out, else what
/// reading the path as a directory gives.
pub open spec fn change_set_of_path(config: ConfigView, path: PathView) -> Result<
    Option<ChangeSetView>,
    ErrorView,
> {
    match path {
        PathView::Missing => Ok(None),
        PathView::Unreadable(m) => Err(ErrorView::Io(m)),
        PathView::Exists(dir) => present(change_set_of_dir(config, dir)),
    }
}

/// The mathematical value of the outcome of reading a summary.
pub open spec fn summary_result_view(r: Result<Option<String>, Error>) -> Result<
    Option<Seq<char>>,
    ErrorView,
> {
    match r {
        Ok(Some(s)) => Ok(Some(s@)),
        Ok(None) => Ok(None),
        Err(e) => Err(e@),
    }
}

/// The mathematical value of the outcome of reading a change set that may
/// be absent.
pub open spec fn optional_result_view(r: Result<Option<ChangeSet>, Error>) -> Result<
    Option<ChangeSetView>,
    ErrorView,
> {
    match r {
        Ok(Some(change_set)) => Ok(Some(change_set@)),
        Ok(None) => Ok(None),
        Err(e) => Err(e@),
    }
}

/// Reads the summary of the change set in the given directory, if it has
/// one.
pub fn read_summary(config: &Config, dir: &DirSnapshot) -> (r: Result<Option<String>, Error>)
    ensures
        summary_result_view(r) == summary_of_dir(config@, dir@),
{
    match &dir.listing {
        Err(_) => Ok(None),
        Ok(entries) => {
            let ghost views = dir@.listing->Ok_0;
            let ghost filename = config@.summary_filename;
            let mut i: usize = 0;
            assert(views.skip(0) =~= views);
            while i < entries.len()
                invariant
                    i <= entries.len(),
                    views.len() == entries.len(),
                    filename == config@.summary_filename,
                    dir@.listing == Ok::<Seq<DirEntryView>, Seq<char>>(views),
                    forall|j: int| 0 <= j < entries.len() ==> views[j] == (#[trigger] entries[j])@,
                    find_file(views, filename) == find_file(views.skip(i as int), filename),
                decreases entries.len() - i,
            {
                assert(views.skip(i as int)[0] == entries[i as int]@);
                assert(views.skip(i as int).drop_first() =~= views.skip(i + 1));
                match &entries[i] {
                    DirEntry::File(f) => {
                        let named = match &f.name {
                            Some(name) => same_text(
                                name.as_str(),
                                config.change_sets.summary_filename.as_str(),
                            ),
                            None => false,
                        };
                        if named {
                            assert(f@.name == Some(filename));
                            return match &f.contents {
                                Ok(text) => Ok(Some(trim_newlines(text.as_str()))),
                                Err(m) => Err(Error::Io(m.clone())),
                            };
                        }
                        assert(f@.name != Some(filename));
                    },
                    _ => {},
                }
                i += 1;
            }
            Ok(None)
        },
    }
}

impl ChangeSet {
    /// Returns true if this change set has no summary and no entries
    /// associated with it.
    pub fn is_empty(&self) -> (r: bool)
        ensures
            r == self@.is_empty(),
    {
        let no_summary = match &self.maybe_summary {
            Some(s) => s.as_str().is_empty(),
            None => true,
        };
        no_summary && self.are_sections_empty()
    }

    /// Returns whether or not all the sections are empty.
    pub fn are_sections_empty(&self) -> (r: bool)
        ensures
            r == self@.are_sections_empty(),
    {
        let mut i: usize = 0;
        while i < self.sections.len()
            invariant
                i <= self.sections.len(),
                forall|j: int| 0 <= j < i ==> (#[trigger] self@.sections[j]).is_empty(),
            decreases self.sections.len() - i,
        {
            assert(self@.sections[i as int] == self.sections@[i as int]@);
            if !self.sections[i].is_empty() {
                return false;
            }
            i += 1;
        }
        true
    }

    /// Attempt to read a single change set from the given directory.
    ///
    /// The sections of the change set that is read are in the order of
    /// their titles, in whatever order the directory was enumerated.
    pub fn read_from_dir<'a>(config: &Config, dir: &'a DirSnapshot) -> (r: Result<Self, Error>)
        ensures
            result_view(r) == change_set_of_dir(config@, dir@),
            r matches Ok(change_set) ==> is_sorted(change_set@.sections, section_key()),
    {
        let summary = match read_summary(config, dir) {
            Ok(summary) => summary,
            Err(e) => {
                return Err(e);
            },
        };
        let section_dirs = match read_and_filter_dir(
            dir,
            change_set_section_filter,
            Ghost(dir_filter()),
        ) {
            Ok(dirs) => dirs,
            Err(e) => {
                return Err(e);
            },
        };
        let read = |d: &'a DirSnapshot| -> (o: Result<ChangeSetSection, Error>)
            ensures
                result_view(o) == section_of_dir(config@, d@),
            { ChangeSetSection::read_from_dir(config, d) };
        let mut sections = match collect_results(
            &section_dirs,
            read,
            Ghost(section_reader(config@)),
        ) {
            Ok(sections) => sections,
            Err(e) => {
                return Err(e);
            },
        };
        proof {
            lemma_stable_sorted_view(sections@, key_of::<ChangeSetSection>(), section_key());
            lemma_stable_sorted_is_sorted(items_view(sections@), section_key());
        }
        // Sort sections alphabetically
        sort_stable(&mut sections);
        Ok(Self { maybe_summary: summary, sections })
    }

    /// Attempt to read a single change set from what the given path leads
    /// to, like [`ChangeSet::read_from_dir`], but return `Option::None` if
    /// the path does not exist.
    ///
    /// Whatever exists at the path is read as [`ChangeSet::read_from_dir`]
    /// reads it, with the same change set or the same error for outcome.
    /// No change set is returned for a path that does not exist, and for no
    /// other.
    pub fn read_from_dir_opt(config: &Config, path: &PathSnapshot) -> (r: Result<
        Option<Self>,
        Error,
    >)
        ensures
            optional_result_view(r) == change_set_of_path(config@, path@),
            path@ is Missing <==> r matches Ok(None),
            path@ is Exists ==> optional_result_view(r) == present(
                change_set_of_dir(config@, path@->Exists_0),
            ),
            path@ is Unreadable ==> optional_result_view(r) == Err::<
                Option<ChangeSetView>,
                ErrorView,
            >(ErrorView::Io(path@->Unreadable_0)),
            path@ is Exists && is_empty_dir(path@->Exists_0) ==> (r matches Ok(Some(change_set))
                && change_set@.is_empty()),
    {
        match path {
            PathSnapshot::Missing => Ok(None),
            PathSnapshot::Unreadable(m) => Err(Error::Io(m.clone())),
            PathSnapshot::Exists(dir) => {
                proof {
                    lemma_empty_dir_is_empty(config@, dir@);
                }
                match Self::read_from_dir(config, dir) {
                    Ok(change_set) => Ok(Some(change_set)),
                    Err(e) => Err(e),
                }
            },
        }
    }

    /// Renders the change set: its summary, where it has one with text in
    /// it, and each of its sections that is not empty, with a blank line
    /// between each two.
    pub fn render(&self, config: &Config) -> (r: String)
        ensures
            r@ == self@.render(config@),
    {
        let mut paragraphs: Vec<String> = Vec::new();
        match &self.maybe_summary {
            Some(summary) => {
                if !summary.as_str().is_empty() {
                    paragraphs.push(summary.clone());
                }
            },
            None => {},
        }
        let ghost views = self@.sections;
        let ghost lead = items_view(paragraphs@);
        let mut i: usize = 0;
        assert(views.take(0) =~= Seq::<ChangeSetSectionView>::empty());
        assert(lead =~= lead + rendered_sections(views.take(0), config@));
        assert(lead =~= if self@.has_summary() {
            seq![self@.maybe_summary->0]
        } else {
            Seq::empty()
        });
        while i < self.sections.len()
            invariant
                i <= self.sections.len(),
                views == self@.sections,
                items_view(paragraphs@) == lead + rendered_sections(views.take(i as int), config@),
            decreases self.sections.len() - i,
        {
            let ghost before = items_view(paragraphs@);
            assert(views.take(i + 1).drop_last() =~= views.take(i as int));
            assert(views.take(i + 1).last() == self.sections@[i as int]@);
            if !self.sections[i].is_empty() {
                let piece = self.sections[i].render(config);
                paragraphs.push(piece);
                assert(items_view(paragraphs@) =~= before.push(
                    self.sections@[i as int]@.render(config@),
                ));
            }
            i += 1;
            assert(items_view(paragraphs@) =~= lead + rendered_sections(
                views.take(i as int),
                config@,
            ));
        }
        assert(views.take(self.sections.len() as int) =~= views);
        assert(items_view(paragraphs@) =~= self@.paragraphs(config@));
        proof {
            reveal_strlit("\n\n");
            assert("\n\n"@ =~= seq!['\n', '\n']);
        }
        join_strings(&paragraphs, "\n\n")
    }
}

/// Whether the directory `dir` could be enumerated and has no children.
pub open spec fn is_empty_dir(dir: DirView) -> bool {
    dir.listing is Ok && dir.listing->Ok_0.len() == 0
}

/// An empty directory holds an empty change set.
pub proof fn lemma_empty_dir_is_empty(config: ConfigView, dir: DirView)
    ensures
        is_empty_dir(dir) ==> (change_set_of_dir(config, dir) matches Ok(change_set)
            && change_set.is_empty()),
{
    if is_empty_dir(dir) {
        let none = dir.listing->Ok_0;
        assert(find_file(none, config.summary_filename) is None);
        assert(read_and_filter_dir_spec(dir, dir_filter()) == Ok::<Seq<DirView>, ErrorView>(
            Seq::empty(),
        ));
        assert(try_map(Seq::<DirView>::empty(), section_reader(config)) == Ok::<
            Seq<ChangeSetSectionView>,
            ErrorView,
        >(Seq::empty()));
        assert(stable_sorted(Seq::<ChangeSetSectionView>::empty(), section_key()) == Seq::<
            ChangeSetSectionView,
        >::empty());
    }
}

/// A directory that holds a summary and no section holds a change set
/// that is not empty if and only if the summary, without the newlines at
/// its edges, has any text.
pub proof fn lemma_summary_alone_decides_emptiness(
    config: ConfigView,
    dir: DirView,
    entries: Seq<DirEntryView>,
    summary: FileView,
    text: Seq<char>,
)
    requires
        dir.listing == Ok::<Seq<DirEntryView>, Seq<char>>(entries),
        forall|i: int|
            0 <= i < entries.len() ==> !((#[trigger] entries[i]) is Dir) && !(entries[i] is Failed),
        find_file(entries, config.summary_filename) == Some(summary),
        summary.contents == Ok::<Seq<char>, Seq<char>>(text),
    ensures
        change_set_of_dir(config, dir) matches Ok(change_set) && (!change_set.is_empty()
            <==> trim_newlines_spec(text).len() > 0),
{
    lemma_no_sub_dirs(entries);
    assert(try_map(Seq::<DirView>::empty(), section_reader(config)) == Ok::<
        Seq<ChangeSetSectionView>,
        ErrorView,
    >(Seq::empty()));
    assert(stable_sorted(Seq::<ChangeSetSectionView>::empty(), section_key()) == Seq::<
        ChangeSetSectionView,
    >::empty());
}

/// The first sub-directory, in the order of the enumeration, that holds
/// no section decides the outcome of reading a change set from a directory
/// whose summary and children could all be read: the read fails with the
/// error of that sub-directory, unchanged.
pub proof fn lemma_first_bad_section_fails_change_set(config: ConfigView, dir: DirView, i: int)
    requires
        summary_of_dir(config, dir) is Ok,
        dir.listing is Ok,
        all_readable(dir.listing->Ok_0),
        0 <= i < dir.listing->Ok_0.len(),
        dir.listing->Ok_0[i] is Dir,
        section_of_dir(config, dir.listing->Ok_0[i]->Dir_0) is Err,
        forall|j: int|
            0 <= j < i && (#[trigger] dir.listing->Ok_0[j]) is Dir ==> section_of_dir(
                config,
                dir.listing->Ok_0[j]->Dir_0,
            ) is Ok,
    ensures
        change_set_of_dir(config, dir) == Err::<ChangeSetView, ErrorView>(
            section_of_dir(config, dir.listing->Ok_0[i]->Dir_0)->Err_0,
        ),
{
    let entries = dir.listing->Ok_0;
    lemma_readable_children_scan_cleanly(config, entries);
    assert forall|j: int| 0 <= j < i && keeps(dir_filter()(#[trigger] entries[j]))
        implies section_reader(config)(dir_filter()(entries[j])->Some_0->Ok_0) is Ok by {
        assert(entries[j] is Dir);
    }
    lemma_first_failure_decides(entries, dir_filter(), section_reader(config), i);
}

/// Whether the children `entries` could all be read, the `i`-th of them is
/// a sub-directory, and each sub-directory before it holds a section.
pub open spec fn sections_before_are_read(
    config: ConfigView,
    entries: Seq<DirEntryView>,
    i: int,
) -> bool {
    &&& all_readable(entries)
    &&& 0 <= i < entries.len()
    &&& entries[i] is Dir
    &&& forall|j: int|
        0 <= j < i && (#[trigger] entries[j]) is Dir ==> section_of_dir(config, entries[j]->Dir_0) is Ok
}

/// An entry file that holds no entry fails the read of the change set with
/// its own error, where nothing fails before it: the file stands in a
/// section without sub-directories, is the first of that section that
/// holds no entry, and the sections before that one are read. For a file
/// with a name that gives no ID, the error is the invalid entry ID or the
/// invalid entry number.
pub proof fn lemma_bad_entry_of_section_fails_change_set(
    config: ConfigView,
    dir: DirView,
    s: int,
    k: int,
)
    requires
        summary_of_dir(config, dir) is Ok,
        dir.listing is Ok,
        sections_before_are_read(config, dir.listing->Ok_0, s),
        dir.listing->Ok_0[s]->Dir_0.name is Some,
        dir.listing->Ok_0[s]->Dir_0.listing is Ok,
        forall|j: int|
            0 <= j < dir.listing->Ok_0[s]->Dir_0.listing->Ok_0.len() ==> !((
            #[trigger] dir.listing->Ok_0[s]->Dir_0.listing->Ok_0[j]) is Dir),
        first_bad_entry_at(config, dir.listing->Ok_0[s]->Dir_0.listing->Ok_0, k),
    ensures
        change_set_of_dir(config, dir) == Err::<ChangeSetView, ErrorView>(
            entry_of_file(dir.listing->Ok_0[s]->Dir_0.listing->Ok_0[k]->File_0)->Err_0,
        ),
        leading_digits(dir.listing->Ok_0[s]->Dir_0.listing->Ok_0[k]->File_0.name->0).len() == 0
            ==> change_set_of_dir(config, dir) == Err::<ChangeSetView, ErrorView>(
            ErrorView::InvalidEntryId(dir.listing->Ok_0[s]->Dir_0.listing->Ok_0[k]->File_0.name->0),
        ),
        decimal_value(
            leading_digits(dir.listing->Ok_0[s]->Dir_0.listing->Ok_0[k]->File_0.name->0),
        ) > u64::MAX ==> change_set_of_dir(config, dir) == Err::<ChangeSetView, ErrorView>(
            ErrorView::InvalidEntryNumber(
                leading_digits(dir.listing->Ok_0[s]->Dir_0.listing->Ok_0[k]->File_0.name->0),
            ),
        ),
{
    lemma_first_bad_entry_fails_section(config, dir.listing->Ok_0[s]->Dir_0, k);
    lemma_first_bad_section_fails_change_set(config, dir, s);
}

/// An entry file of a component that holds no entry fails the read of the
/// change set with its own error, where nothing fails before it: the file
/// is the first of a declared component's directory that holds no entry,
/// the component sections before that one are read, and so are the
/// sections before theirs. For a file with a name that gives no ID, the
/// error is the invalid entry ID or the invalid entry number.
pub proof fn lemma_bad_entry_of_component_fails_change_set(
    config: ConfigView,
    dir: DirView,
    s: int,
    c: int,
    k: int,
)
    requires
        summary_of_dir(config, dir) is Ok,
        dir.listing is Ok,
        sections_before_are_read(config, dir.listing->Ok_0, s),
        dir.listing->Ok_0[s]->Dir_0.name is Some,
        dir.listing->Ok_0[s]->Dir_0.listing is Ok,
        all_readable(dir.listing->Ok_0[s]->Dir_0.listing->Ok_0),
        0 <= c < dir.listing->Ok_0[s]->Dir_0.listing->Ok_0.len(),
        dir.listing->Ok_0[s]->Dir_0.listing->Ok_0[c] is Dir,
        forall|j: int|
            0 <= j < c && (#[trigger] dir.listing->Ok_0[s]->Dir_0.listing->Ok_0[j]) is Dir
                ==> component_section_of_dir(
                config,
                dir.listing->Ok_0[s]->Dir_0.listing->Ok_0[j]->Dir_0,
            ) is Ok,
        dir.listing->Ok_0[s]->Dir_0.listing->Ok_0[c]->Dir_0.name is Some,
        find_component(
            config.components,
            dir.listing->Ok_0[s]->Dir_0.listing->Ok_0[c]->Dir_0.name->0,
        ) is Some,
        dir.listing->Ok_0[s]->Dir_0.listing->Ok_0[c]->Dir_0.listing is Ok,
        first_bad_entry_at(
            config,
            dir.listing->Ok_0[s]->Dir_0.listing->Ok_0[c]->Dir_0.listing->Ok_0,
            k,
        ),
    ensures
        change_set_of_dir(config, dir) == Err::<ChangeSetView, ErrorView>(
            entry_of_file(
                dir.listing->Ok_0[s]->Dir_0.listing->Ok_0[c]->Dir_0.listing->Ok_0[k]->File_0,
            )->Err_0,
        ),
        leading_digits(
            dir.listing->Ok_0[s]->Dir_0.listing->Ok_0[c]->Dir_0.listing->Ok_0[k]->File_0.name->0,
        ).len() == 0 ==> change_set_of_dir(config, dir) == Err::<ChangeSetView, ErrorView>(
            ErrorView::InvalidEntryId(
                dir.listing->Ok_0[s]->Dir_0.listing->Ok_0[c]->Dir_0.listing->Ok_0[k]->File_0.name->0,
            ),
        ),
        decimal_value(
            leading_digits(
                dir.listing->Ok_0[s]->Dir_0.listing->Ok_0[c]->Dir_0.listing->Ok_0[k]->File_0.name->0,
            ),
        ) > u64::MAX ==> change_set_of_dir(config, dir) == Err::<ChangeSetView, ErrorView>(
            ErrorView::InvalidEntryNumber(
                leading_digits(
                    dir.listing->Ok_0[s]->Dir_0.listing->Ok_0[c]->Dir_0.listing->Ok_0[k]->File_0.name->0,
                ),
            ),
        ),
{
    let section_dir = dir.listing->Ok_0[s]->Dir_0;
    let component_dir = section_dir.listing->Ok_0[c]->Dir_0;
    lemma_first_bad_entry_fails_component(config, component_dir, k);
    lemma_first_bad_component_fails_section(config, section_dir, c);
    lemma_first_bad_section_fails_change_set(config, dir, s);
}

/// Where a change set is read from a directory, each sub-directory of the
/// directory holds a section: none is passed over because it holds none.
pub proof fn lemma_change_set_skips_no_section(config: ConfigView, dir: DirView)
    requires
        change_set_of_dir(config, dir) is Ok,
    ensures
        dir.listing is Ok,
        forall|j: int|
            0 <= j < dir.listing->Ok_0.len() && (#[trigger] dir.listing->Ok_0[j]) is Dir
                ==> section_of_dir(config, dir.listing->Ok_0[j]->Dir_0) is Ok,
{
    let entries = dir.listing->Ok_0;
    lemma_success_reads_every_child(entries, dir_filter(), section_reader(config));
    assert forall|j: int| 0 <= j < entries.len() && (#[trigger] entries[j]) is Dir
        implies section_of_dir(config, entries[j]->Dir_0) is Ok by {
        assert(keeps(dir_filter()(entries[j])));
        assert(section_reader(config)(dir_filter()(entries[j])->Some_0->Ok_0) is Ok);
    }
}

/// Reading what exists at a path as a change set that may be absent has
/// the outcome of reading it as a directory: the same change set, or the
/// same error.
pub proof fn lemma_existing_path_reads_as_directory(
    config: Config,
    dir: DirSnapshot,
    plain: Result<ChangeSet, Error>,
    optional: Result<Option<ChangeSet>, Error>,
)
    requires
        result_view(plain) == change_set_of_dir(config@, dir@),
        optional_result_view(optional) == change_set_of_path(config@, PathView::Exists(dir@)),
    ensures
        plain is Ok ==> (optional matches Ok(Some(change_set)) && change_set@ == plain->Ok_0@),
        plain is Err ==> (optional matches Err(e) && e@ == plain->Err_0@),
        !(optional matches Ok(None)),
{
}

/// Reading the same directory with the same configuration twice yields
/// the same outcome, and where a change set is read, the same rendered
/// text.
pub proof fn lemma_reading_is_repeatable(
    config: Config,
    dir: DirSnapshot,
    first: Result<ChangeSet, Error>,
    second: Result<ChangeSet, Error>,
)
    requires
        result_view(first) == change_set_of_dir(config@, dir@),
        result_view(second) == change_set_of_dir(config@, dir@),
    ensures
        result_view(first) == result_view(second),
        first is Ok ==> second is Ok && first->Ok_0@.render(config@) == second->Ok_0@.render(
            config@,
        ),
{
}

/// The sections of a change set do not depend on the order in which the
/// children of its directory were enumerated, where no two sections have
/// the same title: directories with the same children, in whatever order,
/// hold the same sections in the same order, and these are rendered alike.
pub proof fn lemma_sections_ignore_enumeration_order(
    config: ConfigView,
    first: DirView,
    second: DirView,
)
    requires
        first.listing is Ok,
        second.listing is Ok,
        same_items(first.listing->Ok_0, second.listing->Ok_0),
        change_set_of_dir(config, first) is Ok,
        change_set_of_dir(config, second) is Ok,
        keys_are_distinct(change_set_of_dir(config, first)->Ok_0.sections, section_key()),
        keys_are_distinct(change_set_of_dir(config, second)->Ok_0.sections, section_key()),
    ensures
        change_set_of_dir(config, first)->Ok_0.sections == change_set_of_dir(
            config,
            second,
        )->Ok_0.sections,
        rendered_sections(change_set_of_dir(config, first)->Ok_0.sections, config)
            == rendered_sections(change_set_of_dir(config, second)->Ok_0.sections, config),
{
    let dirs1 = read_and_filter_spec(first.listing->Ok_0, dir_filter())->Ok_0;
    let dirs2 = read_and_filter_spec(second.listing->Ok_0, dir_filter())->Ok_0;
    lemma_scan_same_items(first.listing->Ok_0, second.listing->Ok_0, dir_filter());
    let read1 = try_map(dirs1, section_reader(config))->Ok_0;
    let read2 = try_map(dirs2, section_reader(config))->Ok_0;
    lemma_try_map_same_items(dirs1, dirs2, section_reader(config));
    lemma_stable_sorted_reflects_distinct_keys(read1, section_key());
    lemma_stable_sorted_reflects_distinct_keys(read2, section_key());
    lemma_sort_ignores_order(read1, read2, section_key());
}

/// A change set with a summary and a section that is not empty is rendered
/// as the summary, one blank line, and the sections; one with a summary
/// alone as the summary.
pub proof fn lemma_change_set_renders_below_its_summary(
    change_set: ChangeSetView,
    config: ConfigView,
)
    requires
        change_set.has_summary(),
    ensures
        rendered_sections(change_set.sections, config).len() > 0 ==> change_set.render(config)
            == change_set.maybe_summary->0 + seq!['\n', '\n'] + join(
            rendered_sections(change_set.sections, config),
            seq!['\n', '\n'],
        ),
        rendered_sections(change_set.sections, config).len() == 0 ==> change_set.render(config)
            == change_set.maybe_summary->0,
{
    let rest = rendered_sections(change_set.sections, config);
    if rest.len() > 0 {
        lemma_join_prepend(change_set.maybe_summary->0, rest, seq!['\n', '\n']);
    } else {
        assert(seq![change_set.maybe_summary->0] + rest =~= seq![change_set.maybe_summary->0]);
    }
}

/// A change set with a summary and one section of two components that
/// are not empty is rendered as the summary, a blank line, the heading of
/// the section, and the two component sections in their order, one line
/// feed between each two of these and none at the end.
pub proof fn lemma_layout_of_summary_and_two_components(
    change_set: ChangeSetView,
    config: ConfigView,
    first: ComponentSectionView,
    second: ComponentSectionView,
)
    requires
        change_set.has_summary(),
        change_set.sections.len() == 1,
        change_set.sections[0].body == SectionBodyView::Components(seq![first, second]),
        !first.is_empty(),
        !second.is_empty(),
    ensures
        change_set.render(config) == change_set.maybe_summary->0 + seq!['\n', '\n']
            + change_set.sections[0].heading() + seq!['\n'] + first.render(config) + seq!['\n']
            + second.render(config),
{
    let section = change_set.sections[0];
    let both = seq![first, second];
    let line_feed = seq!['\n'];
    assert(both.drop_last() =~= seq![first]);
    assert(seq![first].drop_last() =~= Seq::<ComponentSectionView>::empty());
    assert(rendered_components(Seq::<ComponentSectionView>::empty(), config) =~= Seq::<
        Seq<char>,
    >::empty());
    assert(seq![first].last() == first);
    assert(both.last() == second);
    assert(rendered_components(seq![first], config) =~= seq![first.render(config)]);
    assert(rendered_components(both, config) =~= seq![
        first.render(config),
        second.render(config),
    ]);
    let pieces = section.body_pieces(config);
    assert(pieces == seq![first.render(config), second.render(config)]);
    assert(pieces.drop_last() =~= seq![first.render(config)]);
    assert(join(pieces.drop_last(), line_feed) == first.render(config));
    assert(join(pieces, line_feed) == first.render(config) + line_feed + second.render(config));
    lemma_section_renders_below_its_heading(section, config);
    assert(both[0] == first);
    assert(!section.is_empty());
    assert(change_set.sections.drop_last() =~= Seq::<ChangeSetSectionView>::empty());
    assert(rendered_sections(Seq::<ChangeSetSectionView>::empty(), config) =~= Seq::<
        Seq<char>,
    >::empty());
    assert(change_set.sections.last() == section);
    assert(rendered_sections(change_set.sections, config) =~= seq![section.render(config)]);
    lemma_change_set_renders_below_its_summary(change_set, config);
    assert(change_set.render(config) =~= change_set.maybe_summary->0 + seq!['\n', '\n']
        + section.heading() + line_feed + first.render(config) + line_feed + second.render(
        config,
    ));
}

/// The rendered sections are those of the sections that are not empty, in
/// the order of the sections.
pub proof fn lemma_rendered_sections_in_order(
    sections: Seq<ChangeSetSectionView>,
    config: ConfigView,
)
    ensures
        rendered_sections(sections, config) == sections.filter(
            |s: ChangeSetSectionView| !s.is_empty(),
        ).map_values(|s: ChangeSetSectionView| s.render(config)),
    decreases sections.len(),
{
    reveal(Seq::filter);
    let kept = |s: ChangeSetSectionView| !s.is_empty();
    let rendered = |s: ChangeSetSectionView| s.render(config);
    if sections.len() > 0 {
        let rest = sections.drop_last();
        lemma_rendered_sections_in_order(rest, config);
        if kept(sections.last()) {
            assert(sections.filter(kept) == rest.filter(kept).push(sections.last()));
            assert(rest.filter(kept).push(sections.last()).map_values(rendered)
                =~= rest.filter(kept).map_values(rendered).push(rendered(sections.last())));
        } else {
            assert(sections.filter(kept) == rest.filter(kept));
        }
    } else {
        assert(sections.filter(kept).map_values(rendered) =~= Seq::<Seq<char>>::empty());
    }
}

/// Keeps the child `e` of a change set's directory if it is a directory:
/// a section.
fn change_set_section_filter<'a>(e: &'a DirEntry) -> (o: Option<Result<&'a DirSnapshot, Error>>)
    ensures
        outcome_view(o) == dir_filter_spec(e@),
{
    sub_dir_filter(e)
}

} // verus!
