//! A named section of a change set.

use crate::changelog::component_section::{
    component_key, component_reader, component_section_of_dir, package_section_filter,
    ComponentSection, ComponentSectionView,
};
use crate::changelog::config::{Config, ConfigView};
use crate::changelog::entry::{
    entries_of_files, entry_key, entry_of_file, first_bad_entry_at,
    lemma_first_bad_entry_fails_read, read_entries_sorted, Entry, EntryView,
};
use crate::changelog::fs_utils::{
    all_readable, dir_filter, is_entry_child, keeps, lemma_first_failure_decides,
    lemma_no_sub_dirs, lemma_readable_children_scan_cleanly, lemma_scan_success,
    lemma_success_reads_every_child, entry_file_filter, entry_filter, entry_filter_spec, outcome_view,
    read_and_filter_dir, read_and_filter_dir_spec, DirEntry, DirSnapshot, DirView, FileSnapshot,
};
use crate::changelog::parsing_utils::{chars_of, decimal_value, leading_digits, push_char};
use crate::changelog::rendering::{
    indent_text, indented_lines, is_one_line, join, join_strings, lemma_indent_of_flush_line,
    lemma_indent_of_one_line, lemma_join_prepend, lemma_split_lines_is_not_empty, spaces,
};
use crate::changelog::parsing_utils::CharClass;
use crate::changelog::seq_utils::{collect_results, items_view, result_view, try_map};
use crate::changelog::sorting::{
    is_sorted, key_of, lemma_stable_sorted_is_sorted, lemma_stable_sorted_view, names_in_order,
    sort_stable, stable_sorted, Ranked, SortKey,
};
use crate::error::{Error, ErrorView};
use vstd::prelude::*;
use vstd::string::StringExecFns;

verus! {

/// The lines of the entries `entries`, one entry after the other. The first
/// line of each entry is indented by `indent` spaces and each further line
/// by `overflow_indent` spaces.
pub open spec fn indent_entries_spec(
    entries: Seq<EntryView>,
    indent: nat,
    overflow_indent: nat,
) -> Seq<Seq<char>>
    decreases entries.len(),
{
    if entries.len() == 0 {
        Seq::empty()
    } else {
        indent_entries_spec(entries.drop_last(), indent, overflow_indent) + indent_text(
            entries.last().details,
            indent,
            overflow_indent,
        )
    }
}

/// Entries are rendered as at least one line each.
pub proof fn lemma_entries_have_lines(entries: Seq<EntryView>, indent: nat, overflow_indent: nat)
    ensures
        indent_entries_spec(entries, indent, overflow_indent).len() >= entries.len(),
    decreases entries.len(),
{
    if entries.len() > 0 {
        lemma_entries_have_lines(entries.drop_last(), indent, overflow_indent);
        lemma_split_lines_is_not_empty(entries.last().details);
    }
}

/// Whether the details of the entry `e` are one line that does not start
/// with a space or a tab.
pub open spec fn is_plain_entry(e: EntryView) -> bool {
    is_one_line(e.details) && (e.details.len() == 0 || !CharClass::Blank.holds(e.details[0]))
}

/// Entries of one line each are rendered as one line each, in their order:
/// the details of the entry behind the spaces of the indentation.
pub proof fn lemma_plain_entries_render_as_lines(
    entries: Seq<EntryView>,
    indent: nat,
    overflow_indent: nat,
)
    requires
        forall|k: int| 0 <= k < entries.len() ==> is_plain_entry(#[trigger] entries[k]),
    ensures
        indent_entries_spec(entries, indent, overflow_indent) == Seq::new(
            entries.len(),
            |k: int| spaces(indent) + entries[k].details,
        ),
    decreases entries.len(),
{
    let want = Seq::new(entries.len(), |k: int| spaces(indent) + entries[k].details);
    if entries.len() > 0 {
        let rest = entries.drop_last();
        let last = entries.last();
        assert forall|k: int| 0 <= k < rest.len() implies is_plain_entry(#[trigger] rest[k]) by {
            assert(rest[k] == entries[k]);
        }
        lemma_plain_entries_render_as_lines(rest, indent, overflow_indent);
        assert(is_plain_entry(entries[entries.len() - 1]));
        lemma_indent_of_one_line(last.details, indent, overflow_indent);
        lemma_indent_of_flush_line(last.details, indent);
        assert(indent_entries_spec(entries, indent, overflow_indent) =~= want);
    } else {
        assert(indent_entries_spec(entries, indent, overflow_indent) =~= want);
    }
}

/// Renders the entries as lines: the first line of each entry indented by
/// `indent` spaces, each further line by `overflow_indent` spaces.
pub fn indent_entries(entries: &Vec<Entry>, indent: usize, overflow_indent: usize) -> (lines: Vec<
    String,
>)
    ensures
        items_view(lines@) == indent_entries_spec(
            items_view(entries@),
            indent as nat,
            overflow_indent as nat,
        ),
{
    let ghost views = items_view(entries@);
    let mut lines: Vec<String> = Vec::new();
    let mut i: usize = 0;
    assert(views.take(0) =~= Seq::<EntryView>::empty());
    assert(items_view(lines@) =~= Seq::<Seq<char>>::empty());
    while i < entries.len()
        invariant
            i <= entries.len(),
            views == items_view(entries@),
            items_view(lines@) == indent_entries_spec(
                views.take(i as int),
                indent as nat,
                overflow_indent as nat,
            ),
        decreases entries.len() - i,
    {
        let ghost before = items_view(lines@);
        let mut more = indented_lines(entries[i].details.as_str(), indent, overflow_indent);
        let ghost added = items_view(more@);
        lines.append(&mut more);
        proof {
            assert(views.take(i + 1).drop_last() =~= views.take(i as int));
            assert(views.take(i + 1).last() == entries@[i as int]@);
            assert(items_view(lines@) =~= before + added);
        }
        i += 1;
    }
    assert(views.take(entries.len() as int) =~= views);
    lines
}

/// The character of a title that stands for the character `c` of a
/// directory's name: a space for a hyphen, the capital for a small ASCII
/// letter, and `c` itself otherwise.
pub open spec fn title_char(c: char) -> char {
    if c == '-' {
        ' '
    } else if 'a' <= c && c <= 'z' {
        ((c as u8 - 32) as u8) as char
    } else {
        c
    }
}

/// The title of the section whose directory has the name `name`: the name
/// in capitals, with spaces for its hyphens.
pub open spec fn section_title(name: Seq<char>) -> Seq<char> {
    Seq::new(name.len(), |i: int| title_char(name[i]))
}

/// The character of a title that stands for the character `c` of a
/// directory's name.
pub fn to_title_char(c: char) -> (r: char)
    ensures
        r == title_char(c),
{
    if c == '-' {
        ' '
    } else if 'a' <= c && c <= 'z' {
        (c as u8 - 32) as char
    } else {
        c
    }
}

/// The title of the section whose directory has the name `name`.
pub fn change_set_section_title(name: &str) -> (title: String)
    ensures
        title@ == section_title(name@),
{
    let v = chars_of(name);
    let mut title = String::new();
    let mut i: usize = 0;
    while i < v.len()
        invariant
            i <= v.len(),
            v@ == name@,
            title@.len() == i,
            forall|j: int| 0 <= j < i ==> title@[j] == title_char(v@[j]),
        decreases v.len() - i,
    {
        push_char(&mut title, to_title_char(v[i]));
        i += 1;
    }
    assert(title@ =~= section_title(name@));
    title
}

/// What a section holds: its entries, or the sections of its components.
#[derive(Debug, Clone)]
pub enum SectionBody {
    /// The entries of a section that is not divided by component.
    Entries(Vec<Entry>),
    /// The component sections of a section that is divided by component.
    Components(Vec<ComponentSection>),
}

/// A single section of a set of changes, such as "FEATURES".
#[derive(Debug, Clone)]
pub struct ChangeSetSection {
    /// A short, descriptive title for this section.
    pub title: String,
    /// The entries of the section, or the sections of its components.
    pub body: SectionBody,
}

/// The mathematical value of a [`SectionBody`].
pub enum SectionBodyView {
    Entries(Seq<EntryView>),
    Components(Seq<ComponentSectionView>),
}

/// The mathematical value of a [`ChangeSetSection`].
pub struct ChangeSetSectionView {
    pub title: Seq<char>,
    pub body: SectionBodyView,
}

impl View for SectionBody {
    type V = SectionBodyView;

    open spec fn view(&self) -> SectionBodyView {
        match *self {
            SectionBody::Entries(entries) => SectionBodyView::Entries(items_view(entries@)),
            SectionBody::Components(sections) => SectionBodyView::Components(
                items_view(sections@),
            ),
        }
    }
}

impl View for ChangeSetSection {
    type V = ChangeSetSectionView;

    open spec fn view(&self) -> ChangeSetSectionView {
        ChangeSetSectionView { title: self.title@, body: self.body@ }
    }
}

impl Ranked for ChangeSetSection {
    open spec fn sort_key(&self) -> SortKey {
        SortKey::Name(self.title@)
    }

    fn ranks_le(&self, other: &Self) -> (r: bool) {
        names_in_order(self.title.as_str(), other.title.as_str())
    }
}

/// The key of a section: its title.
pub open spec fn section_key() -> spec_fn(ChangeSetSectionView) -> SortKey {
    |s: ChangeSetSectionView| SortKey::Name(s.title)
}

/// Whether each of the component sections `sections` is empty.
pub open spec fn all_components_empty(sections: Seq<ComponentSectionView>) -> bool {
    forall|i: int| 0 <= i < sections.len() ==> (#[trigger] sections[i]).is_empty()
}

/// The rendered component sections of `sections` that are not empty, in
/// their order.
pub open spec fn rendered_components(
    sections: Seq<ComponentSectionView>,
    config: ConfigView,
) -> Seq<Seq<char>>
    decreases sections.len(),
{
    if sections.len() == 0 {
        Seq::empty()
    } else {
        let done = rendered_components(sections.drop_last(), config);
        if sections.last().is_empty() {
            done
        } else {
            done.push(sections.last().render(config))
        }
    }
}

impl ChangeSetSectionView {
    /// Whether the section holds nothing: no entry, or no component section
    /// that is not itself empty.
    pub open spec fn is_empty(self) -> bool {
        match self.body {
            SectionBodyView::Entries(entries) => entries.len() == 0,
            SectionBodyView::Components(sections) => all_components_empty(sections),
        }
    }

    /// The first line of the rendered section: its title as a heading of
    /// the third level.
    pub open spec fn heading(self) -> Seq<char> {
        seq!['#', '#', '#', ' '] + self.title
    }

    /// What is rendered below the heading. The entries of a section that
    /// holds entries stand at the margin, their further lines indented to
    /// the column behind the bullet. Of a section that is divided by
    /// component, each component section that is not empty is rendered.
    pub open spec fn body_pieces(self, config: ConfigView) -> Seq<Seq<char>> {
        match self.body {
            SectionBodyView::Entries(entries) => indent_entries_spec(entries, 0, 2),
            SectionBodyView::Components(sections) => rendered_components(sections, config),
        }
    }

    /// The rendered section: the heading and what the section holds, one
    /// below the other without a blank line.
    pub open spec fn render(self, config: ConfigView) -> Seq<char> {
        join(seq![self.heading()] + self.body_pieces(config), seq!['\n'])
    }
}

/// The section that the directory `dir` holds. Its title comes from the
/// directory's name. Where the directory has sub-directories, each of them
/// is read as the section of a component, and the sections are sorted by
/// the components' IDs; else the directory's entry files are read.
/// A directory without a name, or with a child, component section or
/// entry that cannot be read, holds none.
pub open spec fn section_of_dir(config: ConfigView, dir: DirView) -> Result<
    ChangeSetSectionView,
    ErrorView,
> {
    match dir.name {
        None => Err(ErrorView::CannotObtainName(dir.path)),
        Some(name) => match read_and_filter_dir_spec(dir, dir_filter()) {
            Err(e) => Err(e),
            Ok(dirs) => if dirs.len() > 0 {
                match try_map(dirs, component_reader(config)) {
                    Err(e) => Err(e),
                    Ok(sections) => Ok(
                        ChangeSetSectionView {
                            title: section_title(name),
                            body: SectionBodyView::Components(
                                stable_sorted(sections, component_key()),
                            ),
                        },
                    ),
                }
            } else {
                match read_and_filter_dir_spec(dir, entry_file_filter(config)) {
                    Err(e) => Err(e),
                    Ok(files) => match entries_of_files(files) {
                        Err(e) => Err(e),
                        Ok(entries) => Ok(
                            ChangeSetSectionView {
                                title: section_title(name),
                                body: SectionBodyView::Entries(entries),
                            },
                        ),
                    },
                }
            },
        },
    }
}

/// [`section_of_dir`], as a function of the directory.
pub open spec fn section_reader(config: ConfigView) -> spec_fn(DirView) -> Result<
    ChangeSetSectionView,
    ErrorView,
> {
    |dir: DirView| section_of_dir(config, dir)
}

/// The rendered component sections are those of the component sections
/// that are not empty, in the order of the component sections.
pub proof fn lemma_rendered_components_in_order(
    sections: Seq<ComponentSectionView>,
    config: ConfigView,
)
    ensures
        rendered_components(sections, config) == sections.filter(
            |s: ComponentSectionView| !s.is_empty(),
        ).map_values(|s: ComponentSectionView| s.render(config)),
    decreases sections.len(),
{
    reveal(Seq::filter);
    let kept = |s: ComponentSectionView| !s.is_empty();
    let rendered = |s: ComponentSectionView| s.render(config);
    if sections.len() > 0 {
        let rest = sections.drop_last();
        lemma_rendered_components_in_order(rest, config);
        if kept(sections.last()) {
            assert(sections.filter(kept) == rest.filter(kept).push(sections.last()));
            assert(rest.filter(kept).push(sections.last()).map_values(rendered)
                =~= rest.filter(kept).map_values(rendered).push(rendered(sections.last())));
        } else {
            assert(sections.filter(kept) == rest.filter(kept));
        }
    } else {
        assert(sections.filter(kept).map_values(rendered) =~= Seq::<Seq<char>>::empty());
    }
}

/// A section that is not empty is rendered as its heading, one line feed,
/// and what it holds: no blank line stands between them.
pub proof fn lemma_section_renders_below_its_heading(
    section: ChangeSetSectionView,
    config: ConfigView,
)
    requires
        section.body_pieces(config).len() > 0,
    ensures
        section.render(config) == section.heading() + seq!['\n'] + join(
            section.body_pieces(config),
            seq!['\n'],
        ),
{
    lemma_join_prepend(section.heading(), section.body_pieces(config), seq!['\n']);
}

/// The first sub-directory, in the order of the enumeration, that holds
/// no component section decides the outcome of reading a section from a
/// directory whose children could all be read: the read fails with the
/// error of that sub-directory, unchanged.
pub proof fn lemma_first_bad_component_fails_section(config: ConfigView, dir: DirView, i: int)
    requires
        dir.name is Some,
        dir.listing is Ok,
        all_readable(dir.listing->Ok_0),
        0 <= i < dir.listing->Ok_0.len(),
        dir.listing->Ok_0[i] is Dir,
        component_section_of_dir(config, dir.listing->Ok_0[i]->Dir_0) is Err,
        forall|j: int|
            0 <= j < i && (#[trigger] dir.listing->Ok_0[j]) is Dir ==> component_section_of_dir(
                config,
                dir.listing->Ok_0[j]->Dir_0,
            ) is Ok,
    ensures
        section_of_dir(config, dir) == Err::<ChangeSetSectionView, ErrorView>(
            component_section_of_dir(config, dir.listing->Ok_0[i]->Dir_0)->Err_0,
        ),
{
    let entries = dir.listing->Ok_0;
    lemma_readable_children_scan_cleanly(config, entries);
    assert forall|j: int| 0 <= j < i && keeps(dir_filter()(#[trigger] entries[j]))
        implies component_reader(config)(dir_filter()(entries[j])->Some_0->Ok_0) is Ok by {
        assert(entries[j] is Dir);
    }
    lemma_first_failure_decides(entries, dir_filter(), component_reader(config), i);
}

/// The first entry file, in the order of the enumeration, that holds no
/// entry decides the outcome of reading a section from a directory without
/// sub-directories whose children could all be read: the read fails with
/// the error of that file, unchanged. For a file with a name that gives no
/// ID, that is the invalid entry ID or the invalid entry number.
pub proof fn lemma_first_bad_entry_fails_section(config: ConfigView, dir: DirView, i: int)
    requires
        dir.name is Some,
        dir.listing is Ok,
        forall|j: int|
            0 <= j < dir.listing->Ok_0.len() ==> !((#[trigger] dir.listing->Ok_0[j]) is Dir),
        first_bad_entry_at(config, dir.listing->Ok_0, i),
    ensures
        section_of_dir(config, dir) == Err::<ChangeSetSectionView, ErrorView>(
            entry_of_file(dir.listing->Ok_0[i]->File_0)->Err_0,
        ),
        leading_digits(dir.listing->Ok_0[i]->File_0.name->0).len() == 0 ==> section_of_dir(
            config,
            dir,
        ) == Err::<ChangeSetSectionView, ErrorView>(
            ErrorView::InvalidEntryId(dir.listing->Ok_0[i]->File_0.name->0),
        ),
        decimal_value(leading_digits(dir.listing->Ok_0[i]->File_0.name->0)) > u64::MAX
            ==> section_of_dir(config, dir) == Err::<ChangeSetSectionView, ErrorView>(
            ErrorView::InvalidEntryNumber(leading_digits(dir.listing->Ok_0[i]->File_0.name->0)),
        ),
{
    let entries = dir.listing->Ok_0;
    assert forall|j: int| 0 <= j < entries.len() implies !((#[trigger] entries[j]) is Dir) && !(
    entries[j] is Failed) by {}
    lemma_no_sub_dirs(entries);
    lemma_first_bad_entry_fails_read(config, entries, i);
}

/// Where a section is read from a directory, each sub-directory of the
/// directory holds a component section: none is passed over because it
/// holds none.
pub proof fn lemma_section_skips_no_component(config: ConfigView, dir: DirView)
    requires
        section_of_dir(config, dir) is Ok,
    ensures
        dir.listing is Ok,
        forall|j: int|
            0 <= j < dir.listing->Ok_0.len() && (#[trigger] dir.listing->Ok_0[j]) is Dir
                ==> component_section_of_dir(config, dir.listing->Ok_0[j]->Dir_0) is Ok,
{
    let entries = dir.listing->Ok_0;
    let dirs = read_and_filter_dir_spec(dir, dir_filter())->Ok_0;
    if dirs.len() > 0 {
        lemma_success_reads_every_child(entries, dir_filter(), component_reader(config));
        assert forall|j: int| 0 <= j < entries.len() && (#[trigger] entries[j]) is Dir
            implies component_section_of_dir(config, entries[j]->Dir_0) is Ok by {
            assert(keeps(dir_filter()(entries[j])));
            assert(component_reader(config)(dir_filter()(entries[j])->Some_0->Ok_0) is Ok);
        }
    } else {
        lemma_scan_success(entries, dir_filter());
        assert forall|j: int| 0 <= j < entries.len() && (#[trigger] entries[j]) is Dir
            implies component_section_of_dir(config, entries[j]->Dir_0) is Ok by {
            assert(keeps(dir_filter()(entries[j])));
            assert(dirs.contains(dir_filter()(entries[j])->Some_0->Ok_0));
        }
    }
}

impl ChangeSetSection {
    /// Returns whether or not this section is empty: it has no entries, or
    /// none of its component sections has any.
    pub fn is_empty(&self) -> (r: bool)
        ensures
            r == self@.is_empty(),
    {
        match &self.body {
            SectionBody::Entries(entries) => entries.is_empty(),
            SectionBody::Components(sections) => {
                let mut i: usize = 0;
                while i < sections.len()
                    invariant
                        i <= sections.len(),
                        self@.body == SectionBodyView::Components(items_view(sections@)),
                        forall|j: int|
                            0 <= j < i ==> (#[trigger] items_view(sections@)[j]).is_empty(),
                    decreases sections.len() - i,
                {
                    if !sections[i].is_empty() {
                        assert(items_view(sections@)[i as int] == sections@[i as int]@);
                        assert(!items_view(sections@)[i as int].is_empty());
                        return false;
                    }
                    assert(items_view(sections@)[i as int] == sections@[i as int]@);
                    i += 1;
                }
                true
            },
        }
    }

    /// Attempt to read a single change set section from the given
    /// directory.
    ///
    /// The component sections of the section that is read are in the order
    /// of the components' IDs, and its entries in the order of their IDs.
    pub fn read_from_dir<'a>(config: &Config, dir: &'a DirSnapshot) -> (r: Result<Self, Error>)
        ensures
            result_view(r) == section_of_dir(config@, dir@),
            r matches Ok(section) ==> match section@.body {
                SectionBodyView::Entries(entries) => is_sorted(entries, entry_key()),
                SectionBodyView::Components(sections) => is_sorted(sections, component_key()),
            },
    {
        let name = match &dir.name {
            Some(name) => name,
            None => {
                return Err(Error::CannotObtainName(dir.path.clone()));
            },
        };
        let title = change_set_section_title(name.as_str());
        let component_section_dirs = match read_and_filter_dir(
            dir,
            package_section_filter,
            Ghost(dir_filter()),
        ) {
            Ok(dirs) => dirs,
            Err(e) => {
                return Err(e);
            },
        };
        if component_section_dirs.len() > 0 {
            let read = |d: &'a DirSnapshot| -> (o: Result<ComponentSection, Error>)
                ensures
                    result_view(o) == component_section_of_dir(config@, d@),
                { ComponentSection::read_from_dir(config, d) };
            let mut sections = match collect_results(
                &component_section_dirs,
                read,
                Ghost(component_reader(config@)),
            ) {
                Ok(sections) => sections,
                Err(e) => {
                    return Err(e);
                },
            };
            proof {
                lemma_stable_sorted_view(
                    sections@,
                    key_of::<ComponentSection>(),
                    component_key(),
                );
                lemma_stable_sorted_is_sorted(items_view(sections@), component_key());
            }
            sort_stable(&mut sections);
            Ok(Self { title, body: SectionBody::Components(sections) })
        } else {
            let filter = |e: &'a DirEntry| -> (o: Option<Result<&'a FileSnapshot, Error>>)
                ensures
                    outcome_view(o) == entry_filter_spec(config@, e@),
                { entry_filter(config, e) };
            let entry_files = match read_and_filter_dir(
                dir,
                filter,
                Ghost(entry_file_filter(config@)),
            ) {
                Ok(files) => files,
                Err(e) => {
                    return Err(e);
                },
            };
            let entries = match read_entries_sorted(entry_files) {
                Ok(entries) => entries,
                Err(e) => {
                    return Err(e);
                },
            };
            Ok(Self { title, body: SectionBody::Entries(entries) })
        }
    }

    /// Renders the section: its heading, and below it what it holds.
    pub fn render(&self, config: &Config) -> (r: String)
        ensures
            r@ == self@.render(config@),
    {
        let mut heading = String::new();
        push_char(&mut heading, '#');
        push_char(&mut heading, '#');
        push_char(&mut heading, '#');
        push_char(&mut heading, ' ');
        heading.append(self.title.as_str());
        assert(heading@ =~= self@.heading());
        let mut pieces: Vec<String> = Vec::new();
        pieces.push(heading);
        match &self.body {
            SectionBody::Entries(entries) => {
                let mut lines = indent_entries(entries, 0, 2);
                pieces.append(&mut lines);
            },
            SectionBody::Components(sections) => {
                let ghost views = items_view(sections@);
                let mut i: usize = 0;
                assert(views.take(0) =~= Seq::<ComponentSectionView>::empty());
                assert(items_view(pieces@) =~= seq![self@.heading()] + rendered_components(
                    views.take(0),
                    config@,
                ));
                while i < sections.len()
                    invariant
                        i <= sections.len(),
                        views == items_view(sections@),
                        items_view(pieces@) == seq![self@.heading()] + rendered_components(
                            views.take(i as int),
                            config@,
                        ),
                    decreases sections.len() - i,
                {
                    let ghost before = items_view(pieces@);
                    assert(views.take(i + 1).drop_last() =~= views.take(i as int));
                    assert(views.take(i + 1).last() == sections@[i as int]@);
                    if !sections[i].is_empty() {
                        let piece = sections[i].render(config);
                        pieces.push(piece);
                        assert(items_view(pieces@) =~= before.push(
                            sections@[i as int]@.render(config@),
                        ));
                    }
                    i += 1;
                    assert(items_view(pieces@) =~= seq![self@.heading()] + rendered_components(
                        views.take(i as int),
                        config@,
                    ));
                }
                assert(views.take(sections.len() as int) =~= views);
            },
        }
        assert(items_view(pieces@) =~= seq![self@.heading()] + self@.body_pieces(config@));
        proof {
            reveal_strlit("\n");
            assert("\n"@ =~= seq!['\n']);
        }
        join_strings(&pieces, "\n")
    }
}

} // verus!
