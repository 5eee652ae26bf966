//! The entries of one component within a section of a change set.

use crate::changelog::change_set_section::{
    indent_entries, indent_entries_spec, lemma_entries_have_lines,
};
use crate::changelog::config::{find_component, BulletStyle, Config, ConfigView};
use crate::changelog::entry::{
    entries_of_children, entries_of_files, entry_key, entry_of_file, first_bad_entry_at,
    lemma_first_bad_entry_fails_read, lemma_read_skips_no_entry, read_entries_sorted, Entry,
    EntryView,
};
use crate::changelog::fs_utils::{
    all_readable, dir_filter_spec, is_entry_child, entry_file_filter, entry_filter, entry_filter_spec, outcome_view,
    read_and_filter_dir, read_and_filter_dir_spec, sub_dir_filter, DirEntry, DirSnapshot, DirView,
    FileSnapshot,
};
use crate::changelog::parsing_utils::{decimal_value, leading_digits, push_char};
use crate::changelog::rendering::{join, join_strings, lemma_join_prepend};
use crate::changelog::seq_utils::{items_view, result_view};
use crate::changelog::sorting::{is_sorted, names_in_order, Ranked, SortKey};
use crate::error::{Error, ErrorView};
use vstd::prelude::*;
use vstd::string::StringExecFns;

verus! {

/// A section of entries related to a specific component/submodule/package.
#[derive(Debug, Clone)]
pub struct ComponentSection {
    /// The ID of the component.
    pub id: String,
    /// The name of the component.
    pub name: String,
    /// The path to the component, from the root of the project, if any.
    /// Pre-computed and ready to render.
    pub maybe_path: Option<String>,
    /// The entries associated with the component.
    pub entries: Vec<Entry>,
}

/// The mathematical value of a [`ComponentSection`].
pub struct ComponentSectionView {
    pub id: Seq<char>,
    pub name: Seq<char>,
    pub maybe_path: Option<Seq<char>>,
    pub entries: Seq<EntryView>,
}

impl View for ComponentSection {
    type V = ComponentSectionView;

    open spec fn view(&self) -> ComponentSectionView {
        ComponentSectionView {
            id: self.id@,
            name: self.name@,
            maybe_path: match self.maybe_path {
                Some(p) => Some(p@),
                None => None,
            },
            entries: items_view(self.entries@),
        }
    }
}

impl Ranked for ComponentSection {
    open spec fn sort_key(&self) -> SortKey {
        SortKey::Name(self.id@)
    }

    fn ranks_le(&self, other: &Self) -> (r: bool) {
        names_in_order(self.id.as_str(), other.id.as_str())
    }
}

/// The key of a component section: its ID.
pub open spec fn component_key() -> spec_fn(ComponentSectionView) -> SortKey {
    |c: ComponentSectionView| SortKey::Name(c.id)
}

impl ComponentSectionView {
    /// Whether the section has no entries.
    pub open spec fn is_empty(self) -> bool {
        self.entries.len() == 0
    }

    /// The first line of the rendered section: the bullet and the
    /// component's name, as a link to the component's path where it has one.
    pub open spec fn heading(self, bullet: BulletStyle) -> Seq<char> {
        bullet.text() + seq![' '] + match self.maybe_path {
            Some(path) => seq!['['] + self.name + seq![']', '('] + path + seq![')'],
            None => self.name,
        }
    }

    /// The lines of the rendered section: the heading, then the entries,
    /// whose first lines are indented by the configured width and whose
    /// further lines by two spaces more.
    pub open spec fn lines(self, config: ConfigView) -> Seq<Seq<char>> {
        seq![self.heading(config.bullet_style)] + indent_entries_spec(
            self.entries,
            config.entry_indent,
            config.entry_indent + 2,
        )
    }

    /// The rendered section: its lines, one below the other.
    pub open spec fn render(self, config: ConfigView) -> Seq<char> {
        join(self.lines(config), seq!['\n'])
    }
}

/// The component section that the directory `dir` holds. The directory's
/// name is the component's ID; the component's name and path come from the
/// configuration; the entries come from the directory's entry files.
/// A directory without a name, one whose name is not the ID of a declared
/// component, and one whose entries cannot be read hold none; the checks
/// are made in this order.
pub open spec fn component_section_of_dir(config: ConfigView, dir: DirView) -> Result<
    ComponentSectionView,
    ErrorView,
> {
    match dir.name {
        None => Err(ErrorView::CannotObtainName(dir.path)),
        Some(id) => match find_component(config.components, id) {
            None => Err(ErrorView::ComponentNotDefined(id)),
            Some(component) => match read_and_filter_dir_spec(dir, entry_file_filter(config)) {
                Err(e) => Err(e),
                Ok(files) => match entries_of_files(files) {
                    Err(e) => Err(e),
                    Ok(entries) => Ok(
                        ComponentSectionView {
                            id,
                            name: component.name,
                            maybe_path: component.maybe_path,
                            entries,
                        },
                    ),
                },
            },
        },
    }
}

/// [`component_section_of_dir`], as a function of the directory.
pub open spec fn component_reader(config: ConfigView) -> spec_fn(DirView) -> Result<
    ComponentSectionView,
    ErrorView,
> {
    |dir: DirView| component_section_of_dir(config, dir)
}

/// A component section that is not empty is rendered as its heading, one
/// line feed, and the lines of its entries in the order of the entries,
/// one below the other: no blank line stands between the heading and the
/// entries.
pub proof fn lemma_component_renders_below_its_heading(
    section: ComponentSectionView,
    config: ConfigView,
)
    requires
        !section.is_empty(),
    ensures
        section.render(config) == section.heading(config.bullet_style) + seq!['\n'] + join(
            indent_entries_spec(section.entries, config.entry_indent, config.entry_indent + 2),
            seq!['\n'],
        ),
{
    lemma_entries_have_lines(section.entries, config.entry_indent, config.entry_indent + 2);
    lemma_join_prepend(
        section.heading(config.bullet_style),
        indent_entries_spec(section.entries, config.entry_indent, config.entry_indent + 2),
        seq!['\n'],
    );
}

/// The first entry file, in the order of the enumeration, that holds no
/// entry decides the outcome of reading the section of a declared
/// component from a directory whose children could all be read: the read
/// fails with the error of that file, unchanged. For a file with a name
/// that gives no ID, that is the invalid entry ID or the invalid entry
/// number.
pub proof fn lemma_first_bad_entry_fails_component(config: ConfigView, dir: DirView, i: int)
    requires
        dir.name is Some,
        find_component(config.components, dir.name->0) is Some,
        dir.listing is Ok,
        first_bad_entry_at(config, dir.listing->Ok_0, i),
    ensures
        component_section_of_dir(config, dir) == Err::<ComponentSectionView, ErrorView>(
            entry_of_file(dir.listing->Ok_0[i]->File_0)->Err_0,
        ),
        leading_digits(dir.listing->Ok_0[i]->File_0.name->0).len() == 0
            ==> component_section_of_dir(config, dir) == Err::<ComponentSectionView, ErrorView>(
            ErrorView::InvalidEntryId(dir.listing->Ok_0[i]->File_0.name->0),
        ),
        decimal_value(leading_digits(dir.listing->Ok_0[i]->File_0.name->0)) > u64::MAX
            ==> component_section_of_dir(config, dir) == Err::<ComponentSectionView, ErrorView>(
            ErrorView::InvalidEntryNumber(leading_digits(dir.listing->Ok_0[i]->File_0.name->0)),
        ),
{
    lemma_first_bad_entry_fails_read(config, dir.listing->Ok_0, i);
}

/// Where the section of a component is read from a directory, each entry
/// file of the directory holds an entry of the section: no file is passed
/// over because it holds none.
pub proof fn lemma_component_skips_no_entry(config: ConfigView, dir: DirView)
    requires
        component_section_of_dir(config, dir) is Ok,
    ensures
        dir.listing is Ok,
        forall|j: int|
            0 <= j < dir.listing->Ok_0.len() && is_entry_child(
                config,
                #[trigger] dir.listing->Ok_0[j],
            ) ==> entry_of_file(dir.listing->Ok_0[j]->File_0) is Ok,
{
    assert(entries_of_children(config, dir.listing->Ok_0) is Ok);
    lemma_read_skips_no_entry(config, dir.listing->Ok_0);
}

impl ComponentSection {
    /// Returns whether or not this section is empty (it's considered empty
    /// when it has no entries).
    pub fn is_empty(&self) -> (r: bool)
        ensures
            r == self@.is_empty(),
    {
        self.entries.is_empty()
    }

    /// Attempt to load this component section from the given directory.
    ///
    /// A directory whose name is not the ID of a declared component is an
    /// error, whatever it holds: its changes are never dropped silently.
    pub fn read_from_dir<'a>(config: &Config, dir: &'a DirSnapshot) -> (r: Result<Self, Error>)
        ensures
            result_view(r) == component_section_of_dir(config@, dir@),
            dir@.name is Some && find_component(config@.components, dir@.name->0) is None
                ==> result_view(r) == Err::<ComponentSectionView, ErrorView>(
                ErrorView::ComponentNotDefined(dir@.name->0),
            ),
            r matches Ok(section) ==> is_sorted(section@.entries, entry_key()),
    {
        let id = match &dir.name {
            Some(name) => name.clone(),
            None => {
                return Err(Error::CannotObtainName(dir.path.clone()));
            },
        };
        let component = match config.component(id.as_str()) {
            Some(component) => component,
            None => {
                return Err(Error::ComponentNotDefined(id));
            },
        };
        let name = component.name.clone();
        let maybe_path = match &component.maybe_path {
            Some(path) => Some(path.clone()),
            None => None,
        };
        let filter = |e: &'a DirEntry| -> (o: Option<Result<&'a FileSnapshot, Error>>)
            ensures
                outcome_view(o) == entry_filter_spec(config@, e@),
            { entry_filter(config, e) };
        let entry_files = match read_and_filter_dir(
            dir,
            filter,
            Ghost(entry_file_filter(config@)),
        ) {
            Ok(files) => files,
            Err(e) => {
                return Err(e);
            },
        };
        let entries = match read_entries_sorted(entry_files) {
            Ok(entries) => entries,
            Err(e) => {
                return Err(e);
            },
        };
        Ok(Self { id, name, maybe_path, entries })
    }

    /// Renders the section: a bullet with the component's name, as a link
    /// where the component has a path, and below it the entries.
    pub fn render(&self, config: &Config) -> (r: String)
        ensures
            r@ == self@.render(config@),
    {
        let indent: usize = config.components.entry_indent as usize;
        let mut entries_lines = indent_entries(&self.entries, indent, indent + 2);
        let mut heading = config.bullet_style.to_string();
        push_char(&mut heading, ' ');
        match &self.maybe_path {
            Some(path) => {
                push_char(&mut heading, '[');
                heading.append(self.name.as_str());
                push_char(&mut heading, ']');
                push_char(&mut heading, '(');
                heading.append(path.as_str());
                push_char(&mut heading, ')');
            },
            None => {
                heading.append(self.name.as_str());
            },
        }
        assert(heading@ =~= self@.heading(config@.bullet_style));
        let mut lines: Vec<String> = Vec::new();
        lines.push(heading);
        lines.append(&mut entries_lines);
        assert(items_view(lines@) =~= self@.lines(config@));
        proof {
            reveal_strlit("\n");
            assert("\n"@ =~= seq!['\n']);
        }
        join_strings(&lines, "\n")
    }
}

/// Keeps the child `e` of a section's directory if it is a directory: the
/// section of a component.
pub fn package_section_filter<'a>(e: &'a DirEntry) -> (o: Option<
    Result<&'a DirSnapshot, Error>,
>)
    ensures
        outcome_view(o) == dir_filter_spec(e@),
{
    sub_dir_filter(e)
}

} // verus!
