//! The configuration that readers and renderers are handed.

use crate::changelog::parsing_utils::{chars_of, push_char, same_text};
use crate::error::{Error, ErrorView};
use vstd::prelude::*;

verus! {

/// The character that marks a list item in rendered output.
#[derive(Debug, Clone, Copy, PartialEq, Eq, Structural)]
pub enum BulletStyle {
    /// `*`
    Asterisk,
    /// `-`
    Dash,
}

impl BulletStyle {
    /// The bullet's character.
    pub open spec fn symbol(self) -> char {
        match self {
            BulletStyle::Asterisk => '*',
            BulletStyle::Dash => '-',
        }
    }

    /// The bullet, as the text that is rendered.
    pub open spec fn text(self) -> Seq<char> {
        seq![self.symbol()]
    }

    /// The style that the text `s` names, if it names one.
    pub open spec fn parse_spec(s: Seq<char>) -> Result<BulletStyle, ErrorView> {
        if s == seq!['*'] {
            Ok(BulletStyle::Asterisk)
        } else if s == seq!['-'] {
            Ok(BulletStyle::Dash)
        } else {
            Err(ErrorView::InvalidBulletStyle)
        }
    }

    /// The bullet, as the text that is rendered.
    pub fn to_string(&self) -> (r: String)
        ensures
            r@ == self.text(),
    {
        let mut r = String::new();
        match self {
            BulletStyle::Asterisk => push_char(&mut r, '*'),
            BulletStyle::Dash => push_char(&mut r, '-'),
        }
        assert(r@ =~= self.text());
        r
    }

    /// Reads a bullet style: `*` or `-`. Any other text is rejected as an
    /// invalid bullet style.
    pub fn parse(s: &str) -> (r: Result<BulletStyle, Error>)
        ensures
            match r {
                Ok(style) => BulletStyle::parse_spec(s@) == Ok::<BulletStyle, ErrorView>(style),
                Err(e) => BulletStyle::parse_spec(s@) == Err::<BulletStyle, ErrorView>(e@),
            },
    {
        let v = chars_of(s);
        if v.len() == 1 && v[0] == '*' {
            assert(s@ =~= seq!['*']);
            Ok(BulletStyle::Asterisk)
        } else if v.len() == 1 && v[0] == '-' {
            assert(s@ =~= seq!['-']);
            Ok(BulletStyle::Dash)
        } else {
            assert(s@ != seq!['*']) by {
                assert(seq!['*'].len() == 1 && seq!['*'][0] == '*');
            }
            assert(s@ != seq!['-']) by {
                assert(seq!['-'].len() == 1 && seq!['-'][0] == '-');
            }
            Err(Error::InvalidBulletStyle)
        }
    }
}

/// A declared component: a sub-project whose changes are grouped together.
#[derive(Debug)]
pub struct Component {
    /// The ID of the component: the name of its directories.
    pub id: String,
    /// The name of the component, as it is displayed.
    pub name: String,
    /// The path to the component from the root of the project, if any.
    pub maybe_path: Option<String>,
}

/// The mathematical value of a [`Component`].
pub struct ComponentView {
    pub id: Seq<char>,
    pub name: Seq<char>,
    pub maybe_path: Option<Seq<char>>,
}

impl View for Component {
    type V = ComponentView;

    open spec fn view(&self) -> ComponentView {
        ComponentView {
            id: self.id@,
            name: self.name@,
            maybe_path: match self.maybe_path {
                Some(p) => Some(p@),
                None => None,
            },
        }
    }
}

/// Configuration of change sets.
#[derive(Debug)]
pub struct ChangeSetsConfig {
    /// The name of the file that holds a change set's summary.
    pub summary_filename: String,
}

/// Configuration of components.
#[derive(Debug)]
pub struct ComponentsConfig {
    /// The number of spaces by which a component's entries are indented.
    pub entry_indent: u8,
    /// The declared components, each under an ID of its own: see
    /// [`Config::has_unique_ids`]. Where two have the same ID all the same,
    /// the first counts.
    pub all: Vec<Component>,
}

/// The configuration of a changelog.
#[derive(Debug)]
pub struct Config {
    /// The character that marks a list item.
    pub bullet_style: BulletStyle,
    /// Configuration of change sets.
    pub change_sets: ChangeSetsConfig,
    /// Configuration of components.
    pub components: ComponentsConfig,
}

/// The mathematical value of a [`Config`].
pub struct ConfigView {
    pub bullet_style: BulletStyle,
    pub summary_filename: Seq<char>,
    pub entry_indent: nat,
    pub components: Seq<ComponentView>,
}

/// The values of the components of `all`.
pub open spec fn components_view(all: Seq<Component>) -> Seq<ComponentView> {
    Seq::new(all.len(), |i: int| all[i]@)
}

impl View for Config {
    type V = ConfigView;

    open spec fn view(&self) -> ConfigView {
        ConfigView {
            bullet_style: self.bullet_style,
            summary_filename: self.change_sets.summary_filename@,
            entry_indent: self.components.entry_indent as nat,
            components: components_view(self.components.all@),
        }
    }
}

/// The first of `components` that has the ID `id`, if any has.
pub open spec fn find_component(components: Seq<ComponentView>, id: Seq<char>) -> Option<
    ComponentView,
>
    decreases components.len(),
{
    if components.len() == 0 {
        None
    } else if components[0].id == id {
        Some(components[0])
    } else {
        find_component(components.drop_first(), id)
    }
}

/// Whether no two of `components` have the same ID.
pub open spec fn ids_are_unique(components: Seq<ComponentView>) -> bool {
    forall|i: int, j: int|
        0 <= i < components.len() && 0 <= j < components.len() && i != j ==> (
        #[trigger] components[i]).id != (#[trigger] components[j]).id
}

impl ConfigView {
    /// Whether each declared component has an ID of its own.
    pub open spec fn has_unique_ids(self) -> bool {
        ids_are_unique(self.components)
    }
}

/// What is found under an ID is one of the components and has that ID, and
/// nothing is found only where no component has it.
pub proof fn lemma_find_component(components: Seq<ComponentView>, id: Seq<char>)
    ensures
        find_component(components, id) matches Some(c) ==> c.id == id && components.contains(c),
        find_component(components, id) is None ==> forall|i: int|
            0 <= i < components.len() ==> (#[trigger] components[i]).id != id,
    decreases components.len(),
{
    if components.len() > 0 {
        let rest = components.drop_first();
        lemma_find_component(rest, id);
        if components[0].id == id {
            assert(components.contains(components[0]));
        } else {
            if find_component(rest, id) is Some {
                let c = find_component(rest, id)->0;
                let k = choose|k: int| 0 <= k < rest.len() && rest[k] == c;
                assert(components[k + 1] == c);
            } else {
                assert forall|i: int| 0 <= i < components.len() implies (
                #[trigger] components[i]).id != id by {
                    if i > 0 {
                        assert(rest[i - 1] == components[i]);
                    }
                }
            }
        }
    }
}

/// Where each component has an ID of its own, a component is found under
/// its ID wherever it stands among the components: the order in which they
/// were declared does not matter.
pub proof fn lemma_unique_ids_find_each(components: Seq<ComponentView>, i: int)
    requires
        ids_are_unique(components),
        0 <= i < components.len(),
    ensures
        find_component(components, components[i].id) == Some(components[i]),
{
    let id = components[i].id;
    lemma_find_component(components, id);
    let found = find_component(components, id);
    assert(found is Some);
    let k = choose|k: int| 0 <= k < components.len() && components[k] == found->0;
    assert(k == i);
}

impl Config {
    /// Decides whether each declared component has an ID of its own.
    pub fn has_unique_ids(&self) -> (r: bool)
        ensures
            r == self@.has_unique_ids(),
    {
        let ghost all = self@.components;
        let mut i: usize = 0;
        while i < self.components.all.len()
            invariant
                i <= self.components.all.len(),
                all == self@.components,
                forall|a: int, b: int|
                    0 <= a < i && 0 <= b < a ==> (#[trigger] all[a]).id != (#[trigger] all[b]).id,
            decreases self.components.all.len() - i,
        {
            let mut j: usize = 0;
            while j < i
                invariant
                    j <= i < self.components.all.len(),
                    all == self@.components,
                    forall|b: int| 0 <= b < j ==> all[i as int].id != (#[trigger] all[b]).id,
                decreases i - j,
            {
                if same_text(
                    self.components.all[i].id.as_str(),
                    self.components.all[j].id.as_str(),
                ) {
                    assert(all[i as int].id == all[j as int].id);
                    return false;
                }
                j += 1;
            }
            i += 1;
        }
        assert forall|a: int, b: int|
            0 <= a < all.len() && 0 <= b < all.len() && a != b implies (#[trigger] all[a]).id != (
        #[trigger] all[b]).id by {
            if b < a {
                assert(all[a].id != all[b].id);
            } else {
                assert(all[b].id != all[a].id);
            }
        }
        true
    }

    /// Looks up the declared component with the ID `id`.
    pub fn component(&self, id: &str) -> (r: Option<&Component>)
        ensures
            match r {
                Some(c) => find_component(self@.components, id@) == Some(c@),
                None => find_component(self@.components, id@) is None,
            },
    {
        let ghost all = self@.components;
        let mut i: usize = 0;
        assert(all.skip(0) == all);
        while i < self.components.all.len()
            invariant
                i <= self.components.all.len(),
                all == self@.components,
                find_component(all, id@) == find_component(all.skip(i as int), id@),
            decreases self.components.all.len() - i,
        {
            let c = &self.components.all[i];
            assert(all.skip(i as int)[0] == c@);
            if same_text(c.id.as_str(), id) {
                return Some(c);
            }
            assert(all.skip(i as int).drop_first() == all.skip(i + 1));
            i += 1;
        }
        Option::None
    }
}

impl Default for Config {
    /// The configuration that is used where none is given: dashes for
    /// bullets, the summary in `summary.md`, entries of components indented
    /// by two spaces, and no component declared.
    fn default() -> (r: Config)
        ensures
            r@ == (ConfigView {
                bullet_style: BulletStyle::Dash,
                summary_filename: "summary.md"@,
                entry_indent: 2,
                components: Seq::empty(),
            }),
            r@.has_unique_ids(),
    {
        let r = Config {
            bullet_style: BulletStyle::Dash,
            change_sets: ChangeSetsConfig { summary_filename: "summary.md".to_owned() },
            components: ComponentsConfig { entry_indent: 2, all: Vec::new() },
        };
        assert(r@.components =~= Seq::empty());
        r
    }
}

} // verus!
