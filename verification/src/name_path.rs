//! Dotted names of configuration variables.
use crate::config_crate::bare_name;
use crate::error::{ConfigFailure, ConfigFailureText};
use crate::toml_crate::{
    display_key, key_text, key_views, parse_keys, parsed_keys, toml_error_message,
};
use crate::value::{distinct_keys, entries_tree, lemma_entries_tree, value_tree, well_formed};
use crate::value::{ConfigEntry, ConfigValue, ValueTree};
use vstd::prelude::*;

verus! {

/// A name of a path.
#[derive(Clone, Debug)]
pub struct NameComponent {
    /// The name.
    pub name: String,
    /// How the name was written, if that is known.
    pub written: Option<String>,
}

impl NameComponent {
    /// The text that the name is displayed as: as it was written, if that is known.
    pub open spec fn shown(self) -> Seq<char> {
        match self.written {
            Some(written) => written@,
            None => key_text(self.name@),
        }
    }

    /// Displays the name.
    pub fn display(&self) -> (text: String)
        ensures
            text@ == self.shown(),
    {
        match &self.written {
            Some(written) => written.clone(),
            None => display_key(self.name.as_str()),
        }
    }

    /// A copy of the name.
    pub fn duplicate(&self) -> (copy: Self)
        ensures
            copy.name@ == self.name@,
            copy.shown() == self.shown(),
    {
        let written = match &self.written {
            Some(written) => Some(written.clone()),
            None => None,
        };
        NameComponent { name: self.name.clone(), written }
    }
}

/// Path to a configuration variable: the names of the tables that lead to it,
/// and its own name. How the names were written makes no difference.
#[derive(Debug)]
pub struct ConfigNamePathBuf {
    components: Vec<NameComponent>,
}

/// The names of a list of components.
pub open spec fn names(components: Seq<NameComponent>) -> Seq<Seq<char>> {
    components.map_values(|component: NameComponent| component.name@)
}

/// The texts that the components of a list are displayed as.
pub open spec fn shown_texts(components: Seq<NameComponent>) -> Seq<Seq<char>> {
    components.map_values(|component: NameComponent| component.shown())
}

/// The texts that names are displayed as of which it is not known how they were
/// written.
pub open spec fn key_texts(names: Seq<Seq<char>>) -> Seq<Seq<char>> {
    names.map_values(|name: Seq<char>| key_text(name))
}

/// The texts of a list of strings.
pub open spec fn texts(strings: Seq<String>) -> Seq<Seq<char>> {
    strings.map_values(|s: String| s@)
}

impl View for ConfigNamePathBuf {
    type V = Seq<Seq<char>>;

    closed spec fn view(&self) -> Seq<Seq<char>> {
        names(self.components@)
    }
}

/// What stands in `tree` at the end of `path`, if the path leads anywhere.
pub open spec fn lookup_tree(tree: ValueTree, path: Seq<Seq<char>>) -> Option<ValueTree>
    decreases path.len(),
{
    if path.len() == 0 {
        Some(tree)
    } else {
        match tree {
            ValueTree::Table(table) => if table.contains_key(path[0]) {
                lookup_tree(table[path[0]], path.drop_first())
            } else {
                None
            },
            _ => None,
        }
    }
}

impl ConfigNamePathBuf {
    /// The texts that the names are displayed as.
    pub closed spec fn shown(&self) -> Seq<Seq<char>> {
        shown_texts(self.components@)
    }

    /// The empty path, which points to the root table.
    pub fn root() -> (path: Self)
        ensures
            path@ == Seq::<Seq<char>>::empty(),
            path.shown() == Seq::<Seq<char>>::empty(),
    {
        let path = ConfigNamePathBuf { components: Vec::new() };
        assert(path@ =~= Seq::<Seq<char>>::empty());
        assert(path.shown() =~= Seq::<Seq<char>>::empty());
        path
    }

    /// The path made of the given names.
    pub fn from_components(components: Vec<String>) -> (path: Self)
        ensures
            path@ == texts(components@),
            path.shown() == key_texts(texts(components@)),
    {
        let mut path = ConfigNamePathBuf::root();
        let mut i: usize = 0;
        assert(texts(components@).take(0) =~= Seq::empty());
        assert(key_texts(texts(components@)).take(0) =~= Seq::empty());
        while i < components.len()
            invariant
                i <= components.len(),
                path@ == texts(components@).take(i as int),
                path.shown() == key_texts(texts(components@)).take(i as int),
            decreases components.len() - i,
        {
            path.push(components[i].clone());
            i += 1;
            assert(path@ =~= texts(components@).take(i as int));
            assert(path.shown() =~= key_texts(texts(components@)).take(i as int));
        }
        assert(path@ =~= texts(components@));
        assert(path.shown() =~= key_texts(texts(components@)));
        path
    }

    /// The path made of the given names, as they were written.
    pub fn from_written(components: Vec<NameComponent>) -> (path: Self)
        ensures
            path@ == names(components@),
            path.shown() == shown_texts(components@),
    {
        ConfigNamePathBuf { components }
    }

    /// The path that a text with dots stands for. Its names are displayed as they are
    /// written there.
    pub fn parse(text: &str) -> (path: Result<Self, ConfigFailure>)
        ensures
            match path {
                Ok(path) => {
                    &&& parsed_keys(text@) matches Ok(keys)
                    &&& path@ == keys.map_values(|key: (Seq<char>, Seq<char>)| key.0)
                    &&& path.shown() == keys.map_values(|key: (Seq<char>, Seq<char>)| key.1)
                    &&& path@.len() > 0
                },
                Err(error) => {
                    &&& parsed_keys(text@) matches Err(message)
                    &&& error@ == ConfigFailureText::Foreign(message)
                },
            },
            bare_name(text@) ==> (path matches Ok(path) && path@ == seq![text@] && path.shown()
                == seq![text@]),
    {
        let keys = match parse_keys(text) {
            Ok(keys) => keys,
            Err(error) => {
                return Err(ConfigFailure::Foreign(toml_error_message(&error)));
            },
        };
        let ghost views = key_views(keys@);
        let mut components: Vec<NameComponent> = Vec::new();
        let mut i: usize = 0;
        while i < keys.len()
            invariant
                i <= keys.len(),
                views == key_views(keys@),
                components.len() == i,
                forall|j: int|
                    0 <= j < i ==> (#[trigger] components@[j]).name@ == views[j].0
                        && components@[j].shown() == views[j].1,
            decreases keys.len() - i,
        {
            let (name, written) = &keys[i];
            components.push(NameComponent { name: name.clone(), written: Some(written.clone()) });
            i += 1;
        }
        let path = ConfigNamePathBuf::from_written(components);
        proof {
            assert(path@ =~= views.map_values(|key: (Seq<char>, Seq<char>)| key.0));
            assert(path.shown() =~= views.map_values(|key: (Seq<char>, Seq<char>)| key.1));
            if bare_name(text@) {
                assert(path@ =~= seq![text@]);
                assert(path.shown() =~= seq![text@]);
            }
        }
        Ok(path)
    }

    /// Tells whether the path points to the root table.
    pub fn is_root(&self) -> (b: bool)
        ensures
            b == (self@.len() == 0),
    {
        self.components.len() == 0
    }

    /// The names that the path is made of.
    pub fn components(&self) -> (components: &Vec<NameComponent>)
        ensures
            names(components@) == self@,
            shown_texts(components@) == self.shown(),
    {
        &self.components
    }

    /// Appends a name to the path.
    pub fn push(&mut self, key: String)
        ensures
            final(self)@ == old(self)@.push(key@),
            final(self).shown() == old(self).shown().push(key_text(key@)),
    {
        self.components.push(NameComponent { name: key, written: None });
        assert(self@ =~= old(self)@.push(key@));
        assert(self.shown() =~= old(self).shown().push(key_text(key@)));
    }

    /// Tells whether two paths are made of the same names.
    pub fn same_as(&self, other: &Self) -> (b: bool)
        ensures
            b == (self@ == other@),
    {
        if self.components.len() != other.components.len() {
            assert(self@.len() != other@.len());
            return false;
        }
        let mut i: usize = 0;
        while i < self.components.len()
            invariant
                self.components.len() == other.components.len(),
                i <= self.components.len(),
                forall|j: int| 0 <= j < i ==> self@[j] == other@[j],
            decreases self.components.len() - i,
        {
            if self.components[i].name != other.components[i].name {
                assert(self@[i as int] != other@[i as int]);
                return false;
            }
            i += 1;
        }
        assert(self@ =~= other@);
        true
    }

    /// Finds the value that the path leads to.
    pub fn lookup_value<'a>(&self, value: &'a ConfigValue) -> (found: Option<&'a ConfigValue>)
        requires
            well_formed(*value),
        ensures
            match found {
                Some(v) => lookup_tree(value@, self@) == Some(v@) && well_formed(*v),
                None => lookup_tree(value@, self@) is None,
            },
    {
        let mut current: &'a ConfigValue = value;
        let mut i: usize = 0;
        assert(self@.skip(0) =~= self@);
        while i < self.components.len()
            invariant
                i <= self.components.len(),
                well_formed(*current),
                lookup_tree(value@, self@) == lookup_tree(current@, self@.skip(i as int)),
            decreases self.components.len() - i,
        {
            assert(self@.skip(i as int).drop_first() =~= self@.skip(i + 1));
            assert(self@.skip(i as int)[0] == self.components@[i as int].name@);
            match current {
                ConfigValue::Table(entries) => match find_entry(
                    entries,
                    &self.components[i].name,
                ) {
                    Some(v) => {
                        current = v;
                    },
                    None => {
                        return None;
                    },
                },
                _ => {
                    return None;
                },
            }
            i += 1;
        }
        Some(current)
    }
}

/// As many texts are displayed as there are names.
pub proof fn lemma_as_many_shown(path: ConfigNamePathBuf)
    ensures
        path.shown().len() == path@.len(),
{
}

/// A tree is what the empty path leads to, and a longer path leads through the tables
/// that its names stand in.
pub proof fn law_lookup_leads_through_tables(
    tree: ValueTree,
    name: Seq<char>,
    rest: Seq<Seq<char>>,
)
    ensures
        lookup_tree(tree, Seq::empty()) == Some(tree),
        lookup_tree(tree, seq![name] + rest) == (if tree is Table && tree->Table_0.contains_key(
            name,
        ) {
            lookup_tree(tree->Table_0[name], rest)
        } else {
            None
        }),
{
    assert((seq![name] + rest).drop_first() =~= rest);
}

/// A name is displayed as it was written, or else as a key of TOML.
pub proof fn law_name_is_displayed_as_written(component: NameComponent)
    ensures
        component.written matches Some(written) ==> component.shown() == written@,
        component.written is None ==> component.shown() == key_text(component.name@),
{
}

impl Clone for ConfigNamePathBuf {
    fn clone(&self) -> (copy: Self)
        ensures
            copy@ == self@,
            copy.shown() == self.shown(),
    {
        let mut components: Vec<NameComponent> = Vec::new();
        let mut i: usize = 0;
        while i < self.components.len()
            invariant
                i <= self.components.len(),
                components.len() == i,
                forall|j: int|
                    0 <= j < i ==> (#[trigger] components@[j]).name@ == self.components@[j].name@
                        && components@[j].shown() == self.components@[j].shown(),
            decreases self.components.len() - i,
        {
            components.push(self.components[i].duplicate());
            i += 1;
        }
        assert(names(components@) =~= names(self.components@));
        assert(shown_texts(components@) =~= shown_texts(self.components@));
        ConfigNamePathBuf { components }
    }
}

impl vstd::std_specs::cmp::PartialEqSpecImpl for ConfigNamePathBuf {
    open spec fn obeys_eq_spec() -> bool {
        true
    }

    open spec fn eq_spec(&self, other: &Self) -> bool {
        self@ == other@
    }
}

impl PartialEq for ConfigNamePathBuf {
    fn eq(&self, other: &Self) -> (b: bool) {
        self.same_as(other)
    }
}

impl Eq for ConfigNamePathBuf {

}

/// Finds the value that a table holds under a name.
pub(crate) fn find_entry<'a>(entries: &'a Vec<ConfigEntry>, key: &String) -> (found: Option<
    &'a ConfigValue,
>)
    requires
        distinct_keys(entries@),
        forall|i: int| 0 <= i < entries@.len() ==> well_formed((#[trigger] entries@[i]).value),
    ensures
        match found {
            Some(v) => {
                &&& entries_tree(entries@).contains_key(key@)
                &&& entries_tree(entries@)[key@] == v@
                &&& well_formed(*v)
            },
            None => !entries_tree(entries@).contains_key(key@),
        },
{
    proof {
        lemma_entries_tree(entries@);
    }
    let mut i: usize = 0;
    while i < entries.len()
        invariant
            i <= entries.len(),
            forall|j: int| 0 <= j < i ==> (#[trigger] entries@[j]).key@ != key@,
            forall|j: int|
                0 <= j < entries.len() ==> entries_tree(entries@).contains_key(
                    (#[trigger] entries@[j]).key@,
                ) && entries_tree(entries@)[entries@[j].key@] == value_tree(entries@[j].value),
            forall|j: int| 0 <= j < entries@.len() ==> well_formed((#[trigger] entries@[j]).value),
        decreases entries.len() - i,
    {
        if entries[i].key == *key {
            return Some(&entries[i].value);
        }
        i += 1;
    }
    None
}

} // verus!
