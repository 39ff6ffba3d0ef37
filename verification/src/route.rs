//! Routes: the paths that queries follow.

use std::borrow::Cow;

use vstd::prelude::*;
use vstd::std_specs::convert::IntoSpec;

verus! {

/// A single `Route` component.
#[derive(Debug, PartialEq)]
pub enum Component<'a> {
    /// A YAML key.
    Key(Cow<'a, str>),
    /// An index into a YAML array.
    Index(usize),
}

/// The mathematical content of a [`Component`].
pub enum ComponentView {
    Key(Seq<char>),
    Index(usize),
}

impl<'a> View for Component<'a> {
    type V = ComponentView;

    open spec fn view(&self) -> ComponentView {
        match *self {
            Component::Key(key) => ComponentView::Key(key@),
            Component::Index(index) => ComponentView::Index(index),
        }
    }
}

impl<'a> Clone for Component<'a> {
    fn clone(&self) -> (component: Self)
        ensures
            component@ == self@,
    {
        match self {
            Component::Key(Cow::Borrowed(key)) => Component::Key(Cow::Borrowed(*key)),
            Component::Key(Cow::Owned(key)) => Component::Key(Cow::Owned(key.clone())),
            Component::Index(index) => Component::Index(*index),
        }
    }
}

/// Returns the text of a key.
pub fn key_str<'b, 'a>(key: &'b Cow<'a, str>) -> (text: &'b str)
    ensures
        text@ == key@,
{
    match key {
        Cow::Borrowed(text) => *text,
        Cow::Owned(text) => text.as_str(),
    }
}

impl From<usize> for Component<'_> {
    fn from(index: usize) -> (component: Self) {
        Component::Index(index)
    }
}

impl vstd::std_specs::convert::FromSpecImpl<usize> for Component<'_> {
    open spec fn obeys_from_spec() -> bool {
        true
    }

    open spec fn from_spec(index: usize) -> Self {
        Component::Index(index)
    }
}

impl<'a> From<&'a str> for Component<'a> {
    fn from(key: &'a str) -> (component: Self) {
        Component::Key(Cow::Borrowed(key))
    }
}

impl<'a> vstd::std_specs::convert::FromSpecImpl<&'a str> for Component<'a> {
    open spec fn obeys_from_spec() -> bool {
        true
    }

    open spec fn from_spec(key: &'a str) -> Self {
        Component::Key(Cow::Borrowed(key))
    }
}

impl From<String> for Component<'_> {
    fn from(key: String) -> (component: Self) {
        Component::Key(Cow::Owned(key))
    }
}

impl vstd::std_specs::convert::FromSpecImpl<String> for Component<'_> {
    open spec fn obeys_from_spec() -> bool {
        true
    }

    open spec fn from_spec(key: String) -> Self {
        Component::Key(Cow::Owned(key))
    }
}

/// A route into some YAML document.
///
/// A route is zero or more "component" selectors, each of which is either a
/// mapping key or list index to descend through. An empty route corresponds to
/// the top-most document feature.
///
/// For example, with the following YAML document:
///
/// ```yaml
/// foo:
///   bar:
///     baz:
///       - [a, b, c]
///       - [d, e, f]
/// ```
///
/// The sub-list member `e` would be identified via the path
/// `foo`, `bar`, `baz`, `1`, `1`.
#[derive(Debug)]
pub struct Route<'a> {
    /// The individual top-down components of this route.
    pub route: Vec<Component<'a>>,
}

/// The contents of a list of components.
pub open spec fn component_views(components: Seq<Component>) -> Seq<ComponentView> {
    components.map_values(|component: Component| component@)
}

impl<'a> View for Route<'a> {
    type V = Seq<ComponentView>;

    open spec fn view(&self) -> Seq<ComponentView> {
        component_views(self.route@)
    }
}

impl<'a> Clone for Route<'a> {
    fn clone(&self) -> (route: Self)
        ensures
            route@ == self@,
    {
        let mut components: Vec<Component<'a>> = Vec::new();
        let mut i: usize = 0;
        while i < self.route.len()
            invariant
                i <= self.route.len(),
                component_views(components@) == component_views(self.route@).take(i as int),
            decreases self.route.len() - i,
        {
            let ghost before = components@;
            let component = self.route[i].clone();
            components.push(component);
            assert(component_views(components@) =~= component_views(before).push(component@));
            assert(component_views(self.route@).take(i + 1) =~= component_views(self.route@).take(
                i as int,
            ).push(component@));
            i += 1;
        }
        assert(component_views(components@) =~= component_views(self.route@));
        Route { route: components }
    }
}

impl Default for Route<'_> {
    fn default() -> (route: Self)
        ensures
            route@ == Seq::<ComponentView>::empty(),
    {
        let route = Route { route: Vec::new() };
        assert(route@ =~= Seq::<ComponentView>::empty());
        route
    }
}

impl<'a> From<Vec<Component<'a>>> for Route<'a> {
    fn from(route: Vec<Component<'a>>) -> (built: Self) {
        Route { route }
    }
}

impl<'a> vstd::std_specs::convert::FromSpecImpl<Vec<Component<'a>>> for Route<'a> {
    open spec fn obeys_from_spec() -> bool {
        true
    }

    open spec fn from_spec(route: Vec<Component<'a>>) -> Self {
        Route { route }
    }
}

impl<'a> Route<'a> {
    /// Returns whether this route is empty.
    pub fn is_empty(&self) -> (empty: bool)
        ensures
            empty == (self@.len() == 0),
    {
        self.route.len() == 0
    }

    /// Create a new route from this route, with the given component
    /// added to the end.
    pub fn with_key<C: Into<Component<'a>>>(&self, component: C) -> (longer: Self)
        ensures
            longer@.len() == self@.len() + 1,
            longer@.drop_last() == self@,
            exists|pushed: Component<'a>|
                {
                    &&& #[trigger] call_ensures(
                        <C as Into<Component<'a>>>::into,
                        (component,),
                        pushed,
                    )
                    &&& longer@ == self@.push(pushed@)
                },
            <C as IntoSpec<Component<'a>>>::obeys_into_spec() ==> longer@ == self@.push(
                <C as IntoSpec<Component<'a>>>::into_spec(component)@,
            ),
    {
        let mut longer = self.clone();
        let ghost before = longer.route@;
        let component: Component<'a> = component.into();
        longer.route.push(component);
        proof {
            assert(longer@ =~= component_views(before).push(component@));
            assert(longer@.drop_last() =~= self@);
        }
        longer
    }

    /// Create a new route from this route, with the given components
    /// added to the end.
    pub fn with_keys(&self, components: Vec<Component<'a>>) -> (longer: Self)
        ensures
            longer@ == self@ + component_views(components@),
    {
        let mut longer = self.clone();
        let mut components = components;
        let ghost before = longer.route@;
        let ghost added = components@;
        longer.route.append(&mut components);
        assert(longer@ =~= component_views(before) + component_views(added));
        longer
    }

    /// Returns a route for the "parent" path of the route's current path,
    /// or `None` the current route has no parent.
    pub fn parent(&self) -> (parent: Option<Self>)
        ensures
            match parent {
                Some(parent) => self@.len() > 0 && parent@ == self@.drop_last(),
                None => self@.len() == 0,
            },
    {
        if self.is_empty() {
            None
        } else {
            let mut shorter = self.clone();
            let ghost before = shorter.route@;
            let len: usize = shorter.route.len();
            proof {
                assert(component_views(before).len() == self@.len());
            }
            shorter.route.truncate(len - 1);
            assert(shorter@ =~= component_views(before).drop_last());
            Some(shorter)
        }
    }
}

} // verus!
