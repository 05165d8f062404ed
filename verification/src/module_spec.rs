//! Canonical module descriptors, as reported by a name resolver.

use vstd::prelude::*;

verus! {

/// Ghost model of a [`ModuleSpec`].
#[verifier::ext_equal]
pub struct ModuleSpecView {
    pub name: Seq<char>,
    pub origin: Option<Seq<char>>,
    pub parent: Seq<char>,
    pub submodule_search_locations: Option<Seq<Seq<char>>>,
}

/// Canonical identity of a module: its dotted name, where it was found,
/// the dotted name of its enclosing package, and (for packages) the
/// locations in which submodules are searched for.
pub struct ModuleSpec {
    pub name: String,
    pub origin: Option<String>,
    pub parent: String,
    pub submodule_search_locations: Option<Vec<String>>,
}

impl View for ModuleSpec {
    type V = ModuleSpecView;

    open spec fn view(&self) -> ModuleSpecView {
        ModuleSpecView {
            name: self.name@,
            origin: match self.origin {
                Some(ref o) => Some(o@),
                None => None,
            },
            parent: self.parent@,
            submodule_search_locations: match self.submodule_search_locations {
                Some(ref v) => Some(v.deep_view()),
                None => None,
            },
        }
    }
}

impl ModuleSpecView {
    /// A module is a package exactly when the resolver reported submodule
    /// search locations for it.
    pub open spec fn is_package(&self) -> bool {
        self.submodule_search_locations is Some
    }
}

impl ModuleSpec {
    /// Whether this module can contain submodules.
    pub fn is_package(&self) -> (r: bool)
        ensures
            r == self@.is_package(),
    {
        match self.submodule_search_locations {
            Some(_) => true,
            None => false,
        }
    }

    /// An independent copy with the same contents.
    pub fn duplicate(&self) -> (r: ModuleSpec)
        ensures
            r@ == self@,
    {
        let origin = match &self.origin {
            Some(o) => Some(o.clone()),
            None => None,
        };
        let locations = match &self.submodule_search_locations {
            Some(v) => Some(clone_string_vec(v)),
            None => None,
        };
        let r = ModuleSpec {
            name: self.name.clone(),
            origin,
            parent: self.parent.clone(),
            submodule_search_locations: locations,
        };
        assert(r@ =~= self@);
        r
    }
}

impl Clone for ModuleSpec {
    fn clone(&self) -> (r: Self)
        ensures
            r@ == self@,
    {
        self.duplicate()
    }
}

/// An element-wise copy of a vector of strings.
pub fn clone_string_vec(v: &Vec<String>) -> (r: Vec<String>)
    ensures
        r.deep_view() == v.deep_view(),
        r@.len() == v@.len(),
{
    let mut r: Vec<String> = Vec::new();
    let mut i: usize = 0;
    while i < v.len()
        invariant
            0 <= i <= v.len(),
            r@.len() == i,
            forall|j: int| 0 <= j < i ==> r@[j]@ == v@[j]@,
        decreases v.len() - i,
    {
        r.push(v[i].clone());
        i += 1;
    }
    proof {
        assert(forall|j: int| 0 <= j < v@.len() ==> r.deep_view()[j] == v.deep_view()[j]);
        assert(r.deep_view() =~= v.deep_view());
    }
    r
}

} // verus!
