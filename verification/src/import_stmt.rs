//! The import statements that a statement parser hands to the builder.

use vstd::prelude::*;

verus! {

/// One imported name together with its optional local alias.
pub struct Alias {
    pub name: String,
    pub asname: Option<String>,
}

/// Ghost model of an [`Alias`].
#[verifier::ext_equal]
pub struct AliasView {
    pub name: Seq<char>,
    pub asname: Option<Seq<char>>,
}

impl View for Alias {
    type V = AliasView;

    open spec fn view(&self) -> AliasView {
        AliasView {
            name: self.name@,
            asname: match self.asname {
                Some(ref a) => Some(a@),
                None => None,
            },
        }
    }
}

/// One statement of a source unit that introduces dependencies: either a
/// plain import of a list of names, or an import of names out of a module,
/// optionally relative (`level` counts the leading dots).
pub enum ImportStmt {
    Import { names: Vec<Alias> },
    ImportFrom { module: Option<String>, names: Vec<Alias>, level: Option<usize> },
}

} // verus!
