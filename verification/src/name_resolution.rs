//! Resolution of relative imports to absolute dotted names.

use vstd::prelude::*;
use vstd::string::StrSliceExecFns;
use vstd::string::StringExecFns;

use crate::errors::BuildError;
use crate::names::{find_last_dot, lemma_last_dot_index, lemma_strip_segments_none,
    strip_segments};

verus! {

/// Converts a relative import (`level` leading dots and an optional
/// trailing `name`) inside `package` into an absolute dotted name.
///
/// `level` 1 means "this package", 2 means "one package up", and so on:
/// the last `level - 1` segments of `package` are stripped, and `name`,
/// when non-empty, is appended after a dot.  Stripping past the top-level
/// package fails with `InvalidRelativeImport`.  A `level` of 0 would be an
/// absolute import, which this resolver is never called for.
pub fn resolve_name(name: &String, package: &String, level: &usize) -> (r: Result<
    String,
    BuildError,
>)
    requires
        *level >= 1,
    ensures
        match r {
            Ok(s) => {
                &&& strip_segments(package@, (*level - 1) as nat) matches Some(prefix)
                &&& s@ == if name@.len() == 0 {
                    prefix
                } else {
                    prefix + seq!['.'] + name@
                }
            },
            Err(e) => {
                &&& strip_segments(package@, (*level - 1) as nat) is None
                &&& e matches BuildError::InvalidRelativeImport(p) && p@ == package@
            },
        },
{
    let strips: usize = *level - 1;
    let mut prefix: &str = package.as_str();
    let mut k: usize = 0;
    while k < strips
        invariant
            0 <= k <= strips,
            strips == *level - 1,
            strip_segments(package@, k as nat) == Some(prefix@),
        decreases strips - k,
    {
        match find_last_dot(prefix) {
            Some(d) => {
                proof {
                    lemma_last_dot_index(prefix@);
                }
                prefix = prefix.substring_char(0, d);
                k += 1;
            },
            None => {
                proof {
                    lemma_strip_segments_none(package@, (k + 1) as nat, strips as nat);
                }
                return Err(BuildError::InvalidRelativeImport(package.clone()));
            },
        }
    }
    if name.as_str().is_empty() {
        Ok(prefix.to_owned())
    } else {
        let mut out = prefix.to_owned();
        out.append(".");
        out.append(name.as_str());
        proof {
            reveal_strlit(".");
            assert((".")@ =~= seq!['.']);
        }
        Ok(out)
    }
}

} // verus!
