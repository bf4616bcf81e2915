//! The choice of a random article.

use vstd::prelude::*;
use crate::titles::namespace_split;

verus! {

/// Identifiers are drawn from below this bound.
pub const ID_BOUND: u32 = 100_000_000;

/// Whether an identifier that was drawn is taken: it has a title, its page
/// is no redirect and, where only articles of the root namespace are
/// wanted, its title has no namespace.
pub fn accept_random_article(title: Option<&str>, is_redirect: bool, root_namespace: bool) -> (ok:
    bool)
    ensures
        ok == match title {
            Some(t) => !is_redirect && (!root_namespace || namespace_split(t@).0 is None),
            None => false,
        },
{
    match title {
        Some(t) => {
            if is_redirect {
                false
            } else if !root_namespace {
                true
            } else {
                let (namespace, _) = crate::titles::split_namespace(t);
                namespace.is_none()
            }
        },
        None => false,
    }
}

} // verus!
