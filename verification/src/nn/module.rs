//! Module naming and the dynamic-layer marker.
use vstd::prelude::*;

verus! {

/// A module that can be stored in a dynamic sequence.
pub trait Layer {}

/// Join a parent module path and a child name with a dot, skipping empty
/// parts (`join_path("", "w") == "w"`, `join_path("0", "w") == "0.w"`).
pub fn join_path(parent: &str, name: &str) -> (r: String)
    ensures
        r@ == (if parent@.len() == 0 {
            name@
        } else if name@.len() == 0 {
            parent@
        } else {
            parent@ + seq!['.'] + name@
        }),
{
    if parent.is_empty() {
        String::from_str(name)
    } else if name.is_empty() {
        String::from_str(parent)
    } else {
        let mut out = String::from_str(parent);
        out.append(".");
        proof {
            reveal_strlit(".");
        }
        out.append(name);
        out
    }
}

} // verus!
