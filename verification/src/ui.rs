//! Assets for the embedding user interface: the library's only part is
//! the static page shell; serving it is the embedding application's work.

use vstd::prelude::*;
use vstd::string::StringExecFns;

verus! {

/// The static page shell handed to the embedding web user interface.
pub fn generate_web_assets() -> (r: String)
    ensures
        r@ == "<!DOCTYPE html><html><head><title>tfdiff</title></head><body><main id=\"plan\"></main></body></html>"@,
{
    String::from_str(
        "<!DOCTYPE html><html><head><title>tfdiff</title></head><body><main id=\"plan\"></main></body></html>",
    )
}

} // verus!
