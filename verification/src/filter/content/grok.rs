//! Article text of Grokipedia pages.
use vstd::prelude::*;

use super::common::{content_spec, excluded_selectors_spec, get_content_with};

verus! {

/// The containers tried, in order: `article`, `main`, `body`.
pub open spec fn grok_containers() -> Seq<Seq<char>> {
    seq!["article"@, "main"@, "body"@]
}

/// The article text of a Grokipedia page: its `span` elements under the
/// first of `article`, `main` or `body`; see [`content_spec`].
pub fn get_content(page: &str) -> (r: Option<String>)
    ensures
        ({
            let spec = content_spec(page@, grok_containers(), excluded_selectors_spec(), "span"@);
            match r {
                Some(s) => spec == Some(s@),
                None => spec is None,
            }
        }),
{
    let containers: [&str; 3] = ["article", "main", "body"];
    assert(containers@.map_values(|s: &str| s@) =~= grok_containers());
    get_content_with(page, &containers, "span")
}

} // verus!
