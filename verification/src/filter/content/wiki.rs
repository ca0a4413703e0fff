//! Article text of Wikipedia pages.
use vstd::prelude::*;

use super::common::{content_spec, excluded_selectors_spec, get_content_with};

verus! {

/// The containers tried, in order: `div#bodyContent`, `article`, `main`,
/// `body`.
pub open spec fn wiki_containers() -> Seq<Seq<char>> {
    seq!["div#bodyContent"@, "article"@, "main"@, "body"@]
}

/// The article text of a Wikipedia page: its `p` elements under the first
/// of `div#bodyContent`, `article`, `main` or `body`; see [`content_spec`].
pub fn get_content(page: &str) -> (r: Option<String>)
    ensures
        ({
            let spec = content_spec(page@, wiki_containers(), excluded_selectors_spec(), "p"@);
            match r {
                Some(s) => spec == Some(s@),
                None => spec is None,
            }
        }),
{
    let containers: [&str; 4] = ["div#bodyContent", "article", "main", "body"];
    assert(containers@.map_values(|s: &str| s@) =~= wiki_containers());
    get_content_with(page, &containers, "p")
}

} // verus!
