//! Normalized Compression Distance between text documents, with the HTML
//! normalisation and text extraction that feed it, and the metric trees used
//! to search a corpus by that distance.
pub mod compress;
pub mod filter;
pub mod metric_tree;

use vstd::prelude::*;

use crate::compress::brotli::{BrotliSettings, CompressBrotli};
use crate::compress::cache::NoCache;
use crate::compress::{NcdTerms, ncd_terms_spec};
use crate::filter::filter_attributes::{FilterHtmlAttributes, default_kept, lemma_process_by_kept};
use crate::filter::{HtmlFilter, process_spec};

verus! {

/// The distance terms, under Brotli at quality 5 and window 2^21, of the
/// two pages reduced to their tags with their `id` and `class` attributes.
pub fn brotli_default_filter_attributes(page_a: &str, page_b: &str) -> (t: NcdTerms)
    ensures
        forall|f: FilterHtmlAttributes|
            #![trigger f.kept()]
            f.kept() == default_kept() ==> (t.numerator as nat, t.denominator as nat)
                == ncd_terms_spec(
                &BrotliSettings { quality: 5, lg_window_size: 21 },
                process_spec(&f, page_a@),
                process_spec(&f, page_b@),
            ),
{
    let stripper = FilterHtmlAttributes::default();
    let stripped_a = stripper.process_document(page_a);
    let stripped_b = stripper.process_document(page_b);
    let compressor = CompressBrotli::<NoCache>::recommended();
    let t = compressor.get_distance(stripped_a.as_str(), stripped_b.as_str());
    proof {
        compress::lemma_uncached_distance::<_, NoCache>(
            compressor.spec_settings(),
            stripped_a@,
            stripped_b@,
            t,
        );
        assert forall|f: FilterHtmlAttributes|
            #![trigger f.kept()]
            f.kept() == default_kept() implies (t.numerator as nat, t.denominator as nat)
                == ncd_terms_spec(
                &BrotliSettings { quality: 5, lg_window_size: 21 },
                process_spec(&f, page_a@),
                process_spec(&f, page_b@),
            ) by {
            lemma_process_by_kept(f, stripper, page_a@);
            lemma_process_by_kept(f, stripper, page_b@);
        }
    }
    t
}

} // verus!
