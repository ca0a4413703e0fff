//! Compression with Brotli.
use std::io::Write;

use vstd::prelude::*;

use super::cache::{Cache, NoCache};
use super::{Compressor, NcdTerms};

verus! {

/// The length of the stream that `brotli::CompressorWriter`, created with
/// the given quality and log2 window size and an input buffer of the text's
/// byte length, writes for the UTF-8 bytes of `text`.
pub uninterp spec fn brotli_stream_len(text: Seq<char>, quality: u32, lg_window_size: u32) -> nat;

/// Compresses `buf` through `brotli::CompressorWriter::new` and `write_all`
/// into memory and returns the number of bytes written. Claims only that
/// this number is the named stream length for the text and the settings.
#[verifier::external_body]
fn brotli_compressed_len(buf: &str, quality: u32, lg_window_size: u32) -> (n: usize)
    ensures
        n as nat == brotli_stream_len(buf@, quality, lg_window_size),
{
    let mut out: Vec<u8> = Vec::new();
    {
        let mut writer = brotli::CompressorWriter::new(&mut out, buf.len(), quality, lg_window_size);
        writer.write_all(buf.as_bytes()).unwrap();
    }
    out.len()
}

/// Brotli quality and log2 window size.
#[derive(Clone, Copy, Debug, PartialEq, Eq, Structural)]
pub struct BrotliSettings {
    /// Quality level.
    pub quality: u32,
    /// Log2 of the sliding window size.
    pub lg_window_size: u32,
}

impl Compressor for BrotliSettings {
    open spec fn compressed_len(&self, text: Seq<char>) -> nat {
        brotli_stream_len(text, self.quality, self.lg_window_size)
    }

    fn get_compressed_size(&self, buf: &str) -> (n: usize) {
        brotli_compressed_len(buf, self.quality, self.lg_window_size)
    }
}

/// A Brotli compressor with a cache of combined lengths.
pub struct CompressBrotli<C: Cache = NoCache> {
    settings: BrotliSettings,
    cache: C,
}

impl<C: Cache> CompressBrotli<C> {
    /// The cache serves this compressor's settings.
    #[verifier::type_invariant]
    spec fn cache_serves(&self) -> bool {
        super::serves(&self.settings, &self.cache)
    }

    /// The quality and window size in use.
    pub closed spec fn spec_settings(&self) -> BrotliSettings {
        self.settings
    }

    /// A compressor with the given quality and log2 window size and an
    /// empty cache.
    pub fn new(quality: u32, lg_window_size: u32) -> (r: Self)
        ensures
            r.spec_settings() == (BrotliSettings { quality, lg_window_size }),
    {
        let settings = BrotliSettings { quality, lg_window_size };
        let ghost s = settings;
        let cache = C::empty_cache(Ghost(|h: u64, l: usize| super::consistent_entry::<_, C>(&s, h, l)));
        CompressBrotli { settings, cache }
    }

    /// Quality 5, window 2^21.
    pub fn recommended() -> (r: Self)
        ensures
            r.spec_settings() == (BrotliSettings { quality: 5, lg_window_size: 21 }),
    {
        Self::new(5, 21)
    }

    /// Quality 11, window 2^24.
    pub fn max_quality() -> (r: Self)
        ensures
            r.spec_settings() == (BrotliSettings { quality: 11, lg_window_size: 24 }),
    {
        Self::new(11, 24)
    }

    /// The quality and window size in use.
    pub fn settings(&self) -> (s: BrotliSettings)
        ensures
            s == self.spec_settings(),
    {
        self.settings
    }

    /// The cache.
    pub fn cache(&self) -> (c: &C)
        ensures
            super::serves(&self.spec_settings(), c),
    {
        proof {
            use_type_invariant(self);
        }
        &self.cache
    }

    /// The compressed size of `buf`.
    pub fn get_compressed_size(&self, buf: &str) -> (n: usize)
        ensures
            n as nat == self.spec_settings().compressed_len(buf@),
    {
        self.settings.get_compressed_size(buf)
    }

    /// `C(ab)` through the cache; see [`super::get_combined_length`].
    pub fn get_combined_length(&self, page_a: &str, page_b: &str) -> (r: usize)
        ensures
            super::combined_result::<_, C>(self.spec_settings(), page_a@, page_b@, r),
    {
        proof {
            use_type_invariant(self);
        }
        super::get_combined_length(&self.settings, &self.cache, page_a, page_b)
    }

    /// The distance terms of `page_a` and `page_b`; see
    /// [`super::get_distance`].
    pub fn get_distance(&self, page_a: &str, page_b: &str) -> (t: NcdTerms)
        ensures
            super::distance_result::<_, C>(self.spec_settings(), page_a@, page_b@, t),
            t.numerator <= t.denominator,
    {
        proof {
            use_type_invariant(self);
        }
        super::get_distance(&self.settings, &self.cache, page_a, page_b)
    }
}

} // verus!
