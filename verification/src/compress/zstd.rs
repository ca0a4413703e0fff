//! Compression with Zstandard.
use std::io::Write;

use vstd::prelude::*;

use super::cache::{Cache, NoCache};
use super::{Compressor, NcdTerms};

verus! {

/// The length of the frame that `zstd::stream::Encoder`, created at the
/// given level, writes for the UTF-8 bytes of `text` before `finish`.
pub uninterp spec fn zstd_stream_len(text: Seq<char>, level: u32) -> nat;

/// Compresses `buf` through `zstd::stream::Encoder::new`, `write_all` and
/// `finish` into memory and returns the number of bytes written. Claims only
/// that this number is the named frame length for the text and the level.
/// Levels above 22 are not passed.
#[verifier::external_body]
fn zstd_compressed_len(buf: &str, level: u32) -> (n: usize)
    requires
        level <= 22,
    ensures
        n as nat == zstd_stream_len(buf@, level),
{
    let mut out: Vec<u8> = Vec::new();
    {
        let mut encoder = zstd::stream::Encoder::new(&mut out, level as i32).unwrap();
        encoder.write_all(buf.as_bytes()).unwrap();
        encoder.finish().unwrap();
    }
    out.len()
}

/// A Zstandard compression level; a level above 22, the highest that zstd
/// accepts, is taken as 22.
#[derive(Clone, Copy, Debug, PartialEq, Eq, Structural)]
pub struct ZstdSettings {
    /// Compression level.
    pub quality: u32,
}

impl Compressor for ZstdSettings {
    open spec fn compressed_len(&self, text: Seq<char>) -> nat {
        zstd_stream_len(text, if self.quality <= 22 { self.quality } else { 22 })
    }

    fn get_compressed_size(&self, buf: &str) -> (n: usize) {
        let level = if self.quality <= 22 { self.quality } else { 22 };
        zstd_compressed_len(buf, level)
    }
}

/// A Zstandard compressor with a cache of combined lengths.
pub struct CompressZstd<C: Cache = NoCache> {
    settings: ZstdSettings,
    cache: C,
}

impl<C: Cache> CompressZstd<C> {
    /// The cache serves this compressor's settings.
    #[verifier::type_invariant]
    spec fn cache_serves(&self) -> bool {
        super::serves(&self.settings, &self.cache)
    }

    /// The level in use.
    pub closed spec fn spec_settings(&self) -> ZstdSettings {
        self.settings
    }

    /// A compressor at level `quality` with an empty cache.
    pub fn new(quality: u32) -> (r: Self)
        requires
            quality <= 22,
        ensures
            r.spec_settings() == (ZstdSettings { quality }),
    {
        let settings = ZstdSettings { quality };
        let ghost s = settings;
        let cache = C::empty_cache(Ghost(|h: u64, l: usize| super::consistent_entry::<_, C>(&s, h, l)));
        CompressZstd { settings, cache }
    }

    /// Level 18.
    pub fn recommended() -> (r: Self)
        ensures
            r.spec_settings() == (ZstdSettings { quality: 18 }),
    {
        Self::new(18)
    }

    /// Level 22.
    pub fn max_quality() -> (r: Self)
        ensures
            r.spec_settings() == (ZstdSettings { quality: 22 }),
    {
        Self::new(22)
    }

    /// The level in use.
    pub fn settings(&self) -> (s: ZstdSettings)
        ensures
            s == self.spec_settings(),
    {
        self.settings
    }

    /// The cache.
    pub fn cache(&self) -> (c: &C)
        ensures
            super::serves(&self.spec_settings(), c),
    {
        proof {
            use_type_invariant(self);
        }
        &self.cache
    }

    /// The compressed size of `buf`.
    pub fn get_compressed_size(&self, buf: &str) -> (n: usize)
        ensures
            n as nat == self.spec_settings().compressed_len(buf@),
    {
        self.settings.get_compressed_size(buf)
    }

    /// `C(ab)` through the cache; see [`super::get_combined_length`].
    pub fn get_combined_length(&self, page_a: &str, page_b: &str) -> (r: usize)
        ensures
            super::combined_result::<_, C>(self.spec_settings(), page_a@, page_b@, r),
    {
        proof {
            use_type_invariant(self);
        }
        super::get_combined_length(&self.settings, &self.cache, page_a, page_b)
    }

    /// The distance terms of `page_a` and `page_b`; see
    /// [`super::get_distance`].
    pub fn get_distance(&self, page_a: &str, page_b: &str) -> (t: NcdTerms)
        ensures
            super::distance_result::<_, C>(self.spec_settings(), page_a@, page_b@, t),
            t.numerator <= t.denominator,
    {
        proof {
            use_type_invariant(self);
        }
        super::get_distance(&self.settings, &self.cache, page_a, page_b)
    }
}

} // verus!
