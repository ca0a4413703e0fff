//! The compressor abstraction and the Normalized Compression Distance.
//!
//! For texts `x` and `y` and a compressor `C`,
//! `NCD(x, y) = (C(xy) - min(C(x), C(y))) / max(C(x), C(y))`, where `C(xy)`
//! is taken as the smaller compressed size of the two concatenations `xy`
//! and `yx`. The distance lies in `[0, 1]`: 0 for identical texts, 1 for
//! completely different ones, so the numerator is taken no lower than 0 and
//! no higher than the denominator. The library computes the numerator and
//! denominator exactly, as integers; the quotient is left to the caller.
pub mod brotli;
pub mod cache;
pub mod zstd;

use vstd::prelude::*;

use self::cache::Cache;

verus! {

/// The smaller of two naturals.
pub open spec fn min_nat(a: nat, b: nat) -> nat {
    if a <= b { a } else { b }
}

/// The larger of two naturals.
pub open spec fn max_nat(a: nat, b: nat) -> nat {
    if a <= b { b } else { a }
}

/// Something that compresses text and reports the compressed size.
pub trait Compressor {
    /// The compressed size of `text` under this compressor's settings.
    spec fn compressed_len(&self, text: Seq<char>) -> nat;

    /// Compresses `buf` and returns the number of compressed bytes.
    fn get_compressed_size(&self, buf: &str) -> (n: usize)
        ensures
            n as nat == self.compressed_len(buf@),
    ;
}

/// `C(xy)`: the smaller compressed size of the two concatenations.
pub open spec fn combined_len<K: Compressor>(k: &K, a: Seq<char>, b: Seq<char>) -> nat {
    min_nat(k.compressed_len(a + b), k.compressed_len(b + a))
}

/// `length` under `hash` is the combined length of a pair of texts whose
/// concatenation hashes to `hash` in a cache of type `C`.
pub open spec fn consistent_entry<K: Compressor, C: Cache>(k: &K, hash: u64, length: usize) -> bool {
    exists|x: Seq<char>, y: Seq<char>|
        C::hash_of(x + y) == hash && length as nat == combined_len(k, x, y)
}

/// A cache serves a compressor when a lookup finds only consistent entries
/// and, where the cache retains anything, it accepts every consistent entry.
pub open spec fn serves<K: Compressor, C: Cache>(k: &K, cache: &C) -> bool {
    &&& forall|h: u64, l: usize| #[trigger] cache.admits(h, l) ==> consistent_entry::<K, C>(k, h, l)
    &&& C::retains() ==> forall|h: u64, l: usize|
        #[trigger] consistent_entry::<K, C>(k, h, l) ==> cache.admits(h, l)
}

/// The numerator and denominator of a Normalized Compression Distance.
#[derive(Clone, Copy, Debug, PartialEq, Eq, Structural)]
pub struct NcdTerms {
    /// `C(xy) - min(C(x), C(y))`, taken as 0 where `C(xy)` is the smaller
    /// and as the denominator where it exceeds that.
    pub numerator: usize,
    /// `max(C(x), C(y))`.
    pub denominator: usize,
}

/// The distance terms for a combined size and the two single sizes.
pub open spec fn ncd_terms_of(combined: nat, size_a: nat, size_b: nat) -> (nat, nat) {
    let lo = min_nat(size_a, size_b);
    let hi = max_nat(size_a, size_b);
    (if combined < lo { 0 } else if combined - lo > hi { hi } else { (combined - lo) as nat }, hi)
}

/// The distance terms of `a` and `b` under `k` with no cache involved.
pub open spec fn ncd_terms_spec<K: Compressor>(k: &K, a: Seq<char>, b: Seq<char>) -> (nat, nat) {
    ncd_terms_of(combined_len(k, a, b), k.compressed_len(a), k.compressed_len(b))
}

/// What a lookup-or-compute of `C(ab)` can give: `C(ab)` itself or, from a
/// cache that retains lengths, the combined length of a pair of texts whose
/// concatenation hashes like `ab` or like `ba`.
pub open spec fn combined_result<K: Compressor, C: Cache>(
    k: K,
    a: Seq<char>,
    b: Seq<char>,
    r: usize,
) -> bool {
    ||| r as nat == combined_len(&k, a, b)
    ||| C::retains() && (consistent_entry::<K, C>(&k, C::hash_of(a + b), r) || consistent_entry::<
        K,
        C,
    >(&k, C::hash_of(b + a), r))
}

/// What a distance computation can give: the terms for a combined length
/// that [`combined_result`] allows and the sizes of `a` and `b`.
pub open spec fn distance_result<K: Compressor, C: Cache>(
    k: K,
    a: Seq<char>,
    b: Seq<char>,
    t: NcdTerms,
) -> bool {
    exists|combined: usize|
        #![trigger combined_result::<K, C>(k, a, b, combined)]
        combined_result::<K, C>(k, a, b, combined) && (t.numerator as nat, t.denominator as nat)
            == ncd_terms_of(combined as nat, k.compressed_len(a), k.compressed_len(b))
}

/// Concatenates two strings.
fn concat(a: &str, b: &str) -> (r: String)
    ensures
        r@ == a@ + b@,
{
    let mut r = String::from_str(a);
    r.append(b);
    r
}

/// `C(ab)`, looked up in `cache` under the hashes of both concatenations and,
/// on a miss, computed and stored under both.
pub fn get_combined_length<K: Compressor + Copy, C: Cache>(
    k: &K,
    cache: &C,
    page_a: &str,
    page_b: &str,
) -> (r: usize)
    requires
        serves(k, cache),
    ensures
        combined_result::<K, C>(*k, page_a@, page_b@, r),
{
    let page_ab = concat(page_a, page_b);
    let hash_ab = cache.hash_string(page_ab.as_str());
    let page_ba = concat(page_b, page_a);
    let hash_ba = cache.hash_string(page_ba.as_str());
    if let Some(cached) = cache.get_length_by_hash(hash_ab) {
        cached
    } else if let Some(cached) = cache.get_length_by_hash(hash_ba) {
        cached
    } else {
        let length_combined_a_b = k.get_compressed_size(page_ab.as_str());
        let length_combined_b_a = k.get_compressed_size(page_ba.as_str());
        let res = if length_combined_a_b <= length_combined_b_a {
            length_combined_a_b
        } else {
            length_combined_b_a
        };
        proof {
            let a = page_a@;
            let b = page_b@;
            assert(res as nat == combined_len(k, a, b));
            assert(combined_len(k, b, a) == combined_len(k, a, b));
            assert(C::hash_of(a + b) == hash_ab && res as nat == combined_len(k, a, b));
            assert(consistent_entry::<K, C>(k, hash_ab, res));
            assert(C::hash_of(b + a) == hash_ba && res as nat == combined_len(k, b, a));
            assert(consistent_entry::<K, C>(k, hash_ba, res));
        }
        cache.store_length_by_hash(hash_ab, res);
        cache.store_length_by_hash(hash_ba, res);
        res
    }
}

/// The Normalized Compression Distance of `page_a` and `page_b` as a
/// numerator and denominator, with `C(ab)` taken through `cache`.
pub fn get_distance<K: Compressor + Copy, C: Cache>(
    k: &K,
    cache: &C,
    page_a: &str,
    page_b: &str,
) -> (t: NcdTerms)
    requires
        serves(k, cache),
    ensures
        distance_result::<K, C>(*k, page_a@, page_b@, t),
        t.numerator <= t.denominator,
{
    let length_combined = get_combined_length(k, cache, page_a, page_b);
    let a_compressed = k.get_compressed_size(page_a);
    let b_compressed = k.get_compressed_size(page_b);
    let min = if a_compressed <= b_compressed { a_compressed } else { b_compressed };
    let max = if a_compressed <= b_compressed { b_compressed } else { a_compressed };
    if length_combined < min {
        return NcdTerms { numerator: 0, denominator: max };
    }
    let excess = length_combined - min;
    if excess > max {
        return NcdTerms { numerator: max, denominator: max };
    }
    NcdTerms { numerator: excess, denominator: max }
}

/// A cache is transparent: where every pair of texts whose concatenation
/// hashes like `ab` or like `ba` has the same combined length as `a` and `b`,
/// a lookup-or-compute of `C(ab)` gives exactly `C(ab)`.
pub proof fn lemma_cache_transparent<K: Compressor, C: Cache>(
    k: K,
    a: Seq<char>,
    b: Seq<char>,
    r: usize,
)
    requires
        forall|x: Seq<char>, y: Seq<char>|
            #![trigger combined_len(&k, x, y)]
            C::hash_of(x + y) == C::hash_of(a + b) || C::hash_of(x + y) == C::hash_of(b + a)
                ==> combined_len(&k, x, y) == combined_len(&k, a, b),
        combined_result::<K, C>(k, a, b, r),
    ensures
        r as nat == combined_len(&k, a, b),
{
    if r as nat != combined_len(&k, a, b) {
        if consistent_entry::<K, C>(&k, C::hash_of(a + b), r) {
            let (x, y) = choose|x: Seq<char>, y: Seq<char>|
                C::hash_of(x + y) == C::hash_of(a + b) && r as nat == combined_len(&k, x, y);
            assert(combined_len(&k, x, y) == combined_len(&k, a, b));
        } else {
            let (x, y) = choose|x: Seq<char>, y: Seq<char>|
                C::hash_of(x + y) == C::hash_of(b + a) && r as nat == combined_len(&k, x, y);
            assert(combined_len(&k, x, y) == combined_len(&k, a, b));
        }
    }
}

/// The distance lies in `[0, 1]`: the numerator never exceeds the
/// denominator.
pub proof fn lemma_ncd_in_range(combined: nat, size_a: nat, size_b: nat)
    ensures
        ncd_terms_of(combined, size_a, size_b).0 <= ncd_terms_of(combined, size_a, size_b).1,
{
}

/// The distance is symmetric: the terms for `a` and `b` are those for `b`
/// and `a`.
pub proof fn lemma_ncd_symmetric<K: Compressor>(k: K, a: Seq<char>, b: Seq<char>)
    ensures
        ncd_terms_spec(&k, a, b) == ncd_terms_spec(&k, b, a),
{
}

/// Without a cache that retains lengths, a distance computation gives
/// exactly the terms of [`ncd_terms_spec`].
pub proof fn lemma_uncached_distance<K: Compressor, C: Cache>(k: K, a: Seq<char>, b: Seq<char>, t: NcdTerms)
    requires
        !C::retains(),
        distance_result::<K, C>(k, a, b, t),
    ensures
        (t.numerator as nat, t.denominator as nat) == ncd_terms_spec(&k, a, b),
{
}

} // verus!
