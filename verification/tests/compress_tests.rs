use kolmox::brotli_default_filter_attributes;
use kolmox::compress::brotli::CompressBrotli;
use kolmox::compress::cache::{Cache, InMemoryCache, NoCache};
use kolmox::compress::zstd::CompressZstd;
use kolmox::compress::NcdTerms;

fn ratio(t: NcdTerms) -> f64 {
    t.numerator as f64 / t.denominator as f64
}

const PAGE_A: &str = r#"<html>
    <head>
        <title>This title</title>
    </head>
    <body>
        <p class="hello">Hello, world!</p>
    </body>
</html>"#;
const PAGE_B: &str = r#"<html>
    <head>
        <title>A Different Test</title>
    </head>
    <body>
        <p class="hello">Good bye, world!</p>
    </body>
</html>"#;

#[test]
fn lib_test_simple_pages() {
    let d = ratio(brotli_default_filter_attributes(PAGE_A, PAGE_B));
    assert!((d - 0.0).abs() <= 0.1, "{d}");
}

#[test]
fn mod_test_simple_pages() {
    let d = ratio(brotli_default_filter_attributes(PAGE_A, PAGE_B));
    assert!((d - 0.0).abs() <= 0.1, "{d}");
}

fn big_page() -> String {
    let mut s = String::from("<html><body>");
    for i in 0..4000 {
        s.push_str(&format!(
            "<div class=\"row{}\"><a href=\"/title/tt{}\">Item {}</a><span>{}</span></div>",
            i % 17,
            i * 7919 % 100003,
            i,
            i * i % 1009
        ));
    }
    s.push_str("</body></html>");
    s
}

#[test]
fn test_compress_brotli() {
    let compressor = CompressBrotli::<NoCache>::recommended();
    let page_html = big_page();
    let result = ratio(compressor.get_distance(&page_html, &page_html));
    assert!((result - 0.0).abs() <= 0.01, "{result}");
}

#[test]
fn test_compress_zstd() {
    let compressor = CompressZstd::<NoCache>::recommended();
    let page_html = big_page();
    let result = ratio(compressor.get_distance(&page_html, &page_html));
    assert!((result - 0.0).abs() <= 0.01, "{result}");
}

#[test]
fn distance_terms_are_symmetric() {
    let c = CompressBrotli::<NoCache>::recommended();
    let ab = c.get_distance("the quick brown fox", "jumps over the lazy dog");
    let ba = c.get_distance("jumps over the lazy dog", "the quick brown fox");
    assert_eq!(ab, ba);
}

#[test]
fn distance_terms_formula() {
    let c = CompressZstd::<NoCache>::new(3);
    let a = "aaaaaaaaaaaaaaaaaaaa bbbbbbbbbbbb";
    let b = "completely different text 12345";
    let ca = c.get_compressed_size(a);
    let cb = c.get_compressed_size(b);
    let cab = c.get_combined_length(a, b);
    let t = c.get_distance(a, b);
    let lo = ca.min(cb);
    assert_eq!(t.denominator, ca.max(cb));
    assert_eq!(t.numerator, if cab < lo { 0 } else { (cab - lo).min(ca.max(cb)) });
    assert!(t.numerator <= t.denominator);
    let ab = format!("{a}{b}");
    let ba = format!("{b}{a}");
    assert_eq!(cab, c.get_compressed_size(&ab).min(c.get_compressed_size(&ba)));
}

#[test]
fn compressed_size_depends_on_input() {
    let c = CompressBrotli::<NoCache>::new(11, 22);
    let short = c.get_compressed_size("x");
    let long = c.get_compressed_size(&"lorem ipsum dolor sit amet ".repeat(50).chars().rev().collect::<String>());
    assert!(short > 0);
    assert!(long > short);
}

#[test]
fn in_memory_cache_remembers_combined_lengths() {
    let c = CompressBrotli::<InMemoryCache>::recommended();
    let first = c.get_combined_length("abc def", "ghi jkl");
    let h_ab = c.cache().hash_string("abc defghi jkl");
    let h_ba = c.cache().hash_string("ghi jklabc def");
    assert_eq!(c.cache().get_length_by_hash(h_ab), Some(first));
    assert_eq!(c.cache().get_length_by_hash(h_ba), Some(first));
    assert_eq!(c.get_combined_length("ghi jkl", "abc def"), first);
}

#[test]
fn no_cache_keeps_nothing() {
    let c = CompressZstd::<NoCache>::max_quality();
    c.get_combined_length("abc", "def");
    let h = c.cache().hash_string("abcdef");
    assert_eq!(c.cache().get_length_by_hash(h), None);
}

#[test]
fn in_memory_cache_store_and_get() {
    let cache = InMemoryCache::new();
    assert_eq!(cache.get_length_by_hash(7), None);
    cache.store_length_by_hash(7, 42);
    assert_eq!(cache.get_length_by_hash(7), Some(42));
    cache.store_length_by_hash(7, 43);
    assert_eq!(cache.get_length_by_hash(7), Some(43));
    assert_eq!(cache.hash_string("x"), NoCache.hash_string("x"));
}

#[test]
fn settings_of_presets() {
    let b = CompressBrotli::<NoCache>::max_quality().settings();
    assert_eq!((b.quality, b.lg_window_size), (11, 24));
    let b = CompressBrotli::<NoCache>::recommended().settings();
    assert_eq!((b.quality, b.lg_window_size), (5, 21));
    assert_eq!(CompressZstd::<NoCache>::recommended().settings().quality, 18);
    assert_eq!(CompressZstd::<NoCache>::max_quality().settings().quality, 22);
}

#[test]
fn in_memory_cache_clones_share_one_map() {
    let cache = InMemoryCache::new();
    let other = cache.clone();
    other.store_length_by_hash(11, 5);
    assert_eq!(cache.get_length_by_hash(11), Some(5));
    cache.store_length_by_hash(12, 6);
    assert_eq!(other.get_length_by_hash(12), Some(6));
}
