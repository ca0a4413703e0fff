use kolmox::filter::content::common::{clean_text, get_content_with};
use kolmox::filter::content::{grok, wiki};
use kolmox::filter::extract_main::extract_main;
use kolmox::filter::filter_attributes::FilterHtmlAttributes;
use kolmox::filter::{FilterPipeline, HtmlFilter};

const PAGE: &str = r#"<html>
    <head>
        <title>Test</title>
    </head>
    <body>
        <p class="hello">Hello, world!</p>
    </body>
</html>"#;

#[test]
fn test_filter_pipeline() {
    let pipeline = FilterPipeline::new()
        .then(FilterHtmlAttributes::default())
        .then(FilterHtmlAttributes::default());

    let result = pipeline.apply(PAGE);

    assert_eq!(
        result,
        r#"<html><head><title /></head><body><p class="hello" /></body></html>"#
    );
}

#[test]
fn filter_attributes_keeps_id_and_class_only() {
    let page = r#"<html><body><div id="a" class="b" style="c"><span title="t"></span></div></body></html>"#;
    let out = FilterHtmlAttributes::default().process_document(page);
    assert_eq!(
        out,
        r#"<html><head /><body><div class="b" id="a"><span /></div></body></html>"#
    );
}

#[test]
fn filter_attributes_custom_list() {
    let page = r#"<html><body><a href="x" id="y">link</a></body></html>"#;
    let f = FilterHtmlAttributes::new(vec!["href".to_string()]);
    assert_eq!(
        f.process_document(page),
        r#"<html><head /><body><a href="x"></a></body></html>"#
    );
}

#[test]
fn empty_pipeline_gives_back_input() {
    let pipeline: FilterPipeline<FilterHtmlAttributes> = FilterPipeline::new();
    assert_eq!(pipeline.apply("<p>not even parsed</p>"), "<p>not even parsed</p>");
}

#[test]
fn pipeline_then_applies_after() {
    let one = FilterPipeline::new().then(FilterHtmlAttributes::default());
    let first = one.apply(PAGE);
    let two = FilterPipeline::new()
        .then(FilterHtmlAttributes::default())
        .then(FilterHtmlAttributes::default());
    assert_eq!(two.apply(PAGE), FilterHtmlAttributes::default().process_document(&first));
}

#[test]
fn extract_main_keeps_all_attributes() {
    let page = r#"<html><body><nav>x</nav><main id="m" data-x="1"><p class="c">text</p><br></main></body></html>"#;
    assert_eq!(
        extract_main(page.to_string()),
        r#"<main data-x="1" id="m"><p class="c"></p><br /></main>"#
    );
}

#[test]
fn extract_main_without_main_is_empty() {
    assert_eq!(extract_main("<html><body><p>hi</p></body></html>".to_string()), "");
}

#[test]
fn clean_text_removes_citations_and_spaces() {
    assert_eq!(clean_text("Hello [1] world\n  again ."), "Hello world again.");
}

#[test]
fn clean_text_punctuation() {
    assert_eq!(clean_text("a , b ; c : d ! e ? ( f )"), "a, b; c: d! e? (f)");
}

#[test]
fn clean_text_quotes() {
    assert_eq!(
        clean_text("He sang \" Somebody to Love \" again"),
        "He sang \"Somebody to Love\" again"
    );
}

#[test]
fn clean_text_contractions() {
    assert_eq!(clean_text("it 's fine and they 're here"), "it's fine and they're here");
}

#[test]
fn clean_text_unclosed_bracket_kept() {
    assert_eq!(clean_text("see [note here"), "see [note here");
}

#[test]
fn clean_text_empty() {
    assert_eq!(clean_text(""), "");
    assert_eq!(clean_text("   \n  "), "");
}

const ARTICLE: &str = r#"<html><body>
<div id="bodyContent">
<p>This paragraph has more than eight words in it [1] , honestly.</p>
<p>Too short.</p>
<table><tr><td><p>This table paragraph also has more than eight words in it.</p></td></tr></table>
<p>Another paragraph that is long enough to be kept by the extractor.</p>
</div>
</body></html>"#;

#[test]
fn wiki_content_keeps_long_paragraphs_outside_tables() {
    let got = wiki::get_content(ARTICLE).expect("expected content");
    assert_eq!(
        got,
        "This paragraph has more than eight words in it, honestly.\n\nAnother paragraph that is long enough to be kept by the extractor."
    );
    assert!(!got.contains('<'));
}

#[test]
fn wiki_content_none_when_only_short_paragraphs() {
    let page = "<html><body><p>Short one.</p></body></html>";
    assert_eq!(wiki::get_content(page), None);
}

#[test]
fn grok_content_uses_spans() {
    let page = r#"<html><body><article><span>One two three four five six seven eight nine.</span><p>Not a span but long enough to count as a paragraph here.</p></article></body></html>"#;
    assert_eq!(
        grok::get_content(page),
        Some("One two three four five six seven eight nine.".to_string())
    );
}

#[test]
fn content_with_invalid_candidate_selector_is_none() {
    assert_eq!(get_content_with(ARTICLE, &["body"], "p["), None);
}

#[test]
fn content_without_container_is_none() {
    assert_eq!(get_content_with(ARTICLE, &["section", "aside"], "p"), None);
}

#[test]
fn content_falls_back_to_later_container() {
    let got = get_content_with(ARTICLE, &["section", "div#bodyContent"], "p");
    assert!(got.is_some());
}

const GROK_PAGE: &str = r#"<html><body><article>
<h1>Jordan Smith (musician)</h1>
<span>Jordan Smith is an American singer who won the ninth season of The Voice , with a performance of "Great Is Thy Faithfulness" in the finale .</span>
<span>Short note.</span>
<span>His debut album followed soon after the show , and reached the top of the charts [3] in its first week .</span>
</article></body></html>"#;

const WIKI_PAGE: &str = r#"<html><body>
<div id="bodyContent">
<table class="infobox"><tr><td><p>Born in Harlan , Kentucky , in the year nineteen ninety three.</p></td></tr></table>
<p>Jordan Smith is an American singer who won season nine of The Voice [1] , singing " Great Is Thy Faithfulness " in the final round .</p>
<p>He also performed a cover of "Somebody to Love" by Queen , which topped the iTunes chart [2] .</p>
<p>Tiny.</p>
</div>
</body></html>"#;

#[test]
fn test_extract_content_from_grok_page() {
    let extracted = grok::get_content(GROK_PAGE).unwrap();
    assert!(!extracted.contains('<'));
    assert!(!extracted.trim().is_empty());
    println!("{extracted}");
}

#[test]
fn test_grok_punctuation_normalization() {
    let extracted = grok::get_content(GROK_PAGE).unwrap();
    assert!(!extracted.contains(" ,"));
    assert!(!extracted.contains(" ."));
    assert!(
        extracted.contains("\"Great Is Thy Faithfulness\"")
            || extracted.contains("\"Great Is Thy Faithfulness,\"")
    );
}

#[test]
fn test_extract_content_from_wiki_page() {
    let extracted = wiki::get_content(WIKI_PAGE).expect("expected content");
    assert!(!extracted.contains('<'));
    assert!(!extracted.trim().is_empty());
    println!("{extracted}");
}

#[test]
fn test_wiki_punctuation_normalization() {
    let extracted = wiki::get_content(WIKI_PAGE).expect("expected content");
    assert!(!extracted.contains(" ,"));
    assert!(!extracted.contains(" ."));
    assert!(extracted.contains("\"Great Is Thy Faithfulness\""));
    assert!(extracted.contains("\"Somebody to Love\""));
}

fn no_bracket_span(r: &str) -> bool {
    match r.find('[') {
        Some(i) => !r[i..].contains(']'),
        None => true,
    }
}

#[test]
fn clean_text_spacing_law_on_examples() {
    for raw in [
        "  a\t\tb \n c  ",
        "( x ) , y [1] z\u{2003}w",
        "\" quoted \" , 'single' ( open",
        "end with bracket [",
    ] {
        let r = clean_text(raw);
        assert_eq!(r, r.trim());
        assert!(!r.contains("  "));
        assert!(r.chars().all(|c| !c.is_whitespace() || c == ' '));
    }
}

#[test]
fn clean_text_bracket_law_on_examples() {
    for raw in ["a [1] b [2 c ] d", "[x] ] [", "keep [ open", "] then [ and ] again"] {
        assert!(no_bracket_span(&clean_text(raw)));
    }
}

#[test]
fn clean_text_punctuation_law_on_examples() {
    let r = clean_text("one , two . three : four ; five ! six ? ( seven )");
    for p in [" ,", " .", " :", " ;", " !", " ?", " )"] {
        assert!(!r.contains(p));
    }
    assert_eq!(r, "one, two. three: four; five! six? (seven)");
}

#[test]
fn clean_text_idempotent_on_examples() {
    for raw in [
        "one , two . three [4] ( five ) six",
        "  spaced\t\tout\n text  ",
        "a [b] c [ d",
        "( ( nested ) ) end .",
    ] {
        let once = clean_text(raw);
        assert_eq!(clean_text(&once), once);
    }
}
