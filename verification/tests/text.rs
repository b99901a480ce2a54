use prouste::dom::Document;
use prouste::text::{
    get_text_from_single_extractor, most_frequent, DualTagBasedExtractor,
    LinkRelContainsHrefBasedExtractor, LinkRelEqualsHrefBasedExtractor,
    MetaContentBasedExtractor, Or, TagAttributeBasedExtractor, TagBasedExtractor, TextExtractor,
    TitleTagExtractor, TopImageExtractor,
};

fn parse(html: &str) -> Document {
    Document::from_html(html).unwrap()
}

fn strings(list: &[&str]) -> Vec<String> {
    list.iter().map(|s| s.to_string()).collect()
}

#[test]
fn text_extract_with_tag_absent() {
    let document = parse("<html></html>");
    let extractor = TagBasedExtractor { tag: "title" };
    let opt = extractor.extract(&document);
    assert!(opt.is_none());
}

#[test]
fn title_extract_with_tag_absent() {
    let document = parse("<html></html>");
    let extractor = TitleTagExtractor;
    let extraction = extractor.extract(&document);
    assert!(!extraction.successful);
}

#[test]
fn extract_with_multitags_abcnews() {
    let document =
        parse("<html><b>B first value</b><a>A first value</a><b>B second value</b></html>");
    let extractor = DualTagBasedExtractor { tag1: "a", tag2: "b" };
    let opt = extractor.extract(&document);
    assert!(opt.is_some());
    assert_eq!(opt.unwrap(), "B first value");
}

#[test]
fn title_tag_extractor_takes_the_first_title() {
    let document = parse("<html><head><title>First</title><title>Second</title></head></html>");
    let extraction = TitleTagExtractor.extract(&document);
    assert!(extraction.successful);
    assert_eq!(extraction.text, "First");
    let empty = TitleTagExtractor.extract(&parse("<html><head><title></title></head></html>"));
    assert!(!empty.successful);
    assert_eq!(empty.text, "");
}

#[test]
fn tag_based_takes_the_whole_subtree_text() {
    let document = parse("<html><body><h1>Big <i>news</i> today</h1><h1>Other</h1></body></html>");
    let extractor = TagBasedExtractor { tag: "h1" };
    assert_eq!(extractor.extract(&document), Some(String::from("Big news today")));
}

#[test]
fn meta_content_takes_the_first_matching_meta() {
    let document = parse("<html><head><meta property=\"og:title\" content=\"One\"><meta property=\"og:title\" content=\"Two\"><meta name=\"og:title\" content=\"Three\"></head></html>");
    let extractor = MetaContentBasedExtractor { attr: "property", value: "og:title" };
    assert_eq!(extractor.extract(&document), Some(String::from("One")));
    let by_name = MetaContentBasedExtractor { attr: "name", value: "og:title" };
    assert_eq!(by_name.extract(&document), Some(String::from("Three")));
    let absent = MetaContentBasedExtractor { attr: "name", value: "keywords" };
    assert_eq!(absent.extract(&document), None);
}

#[test]
fn a_first_match_without_the_attribute_yields_nothing() {
    let document = parse("<html><head><meta name=\"keywords\"><meta name=\"keywords\" content=\"late\"></head></html>");
    let extractor = MetaContentBasedExtractor { attr: "name", value: "keywords" };
    assert_eq!(extractor.extract(&document), None);
    assert_eq!(get_text_from_single_extractor(&document, extractor), "");
}

#[test]
fn tag_attribute_takes_the_attribute_of_the_first_tag() {
    let document = parse("<html lang=\"fr-CA\"><body lang=\"en\"></body></html>");
    let extractor = TagAttributeBasedExtractor { tag: "html", attr: "lang" };
    assert_eq!(extractor.extract(&document), Some(String::from("fr-CA")));
    let body = TagAttributeBasedExtractor { tag: "body", attr: "lang" };
    assert_eq!(body.extract(&document), Some(String::from("en")));
    let none = TagAttributeBasedExtractor { tag: "html", attr: "dir" };
    assert_eq!(none.extract(&document), None);
}

#[test]
fn link_rel_extractors_take_the_href() {
    let document = parse("<html><head><link rel=\"canonical\" href=\"http://example.com/a\"><link rel=\"shortcut icon\" href=\"/favicon.ico\"><link rel=\"iconic\" href=\"/no.ico\"></head></html>");
    let canonical = LinkRelEqualsHrefBasedExtractor { attr: "rel", value: "canonical" };
    assert_eq!(canonical.extract(&document), Some(String::from("http://example.com/a")));
    let icon = LinkRelContainsHrefBasedExtractor { attr: "rel", value: " icon" };
    assert_eq!(icon.extract(&document), Some(String::from("/favicon.ico")));
    let none = LinkRelEqualsHrefBasedExtractor { attr: "rel", value: "icon" };
    assert_eq!(none.extract(&document), None);
}

#[test]
fn or_takes_the_first_that_yields() {
    let document = parse("<html><head><meta property=\"og:title\" content=\"From meta\"></head><body><headline>From tag</headline></body></html>");
    let chain = Or(
        Or(
            TagBasedExtractor { tag: "title" },
            MetaContentBasedExtractor { attr: "property", value: "og:title" },
        ),
        DualTagBasedExtractor { tag1: "post-title", tag2: "headline" },
    );
    assert_eq!(chain.extract(&document), Some(String::from("From meta")));
    let late = Or(
        TagBasedExtractor { tag: "title" },
        DualTagBasedExtractor { tag1: "post-title", tag2: "headline" },
    );
    assert_eq!(late.extract(&document), Some(String::from("From tag")));
    let none = Or(TagBasedExtractor { tag: "title" }, TagBasedExtractor { tag: "h1" });
    assert_eq!(none.extract(&document), None);
    assert_eq!(get_text_from_single_extractor(&document, none), "");
}

#[test]
fn or_keeps_an_empty_result_of_the_first() {
    let document = parse("<html><head><title></title><meta property=\"og:title\" content=\"From meta\"></head></html>");
    let chain = Or(
        TagBasedExtractor { tag: "title" },
        MetaContentBasedExtractor { attr: "property", value: "og:title" },
    );
    assert_eq!(chain.extract(&document), Some(String::new()));
}

#[test]
fn most_frequent_takes_the_most_frequent_url() {
    assert_eq!(most_frequent(&strings(&[])), None);
    assert_eq!(most_frequent(&strings(&["a"])), Some(0));
    assert_eq!(most_frequent(&strings(&["a", "b", "b"])), Some(1));
    assert_eq!(most_frequent(&strings(&["a", "b", "c", "c", "b", "c"])), Some(2));
}

#[test]
fn most_frequent_takes_the_first_of_equally_frequent_urls() {
    assert_eq!(most_frequent(&strings(&["a", "b"])), Some(0));
    assert_eq!(most_frequent(&strings(&["b", "a"])), Some(0));
    assert_eq!(most_frequent(&strings(&["z", "a", "a", "z"])), Some(0));
    assert_eq!(most_frequent(&strings(&["x", "b", "a", "a", "b"])), Some(1));
}

#[test]
fn top_image_counts_each_url() {
    let document = parse("<html><head><meta property=\"og:image\" content=\"http://img/one.jpg\"><meta name=\"twitter:image\" content=\"http://img/two.jpg\"><link rel=\"image_src\" href=\"http://img/two.jpg\"></head></html>");
    assert_eq!(TopImageExtractor.extract(&document), Some(String::from("http://img/two.jpg")));
}

#[test]
fn top_image_takes_the_first_url_of_a_tie() {
    let document = parse("<html><head><meta property=\"og:image\" content=\"http://img/z.jpg\"><meta name=\"twitter:image\" content=\"http://img/a.jpg\"></head></html>");
    assert_eq!(TopImageExtractor.extract(&document), Some(String::from("http://img/z.jpg")));
    let document = parse("<html><head><meta property=\"og:image\" content=\"http://img/a.jpg\"><meta name=\"twitter:image\" content=\"http://img/z.jpg\"></head></html>");
    assert_eq!(TopImageExtractor.extract(&document), Some(String::from("http://img/a.jpg")));
}

#[test]
fn top_image_counts_a_missing_url_as_the_empty_string() {
    let document = parse("<html><head><meta property=\"og:image\"><link rel=\"image_src\"><meta name=\"twitter:image\" content=\"http://img/a.jpg\"></head></html>");
    assert_eq!(TopImageExtractor.extract(&document), Some(String::new()));
}

#[test]
fn top_image_of_a_page_without_image_tags() {
    let document = parse("<html><head><meta name=\"keywords\" content=\"a\"></head></html>");
    assert_eq!(TopImageExtractor.extract(&document), None);
    assert_eq!(get_text_from_single_extractor(&document, TopImageExtractor), "");
}
