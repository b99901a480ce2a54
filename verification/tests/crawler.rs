use prouste::article::Article;
use prouste::crawler::{
    add_spaces_between_tags, crawl, get_charset, get_charset_from_content_type, get_content_type,
    pre_process,
};
use prouste::dom::Document;

#[test]
fn crawler_test_add_spaces_between_tags() {
    let html = "<h1>Title</h1><blockquote>quote</blockquote><li>opts</li><img >";
    let result = "<h1>Title</h1> <blockquote>quote</blockquote>\n<li>opts</li>\n\n<img >";
    assert_eq!(add_spaces_between_tags(String::from(html)), result);
}

#[test]
fn lib_test_add_spaces_between_tags() {
    let html = "<h1>Title</h1><blockquote>quote</blockquote><li>opts</li><img >";
    let result = "<h1>Title</h1> <blockquote>quote</blockquote>\n<li>opts</li>\n\n<img >";
    assert_eq!(add_spaces_between_tags(String::from(html)), result);
}

#[test]
fn test_get_content_type_simple() {
    let document = Document::from_html("<html><head><meta http-equiv=\"Content-Type\" content=\"text/html; charset=utf-8\" /></head></html>").unwrap();
    assert_eq!(get_content_type(&document), "text/html; charset=utf-8");
}

#[test]
fn test_get_content_type_no_content_type() {
    let document = Document::from_html("<html><head></head></html>").unwrap();
    assert_eq!(get_content_type(&document), "");
}

#[test]
fn test_get_charset_from_content_type() {
    assert_eq!(get_charset_from_content_type(String::from("text/html; charset=utf-8")), "UTF-8");
}

#[test]
fn test_get_charset() {
    assert_eq!(get_charset(&Document::from_html("<html><head><meta charset=\"UTF8\"></head></html>").unwrap()), "UTF-8");
    assert_eq!(get_charset(&Document::from_html("<html><head><meta test=\"\"><meta charset=\"dummy\"></head></html>").unwrap()), "DUMMY");
}

#[test]
fn spacing_puts_each_insertion_in_its_place() {
    assert_eq!(add_spaces_between_tags(String::new()), "");
    assert_eq!(add_spaces_between_tags(String::from("no tags")), "no tags");
    assert_eq!(add_spaces_between_tags(String::from("<p>a</p><p>b</p>")), "<p>a</p>\n<p>b</p>\n");
    assert_eq!(add_spaces_between_tags(String::from("a<img src=x>")), "a\n<img src=x>");
    assert_eq!(add_spaces_between_tags(String::from("<img/>")), "<img/>");
    assert_eq!(add_spaces_between_tags(String::from("<b><i></i></b>")), "<b> <i> </i> </b>");
    assert_eq!(add_spaces_between_tags(String::from("><><")), "> <> <");
    assert_eq!(add_spaces_between_tags(String::from("</li></ul>")), "</li>\n</ul>");
    assert_eq!(add_spaces_between_tags(String::from("</P>")), "</P>");
}

#[test]
fn spacing_twice_is_spacing_once_where_no_line_feed_is_due() {
    for html in ["", "text", "<b><i>x</i></b>", "<div><span>a</span><span>b</span></div>", "><><", "> <"] {
        let once = add_spaces_between_tags(String::from(html));
        assert_eq!(add_spaces_between_tags(once.clone()), once);
    }
    let once = add_spaces_between_tags(String::from("<p>a</p>"));
    assert_eq!(once, "<p>a</p>\n");
    assert_eq!(add_spaces_between_tags(once), "<p>a</p>\n\n");
}

#[test]
fn the_last_content_type_with_a_content_wins() {
    let document = Document::from_html("<html><head><meta http-equiv=\"Content-Type\" content=\"first\"><meta http-equiv=\"Content-Type\" content=\"second\"><meta http-equiv=\"Content-Type\"><meta http-equiv=\"content-type\" content=\"other\"></head></html>").unwrap();
    assert_eq!(get_content_type(&document), "second");
}

#[test]
fn charset_from_content_type_takes_what_follows() {
    assert_eq!(get_charset_from_content_type(String::from("text/html; CHARSET=Latin2")), "LATIN-2");
    assert_eq!(get_charset_from_content_type(String::from("charset=")), "");
    assert_eq!(get_charset_from_content_type(String::from("Text/HTML")), "text/html");
    assert_eq!(get_charset_from_content_type(String::new()), "");
    assert_eq!(
        get_charset_from_content_type(String::from("a; charset=x; charset=y")),
        "X; CHARSET=Y"
    );
}

#[test]
fn charset_prefers_the_content_type() {
    let document = Document::from_html("<html><head><meta charset=\"koi8-r\"><meta http-equiv=\"Content-Type\" content=\"text/html; charset=windows-1251\"></head></html>").unwrap();
    assert_eq!(get_charset(&document), "CP1251");
    let document = Document::from_html("<html><head><meta charset=\"koi8-r\"><meta http-equiv=\"Content-Type\" content=\"text/html\"></head></html>").unwrap();
    assert_eq!(get_charset(&document), "KOI8-R");
    let document = Document::from_html("<html><head><title>x</title></head></html>").unwrap();
    assert_eq!(get_charset(&document), "");
}

#[test]
fn pre_process_rejects_empty_html_and_spaces_the_rest() {
    assert!(pre_process(String::new()).is_none());
    let document = pre_process(String::from("<html><body><p>a</p><p>b</p></body></html>")).unwrap();
    // What is parsed is "<html> <body> <p>a</p>\n<p>b</p>\n</body> </html>".
    assert_eq!(document.text(0), " a\nb\n ");
    let plain = Document::from_html("<html><body><p>a</p><p>b</p></body></html>").unwrap();
    assert_eq!(plain.text(0), "ab");
}

#[test]
fn crawl_extracts_without_links_and_embeddings() {
    let page = "<html lang=\"en-GB\"><head><title>The title</title><meta name=\"keywords\" content=\"k1, k2\"><link rel=\"canonical\" href=\"http://example.com/page\"><link rel=\"shortcut icon\" href=\"/favicon.ico\"><meta property=\"og:image\" content=\"http://example.com/img.png\"></head><body><div><p>This is the first paragraph and it is about the weather in the city.</p><p>He said that it was not the best of the days for them, as <a href=\"http://example.com/more\">announced</a>.</p></div><blockquote class=\"twitter-tweet\"><p>Hello   tweet</p></blockquote></body></html>";
    let (article, error) = crawl(String::from(page));
    assert_eq!(error, "");
    assert_eq!(article.title, "The title");
    assert_eq!(article.language, "en");
    assert_eq!(article.favico, "/favicon.ico");
    assert_eq!(article.canonical_link, "http://example.com/page");
    assert_eq!(article.meta_keywords, "k1, k2");
    assert_eq!(article.top_image, "http://example.com/img.png");
    assert_eq!(article.text, "This is the first paragraph and it is about the weather in the city.He said that it was not the best of the days for them, as announced.");
    assert!(article.links.is_empty());
    assert!(article.embeddings.tweets.is_empty());
}

#[test]
fn crawl_reports_empty_html() {
    let (article, error) = crawl(String::new());
    assert_eq!(error, "Impossible to pre-process html");
    assert_eq!(article, Article::new());
}
