use encoding::Encoding;
use prouste::article::Article;
use prouste::configuration::Configuration;
use prouste::dom::Document;
use prouste::embedding::Embedding;
use prouste::extraction::{
    get_canonical_link, get_favico, get_language, get_meta_keywords, get_raw_title,
    get_text_and_links, get_title, get_top_image,
};
use prouste::html::{can_detect, HtmlExtractor};

const PAGE: &str = "<html lang=\"en-GB\"><head><title>The title</title><meta name=\"keywords\" content=\"k1, k2\"><link rel=\"canonical\" href=\"http://example.com/page\"><link rel=\"shortcut icon\" href=\"/favicon.ico\"><meta property=\"og:image\" content=\"http://example.com/img.png\"></head><body><div><p>This is the first paragraph and it is about the weather in the city.</p><p>He said that it was not the best of the days for them, as <a href=\"http://example.com/more\">announced</a>.</p></div><blockquote class=\"twitter-tweet\"><p>Hello   tweet</p><a href=\"https://twitter.com/x/status/1\">date</a></blockquote><blockquote class=\"instagram-media\"><p><a href=\"https://www.instagram.com/p/ONE/\">A post</a></p></blockquote></body></html>";

const BODY: &str = "This is the first paragraph and it is about the weather in the city.He said that it was not the best of the days for them, as announced.";

fn extractor(text: bool, embeddings: bool, meta: bool) -> HtmlExtractor {
    HtmlExtractor {
        configuration: Configuration {
            enable_text_extraction: text,
            enable_embeddings_extraction: embeddings,
            enable_meta_extraction: meta,
        },
    }
}

#[test]
fn default_configuration_has_every_switch_on() {
    let configuration = Configuration::default();
    assert!(configuration.enable_text_extraction);
    assert!(configuration.enable_embeddings_extraction);
    assert!(configuration.enable_meta_extraction);
    let extractor = HtmlExtractor::default();
    assert!(extractor.configuration.enable_text_extraction);
    assert!(extractor.configuration.enable_embeddings_extraction);
    assert!(extractor.configuration.enable_meta_extraction);
}

#[test]
fn a_new_article_is_empty() {
    let article = Article::new();
    assert_eq!(article.title, "");
    assert_eq!(article.text, "");
    assert_eq!(article.language, "");
    assert_eq!(article.favico, "");
    assert_eq!(article.canonical_link, "");
    assert_eq!(article.meta_keywords, "");
    assert_eq!(article.top_image, "");
    assert!(article.links.is_empty());
    assert!(article.embeddings.tweets.is_empty());
    assert!(article.embeddings.instagram_posts.is_empty());
    assert_eq!(article, Article::default());
}

#[test]
fn from_string_rejects_empty_html() {
    assert!(HtmlExtractor::default().from_string(String::new()).is_none());
    assert!(HtmlExtractor::default().from_bytes(Vec::new()).is_none());
}

#[test]
fn from_string_extracts_every_field() {
    let article = HtmlExtractor::default().from_string(String::from(PAGE)).unwrap();
    assert_eq!(article.title, "The title");
    assert_eq!(article.language, "en");
    assert_eq!(article.favico, "/favicon.ico");
    assert_eq!(article.canonical_link, "http://example.com/page");
    assert_eq!(article.meta_keywords, "k1, k2");
    assert_eq!(article.top_image, "http://example.com/img.png");
    assert_eq!(article.text, BODY);
    assert_eq!(article.links, vec!["http://example.com/more"]);
    assert_eq!(
        article.embeddings.tweets,
        vec![Embedding {
            url: String::from("https://twitter.com/x/status/1"),
            text: String::from("Hello tweet"),
        }]
    );
    assert_eq!(
        article.embeddings.instagram_posts,
        vec![Embedding {
            url: String::from("https://www.instagram.com/p/ONE/"),
            text: String::from("A post"),
        }]
    );
}

#[test]
fn a_page_without_signals_yields_an_empty_article() {
    let article = HtmlExtractor::default().from_string(String::from("<div>hello</div>")).unwrap();
    assert_eq!(article, Article::new());
    let article = HtmlExtractor::default().from_string(String::from("just text")).unwrap();
    assert_eq!(article, Article::new());
}

#[test]
fn a_page_in_an_unknown_language_keeps_its_metadata() {
    let page = PAGE.replace("en-GB", "vi");
    let article = HtmlExtractor::default().from_string(page).unwrap();
    assert_eq!(article.language, "vi");
    assert_eq!(article.title, "The title");
    assert_eq!(article.favico, "/favicon.ico");
    assert_eq!(article.text, "");
    assert!(article.links.is_empty());
    assert_eq!(article.embeddings.tweets.len(), 1);
}

#[test]
fn text_extraction_off_leaves_title_text_and_links_empty() {
    let article = extractor(false, true, true).from_string(String::from(PAGE)).unwrap();
    assert_eq!(article.title, "");
    assert_eq!(article.text, "");
    assert!(article.links.is_empty());
    assert_eq!(article.language, "en");
    assert_eq!(article.favico, "/favicon.ico");
    assert_eq!(article.embeddings.tweets.len(), 1);
}

#[test]
fn meta_extraction_off_leaves_the_metadata_empty() {
    let article = extractor(true, true, false).from_string(String::from(PAGE)).unwrap();
    assert_eq!(article.favico, "");
    assert_eq!(article.canonical_link, "");
    assert_eq!(article.meta_keywords, "");
    assert_eq!(article.top_image, "");
    assert_eq!(article.language, "en");
    assert_eq!(article.title, "The title");
    assert_eq!(article.text, BODY);
    assert_eq!(article.embeddings.instagram_posts.len(), 1);
}

#[test]
fn embeddings_extraction_off_leaves_the_embeddings_empty() {
    let article = extractor(true, false, true).from_string(String::from(PAGE)).unwrap();
    assert!(article.embeddings.tweets.is_empty());
    assert!(article.embeddings.instagram_posts.is_empty());
    assert_eq!(article.title, "The title");
    assert_eq!(article.top_image, "http://example.com/img.png");
}

#[test]
fn every_switch_off_leaves_the_language() {
    let article = extractor(false, false, false).from_string(String::from(PAGE)).unwrap();
    let mut expected = Article::new();
    expected.language = String::from("en");
    assert_eq!(article, expected);
}

#[test]
fn process_works_on_a_given_document() {
    let document = Document::from_html(PAGE).unwrap();
    let article = HtmlExtractor::default().process(&document);
    assert_eq!(article.title, "The title");
    assert_eq!(article.text, BODY);
    assert_eq!(article.links, vec!["http://example.com/more"]);
}

#[test]
fn from_bytes_reads_utf8() {
    let article = HtmlExtractor::default().from_bytes(PAGE.as_bytes().to_vec()).unwrap();
    assert_eq!(article, HtmlExtractor::default().from_string(String::from(PAGE)).unwrap());
    let page = PAGE.replace("The title", "Kh\u{e1}nh Ly \u{111}\u{1ebf}n vi\u{1ebf}ng m\u{1ed9}");
    let article = HtmlExtractor::default().from_bytes(page.as_bytes().to_vec()).unwrap();
    assert_eq!(article.title, "Kh\u{e1}nh Ly \u{111}\u{1ebf}n vi\u{1ebf}ng m\u{1ed9}");
}

#[test]
fn from_bytes_detects_and_decodes_koi8_r() {
    let sentence = "\u{41c}\u{43e}\u{441}\u{43a}\u{432}\u{430} \u{438} \u{435}\u{433}\u{43e} \u{436}\u{438}\u{442}\u{435}\u{43b}\u{438} \u{43d}\u{435} \u{437}\u{43d}\u{430}\u{43b}\u{438} \u{447}\u{442}\u{43e} \u{43e}\u{43d} \u{431}\u{44b}\u{43b} \u{432} \u{433}\u{43e}\u{440}\u{43e}\u{434}\u{435} \u{438} \u{43d}\u{430} \u{43f}\u{43b}\u{43e}\u{449}\u{430}\u{434}\u{438} \u{441} \u{43d}\u{438}\u{43c}\u{438} \u{432}\u{441}\u{435} \u{44d}\u{442}\u{43e} \u{432}\u{440}\u{435}\u{43c}\u{44f}. ";
    let mut page = String::from("<html lang=\"ru\"><head><title>\u{41d}\u{43e}\u{432}\u{43e}\u{441}\u{442}\u{438}</title></head><body><div>");
    for _ in 0..6 {
        page.push_str("<p>");
        page.push_str(sentence);
        page.push_str(sentence);
        page.push_str("</p>");
    }
    page.push_str("</div></body></html>");
    let bytes = encoding::all::KOI8_R.encode(&page, encoding::EncoderTrap::Strict).unwrap();
    assert!(String::from_utf8(bytes.clone()).is_err());
    let article = HtmlExtractor::default().from_bytes(bytes).unwrap();
    assert_eq!(article.language, "ru");
    assert_eq!(article.title, "\u{41d}\u{43e}\u{432}\u{43e}\u{441}\u{442}\u{438}");
    assert!(!article.text.is_empty());
    assert!(article.text.contains("\u{41c}\u{43e}\u{441}\u{43a}\u{432}\u{430}"));
    assert!(article.text.chars().any(|c| ('\u{400}'..='\u{4ff}').contains(&c)));
}

#[test]
fn language_is_cut_at_the_first_hyphen() {
    let language = |tag: &str| {
        let html = format!("<html lang=\"{}\"><body></body></html>", tag);
        get_language(&Document::from_html(&html).unwrap())
    };
    assert_eq!(language("en-US"), "en");
    assert_eq!(language("zh-Hant-TW"), "zh");
    assert_eq!(language("ja"), "ja");
    assert_eq!(language("-x"), "");
    assert_eq!(language(""), "");
    for tag in ["en-US", "zh-Hant-TW", "ja", "-x", "a--b", "fr-"] {
        assert!(!language(tag).contains('-'));
    }
}

#[test]
fn language_falls_back_to_the_meta_tag() {
    let document = Document::from_html("<html><head><meta http-equiv=\"content-language\" content=\"pt-BR\"></head></html>").unwrap();
    assert_eq!(get_language(&document), "pt");
    let document = Document::from_html("<html lang=\"de\"><head><meta http-equiv=\"content-language\" content=\"pt-BR\"></head></html>").unwrap();
    assert_eq!(get_language(&document), "de");
    let document = Document::from_html("<html><head></head></html>").unwrap();
    assert_eq!(get_language(&document), "");
}

#[test]
fn fields_of_a_document() {
    let document = Document::from_html(PAGE).unwrap();
    assert_eq!(get_title(&document), "The title");
    assert_eq!(get_raw_title(&document), "The title");
    assert_eq!(get_favico(&document), "/favicon.ico");
    assert_eq!(get_canonical_link(&document), "http://example.com/page");
    assert_eq!(get_meta_keywords(&document), "k1, k2");
    assert_eq!(get_top_image(&document), "http://example.com/img.png");
    let (text, links) = get_text_and_links(&document, "en");
    assert_eq!(text, BODY);
    assert_eq!(links, vec!["http://example.com/more"]);
    let (text, links) = get_text_and_links(&document, "fr");
    assert_eq!(text, "");
    assert!(links.is_empty());
}

#[test]
fn title_falls_back_to_meta_and_headline() {
    let document = Document::from_html("<html><head><meta property=\"og:title\" content=\"Meta title\"></head><body><headline>Headline</headline></body></html>").unwrap();
    assert_eq!(get_title(&document), "Meta title");
    let document = Document::from_html("<html><body><post-title>Post</post-title><headline>Headline</headline></body></html>").unwrap();
    assert_eq!(get_title(&document), "Post");
    let document = Document::from_html("<html><body></body></html>").unwrap();
    assert_eq!(get_title(&document), "");
}

#[test]
fn from_bytes_yields_nothing_where_detection_cannot_run() {
    // Not UTF-8, with an escape character and no byte above 0x7f but 0xa0.
    let bytes = vec![0x1b, b'<', b'p', b'>', 0xa0];
    assert!(HtmlExtractor::default().from_bytes(bytes).is_none());
}

#[test]
fn from_bytes_yields_nothing_where_no_character_set_is_found() {
    // Detection finds no character set for these bytes.
    assert!(HtmlExtractor::default().from_bytes(vec![0x1b, 0xe9, 0x41]).is_none());
}

#[test]
fn from_bytes_decodes_latin_1() {
    let mut bytes = b"<html lang=\"fr\"><head><title>Caf".to_vec();
    bytes.push(0xe9);
    bytes.extend_from_slice(b"</title></head><body><p>La libert");
    bytes.push(0xe9);
    bytes.extend_from_slice(b" et le caf");
    bytes.push(0xe9);
    bytes.extend_from_slice(b" de la cit");
    bytes.push(0xe9);
    bytes.extend_from_slice(b".</p></body></html>");
    let article = HtmlExtractor::default().from_bytes(bytes).unwrap();
    assert_eq!(article.language, "fr");
    assert_eq!(article.title, "Caf\u{e9}");
}

#[test]
fn can_detect_needs_a_high_byte_or_no_escape() {
    assert!(can_detect(&vec![]));
    assert!(can_detect(&vec![b'a', 0xa0]));
    assert!(can_detect(&vec![0x1b, 0x80]));
    assert!(can_detect(&vec![0xff, 0x1b]));
    assert!(!can_detect(&vec![0x1b]));
    assert!(!can_detect(&vec![b'a', 0x1b, 0xa0, 0x7f]));
}

#[test]
fn every_text_but_the_empty_one_yields_an_article() {
    for html in [" ", "<", "</p>", "<<<>>>", "<p", "\u{0}", "<html><html><body><body>", "&amp;", "<!-- x", "<table><td><tr>"] {
        assert!(HtmlExtractor::default().from_string(String::from(html)).is_some());
        assert!(extractor(false, false, false).from_string(String::from(html)).is_some());
    }
    assert!(HtmlExtractor::default().from_string(String::new()).is_none());
}

#[test]
fn from_labelled_bytes_decodes_under_the_canonical_name() {
    let page = "<html lang=\"ru\"><head><title>\u{41d}\u{43e}\u{432}\u{43e}\u{441}\u{442}\u{438}</title></head></html>";
    let bytes = encoding::all::KOI8_R.encode(page, encoding::EncoderTrap::Strict).unwrap();
    let article = HtmlExtractor::default().from_labelled_bytes("koi8-r", bytes.clone()).unwrap();
    assert_eq!(article.title, "\u{41d}\u{43e}\u{432}\u{43e}\u{441}\u{442}\u{438}");
    let same = HtmlExtractor::default().from_labelled_bytes("KOI8-R", bytes.clone()).unwrap();
    assert_eq!(same, article);
    // "WIN1251" is an alias of "CP1251": the same bytes read as another text.
    let other = HtmlExtractor::default().from_labelled_bytes("WIN1251", bytes.clone()).unwrap();
    assert_eq!(other.language, "ru");
    assert_ne!(other.title, article.title);
    assert_eq!(other, HtmlExtractor::default().from_labelled_bytes("windows-1251", bytes).unwrap());
}

#[test]
fn from_labelled_bytes_yields_nothing_for_a_label_without_encoding() {
    let bytes = b"<html><head><title>x</title></head></html>".to_vec();
    assert!(HtmlExtractor::default().from_labelled_bytes("", bytes.clone()).is_none());
    assert!(HtmlExtractor::default().from_labelled_bytes("no-such-charset", bytes.clone()).is_none());
    // The canonical name of "EUC-KR" is "UHC", which names no encoding.
    assert!(HtmlExtractor::default().from_labelled_bytes("EUC-KR", bytes.clone()).is_none());
    assert!(HtmlExtractor::default().from_labelled_bytes("ascii", bytes.clone()).is_some());
    assert!(HtmlExtractor::default().from_labelled_bytes("utf-8", Vec::new()).is_none());
}

#[test]
fn from_labelled_bytes_replaces_what_is_malformed() {
    let mut bytes = b"<html><head><title>a".to_vec();
    bytes.push(0xff);
    bytes.extend_from_slice(b"b</title></head></html>");
    let article = HtmlExtractor::default().from_labelled_bytes("utf-8", bytes).unwrap();
    assert_eq!(article.title, "a\u{fffd}b");
}

fn next_random(state: &mut u64) -> u64 {
    *state = state.wrapping_mul(6364136223846793005).wrapping_add(1442695040888963407);
    *state >> 33
}

fn random_bytes(state: &mut u64) -> Vec<u8> {
    let len = (next_random(state) % 48) as usize;
    let high = next_random(state) % 3;
    (0..len)
        .map(|_| {
            let byte = next_random(state) as u8;
            if high == 0 {
                byte | 0x80
            } else {
                byte
            }
        })
        .collect()
}

#[test]
fn every_encoding_takes_any_bytes() {
    let labels = [
        "utf-8", "ibm866", "iso-8859-2", "iso-8859-3", "iso-8859-4", "iso-8859-5", "iso-8859-6",
        "iso-8859-7", "iso-8859-8", "iso-8859-8-i", "iso-8859-10", "iso-8859-13", "iso-8859-14",
        "iso-8859-15", "iso-8859-16", "koi8-r", "koi8-u", "windows-874", "windows-1250",
        "windows-1251", "windows-1252", "windows-1253", "windows-1254", "windows-1255",
        "windows-1256", "windows-1257", "windows-1258", "x-mac-cyrillic", "gbk", "gb18030",
        "hz-gb-2312", "big5", "euc-jp", "iso-2022-jp", "shift_jis", "windows-949", "utf-16be",
        "utf-16le", "x-user-defined", "replacement", "cp1252", "latin1",
    ];
    let extractor = HtmlExtractor::default();
    let mut state = 7u64;
    for label in labels {
        for _ in 0..200 {
            let bytes = random_bytes(&mut state);
            let empty = bytes.is_empty();
            let article = extractor.from_labelled_bytes(label, bytes);
            if empty {
                assert!(article.is_none());
            }
        }
    }
}

#[test]
fn detection_takes_any_bytes() {
    let extractor = HtmlExtractor::default();
    let mut state = 11u64;
    for _ in 0..4000 {
        let bytes = random_bytes(&mut state);
        let detectable = can_detect(&bytes);
        let utf8 = String::from_utf8(bytes.clone()).is_ok();
        let article = extractor.from_bytes(bytes);
        if !utf8 && !detectable {
            assert!(article.is_none());
        }
    }
}
