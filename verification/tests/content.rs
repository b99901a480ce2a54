use prouste::content::{
    count_words, get_candidate_facts, get_cleaned_text_and_links,
    get_index_and_descendant_indexes, get_removed_nodes, get_top_node, is_boostable,
    is_high_density_link, score_candidates, CandidateFacts,
};
use prouste::dom::{Document, NodeData, RawNode};
use prouste::stopwords::{count_stopwords, has_more_stopwords_than};

fn element(parent: Option<usize>, name: &str) -> RawNode {
    RawNode { parent, data: NodeData::Element(name.to_string(), Vec::new()) }
}

fn anchor(parent: Option<usize>, href: &str) -> RawNode {
    let attrs = vec![(String::from("href"), href.to_string())];
    RawNode { parent, data: NodeData::Element(String::from("a"), attrs) }
}

fn text(parent: Option<usize>, content: &str) -> RawNode {
    RawNode { parent, data: NodeData::Text(content.to_string()) }
}

fn tree(parents: &[Option<usize>]) -> Document {
    Document::new(parents.iter().map(|p| element(*p, "div")).collect()).unwrap()
}

fn fact(node: usize, stopwords: usize, boostable: bool) -> CandidateFacts {
    CandidateFacts { node, textful: true, stopwords, boostable }
}

const SIMPLE: &str = "<html><body><div><p>This is a paragraph</p><h1></h1><br/><pre>Paris</pre></div><span></span></html>";

#[test]
fn content_test_get_top_node_simple() {
    let document = Document::from_html(SIMPLE).unwrap();
    let top = get_top_node(&document, "en").unwrap();
    assert_eq!(document.name(top).unwrap(), "div");
}

#[test]
fn content_test_has_more_stopwords_than() {
    let text = String::from("I live in London in England");
    assert!(has_more_stopwords_than(&text, "en", 2));
}

#[test]
fn content_test_count_stopwords() {
    let text = String::from("I live in London in England");
    assert_eq!(count_stopwords(&text, "en"), 3);
}

#[test]
fn count_words_counts_unicode_words() {
    assert_eq!(count_words(""), 0);
    assert_eq!(count_words("   \n"), 0);
    assert_eq!(count_words("one"), 1);
    assert_eq!(count_words("The quick (\"brown\") fox can't jump 32.3 feet, right?"), 9);
}

#[test]
fn facts_of_the_simple_document() {
    let document = Document::from_html(SIMPLE).unwrap();
    let facts = get_candidate_facts(&document, "en");
    assert_eq!(facts.len(), 2);
    assert_eq!(document.name(facts[0].node), Some("p"));
    assert_eq!(facts[0], CandidateFacts { node: facts[0].node, textful: true, stopwords: 3, boostable: false });
    assert_eq!(document.name(facts[1].node), Some("pre"));
    assert_eq!(facts[1], CandidateFacts { node: facts[1].node, textful: false, stopwords: 0, boostable: false });
}

#[test]
fn an_unknown_language_has_no_top_node() {
    let document = Document::from_html(SIMPLE).unwrap();
    assert_eq!(get_top_node(&document, "vi"), None);
    assert_eq!(get_top_node(&document, ""), None);
    let facts = get_candidate_facts(&document, "vi");
    assert_eq!(facts.len(), 2);
    assert!(!facts[0].textful && !facts[1].textful);
}

#[test]
fn a_document_without_candidates_has_no_top_node() {
    let document = Document::from_html("<html><body><div>The cat and the dog</div></body></html>").unwrap();
    assert!(get_candidate_facts(&document, "en").is_empty());
    assert_eq!(get_top_node(&document, "en"), None);
}

// root(0) > body(1) > G(2) > [ P(3) > x(4), y(5) ]
fn family() -> Document {
    tree(&[None, Some(0), Some(1), Some(2), Some(3), Some(2)])
}

#[test]
fn a_node_passes_its_score_to_parent_and_half_to_grandparent() {
    let document = family();
    // x passes 10 to P and 5 to G in each of two rounds; y passes 1 to G
    // and 0 to body in the second: P has 20, G has 11.
    let facts = vec![fact(4, 10, false), fact(5, 1, false)];
    assert_eq!(score_candidates(&document, &facts), Some(3));
}

#[test]
fn a_boostable_candidate_adds_fifty_to_each_score_of_its_round() {
    let document = family();
    // Second round with boost 50: P has 10 + 60, G has 5 + 30 + 51.
    let facts = vec![fact(4, 10, false), fact(5, 1, true)];
    assert_eq!(score_candidates(&document, &facts), Some(2));
    // First round with boost 50: P has 60 + 10, G has 30 + 5 + 1.
    let facts = vec![fact(4, 10, true), fact(5, 1, false)];
    assert_eq!(score_candidates(&document, &facts), Some(3));
}

#[test]
fn the_first_scored_node_wins_a_tie() {
    // a(1) > [ b(2) > p(3), c(4) > p(5) ]: in the end b, a and c all have 4.
    let document = tree(&[None, Some(0), Some(1), Some(2), Some(1), Some(4)]);
    let facts = vec![fact(3, 2, false), fact(5, 4, false)];
    assert_eq!(score_candidates(&document, &facts), Some(2));
}

#[test]
fn only_a_score_above_zero_leads() {
    let document = family();
    assert_eq!(score_candidates(&document, &Vec::new()), None);
    assert_eq!(score_candidates(&document, &vec![fact(4, 0, false)]), None);
    let idle = CandidateFacts { node: 4, textful: false, stopwords: 9, boostable: true };
    assert_eq!(score_candidates(&document, &vec![idle]), None);
}

#[test]
fn a_candidate_without_parent_scores_nothing() {
    let document = family();
    assert_eq!(score_candidates(&document, &vec![fact(0, 5, false)]), None);
    // body has a parent and no grandparent.
    assert_eq!(score_candidates(&document, &vec![fact(1, 5, false)]), Some(0));
}

#[test]
fn a_leader_stays_when_a_later_round_leaves_no_score_above_zero() {
    // root(0) > G(1) > P(2) > x(3). Sixteen rounds of the same node with
    // two stopwords: fifteen rounds add 2 to P and 1 to G, then each round
    // has the boost -9 and takes 7 from P and 3 from G. After 20 rounds P
    // has 30 - 35 and G has 15 - 15: nothing is above zero, and the leader
    // of the round before stays.
    let document = tree(&[None, Some(0), Some(1), Some(2)]);
    let facts: Vec<CandidateFacts> = (0..20).map(|_| fact(3, 2, false)).collect();
    assert_eq!(score_candidates(&document, &facts), Some(1));
}

#[test]
fn a_negative_boost_is_halved_towards_zero() {
    // As above, after 19 rounds: P has 30 - 4 * 7 = 2, G has 15 - 4 * 3 = 3.
    let document = tree(&[None, Some(0), Some(1), Some(2)]);
    let facts: Vec<CandidateFacts> = (0..19).map(|_| fact(3, 2, false)).collect();
    assert_eq!(score_candidates(&document, &facts), Some(1));
    // After 18 rounds: P has 9, G has 6.
    let facts: Vec<CandidateFacts> = (0..18).map(|_| fact(3, 2, false)).collect();
    assert_eq!(score_candidates(&document, &facts), Some(2));
}

// root(0) > G(1) > [ P(2) > x(3), x(4), y(5) .. y(18) ]
fn crowd() -> Document {
    let mut parents = vec![None, Some(0), Some(1), Some(2), Some(2)];
    for _ in 0..14 {
        parents.push(Some(1));
    }
    tree(&parents)
}

#[test]
fn past_fifteen_text_nodes_the_boost_is_five() {
    let document = crowd();
    // Fifteen rounds without boost leave P with 310 and G with 260; the
    // sixteenth has the boost 5 and leaves P with 320 and G with 334.
    let mut facts = vec![fact(3, 10, false), fact(4, 10, false)];
    for y in 5..19 {
        facts.push(fact(y, 1, false));
    }
    assert_eq!(score_candidates(&document, &facts[..15].to_vec()), Some(2));
    assert_eq!(score_candidates(&document, &facts), Some(1));
}

#[test]
fn past_fifteen_text_nodes_a_boostable_candidate_has_the_boost_five_too() {
    let document = crowd();
    // With 20 stopwords in each x, P has 630 and G has 489 in the end; a
    // boost of 50 in the last round would have put G ahead.
    let mut facts = vec![fact(3, 20, false), fact(4, 20, false)];
    for y in 5..19 {
        facts.push(fact(y, 1, y == 18));
    }
    assert_eq!(score_candidates(&document, &facts), Some(2));
}

#[test]
fn high_density_needs_anchor_words_times_anchors_above_the_words() {
    // div(0) > [ a(1) > "alpha beta"(2), " gamma delta epsilon "(3), a(4) > "zeta"(5), a(6) ]
    let document = Document::new(vec![
        element(None, "div"),
        anchor(Some(0), "u1"),
        text(Some(1), "alpha beta"),
        text(Some(0), " gamma delta epsilon "),
        anchor(Some(0), "u2"),
        text(Some(4), "zeta"),
        anchor(Some(0), "u3"),
    ])
    .unwrap();
    assert_eq!(count_words(&document.text(0)), 6);
    // Two anchors hold text, with three words: 3 * 2 = 6.
    assert!(!is_high_density_link(&document, 0, 6));
    assert!(is_high_density_link(&document, 0, 5));
    assert!(is_high_density_link(&document, 0, 0));
    // An anchor is not below itself.
    assert!(!is_high_density_link(&document, 1, 2));
    assert!(!is_high_density_link(&document, 1, 1));
    assert!(is_high_density_link(&document, 6, 0));
}

#[test]
fn boostable_looks_at_three_siblings() {
    let rich = "the cat and the dog and the bird";
    // body(0) > [ p(1) > t(2), span(3), span(4), p(5) > t(6), span(7), p(8) > t(9) ]
    let document = Document::new(vec![
        element(None, "body"),
        element(Some(0), "p"),
        text(Some(1), "x"),
        element(Some(0), "span"),
        element(Some(0), "span"),
        element(Some(0), "p"),
        text(Some(5), "one of the four"),
        element(Some(0), "span"),
        element(Some(0), "p"),
        text(Some(8), rich),
    ])
    .unwrap();
    assert_eq!(count_stopwords(rich, "en"), 5);
    assert_eq!(count_stopwords("one of the four", "en"), 2);
    // From p(1) the rich paragraph is the fifth sibling.
    assert!(!is_boostable(&document, 1, "en"));
    assert!(!is_boostable(&document, 3, "en"));
    // From span(4) it is the third.
    assert!(is_boostable(&document, 4, "en"));
    assert!(is_boostable(&document, 5, "en"));
    assert!(is_boostable(&document, 7, "en"));
    assert!(!is_boostable(&document, 8, "en"));
    assert!(!is_boostable(&document, 9, "en"));
    assert!(!is_boostable(&document, 4, "fr"));
}

// The subtree of a top node with children of every kind.
fn pruned() -> Document {
    Document::new(vec![
        element(None, "div"),
        element(Some(0), "p"),
        text(Some(1), "First paragraph."),
        element(Some(0), "p"),
        text(Some(0), "loose"),
        element(Some(0), "div"),
        element(Some(5), "p"),
        anchor(Some(6), "http://one/"),
        text(Some(7), "internationalization"),
        text(Some(6), " "),
        anchor(Some(6), "http://two/"),
        text(Some(10), "characterization"),
        element(Some(0), "td"),
        anchor(Some(12), "http://three/"),
        element(Some(0), "span"),
        anchor(Some(14), "http://four/"),
        element(Some(0), "div"),
        element(Some(16), "p"),
        anchor(Some(17), "http://five/"),
        text(Some(18), "tiny"),
        anchor(Some(17), "http://six/"),
        text(Some(20), "word"),
    ])
    .unwrap()
}

#[test]
fn removed_nodes_are_the_pruned_children_with_their_subtrees() {
    let document = pruned();
    // "loose" is not dense with links; the span has no words, is no td
    // and has no paragraph; the last div has a short paragraph.
    assert_eq!(get_removed_nodes(&document, 0), vec![4, 14, 15, 16, 17, 18, 19, 20, 21]);
    // Below the first paragraph stands a text that is not dense with links.
    assert_eq!(get_removed_nodes(&document, 1), vec![2]);
    assert_eq!(get_removed_nodes(&document, 21), Vec::<usize>::new());
}

#[test]
fn a_paragraph_of_24_characters_is_short() {
    let build = |content: &str| {
        Document::new(vec![
            element(None, "div"),
            element(Some(0), "td"),
            element(Some(1), "p"),
            text(Some(2), content),
        ])
        .unwrap()
    };
    // No words, so the td is dense with links whatever its length.
    let short = build("........................");
    assert_eq!(short.text(2).chars().count(), 24);
    assert_eq!(get_removed_nodes(&short, 0), vec![1, 2, 3]);
    let long = build(".........................");
    assert_eq!(get_removed_nodes(&long, 0), Vec::<usize>::new());
    // Characters are counted, not bytes.
    let wide = build("\u{2026}\u{2026}\u{2026}\u{2026}\u{2026}\u{2026}\u{2026}\u{2026}\u{2026}");
    assert_eq!(get_removed_nodes(&wide, 0), vec![1, 2, 3]);
}

#[test]
fn index_and_descendant_indexes_are_one_run() {
    let document = pruned();
    assert_eq!(get_index_and_descendant_indexes(&document, 5), vec![5, 6, 7, 8, 9, 10, 11]);
    assert_eq!(get_index_and_descendant_indexes(&document, 4), vec![4]);
    assert_eq!(get_index_and_descendant_indexes(&document, 0).len(), 22);
}

#[test]
fn cleaned_text_and_links_of_a_pruned_subtree() {
    let document = pruned();
    let (text, links) = get_cleaned_text_and_links(&document, 0, "en");
    assert_eq!(text, "First paragraph.\ninternationalization characterization");
    // The div and its paragraph both stand above the two anchors.
    assert_eq!(
        links,
        vec!["http://one/", "http://two/", "http://one/", "http://two/", "http://three/"]
    );
}

#[test]
fn cleaned_text_of_the_simple_document() {
    let document = Document::from_html(SIMPLE).unwrap();
    let top = get_top_node(&document, "en").unwrap();
    let (text, links) = get_cleaned_text_and_links(&document, top, "en");
    assert_eq!(text, "This is a paragraph");
    assert!(links.is_empty());
}

#[test]
fn cleaned_text_of_a_leaf_is_empty() {
    let document = pruned();
    let (text, links) = get_cleaned_text_and_links(&document, 2, "en");
    assert_eq!(text, "");
    assert!(links.is_empty());
}

#[test]
fn links_come_in_document_order_where_each_anchor_is_met_once() {
    // div(0) > [ p(1) > [ a(2) > t(3), a(4) > t(5) ], p(6) > a(7) > t(8), a(9) ]
    let document = Document::new(vec![
        element(None, "div"),
        element(Some(0), "p"),
        anchor(Some(1), "http://one/"),
        text(Some(2), "one"),
        anchor(Some(1), "http://two/"),
        text(Some(4), "two"),
        element(Some(0), "p"),
        anchor(Some(6), "http://three/"),
        text(Some(7), "three"),
        anchor(Some(0), "http://four/"),
    ])
    .unwrap();
    let (text, links) = get_cleaned_text_and_links(&document, 0, "en");
    assert_eq!(text, "onetwothree");
    // The last anchor is a child of the top node: it has no words, is no
    // td and has no paragraph, and so is pruned.
    assert_eq!(get_removed_nodes(&document, 0), vec![9]);
    assert_eq!(links, vec!["http://one/", "http://two/", "http://three/"]);
}

#[test]
fn a_line_feed_follows_each_leaf_paragraph() {
    // div(0) > [ p(1), p(2) > t(3), p(4), td(5) > p(6) ]
    let document = Document::new(vec![
        element(None, "div"),
        element(Some(0), "p"),
        element(Some(0), "p"),
        text(Some(2), "full"),
        element(Some(0), "p"),
        element(Some(0), "td"),
        element(Some(5), "p"),
    ])
    .unwrap();
    // The paragraph in the td has no text and is short.
    assert_eq!(get_removed_nodes(&document, 0), vec![5, 6]);
    let (text, links) = get_cleaned_text_and_links(&document, 0, "en");
    assert_eq!(text, "\nfull\n");
    assert!(links.is_empty());
}
