//! The content engine: the scorer, which picks the node whose subtree most
//! likely holds the article body, and the cleaner, which turns that
//! subtree into text and links.

use indexmap::IndexMap;
use vstd::prelude::*;
use vstd::string::{StrSliceExecFns, StringExecFns};

use crate::dom::{
    attr_of, is_descendant, is_leaf, lemma_subtree_nested, name_of, next_sibling, subtree_end,
    text_of, Document, Tree, MAX_NODES,
};
use crate::ordered_map::{
    entries, lemma_position_from, lemma_put_view, lookup, map_get, map_get_index, map_insert,
    map_len, map_new, pairs_view, position_from, put,
};
use crate::predicate::{
    all_matches, find_all, indices, lemma_all_matches, ImageWithLink, Name, Or, Predicate,
};
use crate::stopwords::{stopword_count, unicode_words, unicode_words_of, StopwordTable};
use crate::strings::push_char;
use crate::text::strings_view;

verus! {

/// The number of words of a text.
pub open spec fn word_count(text: Seq<char>) -> nat {
    unicode_words_of(text).len()
}

/// Counts the words of a text.
pub fn count_words(text: &str) -> (n: usize)
    ensures
        n == word_count(text@),
{
    unicode_words(text).len()
}

/// Passes the anchors that hold text: elements `a` whose subtree text is
/// not empty.
pub struct AnchorWithText;

impl Predicate for AnchorWithText {
    open spec fn holds(&self, t: Tree, i: int) -> bool {
        name_of(t, i) == Some("a"@) && text_of(t, i).len() > 0
    }

    fn matches(&self, document: &Document, index: usize) -> (r: bool) {
        Name("a").matches(document, index) && !document.text(index).as_str().is_empty()
    }
}

/// The words of the subtree texts of `links`, added up.
pub open spec fn link_words(t: Tree, links: Seq<int>) -> nat
    decreases links.len(),
{
    if links.len() == 0 {
        0
    } else {
        link_words(t, links.drop_last()) + word_count(text_of(t, links.last()))
    }
}

/// The anchors with text below node `i`.
pub open spec fn text_links(t: Tree, i: int) -> Seq<int> {
    all_matches(AnchorWithText, t, i + 1, subtree_end(t, i))
}

/// Node `i`, whose text has `words` words, is dense with links: it has no
/// words at all, or the words of its anchors times the number of its
/// anchors exceed its own words.
pub open spec fn high_density_link(t: Tree, i: int, words: nat) -> bool {
    words == 0 || link_words(t, text_links(t, i)) * text_links(t, i).len() > words
}

/// Whether node `node`, whose text has `text_words_count` words, is dense
/// with links.
pub fn is_high_density_link(document: &Document, node: usize, text_words_count: usize) -> (r: bool)
    requires
        node < document@.len(),
    ensures
        r == high_density_link(document@, node as int, text_words_count as nat),
{
    if text_words_count == 0 {
        return true;
    }
    let end = document.subtree_end(node);
    let n = document.len();
    let links = find_all(document, &AnchorWithText, node + 1, end);
    let ghost model = text_links(document@, node as int);
    let mut link_words_count: u128 = 0;
    let mut k: usize = 0;
    while k < links.len()
        invariant
            k <= links.len() <= MAX_NODES,
            indices(links@) == model,
            forall|j: int| 0 <= j < links@.len() ==> #[trigger] links@[j] < document@.len(),
            link_words_count == link_words(document@, model.take(k as int)),
            link_words_count <= k * usize::MAX,
        decreases links.len() - k,
    {
        let link_text = document.text(links[k]);
        let words = count_words(link_text.as_str());
        assert(model.take(k + 1).drop_last() =~= model.take(k as int));
        assert(model.take(k + 1).last() == links@[k as int] as int) by {
            assert(indices(links@)[k as int] == links@[k as int] as int);
        }
        assert(k * usize::MAX + usize::MAX == (k + 1) * usize::MAX) by (nonlinear_arith);
        assert(k * usize::MAX <= MAX_NODES * usize::MAX) by (nonlinear_arith)
            requires
                k <= MAX_NODES,
        ;
        link_words_count = link_words_count + words as u128;
        k = k + 1;
    }
    assert(model.take(links.len() as int) =~= model);
    let links_count = links.len() as u128;
    assert(link_words_count * links_count <= (MAX_NODES * usize::MAX) * MAX_NODES) by (
        nonlinear_arith)
        requires
            link_words_count <= links_count * usize::MAX,
            links_count <= MAX_NODES,
    ;
    link_words_count * links_count > text_words_count as u128
}

/// Whether one of the next siblings of node `cur`, looking no further than
/// the sibling at distance `3 - d`, is a paragraph with at least five
/// stopwords.
pub open spec fn boostable_from(t: Tree, lang: Seq<char>, cur: int, d: int) -> bool
    decreases 3 - d,
{
    if d >= 3 {
        false
    } else {
        match next_sibling(t, cur) {
            None => false,
            Some(s) => (name_of(t, s) == Some("p"@) && stopword_count(text_of(t, s), lang) >= 5)
                || boostable_from(t, lang, s, d + 1),
        }
    }
}

/// Node `i` has, among its next three siblings, a paragraph with at least
/// five stopwords.
pub open spec fn boostable(t: Tree, lang: Seq<char>, i: int) -> bool {
    boostable_from(t, lang, i, 0)
}

/// Whether a paragraph with at least five stopwords of the language `lang`
/// follows node `node` among its next three siblings.
pub fn is_boostable(document: &Document, node: usize, lang: &str) -> (r: bool)
    requires
        node < document@.len(),
    ensures
        r == boostable(document@, lang@, node as int),
{
    is_boostable_in(document, node, &StopwordTable::new(lang))
}

/// Whether a paragraph with at least five stopwords of the table follows
/// node `node` among its next three siblings.
fn is_boostable_in(document: &Document, node: usize, table: &StopwordTable) -> (r: bool)
    requires
        node < document@.len(),
    ensures
        r == boostable(document@, table.lang(), node as int),
{
    let mut sibling_distance: u8 = 0;
    let mut cur: usize = node;
    while sibling_distance < 3
        invariant
            sibling_distance <= 3,
            cur < document@.len(),
            boostable(document@, table.lang(), node as int) == boostable_from(
                document@,
                table.lang(),
                cur as int,
                sibling_distance as int,
            ),
        decreases 3 - sibling_distance,
    {
        match document.next(cur) {
            None => {
                return false;
            },
            Some(sibling) => {
                if Name("p").matches(document, sibling) {
                    let sibling_text = document.text(sibling);
                    if table.count_max(sibling_text.as_str(), 5) >= 5 {
                        return true;
                    }
                }
                cur = sibling;
                sibling_distance = sibling_distance + 1;
            },
        }
    }
    false
}

/// The test that the candidates of the scorer pass: elements `p`, `pre`
/// and `td`.
pub open spec fn candidate() -> Or<Or<Name<'static>, Name<'static>>, Name<'static>> {
    Or(Or(Name("p"), Name("pre")), Name("td"))
}

/// The candidates of a document, in document order.
pub open spec fn candidates(t: Tree) -> Seq<int> {
    all_matches(candidate(), t, 0, t.len() as int)
}

/// Node `n` counts as text: its text has at least two stopwords and it is
/// not dense with links.
pub open spec fn is_textful(t: Tree, lang: Seq<char>, n: int) -> bool {
    stopword_count(text_of(t, n), lang) >= 2 && !high_density_link(
        t,
        n,
        word_count(text_of(t, n)),
    )
}

/// The boost that the scores of one candidate's round get: 50 for a
/// boostable candidate, 0 for another; but once more than 15 nodes count as
/// text and `booster`, which is a quarter of their number plus the pairs
/// scored so far minus their number, is not negative, the boost is 5 where
/// the square of `booster` exceeds 40 and minus that square where it does
/// not.
pub open spec fn boost_score(boostable: bool, nwt: int, pairs: int) -> int {
    let booster = nwt / 4 + pairs - nwt;
    if nwt > 15 && booster >= 0 {
        if booster * booster > 40 {
            5
        } else {
            -(booster * booster)
        }
    } else if boostable {
        50
    } else {
        0
    }
}

/// Half of `up`, rounded towards zero.
pub open spec fn half(up: int) -> int {
    if up >= 0 {
        up / 2
    } else {
        -((-up) / 2)
    }
}

/// The scores after `delta` is added to the score of `key`; a key without a
/// score starts from zero, at the end of the order.
pub open spec fn bumped(scores: Seq<(int, int)>, key: int, delta: int) -> Seq<(int, int)> {
    put(
        scores,
        key,
        match lookup(scores, key) {
            Some(v) => v + delta,
            None => delta,
        },
    )
}

/// The scores after the node `idx`, which has `sw` stopwords, has passed
/// `sw + boost` to its parent and half of that to its grandparent.
pub open spec fn add_pair(t: Tree, scores: Seq<(int, int)>, idx: int, sw: int, boost: int) -> Seq<
    (int, int),
> {
    let up = sw + boost;
    match t[idx].parent {
        None => scores,
        Some(p) => {
            let with_parent = bumped(scores, p, up);
            match t[p].parent {
                Some(g) => bumped(with_parent, g, half(up)),
                None => with_parent,
            }
        },
    }
}

/// The scores after the first `k` nodes of `textful` have passed their
/// scores up, in order.
pub open spec fn add_pairs(
    t: Tree,
    scores: Seq<(int, int)>,
    textful: Seq<(int, int)>,
    boost: int,
    k: int,
) -> Seq<(int, int)>
    decreases k,
{
    if k <= 0 {
        scores
    } else {
        add_pair(
            t,
            add_pairs(t, scores, textful, boost, k - 1),
            textful[k - 1].0,
            textful[k - 1].1,
            boost,
        )
    }
}

/// The node with the greatest score above zero among the first `k` scores,
/// with that score; of several with that score, the first in the order.
pub open spec fn best_upto(scores: Seq<(int, int)>, k: int) -> (Option<int>, int)
    decreases k,
{
    if k <= 0 {
        (None, 0)
    } else {
        let prev = best_upto(scores, k - 1);
        if scores[k - 1].1 > prev.1 {
            (Some(scores[k - 1].0), scores[k - 1].1)
        } else {
            prev
        }
    }
}

/// What the scorer needs to know of one candidate.
#[derive(Clone, Copy, Debug, PartialEq, Eq)]
pub struct CandidateFacts {
    /// The index of the candidate.
    pub node: usize,
    /// Whether the candidate counts as text.
    pub textful: bool,
    /// The number of stopwords in its text, if it counts as text.
    pub stopwords: usize,
    /// Whether a paragraph rich in stopwords follows it closely.
    pub boostable: bool,
}

/// The mathematical form of `CandidateFacts`.
pub struct FactsModel {
    pub node: int,
    pub textful: bool,
    pub stopwords: int,
    pub boostable: bool,
}

impl View for CandidateFacts {
    type V = FactsModel;

    open spec fn view(&self) -> FactsModel {
        FactsModel {
            node: self.node as int,
            textful: self.textful,
            stopwords: self.stopwords as int,
            boostable: self.boostable,
        }
    }
}

/// A list of facts as specifications see it.
pub open spec fn facts_view(facts: Seq<CandidateFacts>) -> Seq<FactsModel> {
    Seq::new(facts.len(), |k: int| facts[k]@)
}

/// What the scorer holds between two candidates.
pub struct ScoreModel {
    /// The nodes that count as text, each with its number of stopwords, in
    /// the order in which they were met.
    pub textful: Seq<(int, int)>,
    /// How many candidates have counted as text.
    pub nwt: int,
    /// The scores, in the order in which their nodes first got one.
    pub scores: Seq<(int, int)>,
    /// How many times a node has passed its score up.
    pub pairs: int,
    /// The node that leads.
    pub top: Option<int>,
}

/// The scorer after the round of the candidate that `f` describes.
pub open spec fn score_step(t: Tree, st: ScoreModel, f: FactsModel) -> ScoreModel {
    let textful = if f.textful {
        put(st.textful, f.node, f.stopwords)
    } else {
        st.textful
    };
    let nwt = if f.textful {
        st.nwt + 1
    } else {
        st.nwt
    };
    let boost = boost_score(f.boostable, nwt, st.pairs);
    let scores = add_pairs(t, st.scores, textful, boost, textful.len() as int);
    let top = match best_upto(scores, scores.len() as int).0 {
        Some(k) => Some(k),
        None => st.top,
    };
    ScoreModel { textful, nwt, scores, pairs: st.pairs + textful.len(), top }
}

/// The scorer after the rounds of the first `m` candidates.
pub open spec fn score_upto(t: Tree, facts: Seq<FactsModel>, m: int) -> ScoreModel
    decreases m,
{
    if m <= 0 {
        ScoreModel { textful: Seq::empty(), nwt: 0, scores: Seq::empty(), pairs: 0, top: None }
    } else {
        score_step(t, score_upto(t, facts, m - 1), facts[m - 1])
    }
}

/// The node that leads when every candidate has had its round.
pub open spec fn scored_top(t: Tree, facts: Seq<FactsModel>) -> Option<int> {
    score_upto(t, facts, facts.len() as int).top
}

/// What the scorer needs to know of the candidate `n` of a document in the
/// language `lang`.
pub open spec fn facts_of(t: Tree, lang: Seq<char>, n: int) -> FactsModel {
    FactsModel {
        node: n,
        textful: is_textful(t, lang, n),
        stopwords: if is_textful(t, lang, n) {
            stopword_count(text_of(t, n), lang) as int
        } else {
            0
        },
        boostable: boostable(t, lang, n),
    }
}

/// The facts of all candidates of a document, in document order.
pub open spec fn candidate_facts(t: Tree, lang: Seq<char>) -> Seq<FactsModel> {
    Seq::new(candidates(t).len(), |k: int| facts_of(t, lang, candidates(t)[k]))
}

/// The top node of a document in the language `lang`.
pub open spec fn top_node(t: Tree, lang: Seq<char>) -> Option<int> {
    scored_top(t, candidate_facts(t, lang))
}

/// The most that one node passes up in one round, to either side of zero.
const STEP: i128 = 0x1_0000_0000_0000_0032;

/// Every key is a node of a document of `n` nodes, and every value lies
/// within `limit` of zero.
spec fn within(pairs: Seq<(usize, i128)>, n: int, limit: int) -> bool {
    forall|k: int|
        0 <= k < pairs.len() ==> (#[trigger] pairs[k]).0 < n && -limit <= pairs[k].1 <= limit
}

/// Storing a value within the limit for a node of the document keeps the
/// pairs within the limit.
proof fn lemma_put_within(pairs: Seq<(usize, i128)>, key: usize, value: i128, n: int, limit: int)
    requires
        within(pairs, n, limit),
        key < n,
        -limit <= value <= limit,
    ensures
        within(put(pairs, key, value), n, limit),
{
    lemma_position_from(pairs, key, 0);
}

/// What is within a limit is within a wider one.
proof fn lemma_within_wider(pairs: Seq<(usize, i128)>, n: int, limit: int, wider: int)
    requires
        within(pairs, n, limit),
        limit <= wider,
    ensures
        within(pairs, n, wider),
{
}

/// The score of `key` lies within `limit` of zero, if it has a score.
spec fn score_within(pairs: Seq<(usize, i128)>, key: usize, limit: int) -> bool {
    match lookup(pairs, key) {
        Some(v) => -limit <= v <= limit,
        None => true,
    }
}

/// Where all pairs are within a limit, so is the score of each key.
proof fn lemma_score_within(pairs: Seq<(usize, i128)>, key: usize, n: int, limit: int)
    requires
        within(pairs, n, limit),
    ensures
        score_within(pairs, key, limit),
{
    lemma_position_from(pairs, key, 0);
}

/// Storing a value for one key leaves the value of every other key.
proof fn lemma_put_keeps_others(pairs: Seq<(usize, i128)>, key: usize, value: i128, other: usize)
    requires
        other != key,
    ensures
        lookup(put(pairs, key, value), other) == lookup(pairs, other),
{
    lemma_position_from(pairs, key, 0);
    lemma_position_from(pairs, other, 0);
    lemma_put_same_position(pairs, key, value, other, 0);
}

/// Storing a value for one key leaves the place of every other key.
proof fn lemma_put_same_position(
    pairs: Seq<(usize, i128)>,
    key: usize,
    value: i128,
    other: usize,
    k: int,
)
    requires
        other != key,
        0 <= k,
    ensures
        position_from(put(pairs, key, value), other, k) == position_from(pairs, other, k),
    decreases pairs.len() - k,
{
    lemma_position_from(pairs, key, 0);
    let after = put(pairs, key, value);
    if k < pairs.len() {
        if pairs[k].0 != other {
            lemma_put_same_position(pairs, key, value, other, k + 1);
        }
    } else if k < after.len() {
        assert(position_from(after, other, k + 1) is None);
    }
}

/// Adds `delta` to the score of `key`. The score was within `limit`, so
/// that the sum is within `limit + STEP` and fits.
fn bump_score(
    scores: &mut IndexMap<usize, i128>,
    key: usize,
    delta: i128,
    Ghost(n): Ghost<int>,
    Ghost(limit): Ghost<int>,
)
    requires
        within(entries(*old(scores)), n, limit + STEP),
        score_within(entries(*old(scores)), key, limit),
        key < n,
        0 <= limit,
        -STEP <= delta <= STEP,
        limit + STEP <= i128::MAX,
    ensures
        pairs_view(entries(*final(scores))) == bumped(
            pairs_view(entries(*old(scores))),
            key as int,
            delta as int,
        ),
        within(entries(*final(scores)), n, limit + STEP),
        forall|other: usize|
            other != key ==> lookup(entries(*final(scores)), other) == #[trigger] lookup(
                entries(*old(scores)),
                other,
            ),
{
    let ghost before = entries(*scores);
    let current: i128 = match map_get(scores, key) {
        Some(v) => v,
        None => 0,
    };
    let value: i128 = current + delta;
    map_insert(scores, key, value);
    proof {
        lemma_put_view(before, key, value);
        lemma_put_within(before, key, value, n, limit + STEP);
        assert forall|other: usize| other != key implies lookup(entries(*scores), other)
            == #[trigger] lookup(before, other) by {
            lemma_put_keeps_others(before, key, value, other);
        }
    }
}

/// Half of `up`, rounded towards zero.
fn half_of(up: i128) -> (r: i128)
    requires
        -STEP <= up <= STEP,
    ensures
        r == half(up as int),
        -STEP <= r <= STEP,
{
    if up >= 0 {
        up / 2
    } else {
        -((-up) / 2)
    }
}

/// Passes the score of the node `idx` up to its parent and, halved, to its
/// grandparent.
fn score_pair(
    document: &Document,
    scores: &mut IndexMap<usize, i128>,
    idx: usize,
    sw: i128,
    boost: i128,
    Ghost(limit): Ghost<int>,
)
    requires
        idx < document@.len(),
        within(entries(*old(scores)), document@.len() as int, limit),
        0 <= limit,
        -STEP <= sw + boost <= STEP,
        limit + STEP <= i128::MAX,
    ensures
        pairs_view(entries(*final(scores))) == add_pair(
            document@,
            pairs_view(entries(*old(scores))),
            idx as int,
            sw as int,
            boost as int,
        ),
        within(entries(*final(scores)), document@.len() as int, limit + STEP),
{
    let ghost n = document@.len() as int;
    let ghost before = entries(*scores);
    let up: i128 = sw + boost;
    proof {
        lemma_within_wider(before, n, limit, limit + STEP);
    }
    match document.parent(idx) {
        None => {},
        Some(p) => {
            proof {
                lemma_score_within(before, p, n, limit);
            }
            bump_score(scores, p, up, Ghost(n), Ghost(limit));
            match document.parent(p) {
                Some(g) => {
                    let half_up = half_of(up);
                    // The grandparent is not the parent: its score has not
                    // moved yet in this step.
                    proof {
                        lemma_score_within(before, g, n, limit);
                        assert(lookup(entries(*scores), g) == lookup(before, g));
                    }
                    bump_score(scores, g, half_up, Ghost(n), Ghost(limit));
                },
                None => {},
            }
        },
    }
}

/// The most pairs that the scorer goes through on one list of facts.
const MAX_PAIRS: u64 = 0x3fff_ffff_0000_0001;

/// The boost of one round.
fn boost_for(boostable: bool, nwt: usize, pairs: u64) -> (r: i128)
    requires
        pairs <= MAX_PAIRS,
    ensures
        r == boost_score(boostable, nwt as int, pairs as int),
        -40 <= r <= 50,
{
    let quarter: usize = nwt / 4;
    let booster: i128 = quarter as i128 + pairs as i128 - nwt as i128;
    if nwt > 15 && booster >= 0 {
        if booster >= 7 {
            assert(booster * booster > 40) by (nonlinear_arith)
                requires
                    booster >= 7,
            ;
            5
        } else {
            assert(0 <= booster * booster <= 36) by (nonlinear_arith)
                requires
                    0 <= booster <= 6,
            ;
            -(booster * booster)
        }
    } else if boostable {
        50
    } else {
        0
    }
}

/// The node with the greatest score above zero, the first in the order if
/// several share it.
fn best_score(scores: &IndexMap<usize, i128>) -> (r: Option<usize>)
    ensures
        r is Some <==> best_upto(
            pairs_view(entries(*scores)),
            entries(*scores).len() as int,
        ).0 is Some,
        r matches Some(k) ==> best_upto(
            pairs_view(entries(*scores)),
            entries(*scores).len() as int,
        ).0 == Some(k as int) && exists|j: int|
            0 <= j < entries(*scores).len() && (#[trigger] entries(*scores)[j]).0 == k,
{
    let ghost model = pairs_view(entries(*scores));
    let len = map_len(scores);
    let mut top: Option<usize> = None;
    let mut node_top_score: i128 = 0;
    let mut j: usize = 0;
    while j < len
        invariant
            j <= len == entries(*scores).len(),
            model == pairs_view(entries(*scores)),
            node_top_score == best_upto(model, j as int).1,
            top is Some <==> best_upto(model, j as int).0 is Some,
            top matches Some(k) ==> best_upto(model, j as int).0 == Some(k as int) && exists|
                i: int,
            |
                0 <= i < entries(*scores).len() && (#[trigger] entries(*scores)[i]).0 == k,
        decreases len - j,
    {
        match map_get_index(scores, j) {
            Some((n, score)) => {
                assert(entries(*scores)[j as int] == (n, score));
                if score > node_top_score {
                    top = Some(n);
                    node_top_score = score;
                }
            },
            None => {},
        }
        j = j + 1;
    }
    top
}

/// Gathers what the scorer needs to know of each candidate of a document:
/// of every node named `p`, `pre` or `td`, in document order.
pub fn get_candidate_facts(document: &Document, lang: &str) -> (r: Vec<CandidateFacts>)
    ensures
        facts_view(r@) == candidate_facts(document@, lang@),
        r@.len() <= MAX_NODES,
        forall|k: int| 0 <= k < r@.len() ==> (#[trigger] r@[k]).node < document@.len(),
{
    let table = StopwordTable::new(lang);
    let n = document.len();
    let cands = find_all(document, &Or(Or(Name("p"), Name("pre")), Name("td")), 0, n);
    let ghost t = document@;
    let mut facts: Vec<CandidateFacts> = Vec::new();
    let mut c: usize = 0;
    while c < cands.len()
        invariant
            c <= cands.len() <= MAX_NODES,
            t == document@,
            indices(cands@) == candidates(t),
            forall|j: int| 0 <= j < cands@.len() ==> #[trigger] cands@[j] < t.len(),
            table.lang() == lang@,
            facts@.len() == c,
            forall|k: int|
                0 <= k < c ==> (#[trigger] facts@[k])@ == facts_of(t, lang@, candidates(t)[k]),
            forall|k: int| 0 <= k < c ==> (#[trigger] facts@[k]).node < t.len(),
        decreases cands.len() - c,
    {
        let node = cands[c];
        assert(candidates(t)[c as int] == node as int) by {
            assert(indices(cands@)[c as int] == node as int);
        }
        let node_text = document.text(node);
        let text_words_count = count_words(node_text.as_str());
        let textful = table.count_max(node_text.as_str(), 2) >= 2 && !is_high_density_link(
            document,
            node,
            text_words_count,
        );
        let stopwords = if textful {
            table.count_max(node_text.as_str(), usize::MAX)
        } else {
            0
        };
        let boostable = is_boostable_in(document, node, &table);
        facts.push(CandidateFacts { node, textful, stopwords, boostable });
        c = c + 1;
    }
    assert(facts_view(facts@) =~= candidate_facts(t, lang@));
    facts
}

/// Storing a value adds one pair at most.
proof fn lemma_put_length(pairs: Seq<(usize, i128)>, key: usize, value: i128)
    ensures
        put(pairs, key, value).len() <= pairs.len() + 1,
{
    lemma_position_from(pairs, key, 0);
}

/// Runs the rounds of the scorer on the candidates that `facts` describe,
/// in their order, and returns the node that leads at the end. The list
/// holds no more facts than a document holds nodes, so that every score
/// fits its integer.
///
/// In its round a candidate that counts as text is recorded with its
/// number of stopwords; then each recorded node passes its number of
/// stopwords, plus the boost of the round, to its parent, and half of that
/// to its grandparent; then the node with the greatest score above zero
/// takes the lead, the one that got a score first if several share it.
pub fn score_candidates(document: &Document, facts: &Vec<CandidateFacts>) -> (r: Option<usize>)
    requires
        facts@.len() <= MAX_NODES,
        forall|k: int| 0 <= k < facts@.len() ==> (#[trigger] facts@[k]).node < document@.len(),
    ensures
        r is Some <==> scored_top(document@, facts_view(facts@)) is Some,
        r matches Some(i) ==> scored_top(document@, facts_view(facts@)) == Some(i as int) && i
            < document@.len(),
{
    let n = document.len();
    let ghost t = document@;
    let ghost all = facts_view(facts@);
    let mut top: Option<usize> = None;
    let mut pairs: u64 = 0;
    let mut nwt: usize = 0;
    let mut textful: IndexMap<usize, i128> = map_new();
    let mut scores: IndexMap<usize, i128> = map_new();
    let ghost mut model = score_upto(t, all, 0);
    assert(pairs_view(entries(textful)) =~= model.textful);
    assert(pairs_view(entries(scores)) =~= model.scores);
    let mut c: usize = 0;
    while c < facts.len()
        invariant
            c <= facts.len() <= MAX_NODES,
            n == t.len(),
            t == document@,
            all == facts_view(facts@),
            forall|k: int| 0 <= k < facts@.len() ==> (#[trigger] facts@[k]).node < n,
            model == score_upto(t, all, c as int),
            pairs_view(entries(textful)) == model.textful,
            pairs_view(entries(scores)) == model.scores,
            pairs == model.pairs,
            nwt == model.nwt,
            nwt <= c,
            top is Some <==> model.top is Some,
            top matches Some(k) ==> model.top == Some(k as int) && k < n,
            entries(textful).len() <= c,
            within(entries(textful), n as int, usize::MAX as int),
            pairs <= c * MAX_NODES,
            within(entries(scores), n as int, pairs * STEP),
        decreases facts.len() - c,
    {
        let fact = facts[c];
        assert(all[c as int] == fact@);
        let ghost before = model;
        if fact.textful {
            let ghost old_entries = entries(textful);
            proof {
                lemma_put_view(old_entries, fact.node, fact.stopwords as i128);
                lemma_put_within(
                    old_entries,
                    fact.node,
                    fact.stopwords as i128,
                    n as int,
                    usize::MAX as int,
                );
                lemma_put_length(old_entries, fact.node, fact.stopwords as i128);
            }
            map_insert(&mut textful, fact.node, fact.stopwords as i128);
            nwt = nwt + 1;
        }
        let len = map_len(&textful);
        let boost = boost_for(fact.boostable, nwt, pairs);
        let ghost tf = entries(textful);
        let ghost tf_model = pairs_view(tf);
        let ghost scores_before = before.scores;
        let ghost pairs_before = pairs as int;
        assert(c * MAX_NODES + MAX_NODES <= MAX_PAIRS) by (nonlinear_arith)
            requires
                c < MAX_NODES,
                MAX_NODES == 0x7fff_ffff,
                MAX_PAIRS == 0x3fff_ffff_0000_0001,
        ;
        let mut k: usize = 0;
        while k < len
            invariant
                k <= len == tf.len(),
                len <= c + 1,
                c < MAX_NODES,
                tf == entries(textful),
                tf_model == pairs_view(tf),
                n == document@.len(),
                t == document@,
                within(tf, n as int, usize::MAX as int),
                -40 <= boost <= 50,
                pairs == pairs_before + k,
                pairs_before <= c * MAX_NODES,
                c * MAX_NODES + MAX_NODES <= MAX_PAIRS,
                pairs_view(entries(scores)) == add_pairs(
                    t,
                    scores_before,
                    tf_model,
                    boost as int,
                    k as int,
                ),
                within(entries(scores), n as int, pairs * STEP),
            decreases len - k,
        {
            match map_get_index(&textful, k) {
                Some((node_index, stopwords)) => {
                    assert(tf[k as int] == (node_index, stopwords));
                    assert(tf_model[k as int] == (node_index as int, stopwords as int));
                    assert((pairs + 1) * STEP <= i128::MAX) by (nonlinear_arith)
                        requires
                            pairs + 1 <= MAX_PAIRS,
                            MAX_PAIRS == 0x3fff_ffff_0000_0001,
                            STEP == 0x1_0000_0000_0000_0032,
                    ;
                    score_pair(
                        document,
                        &mut scores,
                        node_index,
                        stopwords,
                        boost,
                        Ghost(pairs * STEP),
                    );
                    assert(pairs * STEP + STEP == (pairs + 1) * STEP) by (nonlinear_arith);
                },
                None => {},
            }
            k = k + 1;
            pairs = pairs + 1;
        }
        match best_score(&scores) {
            Some(leader) => {
                top = Some(leader);
            },
            None => {},
        }
        proof {
            model = score_step(t, before, fact@);
            assert(model.textful == tf_model);
            assert(model.scores == pairs_view(entries(scores)));
        }
        c = c + 1;
    }
    top
}

/// Chooses the node whose subtree most likely holds the article body: the
/// node that leads when every node named `p`, `pre` or `td` has had its
/// round of the scorer, in document order.
pub fn get_top_node(document: &Document, lang: &str) -> (r: Option<usize>)
    ensures
        r is Some <==> top_node(document@, lang@) is Some,
        r matches Some(i) ==> top_node(document@, lang@) == Some(i as int) && i < document@.len(),
{
    let facts = get_candidate_facts(document, lang);
    score_candidates(document, &facts)
}

/// The paragraphs below node `c`, in document order.
pub open spec fn paragraphs_below(t: Tree, c: int) -> Seq<int> {
    all_matches(Name("p"), t, c + 1, subtree_end(t, c))
}

/// One of the first `k` of the nodes `ps` has a text of fewer than 25
/// characters.
pub open spec fn any_short(t: Tree, ps: Seq<int>, k: int) -> bool {
    exists|j: int| 0 <= j < k && j < ps.len() && text_of(t, #[trigger] ps[j]).len() < 25
}

/// The child `c` of the top node is pruned with all that is below it: it is
/// not a paragraph, and it is not dense with links, or it is no `td` and
/// has no paragraph below it, or a paragraph below it has a text of fewer
/// than 25 characters.
pub open spec fn prunable(t: Tree, c: int) -> bool {
    &&& name_of(t, c) != Some("p"@)
    &&& {
        ||| !high_density_link(t, c, word_count(text_of(t, c)))
        ||| (name_of(t, c) != Some("td"@) && paragraphs_below(t, c).len() == 0)
        ||| any_short(t, paragraphs_below(t, c), paragraphs_below(t, c).len() as int)
    }
}

/// Node `j` is left out of the text of the top node `top`: it is a pruned
/// child of `top`, or lies below one; `c` is that child.
pub open spec fn excluded_by(t: Tree, top: int, c: int, j: int) -> bool {
    &&& top < c < subtree_end(t, top)
    &&& t[c].parent == Some(top)
    &&& prunable(t, c)
    &&& c <= j < subtree_end(t, c)
}

/// Node `j` is left out of the text of the top node `top`.
pub open spec fn excluded(t: Tree, top: int, j: int) -> bool {
    exists|c: int| excluded_by(t, top, c, j)
}

/// Node `child` and all that is below it, in document order.
pub fn get_index_and_descendant_indexes(document: &Document, child: usize) -> (r: Vec<usize>)
    requires
        child < document@.len(),
    ensures
        r@.len() == subtree_end(document@, child as int) - child,
        forall|k: int| 0 <= k < r@.len() ==> #[trigger] r@[k] == child + k,
{
    let end = document.subtree_end(child);
    let mut indexes: Vec<usize> = Vec::new();
    let mut j: usize = child;
    while j < end
        invariant
            child <= j <= end,
            indexes@.len() == j - child,
            forall|k: int| 0 <= k < indexes@.len() ==> #[trigger] indexes@[k] == child + k,
        decreases end - j,
    {
        indexes.push(j);
        j = j + 1;
    }
    indexes
}

/// Whether the child `child` of a top node is pruned.
#[verifier::loop_isolation(false)]
fn is_prunable(document: &Document, child: usize) -> (r: bool)
    requires
        child < document@.len(),
    ensures
        r == prunable(document@, child as int),
{
    if Name("p").matches(document, child) {
        return false;
    }
    let child_text = document.text(child);
    if !is_high_density_link(document, child, count_words(child_text.as_str())) {
        return true;
    }
    let end = document.subtree_end(child);
    let sub_paragraphes = find_all(document, &Name("p"), child + 1, end);
    let ghost ps = paragraphs_below(document@, child as int);
    if !Name("td").matches(document, child) && sub_paragraphes.len() == 0 {
        return true;
    }
    let mut k: usize = 0;
    while k < sub_paragraphes.len()
        invariant
            k <= sub_paragraphes.len(),
            indices(sub_paragraphes@) == ps,
            forall|j: int|
                0 <= j < sub_paragraphes@.len() ==> #[trigger] sub_paragraphes@[j]
                    < document@.len(),
            !any_short(document@, ps, k as int),
        decreases sub_paragraphes.len() - k,
    {
        let sub_paragraph = sub_paragraphes[k];
        assert(ps[k as int] == sub_paragraph as int) by {
            assert(indices(sub_paragraphes@)[k as int] == sub_paragraph as int);
        }
        if document.text(sub_paragraph).as_str().unicode_len() < 25 {
            assert(any_short(document@, ps, ps.len() as int));
            return true;
        }
        k = k + 1;
    }
    false
}

/// The nodes that are left out of the text of the top node `node`: its
/// pruned children with all that is below them.
pub fn get_removed_nodes(document: &Document, node: usize) -> (r: Vec<usize>)
    requires
        node < document@.len(),
    ensures
        forall|j: usize| r@.contains(j) <==> excluded(document@, node as int, j as int),
{
    let ghost t = document@;
    let end = document.subtree_end(node);
    let mut removed_nodes: Vec<usize> = Vec::new();
    let mut child: usize = node + 1;
    while child < end
        invariant
            node < child <= end,
            end == subtree_end(t, node as int),
            end <= t.len(),
            t == document@,
            forall|j: usize|
                removed_nodes@.contains(j) <==> exists|c: int|
                    c < child && excluded_by(t, node as int, c, j as int),
        decreases end - child,
    {
        let is_child = match document.parent(child) {
            Some(p) => p == node,
            None => false,
        };
        let ghost before = removed_nodes@;
        if is_child && is_prunable(document, child) {
            let mut indexes = get_index_and_descendant_indexes(document, child);
            let ghost added = indexes@;
            removed_nodes.append(&mut indexes);
            assert forall|j: usize| removed_nodes@.contains(j) <==> exists|c: int|
                c < child + 1 && excluded_by(t, node as int, c, j as int) by {
                if removed_nodes@.contains(j) {
                    let i = choose|i: int| 0 <= i < removed_nodes@.len() && removed_nodes@[i] == j;
                    if i < before.len() {
                        assert(before.contains(j));
                    } else {
                        assert(added[i - before.len()] == j);
                        assert(excluded_by(t, node as int, child as int, j as int));
                    }
                }
                if exists|c: int| c < child + 1 && excluded_by(t, node as int, c, j as int) {
                    let c = choose|c: int|
                        c < child + 1 && excluded_by(t, node as int, c, j as int);
                    if c < child {
                        assert(before.contains(j));
                        let i = choose|i: int| 0 <= i < before.len() && before[i] == j;
                        assert(removed_nodes@[i] == j);
                    } else {
                        assert(added[j - child] == j);
                        assert(removed_nodes@[before.len() + (j - child)] == j);
                    }
                }
            }
        } else {
            assert forall|j: usize| removed_nodes@.contains(j) <==> exists|c: int|
                c < child + 1 && excluded_by(t, node as int, c, j as int) by {
                if exists|c: int| c < child + 1 && excluded_by(t, node as int, c, j as int) {
                    let c = choose|c: int|
                        c < child + 1 && excluded_by(t, node as int, c, j as int);
                    assert(c < child);
                }
            }
        }
        child = child + 1;
    }
    assert forall|j: usize| removed_nodes@.contains(j) <==> excluded(
        t,
        node as int,
        j as int,
    ) by {
        if excluded(t, node as int, j as int) {
            let c = choose|c: int| excluded_by(t, node as int, c, j as int);
            assert(c < child && excluded_by(t, node as int, c, j as int));
        }
    }
    removed_nodes
}

/// What the visited node `d` adds to the text: the text of a leaf,
/// followed by a line feed if the leaf is a paragraph; nothing for a node
/// with children.
pub open spec fn leaf_text(t: Tree, d: int) -> Seq<char> {
    if is_leaf(t, d) {
        if name_of(t, d) == Some("p"@) {
            text_of(t, d).push('\n')
        } else {
            text_of(t, d)
        }
    } else {
        Seq::empty()
    }
}

/// The `href` of each of the nodes `anchors`.
pub open spec fn hrefs(t: Tree, anchors: Seq<int>) -> Seq<Seq<char>> {
    Seq::new(
        anchors.len(),
        |k: int|
            match attr_of(t, anchors[k], "href"@) {
                Some(href) => href,
                None => Seq::empty(),
            },
    )
}

/// The anchors with a link below node `d`, in document order.
pub open spec fn anchors_below(t: Tree, d: int) -> Seq<int> {
    all_matches(ImageWithLink(), t, d + 1, subtree_end(t, d))
}

/// What the visited node `d` adds to the links: the `href` of each anchor
/// below it.
pub open spec fn links_below(t: Tree, d: int) -> Seq<Seq<char>> {
    hrefs(t, anchors_below(t, d))
}

/// The text gathered from the descendants of `top` that stand before `hi`
/// and are not left out.
pub open spec fn cleaned_text_upto(t: Tree, top: int, hi: int) -> Seq<char>
    decreases hi - top,
{
    if hi <= top + 1 {
        Seq::empty()
    } else if excluded(t, top, hi - 1) {
        cleaned_text_upto(t, top, hi - 1)
    } else {
        cleaned_text_upto(t, top, hi - 1) + leaf_text(t, hi - 1)
    }
}

/// The links gathered from the descendants of `top` that stand before `hi`
/// and are not left out.
pub open spec fn cleaned_links_upto(t: Tree, top: int, hi: int) -> Seq<Seq<char>>
    decreases hi - top,
{
    if hi <= top + 1 {
        Seq::empty()
    } else if excluded(t, top, hi - 1) {
        cleaned_links_upto(t, top, hi - 1)
    } else {
        cleaned_links_upto(t, top, hi - 1) + links_below(t, hi - 1)
    }
}

/// The text of the top node `top`: what its descendants that are not left
/// out add, in document order.
pub open spec fn cleaned_text(t: Tree, top: int) -> Seq<char> {
    cleaned_text_upto(t, top, subtree_end(t, top))
}

/// The links of the top node `top`: what its descendants that are not left
/// out add, in document order.
pub open spec fn cleaned_links(t: Tree, top: int) -> Seq<Seq<char>> {
    cleaned_links_upto(t, top, subtree_end(t, top))
}

/// Whether `list` holds `x`.
fn contains_index(list: &Vec<usize>, x: usize) -> (r: bool)
    ensures
        r == list@.contains(x),
{
    let mut k: usize = 0;
    while k < list.len()
        invariant
            k <= list.len(),
            forall|j: int| 0 <= j < k ==> list@[j] != x,
        decreases list.len() - k,
    {
        if list[k] == x {
            return true;
        }
        k = k + 1;
    }
    false
}

/// Turns the subtree of the top node `node` into text and links.
///
/// The descendants of `node` are visited in document order, but for the
/// pruned children of `node` and what is below them. A visited leaf adds
/// its text, and a line feed if it is a paragraph; every visited node adds
/// the `href` of each anchor below it.
pub fn get_cleaned_text_and_links(document: &Document, node: usize, _lang: &str) -> (r: (
    String,
    Vec<String>,
))
    requires
        node < document@.len(),
    ensures
        r.0@ == cleaned_text(document@, node as int),
        strings_view(r.1@) == cleaned_links(document@, node as int),
{
    let ghost t = document@;
    let excluded_nodes = get_removed_nodes(document, node);
    let end = document.subtree_end(node);
    let mut text = String::new();
    let mut links: Vec<String> = Vec::new();
    assert(strings_view(links@) =~= cleaned_links_upto(t, node as int, node + 1));
    let mut descendant: usize = node + 1;
    while descendant < end
        invariant
            node < descendant <= end <= t.len(),
            t == document@,
            forall|j: usize| excluded_nodes@.contains(j) <==> excluded(t, node as int, j as int),
            text@ == cleaned_text_upto(t, node as int, descendant as int),
            strings_view(links@) == cleaned_links_upto(t, node as int, descendant as int),
        decreases end - descendant,
    {
        if !contains_index(&excluded_nodes, descendant) {
            if document.is_leaf(descendant) {
                text.append(document.text(descendant).as_str());
                if Name("p").matches(document, descendant) {
                    push_char(&mut text, '\n');
                }
            } else {
                assert(text@ + Seq::<char>::empty() =~= text@);
            }
            let anchors = find_all(
                document,
                &ImageWithLink(),
                descendant + 1,
                document.subtree_end(descendant),
            );
            let ghost model = anchors_below(t, descendant as int);
            let ghost before = strings_view(links@);
            let mut k: usize = 0;
            while k < anchors.len()
                invariant
                    k <= anchors.len(),
                    t == document@,
                    indices(anchors@) == model,
                    forall|j: int| 0 <= j < anchors@.len() ==> #[trigger] anchors@[j] < t.len(),
                    strings_view(links@) == before + hrefs(t, model).take(k as int),
                decreases anchors.len() - k,
            {
                let anchor = anchors[k];
                assert(model[k as int] == anchor as int) by {
                    assert(indices(anchors@)[k as int] == anchor as int);
                }
                let href = match document.attr(anchor, "href") {
                    Some(value) => value.to_owned(),
                    None => String::new(),
                };
                let ghost sofar = strings_view(links@);
                links.push(href);
                assert(strings_view(links@) =~= sofar.push(href@));
                assert(hrefs(t, model).take(k + 1) =~= hrefs(t, model).take(k as int).push(href@));
                assert(before + hrefs(t, model).take(k + 1) =~= (before + hrefs(t, model).take(
                    k as int,
                )).push(href@));
                k = k + 1;
            }
            assert(hrefs(t, model).take(anchors.len() as int) =~= hrefs(t, model));
        }
        descendant = descendant + 1;
    }
    (text, links)
}

/// Node `d` is visited when the text of the top node `top` is gathered: it
/// is below `top` and not left out.
pub open spec fn visited(t: Tree, top: int, d: int) -> bool {
    is_descendant(t, top, d) && !excluded(t, top, d)
}

/// No visited leaf of the top node `top` that stands before `hi` has a
/// line feed in its text.
pub open spec fn leaves_are_lines(t: Tree, top: int, hi: int) -> bool {
    forall|d: int|
        top < d < hi && !excluded(t, top, d) && is_leaf(t, d) ==> !text_of(t, d).contains('\n')
}

/// The node `d` is a visited leaf paragraph, and what the nodes up to and
/// with `d` add to the text ends right behind index `k`.
pub open spec fn paragraph_ends_at(t: Tree, top: int, d: int, k: int) -> bool {
    &&& top < d
    &&& !excluded(t, top, d)
    &&& is_leaf(t, d)
    &&& name_of(t, d) == Some("p"@)
    &&& cleaned_text_upto(t, top, d + 1).len() == k + 1
}

/// The visited leaf paragraph behind which the line feed at index `k`
/// stands.
proof fn lemma_line_feeds_upto(t: Tree, top: int, hi: int, k: int) -> (d: int)
    requires
        leaves_are_lines(t, top, hi),
        0 <= k < cleaned_text_upto(t, top, hi).len(),
        cleaned_text_upto(t, top, hi)[k] == '\n',
    ensures
        d < hi,
        paragraph_ends_at(t, top, d, k),
    decreases hi - top,
{
    let last = hi - 1;
    let before = cleaned_text_upto(t, top, last);
    if hi <= top + 1 {
        // Nothing is gathered yet.
        top
    } else if excluded(t, top, last) || k < before.len() {
        lemma_line_feeds_upto(t, top, last, k)
    } else {
        let own = text_of(t, last);
        let j = k - before.len();
        if j < own.len() {
            assert(own[j] == '\n');
            assert(own.contains('\n'));
        }
        last
    }
}

/// Where no visited leaf has a line feed in its own text, every line feed
/// of the cleaned text stands right behind a visited leaf paragraph: it is
/// the last character of what that paragraph adds.
pub proof fn lemma_line_feeds_follow_paragraphs(t: Tree, top: int, k: int)
    requires
        leaves_are_lines(t, top, subtree_end(t, top)),
        0 <= k < cleaned_text(t, top).len(),
        cleaned_text(t, top)[k] == '\n',
    ensures
        exists|d: int| d < subtree_end(t, top) && paragraph_ends_at(t, top, d, k),
{
    let d = lemma_line_feeds_upto(t, top, subtree_end(t, top), k);
    assert(d < subtree_end(t, top) && paragraph_ends_at(t, top, d, k));
}

/// The anchors whose links are gathered from the descendants of `top` that
/// stand before `hi`, in the order in which they are gathered: for each
/// visited node, the anchors below it.
pub open spec fn link_nodes_upto(t: Tree, top: int, hi: int) -> Seq<int>
    decreases hi - top,
{
    if hi <= top + 1 {
        Seq::empty()
    } else if excluded(t, top, hi - 1) {
        link_nodes_upto(t, top, hi - 1)
    } else {
        link_nodes_upto(t, top, hi - 1) + anchors_below(t, hi - 1)
    }
}

/// Every string of `a` is found in `b`, each further on than the one
/// before: `at` says where.
pub open spec fn embeds_at(a: Seq<Seq<char>>, b: Seq<Seq<char>>, at: Seq<int>) -> bool {
    &&& at.len() == a.len()
    &&& forall|j: int| 0 <= j < a.len() ==> 0 <= #[trigger] at[j] < b.len() && a[j] == b[at[j]]
    &&& forall|i: int, j: int| 0 <= i < j < a.len() ==> at[i] < at[j]
}

/// `a` is a subsequence of `b`.
pub open spec fn is_subsequence(a: Seq<Seq<char>>, b: Seq<Seq<char>>) -> bool {
    exists|at: Seq<int>| embeds_at(a, b, at)
}

/// No anchor is gathered twice: a visited node that stands below another
/// visited node has no anchor below it.
pub open spec fn anchors_met_once(t: Tree, top: int) -> bool {
    forall|d1: int, d2: int|
        visited(t, top, d1) && visited(t, top, d2) && is_descendant(t, d1, d2) ==> anchors_below(
            t,
            d2,
        ).len() == 0
}

/// The gathered links are the links of the gathered anchors.
proof fn lemma_links_of_nodes(t: Tree, top: int, hi: int)
    ensures
        cleaned_links_upto(t, top, hi) == hrefs(t, link_nodes_upto(t, top, hi)),
    decreases hi - top,
{
    if hi <= top + 1 {
        assert(hrefs(t, Seq::<int>::empty()) =~= Seq::<Seq<char>>::empty());
    } else {
        lemma_links_of_nodes(t, top, hi - 1);
        if !excluded(t, top, hi - 1) {
            let a = link_nodes_upto(t, top, hi - 1);
            let b = anchors_below(t, hi - 1);
            assert(hrefs(t, a + b) =~= hrefs(t, a) + hrefs(t, b));
        }
    }
}

/// A gathered anchor stands below a visited node that stands before `hi`.
spec fn gathered_below(t: Tree, top: int, hi: int, e: int) -> bool {
    exists|d: int|
        top < d < hi && visited(t, top, d) && is_descendant(t, d, e) && ImageWithLink().holds(t, e)
}

/// Where no anchor is gathered twice, the gathered anchors come in
/// ascending order, and each stands below a visited node.
proof fn lemma_link_nodes_ascend(t: Tree, top: int, hi: int)
    requires
        0 <= top,
        hi <= subtree_end(t, top),
        anchors_met_once(t, top),
    ensures
        forall|i: int, j: int|
            0 <= i < j < link_nodes_upto(t, top, hi).len() ==> link_nodes_upto(t, top, hi)[i]
                < link_nodes_upto(t, top, hi)[j],
        forall|k: int|
            0 <= k < link_nodes_upto(t, top, hi).len() ==> gathered_below(
                t,
                top,
                hi,
                #[trigger] link_nodes_upto(t, top, hi)[k],
            ),
    decreases hi - top,
{
    if hi > top + 1 {
        lemma_link_nodes_ascend(t, top, hi - 1);
        let last = hi - 1;
        let before = link_nodes_upto(t, top, last);
        let all = link_nodes_upto(t, top, hi);
        assert forall|k: int| 0 <= k < before.len() implies gathered_below(
            t,
            top,
            hi,
            #[trigger] before[k],
        ) by {
            let e = before[k];
            assert(gathered_below(t, top, last, e));
            let d = choose|d: int|
                top < d < last && visited(t, top, d) && is_descendant(t, d, e)
                    && ImageWithLink().holds(t, e);
            assert(top < d < hi && visited(t, top, d) && is_descendant(t, d, e)
                && ImageWithLink().holds(t, e));
        }
        if !excluded(t, top, last) {
            let added = anchors_below(t, last);
            lemma_all_matches(ImageWithLink(), t, last + 1, subtree_end(t, last));
            assert(visited(t, top, last));
            assert forall|k: int| 0 <= k < all.len() implies gathered_below(
                t,
                top,
                hi,
                #[trigger] all[k],
            ) by {
                if k >= before.len() {
                    let e = added[k - before.len()];
                    assert(top < last < hi && visited(t, top, last) && is_descendant(t, last, e)
                        && ImageWithLink().holds(t, e));
                } else {
                    assert(all[k] == before[k]);
                }
            }
            assert forall|i: int, j: int| 0 <= i < j < all.len() implies all[i] < all[j] by {
                if j < before.len() {
                    assert(all[i] == before[i] && all[j] == before[j]);
                } else if i >= before.len() {
                    assert(all[i] == added[i - before.len()] && all[j] == added[j - before.len()]);
                } else {
                    let e = before[i];
                    assert(all[i] == e);
                    assert(all[j] == added[j - before.len()]);
                    assert(gathered_below(t, top, last, e));
                    let d = choose|d: int|
                        top < d < last && visited(t, top, d) && is_descendant(t, d, e)
                            && ImageWithLink().holds(t, e);
                    // The node `last` has an anchor below it, so it is not
                    // below `d`: the subtree of `d` ends before it.
                    assert(added.len() > 0);
                    assert(!is_descendant(t, d, last));
                }
            }
        }
    }
}

/// Where no anchor is gathered twice, the links of the top node are a
/// subsequence of the links of the anchors below it, taken in document
/// order.
pub proof fn lemma_links_in_document_order(t: Tree, top: int)
    requires
        0 <= top,
        anchors_met_once(t, top),
    ensures
        is_subsequence(cleaned_links(t, top), links_below(t, top)),
{
    let end = subtree_end(t, top);
    let nodes = link_nodes_upto(t, top, end);
    let anchors = anchors_below(t, top);
    lemma_links_of_nodes(t, top, end);
    lemma_link_nodes_ascend(t, top, end);
    lemma_all_matches(ImageWithLink(), t, top + 1, end);
    assert forall|k: int| 0 <= k < nodes.len() implies anchors.contains(#[trigger] nodes[k]) by {
        let e = nodes[k];
        assert(gathered_below(t, top, end, e));
        let d = choose|d: int|
            top < d < end && visited(t, top, d) && is_descendant(t, d, e)
                && ImageWithLink().holds(t, e);
        lemma_subtree_nested(t, top, d);
    }
    let at = Seq::new(
        nodes.len(),
        |k: int| choose|i: int| 0 <= i < anchors.len() && anchors[i] == nodes[k],
    );
    assert forall|j: int| 0 <= j < nodes.len() implies 0 <= #[trigger] at[j] < anchors.len()
        && anchors[at[j]] == nodes[j] by {
        assert(anchors.contains(nodes[j]));
    }
    assert forall|i: int, j: int| 0 <= i < j < nodes.len() implies at[i] < at[j] by {
        assert(anchors[at[i]] == nodes[i] && anchors[at[j]] == nodes[j]);
        assert(nodes[i] < nodes[j]);
        if at[i] > at[j] {
            assert(anchors[at[j]] < anchors[at[i]]);
        }
    }
    assert(embeds_at(cleaned_links(t, top), links_below(t, top), at));
}

} // verus!
