//! Stopword lists by language, and the counting of stopwords in a text.

use vstd::prelude::*;
use vstd::seq_lib::*;

use crate::strings::{
    chars_view, is_sorted, lowercased, sorted_contains, str_eq, to_chars, to_lowercase,
};
use crate::text::strings_view;

verus! {

/// The languages for which a stopword list is kept.
#[derive(Clone, Copy, Debug, PartialEq, Eq)]
pub enum Language {
    English,
    French,
    German,
    Spanish,
    Swedish,
    Italian,
    Portuguese,
    Russian,
    Dutch,
    Finnish,
}

/// The language that a language tag stands for.
pub open spec fn language_of(tag: Seq<char>) -> Option<Language> {
    if tag == "en"@ {
        Some(Language::English)
    } else if tag == "fr"@ {
        Some(Language::French)
    } else if tag == "de"@ {
        Some(Language::German)
    } else if tag == "es"@ {
        Some(Language::Spanish)
    } else if tag == "sw"@ {
        Some(Language::Swedish)
    } else if tag == "it"@ {
        Some(Language::Italian)
    } else if tag == "pt"@ {
        Some(Language::Portuguese)
    } else if tag == "ru"@ {
        Some(Language::Russian)
    } else if tag == "nl"@ {
        Some(Language::Dutch)
    } else if tag == "fi"@ {
        Some(Language::Finnish)
    } else {
        None
    }
}

/// Finds the language that a language tag stands for.
pub fn language_for(tag: &str) -> (r: Option<Language>)
    ensures
        r == language_of(tag@),
{
    if str_eq(tag, "en") {
        Some(Language::English)
    } else if str_eq(tag, "fr") {
        Some(Language::French)
    } else if str_eq(tag, "de") {
        Some(Language::German)
    } else if str_eq(tag, "es") {
        Some(Language::Spanish)
    } else if str_eq(tag, "sw") {
        Some(Language::Swedish)
    } else if str_eq(tag, "it") {
        Some(Language::Italian)
    } else if str_eq(tag, "pt") {
        Some(Language::Portuguese)
    } else if str_eq(tag, "ru") {
        Some(Language::Russian)
    } else if str_eq(tag, "nl") {
        Some(Language::Dutch)
    } else if str_eq(tag, "fi") {
        Some(Language::Finnish)
    } else {
        None
    }
}

/// The stopwords that the NLTK corpus lists for a language, in the order of
/// the corpus, if it lists any.
pub uninterp spec fn nltk_stopwords(language: Language) -> Option<Seq<Seq<char>>>;

/// A list of strings, if there is one, as specifications see it.
pub open spec fn list_view(list: Option<Vec<String>>) -> Option<Seq<Seq<char>>> {
    match list {
        Some(v) => Some(strings_view(v@)),
        None => None,
    }
}

/// `NLTK::stopwords` of the crate `stopwords`: the list that the corpus
/// holds for the language, each word copied into a string of its own. The
/// list is built once from a file of the crate, so that the same language
/// always gives the same list.
#[verifier::external_body]
fn nltk_list(language: Language) -> (r: Option<Vec<String>>)
    ensures
        list_view(r) == nltk_stopwords(language),
{
    let outside = match language {
        Language::English => ::stopwords::Language::English,
        Language::French => ::stopwords::Language::French,
        Language::German => ::stopwords::Language::German,
        Language::Spanish => ::stopwords::Language::Spanish,
        Language::Swedish => ::stopwords::Language::Swedish,
        Language::Italian => ::stopwords::Language::Italian,
        Language::Portuguese => ::stopwords::Language::Portuguese,
        Language::Russian => ::stopwords::Language::Russian,
        Language::Dutch => ::stopwords::Language::Dutch,
        Language::Finnish => ::stopwords::Language::Finnish,
    };
    let list = <::stopwords::NLTK as ::stopwords::Stopwords>::stopwords(outside);
    list.map(|words| words.iter().map(|w| w.to_string()).collect())
}

/// `sort` of the standard library on a vector of strings: afterwards the
/// vector holds the same strings, each as often as before, in ascending
/// order; strings are ordered character by character, by code point.
#[verifier::external_body]
fn sort_strings(list: &mut Vec<String>)
    ensures
        is_sorted(strings_view(final(list)@)),
        strings_view(final(list)@).to_multiset() == strings_view(old(list)@).to_multiset(),
{
    list.sort()
}

/// The words that Unicode's rules for text segmentation (UAX #29) find in a
/// text, in order: the segments between word boundaries that hold a letter
/// or a digit.
pub uninterp spec fn unicode_words_of(text: Seq<char>) -> Seq<Seq<char>>;

/// `unicode_words` of the crate `unicode-segmentation`, each word copied
/// into a string of its own.
#[verifier::external_body]
pub(crate) fn unicode_words(text: &str) -> (r: Vec<String>)
    ensures
        strings_view(r@) == unicode_words_of(text@),
{
    let words = ::unicode_segmentation::UnicodeSegmentation::unicode_words(text);
    words.map(|w| w.to_string()).collect()
}

/// The stopwords of a language: those that the corpus lists for it, none
/// if it lists none.
pub open spec fn language_stopwords(language: Language) -> Seq<Seq<char>> {
    match nltk_stopwords(language) {
        Some(list) => list,
        None => Seq::empty(),
    }
}

/// The stopwords of a language tag: those of its language, none for a tag
/// that stands for no language.
pub open spec fn stopword_list(lang: Seq<char>) -> Seq<Seq<char>> {
    match language_of(lang) {
        Some(language) => language_stopwords(language),
        None => Seq::empty(),
    }
}

/// How many of `words` are in `list`.
pub open spec fn stopword_hits(words: Seq<Seq<char>>, list: Seq<Seq<char>>) -> nat
    decreases words.len(),
{
    if words.len() == 0 {
        0
    } else {
        stopword_hits(words.drop_last(), list) + if list.contains(words.last()) {
            1nat
        } else {
            0nat
        }
    }
}

/// The number of stopwords of the language `lang` among the words of
/// `text`, compared in lower case: the text is lower-cased as Unicode
/// defines it, in every script, before its words are looked up.
pub open spec fn stopword_count(text: Seq<char>, lang: Seq<char>) -> nat {
    stopword_hits(unicode_words_of(lowercased(text)), stopword_list(lang))
}

/// A count that stops as soon as it exceeds `cap`.
pub open spec fn capped(total: nat, cap: nat) -> nat {
    if total > cap {
        cap + 1
    } else {
        total
    }
}

/// The more words, the more hits.
pub proof fn lemma_hits_monotonic(words: Seq<Seq<char>>, list: Seq<Seq<char>>, k: int)
    requires
        0 <= k <= words.len(),
    ensures
        stopword_hits(words.take(k), list) <= stopword_hits(words, list),
        stopword_hits(words, list) <= words.len(),
    decreases words.len(),
{
    if words.len() == 0 {
        assert(words.take(k) =~= words);
    } else if k == words.len() {
        assert(words.take(k) =~= words);
        lemma_hits_monotonic(words.drop_last(), list, 0);
    } else {
        assert(words.drop_last().take(k) =~= words.take(k));
        lemma_hits_monotonic(words.drop_last(), list, k);
    }
}

/// The stopwords of a language in ascending order.
pub fn stopwords_from_language(language: Language) -> (r: Vec<String>)
    ensures
        is_sorted(strings_view(r@)),
        strings_view(r@).to_multiset() == language_stopwords(language).to_multiset(),
{
    let mut list = match nltk_list(language) {
        Some(list) => list,
        None => {
            let none: Vec<String> = Vec::new();
            assert(strings_view(none@) =~= Seq::<Seq<char>>::empty());
            none
        },
    };
    sort_strings(&mut list);
    list
}

/// The stopwords of a language tag in ascending order; none for a tag that
/// stands for no language.
pub fn get_stopwords_from_language(lang: &str) -> (r: Vec<String>)
    ensures
        is_sorted(strings_view(r@)),
        strings_view(r@).to_multiset() == stopword_list(lang@).to_multiset(),
{
    match language_for(lang) {
        Some(language) => stopwords_from_language(language),
        None => {
            let r: Vec<String> = Vec::new();
            assert(strings_view(r@) =~= Seq::<Seq<char>>::empty());
            r
        },
    }
}

/// A sorted stopword list, each word as a vector of characters, ready for
/// binary search.
pub struct StopwordTable {
    words: Vec<Vec<char>>,
    lang: Ghost<Seq<char>>,
}

impl StopwordTable {
    /// The table is sorted and holds exactly the stopwords of its language
    /// tag.
    #[verifier::type_invariant]
    pub closed spec fn wf(&self) -> bool {
        &&& is_sorted(chars_view(self.words@))
        &&& forall|w: Seq<char>| #[trigger]
            chars_view(self.words@).contains(w) <==> stopword_list(self.lang@).contains(w)
    }

    /// The language tag of the table.
    pub closed spec fn lang(&self) -> Seq<char> {
        self.lang@
    }

    /// The table for a language tag.
    pub fn new(lang: &str) -> (r: StopwordTable)
        ensures
            r.lang() == lang@,
    {
        let list = get_stopwords_from_language(lang);
        let ghost sorted = strings_view(list@);
        let mut words: Vec<Vec<char>> = Vec::new();
        let mut k: usize = 0;
        while k < list.len()
            invariant
                k <= list.len(),
                sorted == strings_view(list@),
                chars_view(words@) == sorted.take(k as int),
            decreases list.len() - k,
        {
            let ghost before = chars_view(words@);
            words.push(to_chars(list[k].as_str()));
            assert(chars_view(words@) =~= before.push(sorted[k as int]));
            assert(sorted.take(k + 1) =~= sorted.take(k as int).push(sorted[k as int]));
            k = k + 1;
        }
        proof {
            assert(sorted.take(list.len() as int) =~= sorted);
            let target = stopword_list(lang@);
            assert forall|w: Seq<char>| #[trigger] sorted.contains(w) <==> target.contains(w) by {
                sorted.to_multiset_ensures();
                target.to_multiset_ensures();
                assert(sorted.to_multiset().count(w) == target.to_multiset().count(w));
            }
        }
        StopwordTable { words, lang: Ghost(lang@) }
    }

    /// Whether `word` is a stopword of the table's language.
    pub fn contains(&self, word: &str) -> (r: bool)
        ensures
            r == stopword_list(self.lang()).contains(word@),
    {
        proof {
            use_type_invariant(self);
        }
        sorted_contains(&self.words, &to_chars(word))
    }

    /// Counts the stopwords among the words of `text`, stopping as soon as
    /// the count exceeds `n`.
    pub fn count_max(&self, text: &str, n: usize) -> (r: usize)
        ensures
            r == capped(stopword_count(text@, self.lang()), n as nat),
            stopword_count(text@, self.lang()) <= usize::MAX,
    {
        let lowercased_text = to_lowercase(text);
        let words = unicode_words(lowercased_text.as_str());
        let ghost all = strings_view(words@);
        let ghost list = stopword_list(self.lang());
        proof {
            lemma_hits_monotonic(all, list, 0);
        }
        let mut hits: usize = 0;
        let mut k: usize = 0;
        while k < words.len()
            invariant
                k <= words.len(),
                all == strings_view(words@),
                list == stopword_list(self.lang()),
                stopword_count(text@, self.lang()) == stopword_hits(all, list),
                hits == stopword_hits(all.take(k as int), list),
                hits <= n,
                hits <= k,
            decreases words.len() - k,
        {
            assert(all.take(k + 1).drop_last() =~= all.take(k as int));
            assert(all.take(k + 1).last() == words@[k as int]@);
            if self.contains(words[k].as_str()) {
                hits = hits + 1;
                if hits > n {
                    proof {
                        lemma_hits_monotonic(all, list, k + 1);
                    }
                    return hits;
                }
            }
            k = k + 1;
        }
        assert(all.take(words.len() as int) =~= all);
        hits
    }
}

/// Counts the stopwords of the language `lang` among the words of `text`,
/// stopping as soon as the count exceeds `n`: the result is never more than
/// `n + 1`.
pub fn count_max_stopwords(text: &str, lang: &str, n: usize) -> (r: usize)
    ensures
        r == capped(stopword_count(text@, lang@), n as nat),
        r <= n + 1,
        stopword_count(text@, lang@) <= usize::MAX,
{
    StopwordTable::new(lang).count_max(text, n)
}

/// The number of stopwords of the language `lang` among the words of
/// `text`.
pub fn count_stopwords(text: &str, lang: &str) -> (r: usize)
    ensures
        r == stopword_count(text@, lang@),
{
    count_max_stopwords(text, lang, usize::MAX)
}

/// Whether `text` holds at least `n` stopwords of the language `lang`.
pub fn has_more_stopwords_than(text: &str, lang: &str, n: usize) -> (r: bool)
    ensures
        r == (stopword_count(text@, lang@) >= n),
{
    let number_of_stopwords = count_max_stopwords(text, lang, n);
    number_of_stopwords >= n
}

} // verus!
