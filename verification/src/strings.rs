//! Character-level helpers on which the rest of the library is built.
//!
//! Text is handled as `String` at the public surface and as `Vec<char>`
//! inside; every function states its result over `Seq<char>`.

use vstd::prelude::*;
use vstd::utf8::{encode_utf8, encode_utf8_decode_utf8};

verus! {

/// Whether two string slices hold the same characters. The slices are
/// compared byte by byte: two texts have the same bytes in UTF-8 exactly
/// when they have the same characters.
pub fn str_eq(a: &str, b: &str) -> (r: bool)
    ensures
        r == (a@ == b@),
{
    let x = a.as_bytes();
    let y = b.as_bytes();
    proof {
        encode_utf8_decode_utf8(a@);
        encode_utf8_decode_utf8(b@);
    }
    if x.len() != y.len() {
        return false;
    }
    let mut i: usize = 0;
    while i < x.len()
        invariant
            i <= x.len(),
            x.len() == y.len(),
            x@ == encode_utf8(a@),
            y@ == encode_utf8(b@),
            forall|k: int| 0 <= k < i ==> x@[k] == y@[k],
        decreases x.len() - i,
    {
        if x[i] != y[i] {
            return false;
        }
        i = i + 1;
    }
    assert(x@ =~= y@);
    true
}

/// `String::push` of the standard library: appends one character.
#[verifier::external_body]
pub(crate) fn push_char(s: &mut String, c: char)
    ensures
        final(s)@ == old(s)@.push(c),
{
    s.push(c)
}

/// The characters of `s`, in order.
pub fn to_chars(s: &str) -> (r: Vec<char>)
    ensures
        r@ == s@,
{
    let mut out: Vec<char> = Vec::new();
    for c in it: s.chars()
        invariant
            it.seq() == s@,
            out@ == it.seq().take(it.index()),
    {
        out.push(c);
    }
    out
}

/// The string made of the characters `v[from..to]`.
pub fn from_chars_range(v: &Vec<char>, from: usize, to: usize) -> (r: String)
    requires
        from <= to <= v.len(),
    ensures
        r@ == v@.subrange(from as int, to as int),
{
    let mut out = String::new();
    let mut i: usize = from;
    while i < to
        invariant
            from <= i <= to <= v.len(),
            out@ == v@.subrange(from as int, i as int),
        decreases to - i,
    {
        push_char(&mut out, v[i]);
        i = i + 1;
    }
    out
}

/// The string made of the characters of `v`.
pub fn from_chars(v: &Vec<char>) -> (r: String)
    ensures
        r@ == v@,
{
    let r = from_chars_range(v, 0, v.len());
    assert(v@.subrange(0, v@.len() as int) == v@);
    r
}

/// ASCII upper-casing of one character; every other character is kept.
pub open spec fn ascii_upper(c: char) -> char {
    if 'a' <= c && c <= 'z' {
        ((c as u8) - 32) as char
    } else {
        c
    }
}

/// ASCII lower-casing of one character; every other character is kept.
pub open spec fn ascii_lower(c: char) -> char {
    if 'A' <= c && c <= 'Z' {
        ((c as u8) + 32) as char
    } else {
        c
    }
}

/// `s` with each character ASCII upper-cased.
pub open spec fn upper(s: Seq<char>) -> Seq<char> {
    Seq::new(s.len(), |i: int| ascii_upper(s[i]))
}

/// `s` with each character ASCII lower-cased.
pub open spec fn lower(s: Seq<char>) -> Seq<char> {
    Seq::new(s.len(), |i: int| ascii_lower(s[i]))
}

/// The lower case of a text as Unicode defines it: each character is
/// replaced by its lower-case mapping, which may be more than one
/// character and, for the Greek capital sigma, depends on its place in the
/// word. The mapping does not depend on any locale.
pub uninterp spec fn lowercased(text: Seq<char>) -> Seq<char>;

/// `str::to_lowercase` of the standard library: the lower case of the text
/// as a new string.
#[verifier::external_body]
pub(crate) fn to_lowercase(text: &str) -> (r: String)
    ensures
        r@ == lowercased(text@),
{
    text.to_lowercase()
}

/// ASCII upper-casing of one character.
fn upper_char(c: char) -> (r: char)
    ensures
        r == ascii_upper(c),
{
    if 'a' <= c && c <= 'z' {
        ((c as u8) - 32) as char
    } else {
        c
    }
}

/// ASCII lower-casing of one character.
fn lower_char(c: char) -> (r: char)
    ensures
        r == ascii_lower(c),
{
    if 'A' <= c && c <= 'Z' {
        ((c as u8) + 32) as char
    } else {
        c
    }
}

/// ASCII upper-casing of a string.
pub fn to_ascii_uppercase(s: &str) -> (r: String)
    ensures
        r@ == upper(s@),
{
    let mut out = String::new();
    for c in it: s.chars()
        invariant
            it.seq() == s@,
            out@ == upper(s@).take(it.index()),
    {
        push_char(&mut out, upper_char(c));
    }
    out
}

/// ASCII lower-casing of a string.
pub fn to_ascii_lowercase(s: &str) -> (r: String)
    ensures
        r@ == lower(s@),
{
    let mut out = String::new();
    for c in it: s.chars()
        invariant
            it.seq() == s@,
            out@ == lower(s@).take(it.index()),
    {
        push_char(&mut out, lower_char(c));
    }
    out
}

/// Upper-casing twice is upper-casing once.
pub proof fn lemma_upper_idempotent(s: Seq<char>)
    ensures
        upper(upper(s)) == upper(s),
{
    assert forall|i: int| 0 <= i < s.len() implies ascii_upper(ascii_upper(s[i])) == ascii_upper(
        s[i],
    ) by {
        lemma_upper_char_idempotent(s[i]);
    }
    assert(upper(upper(s)) =~= upper(s));
}

/// An upper-cased character stays as it is when upper-cased again.
proof fn lemma_upper_char_idempotent(c: char)
    ensures
        ascii_upper(ascii_upper(c)) == ascii_upper(c),
{
}

/// `needle` stands in `hay` at index `k`.
pub open spec fn occurs_at(hay: Seq<char>, needle: Seq<char>, k: int) -> bool {
    &&& 0 <= k
    &&& k + needle.len() <= hay.len()
    &&& hay.subrange(k, k + needle.len()) == needle
}

/// The index of the first occurrence of `needle` in `hay` at or after
/// `from`, if there is one.
pub open spec fn first_occurrence(hay: Seq<char>, needle: Seq<char>, from: int) -> Option<int>
    decreases hay.len() - from,
{
    if from < 0 || from + needle.len() > hay.len() {
        None
    } else if occurs_at(hay, needle, from) {
        Some(from)
    } else if from >= hay.len() {
        None
    } else {
        first_occurrence(hay, needle, from + 1)
    }
}

/// `needle` occurs somewhere in `hay`.
pub open spec fn contains_sub(hay: Seq<char>, needle: Seq<char>) -> bool {
    first_occurrence(hay, needle, 0) is Some
}

/// What `first_occurrence` finds is an occurrence, the earliest from `from`
/// on; and it finds none only if there is none.
pub proof fn lemma_first_occurrence(hay: Seq<char>, needle: Seq<char>, from: int)
    requires
        0 <= from,
    ensures
        first_occurrence(hay, needle, from) matches Some(k) ==> from <= k && occurs_at(
            hay,
            needle,
            k,
        ) && forall|j: int| from <= j < k ==> !occurs_at(hay, needle, j),
        first_occurrence(hay, needle, from) is None ==> forall|j: int|
            from <= j ==> !occurs_at(hay, needle, j),
    decreases hay.len() - from,
{
    if from + needle.len() > hay.len() {
    } else if occurs_at(hay, needle, from) {
    } else if from >= hay.len() {
        assert(hay.subrange(from, from + needle.len()) =~= needle);
    } else {
        lemma_first_occurrence(hay, needle, from + 1);
    }
}

/// Whether `needle` stands in `hay` at index `k`.
pub fn matches_at(hay: &Vec<char>, needle: &Vec<char>, k: usize) -> (r: bool)
    ensures
        r == occurs_at(hay@, needle@, k as int),
{
    if needle.len() > hay.len() || k > hay.len() - needle.len() {
        return false;
    }
    let mut j: usize = 0;
    while j < needle.len()
        invariant
            j <= needle.len(),
            k + needle.len() <= hay.len(),
            forall|m: int| 0 <= m < j ==> hay@[k + m] == needle@[m],
        decreases needle.len() - j,
    {
        if hay[k + j] != needle[j] {
            assert(hay@.subrange(k as int, k + needle.len())[j as int] != needle@[j as int]);
            return false;
        }
        j = j + 1;
    }
    assert(hay@.subrange(k as int, k + needle.len()) =~= needle@);
    true
}

/// The index of the first occurrence of `needle` in `hay` at or after
/// `from`.
pub fn find_from(hay: &Vec<char>, needle: &Vec<char>, from: usize) -> (r: Option<usize>)
    ensures
        r is Some <==> first_occurrence(hay@, needle@, from as int) is Some,
        r matches Some(k) ==> first_occurrence(hay@, needle@, from as int) == Some(k as int),
{
    let mut k: usize = from;
    while k <= hay.len() && needle.len() <= hay.len() - k
        invariant
            from <= k,
            first_occurrence(hay@, needle@, from as int) == first_occurrence(
                hay@,
                needle@,
                k as int,
            ),
        decreases hay.len() - k,
    {
        if matches_at(hay, needle, k) {
            return Some(k);
        }
        if k >= hay.len() {
            return None;
        }
        k = k + 1;
    }
    None
}

/// Whether `needle` occurs in `hay`.
pub fn contains(hay: &Vec<char>, needle: &Vec<char>) -> (r: bool)
    ensures
        r == contains_sub(hay@, needle@),
{
    find_from(hay, needle, 0).is_some()
}

/// `s` with every occurrence of `pat` replaced by `rep`, occurrences taken
/// from left to right without overlap. An empty `pat` replaces nothing.
pub open spec fn replaced(s: Seq<char>, pat: Seq<char>, rep: Seq<char>) -> Seq<char>
    decreases s.len(),
{
    if pat.len() == 0 || s.len() < pat.len() {
        s
    } else if occurs_at(s, pat, 0) {
        rep + replaced(s.skip(pat.len() as int), pat, rep)
    } else {
        seq![s[0]] + replaced(s.skip(1), pat, rep)
    }
}

/// Replaces every occurrence of `pat` in `s` by `rep`.
pub fn replace(s: &Vec<char>, pat: &Vec<char>, rep: &Vec<char>) -> (r: Vec<char>)
    ensures
        r@ == replaced(s@, pat@, rep@),
{
    let mut out: Vec<char> = Vec::new();
    let mut i: usize = 0;
    if pat.len() == 0 {
        return s.clone();
    }
    assert(s@.skip(0) =~= s@);
    while i < s.len()
        invariant
            i <= s.len(),
            pat.len() > 0,
            out@ + replaced(s@.skip(i as int), pat@, rep@) == replaced(s@, pat@, rep@),
        decreases s.len() - i,
    {
        let ghost rest = s@.skip(i as int);
        let ghost before = out@;
        if matches_at(s, pat, i) {
            assert(rest.subrange(0, pat.len() as int) =~= s@.subrange(
                i as int,
                i + pat.len(),
            ));
            assert(rest.skip(pat.len() as int) =~= s@.skip(i + pat.len()));
            let mut j: usize = 0;
            while j < rep.len()
                invariant
                    j <= rep.len(),
                    out@ == before + rep@.take(j as int),
                decreases rep.len() - j,
            {
                out.push(rep[j]);
                assert(rep@.take(j + 1) =~= rep@.take(j as int).push(rep@[j as int]));
                j = j + 1;
            }
            assert(rep@.take(rep.len() as int) =~= rep@);
            assert(before + (rep@ + replaced(rest.skip(pat.len() as int), pat@, rep@)) =~= (before
                + rep@) + replaced(rest.skip(pat.len() as int), pat@, rep@));
            i = i + pat.len();
        } else {
            assert(occurs_at(rest, pat@, 0) ==> occurs_at(s@, pat@, i as int)) by {
                if occurs_at(rest, pat@, 0) {
                    assert(rest.subrange(0, pat.len() as int) =~= s@.subrange(
                        i as int,
                        i + pat.len(),
                    ));
                }
            }
            assert(rest.skip(1) =~= s@.skip(i + 1));
            out.push(s[i]);
            proof {
                if rest.len() < pat@.len() {
                    lemma_replaced_short(rest, pat@, rep@);
                    lemma_replaced_short(rest.skip(1), pat@, rep@);
                    assert(seq![rest[0]] + rest.skip(1) =~= rest);
                }
            }
            assert(before + (seq![rest[0]] + replaced(rest.skip(1), pat@, rep@)) =~= before.push(
                rest[0],
            ) + replaced(rest.skip(1), pat@, rep@));
            i = i + 1;
        }
    }
    assert(s@.skip(s.len() as int) =~= Seq::<char>::empty());
    assert(out@ + Seq::<char>::empty() =~= out@);
    out
}

/// A sequence shorter than the pattern is left as it is.
proof fn lemma_replaced_short(s: Seq<char>, pat: Seq<char>, rep: Seq<char>)
    requires
        s.len() < pat.len(),
    ensures
        replaced(s, pat, rep) == s,
{
}

/// White space as Unicode defines it (the property `White_Space`).
pub open spec fn is_white_space(c: char) -> bool {
    let u = c as u32;
    ||| 0x09 <= u <= 0x0D
    ||| u == 0x20
    ||| u == 0x85
    ||| u == 0xA0
    ||| u == 0x1680
    ||| 0x2000 <= u <= 0x200A
    ||| u == 0x2028
    ||| u == 0x2029
    ||| u == 0x202F
    ||| u == 0x205F
    ||| u == 0x3000
}

/// Whether `c` is white space.
pub fn is_whitespace(c: char) -> (r: bool)
    ensures
        r == is_white_space(c),
{
    let u: u32 = c as u32;
    (0x09 <= u && u <= 0x0D) || u == 0x20 || u == 0x85 || u == 0xA0 || u == 0x1680 || (0x2000 <= u
        && u <= 0x200A) || u == 0x2028 || u == 0x2029 || u == 0x202F || u == 0x205F || u == 0x3000
}

/// The index of the first character of `s` from `k` on that is not white
/// space, or the length of `s`.
pub open spec fn skip_white_space(s: Seq<char>, k: int) -> int
    decreases s.len() - k,
{
    if 0 <= k < s.len() && is_white_space(s[k]) {
        skip_white_space(s, k + 1)
    } else {
        k
    }
}

/// The end of `s[lo..k]` once its trailing white space is dropped.
pub open spec fn drop_white_space(s: Seq<char>, lo: int, k: int) -> int
    decreases k - lo,
{
    if 0 <= lo < k <= s.len() && is_white_space(s[k - 1]) {
        drop_white_space(s, lo, k - 1)
    } else {
        k
    }
}

/// `s` without its leading and trailing white space.
pub open spec fn trimmed(s: Seq<char>) -> Seq<char> {
    let a = skip_white_space(s, 0);
    let b = drop_white_space(s, a, s.len() as int);
    s.subrange(a, b)
}

/// `s[k..]` with each run of two or more white-space characters replaced by
/// one space; a white-space character that stands alone is kept.
pub open spec fn collapsed_from(s: Seq<char>, k: int) -> Seq<char>
    decreases s.len() - k,
{
    let end = skip_white_space(s, k);
    if k < 0 || k >= s.len() {
        Seq::empty()
    } else if k + 2 <= end <= s.len() {
        seq![' '] + collapsed_from(s, end)
    } else {
        seq![s[k]] + collapsed_from(s, k + 1)
    }
}

/// `s` with each run of two or more white-space characters replaced by one
/// space.
pub open spec fn collapsed(s: Seq<char>) -> Seq<char> {
    collapsed_from(s, 0)
}

/// Removes leading and trailing white space.
pub fn trim(s: &Vec<char>) -> (r: Vec<char>)
    ensures
        r@ == trimmed(s@),
{
    let mut a: usize = 0;
    while a < s.len() && is_whitespace(s[a])
        invariant
            a <= s.len(),
            skip_white_space(s@, 0) == skip_white_space(s@, a as int),
        decreases s.len() - a,
    {
        a = a + 1;
    }
    let mut b: usize = s.len();
    while b > a && is_whitespace(s[b - 1])
        invariant
            a <= b <= s.len(),
            drop_white_space(s@, a as int, s.len() as int) == drop_white_space(
                s@,
                a as int,
                b as int,
            ),
        decreases b,
    {
        b = b - 1;
    }
    let mut out: Vec<char> = Vec::new();
    let mut i: usize = a;
    while i < b
        invariant
            a <= i <= b <= s.len(),
            out@ == s@.subrange(a as int, i as int),
        decreases b - i,
    {
        out.push(s[i]);
        assert(s@.subrange(a as int, i + 1) =~= s@.subrange(a as int, i as int).push(s@[i as int]));
        i = i + 1;
    }
    out
}

/// `s[a..b]` is one of the words that white space parts `s` into: a run of
/// characters that are not white space, bounded on each side by white space
/// or by an end of `s`.
pub open spec fn is_word(s: Seq<char>, a: int, b: int) -> bool {
    &&& 0 <= a < b <= s.len()
    &&& forall|k: int| a <= k < b ==> !is_white_space(#[trigger] s[k])
    &&& (a == 0 || is_white_space(s[a - 1]))
    &&& (b == s.len() || is_white_space(s[b]))
}

/// `word` is one of the words that white space parts `s` into.
pub open spec fn has_word(s: Seq<char>, word: Seq<char>) -> bool {
    exists|a: int, b: int| is_word(s, a, b) && #[trigger] s.subrange(a, b) == word
}

/// Whether `word` is one of the words that white space parts `s` into.
pub fn contains_word(s: &Vec<char>, word: &Vec<char>) -> (r: bool)
    ensures
        r == has_word(s@, word@),
{
    let mut i: usize = 0;
    while i < s.len()
        invariant
            i <= s.len(),
            i == 0 || i == s.len() || is_white_space(s@[i - 1]) || is_white_space(s@[i as int]),
            forall|a: int, b: int|
                a < i && is_word(s@, a, b) ==> #[trigger] s@.subrange(a, b) != word@,
        decreases s.len() - i,
    {
        if is_whitespace(s[i]) {
            i = i + 1;
        } else {
            let start = i;
            let mut end: usize = i + 1;
            while end < s.len() && !is_whitespace(s[end])
                invariant
                    start < end <= s.len(),
                    forall|k: int| start <= k < end ==> !is_white_space(#[trigger] s@[k]),
                decreases s.len() - end,
            {
                end = end + 1;
            }
            assert(is_word(s@, start as int, end as int));
            if end - start == word.len() && matches_at(s, word, start) {
                return true;
            }
            assert forall|a: int, b: int|
                a < end && is_word(s@, a, b) implies #[trigger] s@.subrange(a, b) != word@ by {
                if a >= start {
                    if a > start {
                        assert(!is_white_space(s@[a - 1]));
                    } else {
                        if b < end {
                            assert(!is_white_space(s@[b]));
                        } else if b > end {
                            assert(!is_white_space(s@[end as int]));
                        }
                    }
                }
            }
            i = end;
        }
    }
    assert forall|a: int, b: int| is_word(s@, a, b) implies #[trigger] s@.subrange(a, b)
        != word@ by {}
    false
}

/// `a` stands before `b`, or is `b`, in the order of strings: character by
/// character, by code point, a proper prefix before what it is a prefix of.
pub open spec fn lex_le(a: Seq<char>, b: Seq<char>) -> bool
    decreases a.len(),
{
    if a.len() == 0 {
        true
    } else if b.len() == 0 {
        false
    } else if a[0] != b[0] {
        (a[0] as u32) < (b[0] as u32)
    } else {
        lex_le(a.skip(1), b.skip(1))
    }
}

/// Two strings that stand before each other are one string.
pub proof fn lemma_lex_antisymmetric(a: Seq<char>, b: Seq<char>)
    requires
        lex_le(a, b),
        lex_le(b, a),
    ensures
        a == b,
    decreases a.len(),
{
    if a.len() == 0 || b.len() == 0 {
        assert(a =~= b);
    } else {
        lemma_lex_antisymmetric(a.skip(1), b.skip(1));
        assert(a =~= seq![a[0]] + a.skip(1));
        assert(b =~= seq![b[0]] + b.skip(1));
    }
}

/// How one string stands to another in the order of strings.
pub enum Order {
    Before,
    Same,
    After,
}

/// Where `a` stands with respect to `b` in the order of strings.
pub fn lex_order(a: &Vec<char>, b: &Vec<char>) -> (r: Order)
    ensures
        r is Same <==> a@ == b@,
        r is Before ==> lex_le(a@, b@),
        r is After ==> !lex_le(a@, b@),
{
    let mut k: usize = 0;
    assert(a@.skip(0) =~= a@ && b@.skip(0) =~= b@);
    while k < a.len() && k < b.len()
        invariant
            k <= a.len(),
            k <= b.len(),
            a@.take(k as int) == b@.take(k as int),
            lex_le(a@, b@) == lex_le(a@.skip(k as int), b@.skip(k as int)),
        decreases a.len() - k,
    {
        let ghost ra = a@.skip(k as int);
        let ghost rb = b@.skip(k as int);
        assert(ra[0] == a@[k as int] && rb[0] == b@[k as int]);
        if a[k] != b[k] {
            assert(a@ != b@);
            return if (a[k] as u32) < (b[k] as u32) {
                Order::Before
            } else {
                Order::After
            };
        }
        assert(ra.skip(1) =~= a@.skip(k + 1) && rb.skip(1) =~= b@.skip(k + 1));
        assert(a@.take(k + 1) =~= a@.take(k as int).push(a@[k as int]));
        assert(b@.take(k + 1) =~= b@.take(k as int).push(b@[k as int]));
        k = k + 1;
    }
    if a.len() == b.len() {
        assert(a@ =~= a@.take(k as int) && b@ =~= b@.take(k as int));
        Order::Same
    } else if k == a.len() {
        Order::Before
    } else {
        Order::After
    }
}

/// A list of character vectors as specifications see it.
pub open spec fn chars_view(v: Seq<Vec<char>>) -> Seq<Seq<char>> {
    Seq::new(v.len(), |k: int| v[k]@)
}

/// Each string of the list stands before those that follow it.
pub open spec fn is_sorted(list: Seq<Seq<char>>) -> bool {
    forall|i: int, j: int| 0 <= i < j < list.len() ==> lex_le(list[i], list[j])
}

/// Whether a sorted list holds `word`, by binary search.
pub fn sorted_contains(list: &Vec<Vec<char>>, word: &Vec<char>) -> (r: bool)
    requires
        is_sorted(chars_view(list@)),
    ensures
        r == chars_view(list@).contains(word@),
{
    let ghost model = chars_view(list@);
    let mut lo: usize = 0;
    let mut hi: usize = list.len();
    while lo < hi
        invariant
            lo <= hi <= list.len(),
            model == chars_view(list@),
            is_sorted(model),
            forall|j: int| 0 <= j < lo ==> model[j] != word@,
            forall|j: int| hi <= j < model.len() ==> model[j] != word@,
        decreases hi - lo,
    {
        let mid = lo + (hi - lo) / 2;
        assert(model[mid as int] == list@[mid as int]@);
        match lex_order(word, &list[mid]) {
            Order::Same => {
                return true;
            },
            Order::Before => {
                assert forall|j: int| mid <= j < model.len() implies model[j] != word@ by {
                    if model[j] == word@ {
                        if j > mid {
                            lemma_lex_antisymmetric(word@, model[mid as int]);
                        }
                    }
                }
                hi = mid;
            },
            Order::After => {
                assert forall|j: int| 0 <= j < mid + 1 implies model[j] != word@ by {
                    if model[j] == word@ && j < mid {
                        assert(lex_le(model[j], model[mid as int]));
                    }
                }
                lo = mid + 1;
            },
        }
    }
    false
}

/// `needle` occurs nowhere in `hay`.
pub open spec fn absent(hay: Seq<char>, needle: Seq<char>) -> bool {
    forall|k: int| !occurs_at(hay, needle, k)
}

/// `contains_sub` says that there is an occurrence.
pub proof fn lemma_contains_sub(hay: Seq<char>, needle: Seq<char>)
    ensures
        contains_sub(hay, needle) <==> !absent(hay, needle),
{
    lemma_first_occurrence(hay, needle, 0);
    if let Some(k) = first_occurrence(hay, needle, 0) {
        assert(occurs_at(hay, needle, k));
    }
}

/// Where the pattern does not occur, nothing is replaced.
pub proof fn lemma_replaced_absent(s: Seq<char>, pat: Seq<char>, rep: Seq<char>)
    requires
        absent(s, pat),
    ensures
        replaced(s, pat, rep) == s,
    decreases s.len(),
{
    if pat.len() == 0 || s.len() < pat.len() {
    } else {
        assert(!occurs_at(s, pat, 0));
        let rest = s.skip(1);
        assert forall|k: int| !occurs_at(rest, pat, k) by {
            if occurs_at(rest, pat, k) {
                assert(s.subrange(k + 1, k + 1 + pat.len()) =~= rest.subrange(k, k + pat.len()));
                assert(occurs_at(s, pat, k + 1));
            }
        }
        lemma_replaced_absent(rest, pat, rep);
        assert(seq![s[0]] + rest =~= s);
    }
}

} // verus!
