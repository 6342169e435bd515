//! Finding words in the text of a page: either every word of the text, or
//! those words of a list that occur somewhere in it.

use crate::text::{chars_of, string_of};
use vstd::prelude::*;

verus! {

/// Whether `char::is_whitespace` holds of a character.
pub uninterp spec fn whitespace(c: char) -> bool;

/// Whether `char::is_alphabetic` holds of a character.
pub uninterp spec fn alphabetic(c: char) -> bool;

/// What `str::to_lowercase` makes of a text.
pub uninterp spec fn lowercase(s: Seq<char>) -> Seq<char>;

/// `char::is_whitespace`: the result is named.
#[verifier::external_body]
fn is_whitespace(c: char) -> (b: bool)
    ensures
        b == whitespace(c),
{
    c.is_whitespace()
}

/// `char::is_alphabetic`: the result is named.
#[verifier::external_body]
fn is_alphabetic(c: char) -> (b: bool)
    ensures
        b == alphabetic(c),
{
    c.is_alphabetic()
}

/// `str::to_lowercase`: the result is named.
#[verifier::external_body]
pub(crate) fn to_lowercase(s: &str) -> (lower: String)
    ensures
        lower@ == lowercase(s@),
{
    s.to_lowercase()
}

/// `str::contains` with a text as its pattern: whether the pattern occurs in
/// the text.
#[verifier::external_body]
fn str_contains(text: &str, pattern: &str) -> (b: bool)
    ensures
        b == occurs_in(pattern@, text@),
{
    text.contains(pattern)
}

/// Whether `pattern` occurs in `text` as a run of consecutive characters.
pub open spec fn occurs_in(pattern: Seq<char>, text: Seq<char>) -> bool {
    exists|i: int|
        0 <= i && i + pattern.len() <= text.len() && #[trigger] text.subrange(
            i,
            i + pattern.len(),
        ) == pattern
}

/// The number of characters at the front of `s` before the first whitespace.
pub open spec fn run(s: Seq<char>) -> nat
    decreases s.len(),
{
    if s.len() == 0 || whitespace(s[0]) {
        0
    } else {
        1 + run(s.drop_first())
    }
}

/// The pieces of `s` between whitespace, in their order; none is empty.
pub open spec fn tokens(s: Seq<char>) -> Seq<Seq<char>>
    decreases s.len(),
{
    if s.len() == 0 {
        Seq::empty()
    } else if whitespace(s[0]) {
        tokens(s.drop_first())
    } else {
        let n = run(s) as int;
        if 0 < n <= s.len() {
            seq![s.take(n)] + tokens(s.skip(n))
        } else {
            Seq::empty()
        }
    }
}

/// `s` without the characters at its front that are not alphabetic.
pub open spec fn strip_front(s: Seq<char>) -> Seq<char>
    decreases s.len(),
{
    if s.len() > 0 && !alphabetic(s[0]) {
        strip_front(s.drop_first())
    } else {
        s
    }
}

/// `s` without the characters at its back that are not alphabetic.
pub open spec fn strip_back(s: Seq<char>) -> Seq<char>
    decreases s.len(),
{
    if s.len() > 0 && !alphabetic(s.last()) {
        strip_back(s.drop_last())
    } else {
        s
    }
}

/// `s` without the whitespace at its front.
pub open spec fn trim_front(s: Seq<char>) -> Seq<char>
    decreases s.len(),
{
    if s.len() > 0 && whitespace(s[0]) {
        trim_front(s.drop_first())
    } else {
        s
    }
}

/// `s` without the whitespace at its back.
pub open spec fn trim_back(s: Seq<char>) -> Seq<char>
    decreases s.len(),
{
    if s.len() > 0 && whitespace(s.last()) {
        trim_back(s.drop_last())
    } else {
        s
    }
}

/// `s` without the whitespace at both ends.
pub open spec fn trimmed(s: Seq<char>) -> Seq<char> {
    trim_back(trim_front(s))
}

/// Whether every character of `s` is alphabetic.
pub open spec fn all_alphabetic(s: Seq<char>) -> bool {
    forall|i: int| 0 <= i < s.len() ==> alphabetic(#[trigger] s[i])
}

/// The word that a piece of text stands for. Without filtering it is the
/// piece itself. With filtering it is the piece without what is not
/// alphabetic at its ends, and there is none where nothing is left of it or
/// something in it is not alphabetic.
pub open spec fn word_of(no_filtering: bool, token: Seq<char>) -> Option<Seq<char>> {
    if no_filtering {
        Some(token)
    } else {
        let word = strip_back(strip_front(token));
        if word.len() == 0 || !all_alphabetic(word) {
            None
        } else {
            Some(word)
        }
    }
}

/// The entry of a piece of text: its word in lower case as the key, and the
/// word itself. There is none where the piece stands for no word, or where a
/// list is given that lacks the key.
pub open spec fn entry_of(
    no_filtering: bool,
    token: Seq<char>,
    words: Option<Seq<Seq<char>>>,
) -> Option<(Seq<char>, Seq<char>)> {
    match word_of(no_filtering, token) {
        None => None,
        Some(word) => {
            let key = lowercase(word);
            match words {
                Some(list) => if list.contains(key) {
                    Some((key, word))
                } else {
                    None
                },
                None => Some((key, word)),
            }
        },
    }
}

/// The entries of pieces of text, in the order of the pieces.
pub open spec fn entries_of(
    no_filtering: bool,
    pieces: Seq<Seq<char>>,
    words: Option<Seq<Seq<char>>>,
) -> Seq<(Seq<char>, Seq<char>)>
    decreases pieces.len(),
{
    if pieces.len() == 0 {
        Seq::empty()
    } else {
        let before = entries_of(no_filtering, pieces.drop_last(), words);
        match entry_of(no_filtering, pieces.last(), words) {
            Some(entry) => before.push(entry),
            None => before,
        }
    }
}

/// The entries of the words of `text`, in their order.
pub open spec fn split(no_filtering: bool, text: Seq<char>, words: Option<Seq<Seq<char>>>) -> Seq<
    (Seq<char>, Seq<char>),
> {
    entries_of(no_filtering, tokens(text), words)
}

/// The entry of a listed word in a text in lower case: the listed word in
/// lower case and without whitespace at its ends as the key, and the listed
/// word itself. There is none where the key is empty or does not occur in
/// the text.
pub open spec fn match_of(lower_text: Seq<char>, word: Seq<char>) -> Option<
    (Seq<char>, Seq<char>),
> {
    let key = trimmed(lowercase(word));
    if key.len() > 0 && occurs_in(key, lower_text) {
        Some((key, word))
    } else {
        None
    }
}

/// The entries of the listed words in a text in lower case, in the order of
/// the list.
pub open spec fn matches_of(lower_text: Seq<char>, words: Seq<Seq<char>>) -> Seq<
    (Seq<char>, Seq<char>),
>
    decreases words.len(),
{
    if words.len() == 0 {
        Seq::empty()
    } else {
        let before = matches_of(lower_text, words.drop_last());
        match match_of(lower_text, words.last()) {
            Some(entry) => before.push(entry),
            None => before,
        }
    }
}

/// The values of a list of pairs of texts.
pub open spec fn pairs_view(pairs: Seq<(String, String)>) -> Seq<(Seq<char>, Seq<char>)> {
    pairs.map_values(|p: (String, String)| (p.0@, p.1@))
}

/// The values of a list of texts.
pub open spec fn texts_view(texts: Seq<String>) -> Seq<Seq<char>> {
    texts.map_values(|t: String| t@)
}

/// A list of words in which none occurs twice, in the order in which they
/// were put in.
pub struct WordSet {
    words: Vec<String>,
}

impl View for WordSet {
    type V = Seq<Seq<char>>;

    closed spec fn view(&self) -> Seq<Seq<char>> {
        texts_view(self.words@)
    }
}

impl WordSet {
    /// Whether no word occurs twice: what holds of every list made by `new`
    /// and `insert`.
    pub open spec fn wf(&self) -> bool {
        self@.no_duplicates()
    }

    /// The list without words.
    pub fn new() -> (set: WordSet)
        ensures
            set@ == Seq::<Seq<char>>::empty(),
            set.wf(),
    {
        let set = WordSet { words: Vec::new() };
        assert(texts_view(set.words@) =~= Seq::empty());
        set
    }

    /// The number of words.
    pub fn len(&self) -> (n: usize)
        ensures
            n == self@.len(),
    {
        self.words.len()
    }

    /// Whether `word` is in the list.
    pub fn contains(&self, word: &String) -> (found: bool)
        ensures
            found == self@.contains(word@),
    {
        let mut i: usize = 0;
        while i < self.words.len()
            invariant
                i <= self.words.len(),
                forall|j: int| 0 <= j < i ==> texts_view(self.words@)[j] != word@,
            decreases self.words.len() - i,
        {
            if self.words[i] == *word {
                assert(texts_view(self.words@)[i as int] == word@);
                return true;
            }
            i += 1;
        }
        false
    }

    /// Puts `word` in the list, behind the others, unless it is in it. Returns
    /// whether it was put in.
    pub fn insert(&mut self, word: String) -> (added: bool)
        ensures
            added == !old(self)@.contains(word@),
            final(self)@ == if added {
                old(self)@.push(word@)
            } else {
                old(self)@
            },
            old(self).wf() ==> final(self).wf(),
    {
        if self.contains(&word) {
            false
        } else {
            let ghost before = texts_view(self.words@);
            self.words.push(word);
            assert(texts_view(self.words@) =~= before.push(word@));
            true
        }
    }

    /// The word at position `i`.
    pub fn get(&self, i: usize) -> (word: &String)
        requires
            i < self@.len(),
        ensures
            word@ == self@[i as int],
    {
        &self.words[i]
    }
}

/// The text made of the characters from `from` up to `to`.
fn text_between(chars: &Vec<char>, from: usize, to: usize) -> (s: String)
    requires
        from <= to <= chars@.len(),
    ensures
        s@ == chars@.subrange(from as int, to as int),
{
    let mut piece: Vec<char> = Vec::new();
    let mut i: usize = from;
    while i < to
        invariant
            from <= i <= to <= chars@.len(),
            piece@ == chars@.subrange(from as int, i as int),
        decreases to - i,
    {
        piece.push(chars[i]);
        assert(chars@.subrange(from as int, i + 1) =~= chars@.subrange(from as int, i as int).push(
            chars@[i as int],
        ));
        i += 1;
    }
    string_of(piece)
}

/// Stripping the front of a piece that starts at `from` skips what is not
/// alphabetic.
proof fn lemma_strip_front_step(chars: Seq<char>, from: int, to: int)
    requires
        0 <= from < to <= chars.len(),
        !alphabetic(chars[from]),
    ensures
        strip_front(chars.subrange(from, to)) == strip_front(chars.subrange(from + 1, to)),
{
    assert(chars.subrange(from, to).drop_first() =~= chars.subrange(from + 1, to));
}

/// Stripping the back of a piece that ends at `to` skips what is not
/// alphabetic.
proof fn lemma_strip_back_step(chars: Seq<char>, from: int, to: int)
    requires
        0 <= from < to <= chars.len(),
        !alphabetic(chars[to - 1]),
    ensures
        strip_back(chars.subrange(from, to)) == strip_back(chars.subrange(from, to - 1)),
{
    assert(chars.subrange(from, to).drop_last() =~= chars.subrange(from, to - 1));
}

/// The word that the piece of `chars` from `from` up to `to` stands for.
fn word_between(no_filtering: bool, chars: &Vec<char>, from: usize, to: usize) -> (word: Option<
    String,
>)
    requires
        from <= to <= chars@.len(),
    ensures
        match word {
            Some(w) => word_of(no_filtering, chars@.subrange(from as int, to as int)) == Some(w@),
            None => word_of(no_filtering, chars@.subrange(from as int, to as int)).is_none(),
        },
{
    if no_filtering {
        return Some(text_between(chars, from, to));
    }
    let ghost token = chars@.subrange(from as int, to as int);
    let mut a: usize = from;
    while a < to && !is_alphabetic(chars[a])
        invariant
            from <= a <= to <= chars@.len(),
            strip_front(token) == strip_front(chars@.subrange(a as int, to as int)),
        decreases to - a,
    {
        proof {
            lemma_strip_front_step(chars@, a as int, to as int);
        }
        a += 1;
    }
    assert(strip_front(token) == chars@.subrange(a as int, to as int));
    let mut b: usize = to;
    while b > a && !is_alphabetic(chars[b - 1])
        invariant
            a <= b <= to <= chars@.len(),
            strip_back(strip_front(token)) == strip_back(chars@.subrange(a as int, b as int)),
        decreases b - a,
    {
        proof {
            lemma_strip_back_step(chars@, a as int, b as int);
        }
        b -= 1;
    }
    let ghost word = chars@.subrange(a as int, b as int);
    assert(strip_back(strip_front(token)) == word);
    if a == b {
        return None;
    }
    let mut i: usize = a;
    while i < b
        invariant
            a <= i <= b <= chars@.len(),
            from <= to <= chars@.len(),
            !no_filtering,
            word == chars@.subrange(a as int, b as int),
            word == strip_back(strip_front(chars@.subrange(from as int, to as int))),
            forall|j: int| 0 <= j < i - a ==> alphabetic(#[trigger] word[j]),
        decreases b - i,
    {
        if !is_alphabetic(chars[i]) {
            assert(!alphabetic(word[i - a]));
            return None;
        }
        i += 1;
    }
    Some(text_between(chars, a, b))
}

/// The run of a text that starts at `from` goes on behind a character that
/// is no whitespace.
proof fn lemma_run_step(chars: Seq<char>, from: int)
    requires
        0 <= from < chars.len(),
        !whitespace(chars[from]),
    ensures
        run(chars.skip(from)) == 1 + run(chars.skip(from + 1)),
{
    assert(chars.skip(from).drop_first() =~= chars.skip(from + 1));
}

/// Splits `text` at whitespace into words and gives, for each word, its
/// lower case as the key and the word itself, in the order of the text.
/// With filtering, a word loses what is not alphabetic at its ends, and is
/// left out where nothing is left of it or something in it is not
/// alphabetic. Where a list is given, a word is left out if the list lacks
/// its key.
pub fn split_words(no_filtering: bool, text: &str, words: &Option<WordSet>) -> (result: Vec<
    (String, String),
>)
    ensures
        pairs_view(result@) == split(
            no_filtering,
            text@,
            match words {
                Some(list) => Some(list@),
                None => None,
            },
        ),
{
    let chars = chars_of(text);
    let ghost list = match words {
        Some(list) => Some(list@),
        None => None,
    };
    let ghost all = tokens(chars@);
    let ghost done = Seq::<Seq<char>>::empty();
    let mut result: Vec<(String, String)> = Vec::new();
    let n = chars.len();
    let mut i: usize = 0;
    assert(chars@.skip(0) =~= chars@);
    assert(pairs_view(result@) =~= Seq::empty());
    while i < n
        invariant
            n == chars@.len(),
            i <= n,
            all == tokens(chars@),
            all == done + tokens(chars@.skip(i as int)),
            pairs_view(result@) == entries_of(no_filtering, done, list),
            list == match words {
                Some(list) => Some(list@),
                None => None,
            },
        decreases n - i,
    {
        let ghost rest = chars@.skip(i as int);
        if is_whitespace(chars[i]) {
            assert(rest.drop_first() =~= chars@.skip(i + 1));
            i += 1;
        } else {
            let start = i;
            let mut j: usize = i;
            while j < n && !is_whitespace(chars[j])
                invariant
                    n == chars@.len(),
                    start <= j <= n,
                    run(chars@.skip(start as int)) == (j - start) + run(chars@.skip(j as int)),
                decreases n - j,
            {
                proof {
                    lemma_run_step(chars@, j as int);
                }
                j += 1;
            }
            let ghost token = chars@.subrange(start as int, j as int);
            proof {
                assert(run(chars@.skip(j as int)) == 0);
                assert(rest.take(j - start) =~= token);
                assert(rest.skip(j - start) =~= chars@.skip(j as int));
                assert(done + (seq![token] + tokens(chars@.skip(j as int))) =~= done.push(token)
                    + tokens(chars@.skip(j as int)));
                assert(done.push(token).drop_last() =~= done);
            }
            let ghost before = pairs_view(result@);
            match word_between(no_filtering, &chars, start, j) {
                Some(word) => {
                    let key = to_lowercase(word.as_str());
                    let listed = match words {
                        Some(list) => list.contains(&key),
                        None => true,
                    };
                    if listed {
                        result.push((key, word));
                        assert(pairs_view(result@) =~= before.push((key@, word@)));
                    }
                },
                None => {},
            }
            proof {
                done = done.push(token);
            }
            i = j;
        }
    }
    assert(chars@.skip(n as int) =~= Seq::empty());
    assert(done + Seq::<Seq<char>>::empty() =~= done);
    result
}

/// `s` without the whitespace at both ends.
fn trim(s: &String) -> (t: String)
    ensures
        t@ == trimmed(s@),
{
    let chars = chars_of(s.as_str());
    let n = chars.len();
    let mut a: usize = 0;
    assert(chars@.skip(0) =~= chars@);
    while a < n && is_whitespace(chars[a])
        invariant
            n == chars@.len(),
            a <= n,
            trim_front(chars@) == trim_front(chars@.skip(a as int)),
        decreases n - a,
    {
        assert(chars@.skip(a as int).drop_first() =~= chars@.skip(a + 1));
        a += 1;
    }
    assert(trim_front(chars@) == chars@.skip(a as int));
    assert(chars@.skip(a as int) =~= chars@.subrange(a as int, n as int));
    let mut b: usize = n;
    while b > a && is_whitespace(chars[b - 1])
        invariant
            n == chars@.len(),
            a <= b <= n,
            trimmed(chars@) == trim_back(chars@.subrange(a as int, b as int)),
        decreases b - a,
    {
        assert(chars@.subrange(a as int, b as int).drop_last() =~= chars@.subrange(
            a as int,
            b - 1,
        ));
        b -= 1;
    }
    text_between(&chars, a, b)
}

/// Of the words of the list, in its order, those that occur in `text`: a
/// word is brought to lower case and loses the whitespace at its ends, and
/// where something is left that occurs in the lower case of `text`, that is
/// the key and comes with the word as it was listed.
pub fn full_text(text: &str, words: &WordSet) -> (result: Vec<(String, String)>)
    ensures
        pairs_view(result@) == matches_of(lowercase(text@), words@),
{
    let lower = to_lowercase(text);
    let mut result: Vec<(String, String)> = Vec::new();
    let mut i: usize = 0;
    assert(words@.take(0) =~= Seq::empty());
    assert(pairs_view(result@) =~= Seq::empty());
    while i < words.len()
        invariant
            i <= words@.len(),
            lower@ == lowercase(text@),
            pairs_view(result@) == matches_of(lower@, words@.take(i as int)),
        decreases words@.len() - i,
    {
        let word = words.get(i);
        proof {
            assert(words@.take(i + 1).drop_last() =~= words@.take(i as int));
            assert(words@.take(i + 1).last() == word@);
        }
        let key = trim(&to_lowercase(word.as_str()));
        let ghost before = pairs_view(result@);
        if key.as_str().unicode_len() > 0 && str_contains(lower.as_str(), key.as_str()) {
            result.push((key, word.clone()));
            assert(pairs_view(result@) =~= before.push((key@, word@)));
        }
        i += 1;
    }
    assert(words@.take(words@.len() as int) =~= words@);
    result
}

} // verus!
