//! The index of a document: for each key, the words that were found under
//! it and the pages on which they were found, and the lines that show it.

use crate::text::{decimal, decimal_string};
use crate::words::{
    full_text, lowercase, matches_of, pairs_view, split, split_words, texts_view, to_lowercase,
    WordSet,
};
use itertools::Itertools;
use vstd::prelude::*;
use vstd::string::StringExecFns;
use vstd::string::StringSliceAdditionalSpecFns;
use vstd::utf8::{encode_utf8, encode_utf8_decode_utf8};

verus! {

/// The order of lists of bytes: by the first byte in which they differ, and
/// a list behind each of its proper beginnings.
pub open spec fn bytes_lt(a: Seq<u8>, b: Seq<u8>) -> bool
    decreases a.len(),
{
    if b.len() == 0 {
        false
    } else if a.len() == 0 {
        true
    } else if a[0] != b[0] {
        a[0] < b[0]
    } else {
        bytes_lt(a.drop_first(), b.drop_first())
    }
}

/// The order of texts: that of their bytes in UTF-8.
pub open spec fn text_lt(a: Seq<char>, b: Seq<char>) -> bool {
    bytes_lt(encode_utf8(a), encode_utf8(b))
}

/// Whether `a` is before `b` in the order of texts.
fn before(a: &String, b: &String) -> (less: bool)
    ensures
        less == text_lt(a@, b@),
{
    let x = a.as_str().as_bytes();
    let y = b.as_str().as_bytes();
    let mut i: usize = 0;
    assert(x@.skip(0) =~= x@);
    assert(y@.skip(0) =~= y@);
    while i < x.len() && i < y.len()
        invariant
            i <= x@.len(),
            i <= y@.len(),
            x@ == encode_utf8(a@),
            y@ == encode_utf8(b@),
            bytes_lt(x@, y@) == bytes_lt(x@.skip(i as int), y@.skip(i as int)),
        decreases x@.len() - i,
    {
        assert(x@.skip(i as int)[0] == x@[i as int]);
        assert(y@.skip(i as int)[0] == y@[i as int]);
        if x[i] != y[i] {
            return x[i] < y[i];
        }
        assert(x@.skip(i as int).drop_first() =~= x@.skip(i + 1));
        assert(y@.skip(i as int).drop_first() =~= y@.skip(i + 1));
        i += 1;
    }
    x.len() < y.len()
}

/// `Itertools::join` over texts: the texts one behind the other, with the
/// separator between each two.
#[verifier::external_body]
fn join_texts(items: &Vec<String>, separator: &str) -> (line: String)
    ensures
        line@ == joined(texts_view(items@), separator@),
{
    items.iter().join(separator)
}

/// The texts one behind the other, with the separator between each two.
pub open spec fn joined(items: Seq<Seq<char>>, separator: Seq<char>) -> Seq<char>
    decreases items.len(),
{
    if items.len() == 0 {
        Seq::empty()
    } else if items.len() == 1 {
        items[0]
    } else {
        joined(items.drop_last(), separator) + separator + items.last()
    }
}

/// No list of bytes is before itself.
proof fn lemma_bytes_irreflexive(a: Seq<u8>)
    ensures
        !bytes_lt(a, a),
    decreases a.len(),
{
    if a.len() > 0 {
        lemma_bytes_irreflexive(a.drop_first());
    }
}

/// The order of lists of bytes is transitive.
proof fn lemma_bytes_transitive(a: Seq<u8>, b: Seq<u8>, c: Seq<u8>)
    requires
        bytes_lt(a, b),
        bytes_lt(b, c),
    ensures
        bytes_lt(a, c),
    decreases a.len(),
{
    if a.len() > 0 && a[0] == b[0] && b[0] == c[0] {
        lemma_bytes_transitive(a.drop_first(), b.drop_first(), c.drop_first());
    }
}

/// Of two different lists of bytes one is before the other.
proof fn lemma_bytes_total(a: Seq<u8>, b: Seq<u8>)
    ensures
        bytes_lt(a, b) || a == b || bytes_lt(b, a),
    decreases a.len(),
{
    if a.len() == 0 || b.len() == 0 {
        assert(a.len() == 0 && b.len() == 0 ==> a =~= b);
    } else if a[0] == b[0] {
        lemma_bytes_total(a.drop_first(), b.drop_first());
        if a.drop_first() == b.drop_first() {
            assert(a =~= seq![a[0]] + a.drop_first());
            assert(b =~= seq![b[0]] + b.drop_first());
        }
    }
}

/// No text is before itself.
pub proof fn lemma_lt_irreflexive(a: Seq<char>)
    ensures
        !text_lt(a, a),
{
    lemma_bytes_irreflexive(encode_utf8(a));
}

/// The order of texts is transitive.
pub proof fn lemma_lt_transitive(a: Seq<char>, b: Seq<char>, c: Seq<char>)
    requires
        text_lt(a, b),
        text_lt(b, c),
    ensures
        text_lt(a, c),
{
    lemma_bytes_transitive(encode_utf8(a), encode_utf8(b), encode_utf8(c));
}

/// Of two different texts one is before the other: texts with the same
/// bytes are the same text.
pub proof fn lemma_lt_total(a: Seq<char>, b: Seq<char>)
    ensures
        text_lt(a, b) || a == b || text_lt(b, a),
{
    lemma_bytes_total(encode_utf8(a), encode_utf8(b));
    encode_utf8_decode_utf8(a);
    encode_utf8_decode_utf8(b);
}

/// The value of an index: its entries in ascending order of their keys, each
/// with the words found and their pages, in the order of finding.
pub type IndexView = Seq<(Seq<char>, Seq<(Seq<char>, u32)>)>;

/// The values of a list of words with their pages.
pub open spec fn occurrences_view(found: Seq<(String, u32)>) -> Seq<(Seq<char>, u32)> {
    found.map_values(|f: (String, u32)| (f.0@, f.1))
}

/// The values of a list of entries.
pub open spec fn entries_view(entries: Seq<(String, Vec<(String, u32)>)>) -> IndexView {
    entries.map_values(|e: (String, Vec<(String, u32)>)| (e.0@, occurrences_view(e.1@)))
}

/// Whether the keys ascend strictly, so that none occurs twice.
pub open spec fn keys_ascend(entries: IndexView) -> bool {
    forall|i: int, j: int|
        0 <= i < j < entries.len() ==> text_lt(#[trigger] entries[i].0, #[trigger] entries[j].0)
}

/// The number of entries at the front whose keys are before `key`.
pub open spec fn position(entries: IndexView, key: Seq<char>) -> int
    decreases entries.len(),
{
    if entries.len() == 0 || !text_lt(entries[0].0, key) {
        0
    } else {
        1 + position(entries.drop_first(), key)
    }
}

/// The index with one more finding: under `key`, the word `word` on page
/// `page`. Where the index has the key, the finding goes behind the others
/// of the key. Where it has not, the key gets an entry at its place in the
/// order.
pub open spec fn with_finding(
    entries: IndexView,
    key: Seq<char>,
    word: Seq<char>,
    page: u32,
) -> IndexView {
    let at = position(entries, key);
    if at < entries.len() && entries[at].0 == key {
        entries.update(at, (key, entries[at].1.push((word, page))))
    } else {
        entries.insert(at, (key, seq![(word, page)]))
    }
}

/// The index with the findings of one page: each match is a key and a word.
pub open spec fn with_findings(
    entries: IndexView,
    matches: Seq<(Seq<char>, Seq<char>)>,
    page: u32,
) -> IndexView
    decreases matches.len(),
{
    if matches.len() == 0 {
        entries
    } else {
        with_finding(
            with_findings(entries, matches.drop_last(), page),
            matches.last().0,
            matches.last().1,
            page,
        )
    }
}

/// Keys that ascend are pairwise different.
pub proof fn law_keys_differ(entries: IndexView, i: int, j: int)
    requires
        keys_ascend(entries),
        0 <= i < entries.len(),
        0 <= j < entries.len(),
        i != j,
    ensures
        entries[i].0 != entries[j].0,
{
    lemma_lt_irreflexive(entries[i].0);
    if i < j {
        assert(text_lt(entries[i].0, entries[j].0));
    } else {
        assert(text_lt(entries[j].0, entries[i].0));
    }
}

/// Every entry before the position of a key has a key before it, and the
/// entry at the position has not.
pub proof fn lemma_position(entries: IndexView, key: Seq<char>)
    ensures
        0 <= position(entries, key) <= entries.len(),
        forall|i: int| 0 <= i < position(entries, key) ==> text_lt(#[trigger] entries[i].0, key),
        position(entries, key) < entries.len() ==> !text_lt(
            entries[position(entries, key)].0,
            key,
        ),
    decreases entries.len(),
{
    if entries.len() > 0 && text_lt(entries[0].0, key) {
        let rest = entries.drop_first();
        lemma_position(rest, key);
        assert forall|i: int| 0 <= i < position(entries, key) implies text_lt(
            #[trigger] entries[i].0,
            key,
        ) by {
            if i > 0 {
                assert(rest[i - 1] == entries[i]);
            }
        }
        if position(entries, key) < entries.len() {
            assert(rest[position(rest, key)] == entries[position(entries, key)]);
        }
    }
}

/// A finding leaves the keys in ascending order.
pub proof fn lemma_finding_keeps_order(
    entries: IndexView,
    key: Seq<char>,
    word: Seq<char>,
    page: u32,
)
    requires
        keys_ascend(entries),
    ensures
        keys_ascend(with_finding(entries, key, word, page)),
{
    let at = position(entries, key);
    let next = with_finding(entries, key, word, page);
    lemma_position(entries, key);
    if at < entries.len() && entries[at].0 == key {
        assert forall|i: int, j: int| 0 <= i < j < next.len() implies text_lt(
            #[trigger] next[i].0,
            #[trigger] next[j].0,
        ) by {
            assert(next[i].0 == entries[i].0);
            assert(next[j].0 == entries[j].0);
        }
    } else {
        assert forall|i: int, j: int| 0 <= i < j < next.len() implies text_lt(
            #[trigger] next[i].0,
            #[trigger] next[j].0,
        ) by {
            if j < at {
                assert(next[i] == entries[i] && next[j] == entries[j]);
            } else if j == at {
                assert(next[i] == entries[i]);
            } else if i == at {
                assert(next[j] == entries[j - 1]);
                lemma_lt_total(key, entries[at].0);
                if j - 1 > at {
                    assert(text_lt(entries[at].0, entries[j - 1].0));
                    lemma_lt_transitive(key, entries[at].0, entries[j - 1].0);
                }
            } else if i < at {
                assert(next[i] == entries[i] && next[j] == entries[j - 1]);
            } else {
                assert(next[i] == entries[i - 1] && next[j] == entries[j - 1]);
            }
        }
    }
}

/// An index: for each key the words found under it, each with its page. The
/// keys ascend.
pub struct Index {
    entries: Vec<(String, Vec<(String, u32)>)>,
}

impl View for Index {
    type V = IndexView;

    closed spec fn view(&self) -> IndexView {
        entries_view(self.entries@)
    }
}

impl Index {
    /// Whether the keys ascend: what holds of every index made by `new` and
    /// `add`.
    pub open spec fn wf(&self) -> bool {
        keys_ascend(self@)
    }

    /// The index without entries.
    pub fn new() -> (index: Index)
        ensures
            index@ == IndexView::empty(),
            index.wf(),
    {
        let index = Index { entries: Vec::new() };
        assert(entries_view(index.entries@) =~= Seq::empty());
        index
    }

    /// The number of entries.
    pub fn len(&self) -> (n: usize)
        ensures
            n == self@.len(),
    {
        self.entries.len()
    }

    /// The key of the entry at `i`.
    pub fn key(&self, i: usize) -> (key: &String)
        requires
            i < self@.len(),
        ensures
            key@ == self@[i as int].0,
    {
        &self.entries[i].0
    }

    /// The words of the entry at `i`, each with its page.
    pub fn occurrences(&self, i: usize) -> (found: &Vec<(String, u32)>)
        requires
            i < self@.len(),
        ensures
            occurrences_view(found@) == self@[i as int].1,
    {
        &self.entries[i].1
    }

    /// Adds a finding: under `key`, the word `word` on page `page`.
    pub fn add(&mut self, key: String, word: String, page: u32)
        ensures
            final(self)@ == with_finding(old(self)@, key@, word@, page),
            old(self).wf() ==> final(self).wf(),
    {
        let ghost start = entries_view(self.entries@);
        let mut at: usize = 0;
        assert(start.skip(0) =~= start);
        while at < self.entries.len() && before(&self.entries[at].0, &key)
            invariant
                at <= self.entries.len(),
                start == entries_view(self.entries@),
                position(start, key@) == at + position(start.skip(at as int), key@),
            decreases self.entries.len() - at,
        {
            assert(start.skip(at as int).drop_first() =~= start.skip(at + 1));
            at += 1;
        }
        proof {
            if at < self.entries.len() {
                assert(start.skip(at as int)[0] == start[at as int]);
            }
            if keys_ascend(start) {
                lemma_finding_keeps_order(start, key@, word@, page);
            }
        }
        if at < self.entries.len() && self.entries[at].0 == key {
            let mut entry = self.entries.remove(at);
            let ghost found = occurrences_view(entry.1@);
            entry.1.push((word, page));
            assert(occurrences_view(entry.1@) =~= found.push((word@, page)));
            self.entries.insert(at, entry);
            assert(entries_view(self.entries@) =~= with_finding(start, key@, word@, page));
        } else {
            let mut found: Vec<(String, u32)> = Vec::new();
            found.push((word, page));
            assert(occurrences_view(found@) =~= seq![(word@, page)]);
            self.entries.insert(at, (key, found));
            assert(entries_view(self.entries@) =~= with_finding(start, key@, word@, page));
        }
    }

    /// Adds the findings of one page: each match is a key and a word.
    pub fn add_matches(&mut self, matches: Vec<(String, String)>, page: u32)
        ensures
            final(self)@ == with_findings(old(self)@, pairs_view(matches@), page),
            old(self).wf() ==> final(self).wf(),
    {
        let ghost start = self@;
        let ghost ordered = self.wf();
        let ghost views = pairs_view(matches@);
        let mut i: usize = 0;
        assert(views.take(0) =~= Seq::empty());
        while i < matches.len()
            invariant
                i <= matches.len(),
                views == pairs_view(matches@),
                ordered ==> self.wf(),
                self@ == with_findings(start, views.take(i as int), page),
            decreases matches.len() - i,
        {
            proof {
                assert(views.take(i + 1).drop_last() =~= views.take(i as int));
                assert(views.take(i + 1).last() == (matches@[i as int].0@, matches@[i as int].1@));
            }
            self.add(matches[i].0.clone(), matches[i].1.clone(), page);
            i += 1;
        }
        assert(views.take(matches@.len() as int) =~= views);
    }
}

/// Why a page gives no matches.
#[derive(Clone, Copy, PartialEq, Eq, Structural, Debug)]
pub enum IndexError {
    /// A search in the whole text was asked for, and no list of words given.
    MissingWordList,
}

/// Whether the page `page_number` is to be read: every page is where no
/// pages are chosen, and otherwise those that were chosen.
pub fn page_selected(pages: &Option<Vec<u32>>, page_number: u32) -> (selected: bool)
    ensures
        selected == match pages {
            Some(chosen) => chosen@.contains(page_number),
            None => true,
        },
{
    match pages {
        None => true,
        Some(chosen) => {
            let mut i: usize = 0;
            while i < chosen.len()
                invariant
                    i <= chosen.len(),
                    *pages == Some(*chosen),
                    forall|j: int| 0 <= j < i ==> chosen@[j] != page_number,
                decreases chosen.len() - i,
            {
                if chosen[i] == page_number {
                    assert(chosen@[i as int] == page_number);
                    return true;
                }
                i += 1;
            }
            false
        },
    }
}

/// The texts of `texts` in their order, each the first time it occurs.
pub open spec fn unique_of(texts: Seq<Seq<char>>) -> Seq<Seq<char>>
    decreases texts.len(),
{
    if texts.len() == 0 {
        Seq::empty()
    } else {
        let before = unique_of(texts.drop_last());
        if before.contains(texts.last()) {
            before
        } else {
            before.push(texts.last())
        }
    }
}

/// The words of a list in lower case, each once.
pub fn lowered(words: &WordSet) -> (lower: WordSet)
    ensures
        lower@ == unique_of(words@.map_values(|w: Seq<char>| lowercase(w))),
        lower.wf(),
{
    let ghost views = words@.map_values(|w: Seq<char>| lowercase(w));
    let mut lower = WordSet::new();
    let mut i: usize = 0;
    assert(views.take(0) =~= Seq::empty());
    while i < words.len()
        invariant
            i <= words@.len(),
            views == words@.map_values(|w: Seq<char>| lowercase(w)),
            lower.wf(),
            lower@ == unique_of(views.take(i as int)),
        decreases words@.len() - i,
    {
        proof {
            assert(views.take(i + 1).drop_last() =~= views.take(i as int));
            assert(views.take(i + 1).last() == lowercase(words@[i as int]));
        }
        lower.insert(to_lowercase(words.get(i).as_str()));
        i += 1;
    }
    assert(views.take(words@.len() as int) =~= views);
    lower
}

/// The list of words as the search uses it: as it is for a search in the
/// whole text, and in lower case otherwise.
pub fn prepare_words(words: Option<WordSet>, whole_text: bool) -> (ready: Option<WordSet>)
    ensures
        match (words, ready) {
            (Some(given), Some(list)) => list@ == if whole_text {
                given@
            } else {
                unique_of(given@.map_values(|w: Seq<char>| lowercase(w)))
            },
            (None, None) => true,
            _ => false,
        },
{
    match words {
        Some(given) => if whole_text {
            Some(given)
        } else {
            Some(lowered(&given))
        },
        None => None,
    }
}

/// The value of an optional list of words.
pub open spec fn list_view(words: Option<WordSet>) -> Option<Seq<Seq<char>>> {
    match words {
        Some(list) => Some(list@),
        None => None,
    }
}

/// The matches of the text of a page: for a search in the whole text, the
/// listed words that occur in it, and otherwise its words.
pub open spec fn page_matches_of(
    text: Seq<char>,
    whole_text: bool,
    no_filtering: bool,
    words: Option<Seq<Seq<char>>>,
) -> Result<Seq<(Seq<char>, Seq<char>)>, IndexError> {
    if whole_text {
        match words {
            Some(list) => Ok(matches_of(lowercase(text), list)),
            None => Err(IndexError::MissingWordList),
        }
    } else {
        Ok(split(no_filtering, text, words))
    }
}

/// The matches of the text of a page. A search in the whole text needs a
/// list of words, and fails without one.
pub fn page_matches(
    text: &str,
    whole_text: bool,
    no_filtering: bool,
    words: &Option<WordSet>,
) -> (r: Result<Vec<(String, String)>, IndexError>)
    ensures
        match r {
            Ok(found) => page_matches_of(text@, whole_text, no_filtering, list_view(*words))
                == Ok::<Seq<(Seq<char>, Seq<char>)>, IndexError>(pairs_view(found@)),
            Err(e) => page_matches_of(text@, whole_text, no_filtering, list_view(*words))
                == Err::<Seq<(Seq<char>, Seq<char>)>, IndexError>(e),
        },
{
    if whole_text {
        match words {
            Some(list) => Ok(full_text(text, list)),
            None => Err(IndexError::MissingWordList),
        }
    } else {
        Ok(split_words(no_filtering, text, words))
    }
}

/// The number of page numbers at the front of `pages` that are below `page`.
pub open spec fn rank(pages: Seq<u32>, page: u32) -> int
    decreases pages.len(),
{
    if pages.len() == 0 || pages[0] >= page {
        0
    } else {
        1 + rank(pages.drop_first(), page)
    }
}

/// Ascending page numbers with one more: nothing changes where the number
/// is among them, and otherwise it stands at its place in the order.
pub open spec fn with_page(pages: Seq<u32>, page: u32) -> Seq<u32> {
    let at = rank(pages, page);
    if at < pages.len() && pages[at] == page {
        pages
    } else {
        pages.insert(at, page)
    }
}

/// The page numbers of `pages` in ascending order, each once.
pub open spec fn ascending_pages(pages: Seq<u32>) -> Seq<u32>
    decreases pages.len(),
{
    if pages.len() == 0 {
        Seq::empty()
    } else {
        with_page(ascending_pages(pages.drop_last()), pages.last())
    }
}

/// Whether page numbers ascend strictly.
pub open spec fn pages_ascend(pages: Seq<u32>) -> bool {
    forall|i: int, j: int| 0 <= i < j < pages.len() ==> pages[i] < pages[j]
}

/// The numbers before the rank of a page number are below it, and the number
/// at the rank is not.
pub proof fn lemma_rank(pages: Seq<u32>, page: u32)
    ensures
        0 <= rank(pages, page) <= pages.len(),
        forall|i: int| 0 <= i < rank(pages, page) ==> #[trigger] pages[i] < page,
        rank(pages, page) < pages.len() ==> pages[rank(pages, page)] >= page,
    decreases pages.len(),
{
    if pages.len() > 0 && pages[0] < page {
        let rest = pages.drop_first();
        lemma_rank(rest, page);
        assert forall|i: int| 0 <= i < rank(pages, page) implies #[trigger] pages[i] < page by {
            if i > 0 {
                assert(rest[i - 1] == pages[i]);
            }
        }
        if rank(pages, page) < pages.len() {
            assert(rest[rank(rest, page)] == pages[rank(pages, page)]);
        }
    }
}

/// Putting a page number among ascending page numbers adds just that
/// number, and leaves them ascending.
pub proof fn lemma_with_page(pages: Seq<u32>, page: u32)
    requires
        pages_ascend(pages),
    ensures
        pages_ascend(with_page(pages, page)),
        forall|other: u32|
            with_page(pages, page).contains(other) <==> (pages.contains(other) || other == page),
{
    let at = rank(pages, page);
    let next = with_page(pages, page);
    lemma_rank(pages, page);
    if at < pages.len() && pages[at] == page {
        assert(pages.contains(page));
    } else {
        assert forall|i: int, j: int| 0 <= i < j < next.len() implies next[i] < next[j] by {
            if i < at && j > at {
                assert(pages[i] < page);
                assert(next[j] == pages[j - 1]);
                if j - 1 > at {
                    assert(pages[at] < pages[j - 1]);
                }
            }
        }
        assert forall|other: u32| next.contains(other) <==> (pages.contains(other) || other
            == page) by {
            if pages.contains(other) {
                let k = choose|k: int| 0 <= k < pages.len() && pages[k] == other;
                if k < at {
                    assert(next[k] == other);
                } else {
                    assert(next[k + 1] == other);
                }
            }
            if other == page {
                assert(next[at] == other);
            }
            if next.contains(other) && other != page {
                let k = choose|k: int| 0 <= k < next.len() && next[k] == other;
                if k < at {
                    assert(pages[k] == other);
                } else {
                    assert(pages[k - 1] == other);
                }
            }
        }
    }
}

/// The page numbers in ascending order are just the page numbers that were
/// given, and they ascend strictly.
pub proof fn law_pages_in_order(pages: Seq<u32>)
    ensures
        pages_ascend(ascending_pages(pages)),
        forall|page: u32| ascending_pages(pages).contains(page) <==> pages.contains(page),
    decreases pages.len(),
{
    if pages.len() > 0 {
        let front = pages.drop_last();
        let last = pages.last();
        law_pages_in_order(front);
        lemma_with_page(ascending_pages(front), last);
        assert forall|page: u32| pages.contains(page) <==> (front.contains(page) || page
            == last) by {
            if front.contains(page) {
                let i = choose|i: int| 0 <= i < front.len() && front[i] == page;
                assert(pages[i] == page);
            }
            if page == last {
                assert(pages[pages.len() - 1] == page);
            }
            if pages.contains(page) && page != last {
                let i = choose|i: int| 0 <= i < pages.len() && pages[i] == page;
                assert(front[i] == page);
            }
        }
    }
}

/// The line that shows an entry: the words that were found, each once and
/// in the order of finding, a colon, and the pages in ascending order, each
/// once. Words and pages are separated by a comma and a space.
pub open spec fn line_of(found: Seq<(Seq<char>, u32)>) -> Seq<char> {
    joined(unique_of(found.map_values(|f: (Seq<char>, u32)| f.0)), ", "@) + ": "@ + joined(
        ascending_pages(found.map_values(|f: (Seq<char>, u32)| f.1)).map_values(
            |page: u32| decimal(page as nat),
        ),
        ", "@,
    )
}

/// The words of the findings, each once and in the order of finding.
fn unique_words(found: &Vec<(String, u32)>) -> (words: Vec<String>)
    ensures
        texts_view(words@) == unique_of(
            occurrences_view(found@).map_values(|f: (Seq<char>, u32)| f.0),
        ),
{
    let ghost views = occurrences_view(found@).map_values(|f: (Seq<char>, u32)| f.0);
    let mut words: Vec<String> = Vec::new();
    let mut i: usize = 0;
    assert(views.take(0) =~= Seq::empty());
    assert(texts_view(words@) =~= Seq::empty());
    while i < found.len()
        invariant
            i <= found.len(),
            views == occurrences_view(found@).map_values(|f: (Seq<char>, u32)| f.0),
            texts_view(words@) == unique_of(views.take(i as int)),
        decreases found.len() - i,
    {
        let word = &found[i].0;
        proof {
            assert(views.take(i + 1).drop_last() =~= views.take(i as int));
            assert(views.take(i + 1).last() == word@);
        }
        let ghost listed = texts_view(words@);
        let mut known = false;
        let mut j: usize = 0;
        while j < words.len()
            invariant
                j <= words.len(),
                listed == texts_view(words@),
                known ==> listed.contains(word@),
                !known ==> forall|k: int| 0 <= k < j ==> listed[k] != word@,
            decreases words.len() - j,
        {
            if words[j] == *word {
                assert(listed[j as int] == word@);
                known = true;
            }
            j += 1;
        }
        if !known {
            words.push(word.clone());
            assert(texts_view(words@) =~= listed.push(word@));
        }
        i += 1;
    }
    assert(views.take(found@.len() as int) =~= views);
    words
}

/// The pages of the findings in ascending order, each once.
fn sorted_pages(found: &Vec<(String, u32)>) -> (pages: Vec<u32>)
    ensures
        pages@ == ascending_pages(occurrences_view(found@).map_values(|f: (Seq<char>, u32)| f.1)),
{
    let ghost views = occurrences_view(found@).map_values(|f: (Seq<char>, u32)| f.1);
    let mut pages: Vec<u32> = Vec::new();
    let mut i: usize = 0;
    assert(views.take(0) =~= Seq::empty());
    while i < found.len()
        invariant
            i <= found.len(),
            views == occurrences_view(found@).map_values(|f: (Seq<char>, u32)| f.1),
            pages@ == ascending_pages(views.take(i as int)),
        decreases found.len() - i,
    {
        let page = found[i].1;
        proof {
            assert(views.take(i + 1).drop_last() =~= views.take(i as int));
            assert(views.take(i + 1).last() == page);
        }
        let ghost sorted = pages@;
        let mut at: usize = 0;
        assert(sorted.skip(0) =~= sorted);
        while at < pages.len() && pages[at] < page
            invariant
                at <= pages.len(),
                sorted == pages@,
                rank(sorted, page) == at + rank(sorted.skip(at as int), page),
            decreases pages.len() - at,
        {
            assert(sorted.skip(at as int).drop_first() =~= sorted.skip(at + 1));
            at += 1;
        }
        proof {
            if at < pages.len() {
                assert(sorted.skip(at as int)[0] == sorted[at as int]);
            }
        }
        if !(at < pages.len() && pages[at] == page) {
            pages.insert(at, page);
        }
        i += 1;
    }
    assert(views.take(found@.len() as int) =~= views);
    pages
}

/// The line that shows an entry of the index.
pub fn entry_line(found: &Vec<(String, u32)>) -> (line: String)
    ensures
        line@ == line_of(occurrences_view(found@)),
{
    let words = unique_words(found);
    let pages = sorted_pages(found);
    let mut numbers: Vec<String> = Vec::new();
    let mut i: usize = 0;
    while i < pages.len()
        invariant
            i <= pages.len(),
            texts_view(numbers@) == pages@.take(i as int).map_values(
                |page: u32| decimal(page as nat),
            ),
        decreases pages.len() - i,
    {
        let ghost listed = texts_view(numbers@);
        numbers.push(decimal_string(pages[i]));
        assert(texts_view(numbers@) =~= listed.push(decimal(pages@[i as int] as nat)));
        assert(pages@.take(i + 1).map_values(|page: u32| decimal(page as nat)) =~= listed.push(
            decimal(pages@[i as int] as nat),
        ));
        i += 1;
    }
    assert(pages@.take(pages@.len() as int) =~= pages@);
    let mut line = join_texts(&words, ", ");
    line.append(": ");
    let list = join_texts(&numbers, ", ");
    line.append(list.as_str());
    line
}

} // verus!
