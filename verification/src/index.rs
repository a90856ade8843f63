//! The bigram index: for each adjacent pair of corpus words, the words
//! observed immediately after that pair, duplicates retained so that a word
//! seen N times after a pair is N times as likely to be chosen later.

use vstd::prelude::*;
use crate::text::{is_token, tokenize, split_tokens, str_eq};

verus! {

/// One bigram key together with the words seen after it, in observation order.
pub struct Entry {
    pub w1: String,
    pub w2: String,
    pub succs: Vec<String>,
}

impl Entry {
    /// The key this entry is filed under.
    pub open spec fn key(self) -> (Seq<char>, Seq<char>) {
        (self.w1@, self.w2@)
    }

    /// Entry well-formedness: real words only, and at least one successor.
    pub open spec fn wf(self) -> bool {
        &&& is_token(self.w1@)
        &&& is_token(self.w2@)
        &&& self.succs@.len() > 0
        &&& forall|i: int|
            0 <= i < self.succs@.len() ==> is_token(#[trigger] self.succs.deep_view()[i])
    }
}

/// No two entries filed under the same key.
pub open spec fn unique_keys(es: Seq<Entry>) -> bool {
    forall|i: int, j: int|
        0 <= i < j < es.len() ==> (#[trigger] es[i].key()) != (#[trigger] es[j].key())
}

/// The abstract contents of a sequence of entries, as a map from keys to
/// successor lists; a later entry would win, though well-formed indexes never
/// file two entries under one key.
pub open spec fn entries_map(es: Seq<Entry>) -> Map<(Seq<char>, Seq<char>), Seq<Seq<char>>>
    decreases es.len(),
{
    if es.len() == 0 {
        Map::empty()
    } else {
        entries_map(es.drop_last()).insert(es.last().key(), es.last().succs.deep_view())
    }
}

/// A key is in the contents exactly when some entry is filed under it.
pub proof fn lemma_entries_map_dom(es: Seq<Entry>)
    ensures
        forall|k: (Seq<char>, Seq<char>)|
            #[trigger] entries_map(es).dom().contains(k) <==> exists|i: int|
                0 <= i < es.len() && (#[trigger] es[i].key()) == k,
    decreases es.len(),
{
    if es.len() > 0 {
        let prefix = es.drop_last();
        lemma_entries_map_dom(prefix);
        assert forall|k: (Seq<char>, Seq<char>)| #[trigger]
            entries_map(es).dom().contains(k) implies exists|i: int|
            0 <= i < es.len() && (#[trigger] es[i].key()) == k by {
            if k == es.last().key() {
                assert(es[es.len() - 1].key() == k);
            } else {
                assert(entries_map(prefix).dom().contains(k));
                let i = choose|i: int| 0 <= i < prefix.len() && (#[trigger] prefix[i].key()) == k;
                assert(es[i].key() == k);
            }
        }
        assert forall|k: (Seq<char>, Seq<char>)|
            exists|i: int|
                0 <= i < es.len() && (#[trigger] es[i].key()) == k implies #[trigger]
            entries_map(es).dom().contains(k) by {
            let i = choose|i: int| 0 <= i < es.len() && (#[trigger] es[i].key()) == k;
            if i < es.len() - 1 {
                assert(prefix[i].key() == k);
            }
        }
    }
}

/// With unique keys, each entry's successors are exactly the contents at its key.
pub proof fn lemma_entries_map_value(es: Seq<Entry>)
    requires
        unique_keys(es),
    ensures
        forall|i: int|
            0 <= i < es.len() ==> {
                &&& entries_map(es).dom().contains((#[trigger] es[i]).key())
                &&& entries_map(es)[es[i].key()] == es[i].succs.deep_view()
            },
    decreases es.len(),
{
    if es.len() > 0 {
        let prefix = es.drop_last();
        assert(forall|i: int| 0 <= i < prefix.len() ==> prefix[i] == es[i]);
        lemma_entries_map_value(prefix);
        assert forall|i: int| 0 <= i < es.len() implies {
            &&& entries_map(es).dom().contains((#[trigger] es[i]).key())
            &&& entries_map(es)[es[i].key()] == es[i].succs.deep_view()
        } by {
            if i < es.len() - 1 {
                assert(es[i].key() != es.last().key());
            }
        }
    }
}

/// Updating the entry filed under a key updates the contents at that key alone.
pub proof fn lemma_entries_map_update(es: Seq<Entry>, j: int, e: Entry)
    requires
        unique_keys(es),
        0 <= j < es.len(),
        e.key() == es[j].key(),
    ensures
        entries_map(es.update(j, e)) == entries_map(es).insert(e.key(), e.succs.deep_view()),
    decreases es.len(),
{
    let es2 = es.update(j, e);
    if j == es.len() - 1 {
        assert(es2.drop_last() =~= es.drop_last());
        assert(es2.last() == e);
        assert(entries_map(es2) =~= entries_map(es).insert(e.key(), e.succs.deep_view()));
    } else {
        let prefix = es.drop_last();
        assert(forall|i: int| 0 <= i < prefix.len() ==> prefix[i] == es[i]);
        assert(es2.drop_last() =~= prefix.update(j, e));
        lemma_entries_map_update(prefix, j, e);
        assert(es2.last() == es.last());
        assert(es.last() == es[es.len() - 1]);
        assert(e.key() != es.last().key());
        assert(entries_map(es2) =~= entries_map(es).insert(e.key(), e.succs.deep_view()));
    }
}

/// The index contents after the first `n` three-word windows of `toks` have
/// been recorded: window `m` appends `toks[m + 2]` to the successors of the
/// key `(toks[m], toks[m + 1])`.
pub open spec fn index_prefix(toks: Seq<Seq<char>>, n: int) -> Map<
    (Seq<char>, Seq<char>),
    Seq<Seq<char>>,
>
    decreases n,
{
    if n <= 0 {
        Map::empty()
    } else {
        let m = index_prefix(toks, n - 1);
        let k = (toks[n - 1], toks[n]);
        let w = toks[n + 1];
        if m.dom().contains(k) {
            m.insert(k, m[k].push(w))
        } else {
            m.insert(k, seq![w])
        }
    }
}

/// The full index of a token sequence: every three-word window recorded, in
/// order; the final one or two tokens start no window.
pub open spec fn index_of(toks: Seq<Seq<char>>) -> Map<(Seq<char>, Seq<char>), Seq<Seq<char>>> {
    index_prefix(toks, toks.len() as int - 2)
}

/// Contents well-formedness: keys and successors are real words, and no key
/// maps to an empty successor list.
pub open spec fn contents_wf(m: Map<(Seq<char>, Seq<char>), Seq<Seq<char>>>) -> bool {
    forall|k: (Seq<char>, Seq<char>)|
        #[trigger] m.dom().contains(k) ==> {
            &&& is_token(k.0)
            &&& is_token(k.1)
            &&& m[k].len() > 0
            &&& forall|i: int| 0 <= i < m[k].len() ==> is_token(#[trigger] m[k][i])
        }
}

/// A well-formed index has well-formed contents.
pub proof fn lemma_wf_contents(index: BigramIndex)
    requires
        index.wf(),
    ensures
        contents_wf(index@),
{
    lemma_entries_map_dom(index.entries@);
    lemma_entries_map_value(index.entries@);
    assert forall|k: (Seq<char>, Seq<char>)| #[trigger] index@.dom().contains(k) implies {
        &&& is_token(k.0)
        &&& is_token(k.1)
        &&& index@[k].len() > 0
        &&& forall|i: int| 0 <= i < index@[k].len() ==> is_token(#[trigger] index@[k][i])
    } by {
        let t = choose|t: int|
            0 <= t < index.entries@.len() && (#[trigger] index.entries@[t].key()) == k;
        assert(index.entries@[t].wf());
        assert(index@[k] == index.entries@[t].succs.deep_view());
    }
}

/// A bigram index, built once from a corpus and read-only thereafter.
pub struct BigramIndex {
    pub entries: Vec<Entry>,
}

impl View for BigramIndex {
    type V = Map<(Seq<char>, Seq<char>), Seq<Seq<char>>>;

    open spec fn view(&self) -> Self::V {
        entries_map(self.entries@)
    }
}

impl BigramIndex {
    /// Well-formedness: one entry per key, every entry well-formed.
    pub open spec fn wf(self) -> bool {
        &&& unique_keys(self.entries@)
        &&& forall|i: int| 0 <= i < self.entries@.len() ==> (#[trigger] self.entries@[i]).wf()
    }

    /// The successors recorded for the pair `(w1, w2)`, if the pair is a key.
    pub fn lookup<'a>(&'a self, w1: &str, w2: &str) -> (r: Option<&'a Vec<String>>)
        requires
            self.wf(),
        ensures
            match r {
                Some(v) => self@.dom().contains((w1@, w2@)) && v.deep_view() == self@[(w1@, w2@)],
                None => !self@.dom().contains((w1@, w2@)),
            },
    {
        proof {
            lemma_entries_map_dom(self.entries@);
            lemma_entries_map_value(self.entries@);
        }
        match find_entry(&self.entries, w1, w2) {
            Some(j) => Some(&self.entries[j].succs),
            None => None,
        }
    }

    /// All bigram keys, in entry order.
    pub fn keys(&self) -> (r: Vec<(String, String)>)
        ensures
            r@.len() == self.entries@.len(),
            forall|i: int|
                0 <= i < r@.len() ==> ((#[trigger] r@[i]).0@, r@[i].1@) == self.entries@[i].key(),
            forall|k: (Seq<char>, Seq<char>)|
                self@.dom().contains(k) <==> exists|i: int|
                    0 <= i < r@.len() && ((#[trigger] r@[i]).0@, r@[i].1@) == k,
    {
        let mut r: Vec<(String, String)> = Vec::new();
        let mut j: usize = 0;
        while j < self.entries.len()
            invariant
                j <= self.entries@.len(),
                r@.len() == j,
                forall|i: int|
                    0 <= i < j ==> ((#[trigger] r@[i]).0@, r@[i].1@) == self.entries@[i].key(),
            decreases self.entries@.len() - j,
        {
            let e = &self.entries[j];
            r.push((e.w1.clone(), e.w2.clone()));
            j = j + 1;
        }
        proof {
            lemma_entries_map_dom(self.entries@);
            assert forall|k: (Seq<char>, Seq<char>)| #[trigger]
                self@.dom().contains(k) implies exists|i: int|
                0 <= i < r@.len() && ((#[trigger] r@[i]).0@, r@[i].1@) == k by {
                let i = choose|i: int|
                    0 <= i < self.entries@.len() && (#[trigger] self.entries@[i].key()) == k;
                assert(((r@[i]).0@, r@[i].1@) == k);
            }
            assert forall|k: (Seq<char>, Seq<char>)|
                exists|i: int|
                    0 <= i < r@.len() && ((#[trigger] r@[i]).0@, r@[i].1@)
                        == k implies self@.dom().contains(k) by {
                let i = choose|i: int| 0 <= i < r@.len() && ((#[trigger] r@[i]).0@, r@[i].1@) == k;
                assert(self.entries@[i].key() == k);
            }
        }
        r
    }
}

/// The position of the entry filed under `(w1, w2)`, if there is one.
fn find_entry(entries: &Vec<Entry>, w1: &str, w2: &str) -> (r: Option<usize>)
    ensures
        match r {
            Some(j) => 0 <= j < entries@.len() && entries@[j as int].key() == (w1@, w2@),
            None => forall|j: int|
                0 <= j < entries@.len() ==> (#[trigger] entries@[j].key()) != (w1@, w2@),
        },
{
    let mut j: usize = 0;
    while j < entries.len()
        invariant
            j <= entries@.len(),
            forall|t: int| 0 <= t < j ==> (#[trigger] entries@[t].key()) != (w1@, w2@),
        decreases entries@.len() - j,
    {
        let e = &entries[j];
        if str_eq(e.w1.as_str(), w1) && str_eq(e.w2.as_str(), w2) {
            return Some(j);
        }
        j = j + 1;
    }
    None
}

/// Builds the bigram index of `corpus`: its tokens are the whitespace-
/// delimited words, and each three-word window `(w1, w2, w3)` appends `w3`
/// to the successors of the key `(w1, w2)`. Degenerate corpora (fewer than
/// three words) yield an empty index; the builder never fails.
pub fn generate_bigrams(corpus: &str) -> (index: BigramIndex)
    ensures
        index.wf(),
        index@ == index_of(tokenize(corpus@)),
        tokenize(corpus@).len() < 3 ==> index@.dom() == Set::<(Seq<char>, Seq<char>)>::empty(),
        forall|k: (Seq<char>, Seq<char>)|
            index@.dom().contains(k) ==> (#[trigger] index@[k]).len() > 0,
{
    let words = split_tokens(corpus);
    let ghost toks = tokenize(corpus@);
    let mut entries: Vec<Entry> = Vec::new();
    if words.len() < 3 {
        proof {
            assert(index_of(toks) =~= entries_map(entries@));
        }
        return BigramIndex { entries };
    }
    let end = words.len() - 2;
    let mut i: usize = 0;
    while i < end
        invariant
            words.deep_view() == toks,
            forall|t: int| 0 <= t < words@.len() ==> is_token(#[trigger] words.deep_view()[t]),
            3 <= words@.len(),
            words@.len() <= usize::MAX,
            end == words@.len() - 2,
            i <= end,
            unique_keys(entries@),
            forall|t: int| 0 <= t < entries@.len() ==> (#[trigger] entries@[t]).wf(),
            entries_map(entries@) == index_prefix(toks, i as int),
        decreases end - i,
    {
        let ghost k = (toks[i as int], toks[i as int + 1]);
        let ghost w = toks[i as int + 2];
        proof {
            assert(words.deep_view()[i as int] == words@[i as int]@);
            assert(words.deep_view()[i as int + 1] == words@[i as int + 1]@);
            assert(words.deep_view()[i as int + 2] == words@[i as int + 2]@);
            lemma_entries_map_dom(entries@);
        }
        let w3 = words[i + 2].clone();
        match find_entry(&entries, words[i].as_str(), words[i + 1].as_str()) {
            Some(j) => {
                let ghost es = entries@;
                let mut e = entries.remove(j);
                e.succs.push(w3);
                entries.insert(j, e);
                proof {
                    assert(entries@ =~= es.update(j as int, e));
                    lemma_entries_map_update(es, j as int, e);
                    assert(e.succs.deep_view() =~= es[j as int].succs.deep_view().push(w));
                    lemma_entries_map_value(es);
                    assert(entries_map(es).dom().contains(k));
                    assert(entries_map(es)[k] == es[j as int].succs.deep_view());
                    assert(entries_map(entries@) == index_prefix(toks, i as int + 1));
                }
            },
            None => {
                let ghost es = entries@;
                let mut succs: Vec<String> = Vec::new();
                succs.push(w3);
                let e = Entry { w1: words[i].clone(), w2: words[i + 1].clone(), succs };
                entries.push(e);
                proof {
                    assert(entries@.drop_last() =~= es);
                    assert(!entries_map(es).dom().contains(k));
                    assert(e.succs.deep_view() =~= seq![w]);
                    assert(entries_map(entries@) == index_prefix(toks, i as int + 1));
                    assert forall|t1: int, t2: int|
                        0 <= t1 < t2 < entries@.len() implies (#[trigger] entries@[t1].key())
                        != (#[trigger] entries@[t2].key()) by {
                        if t2 == entries@.len() - 1 {
                            assert(es[t1].key() != k);
                        } else {
                            assert(es[t1] == entries@[t1] && es[t2] == entries@[t2]);
                        }
                    }
                }
            },
        }
        i = i + 1;
    }
    proof {
        assert(entries_map(entries@) == index_of(toks));
        lemma_entries_map_dom(entries@);
        lemma_entries_map_value(entries@);
        assert forall|k: (Seq<char>, Seq<char>)|
            entries_map(entries@).dom().contains(k) implies (#[trigger] entries_map(entries@)[k]).len()
            > 0 by {
            let t = choose|t: int|
                0 <= t < entries@.len() && (#[trigger] entries@[t].key()) == k;
            assert(entries_map(entries@)[k] == entries@[t].succs.deep_view());
        }
    }
    BigramIndex { entries }
}

/// Index construction is deterministic: two indexes built from one corpus
/// have the same key set and, under each key, the same successor words with
/// the same multiplicities; randomness plays no part in indexing.
pub proof fn lemma_index_deterministic(a: BigramIndex, b: BigramIndex, corpus: Seq<char>)
    requires
        a@ == index_of(tokenize(corpus)),
        b@ == index_of(tokenize(corpus)),
    ensures
        a@ == b@,
        a@.dom() == b@.dom(),
        forall|k: (Seq<char>, Seq<char>)|
            a@.dom().contains(k) ==> (#[trigger] a@[k]).to_multiset() == b@[k].to_multiset(),
{
}

} // verus!
