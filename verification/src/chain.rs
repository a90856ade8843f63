//! The chain generator: random walks over a bigram index that produce either
//! a fixed number of words or whole sentences ending in `.`, `?` or `!`.

use vstd::prelude::*;
use crate::index::{BigramIndex, Entry, contents_wf, lemma_entries_map_dom,
    lemma_entries_map_value, lemma_wf_contents};
use crate::text::{is_space, is_token, tokenize, lemma_tokenize_push_space,
    lemma_tokenize_append_token};
use rand::RngExt;

verus! {

/// Why a generation call failed. Every failure is terminal for that call;
/// nothing is retried and no partial output is returned.
#[derive(Clone, Copy, Debug, PartialEq, Eq, Structural)]
pub enum Error {
    /// The index has no keys: the corpus had fewer than three words.
    EmptyIndex,
    /// No bigram key's first word begins with an uppercase letter.
    NoSentenceStarters,
    /// The walk reached a pair that never appears as a key in the index.
    NoSuccessors,
    /// The requested amount is below the minimum meaningful value.
    InvalidCount,
}

impl Error {
    /// The user-facing description of this error.
    pub open spec fn message_spec(self) -> Seq<char> {
        match self {
            Error::EmptyIndex => "No starting words could be found"@,
            Error::NoSentenceStarters => "No sentence starters could be found"@,
            Error::NoSuccessors => "Couldn't generate next word from bigram"@,
            Error::InvalidCount => "Requested amount is below the minimum"@,
        }
    }

    /// The user-facing description of this error.
    pub fn message(&self) -> (r: &'static str)
        ensures
            r@ == self.message_spec(),
    {
        match self {
            Error::EmptyIndex => "No starting words could be found",
            Error::NoSentenceStarters => "No sentence starters could be found",
            Error::NoSuccessors => "Couldn't generate next word from bigram",
            Error::InvalidCount => "Requested amount is below the minimum",
        }
    }
}

/// Relies on `rand::rng` and `rand::RngExt::random_range`: a uniformly
/// random index strictly below `n`, freshly drawn on every call.
#[verifier::external_body]
fn random_below(n: usize) -> (r: usize)
    requires
        n > 0,
    ensures
        r < n,
{
    rand::rng().random_range(0..n)
}

/// Whether a character is uppercase; what `char::is_uppercase` returns.
pub uninterp spec fn is_upper(c: char) -> bool;

/// Relies on `char::is_uppercase`: whether a character is uppercase is a
/// property of the character alone, named `is_upper` here.
#[verifier::external_body]
fn char_is_uppercase(c: char) -> (r: bool)
    ensures
        r == is_upper(c),
{
    c.is_uppercase()
}

/// A sentence-terminating character.
pub open spec fn is_terminal(c: char) -> bool {
    c == '.' || c == '?' || c == '!'
}

/// Executable test for `is_terminal` on the last character of a word.
fn ends_terminal(w: &str) -> (r: bool)
    requires
        w@.len() > 0,
    ensures
        r == is_terminal(w@.last()),
{
    let n = w.unicode_len();
    let c = w.get_char(n - 1);
    c == '.' || c == '?' || c == '!'
}

/// A key that may start a sentence: its first word begins uppercase.
pub open spec fn is_starter_key(k: (Seq<char>, Seq<char>)) -> bool {
    k.0.len() > 0 && is_upper(k.0[0])
}

/// Whether any key of the contents may start a sentence.
pub open spec fn has_starter(m: Map<(Seq<char>, Seq<char>), Seq<Seq<char>>>) -> bool {
    exists|k: (Seq<char>, Seq<char>)| #[trigger] m.dom().contains(k) && is_starter_key(k)
}

/// A closed index: every pair a walk can step to is again a key, so no walk
/// over it ever runs out of successors.
pub open spec fn closed_index(m: Map<(Seq<char>, Seq<char>), Seq<Seq<char>>>) -> bool {
    forall|k: (Seq<char>, Seq<char>), i: int|
        m.dom().contains(k) && 0 <= i < m[k].len() ==> m.dom().contains((k.1, #[trigger] m[k][i]))
}

/// A word sequence a walk over `m` can produce: it opens with a key of `m`,
/// and each later word was observed after the pair just before it.
pub open spec fn is_chain(m: Map<(Seq<char>, Seq<char>), Seq<Seq<char>>>, ws: Seq<Seq<char>>) -> bool {
    &&& ws.len() >= 2
    &&& m.dom().contains((ws[0], ws[1]))
    &&& forall|i: int|
        2 <= i < ws.len() ==> m.dom().contains((ws[i - 2], ws[i - 1])) && m[(ws[i - 2], ws[i
            - 1])].contains(#[trigger] ws[i])
}

/// The words of `ws` joined by `sep`.
pub open spec fn join_words(ws: Seq<Seq<char>>, sep: Seq<char>) -> Seq<char>
    decreases ws.len(),
{
    if ws.len() == 0 {
        Seq::empty()
    } else if ws.len() == 1 {
        ws[0]
    } else {
        join_words(ws.drop_last(), sep) + sep + ws.last()
    }
}

/// Whether some word sequence witnesses `words_shape` for `s`.
pub open spec fn some_words_shape(
    m: Map<(Seq<char>, Seq<char>), Seq<Seq<char>>>,
    s: Seq<char>,
    n: int,
) -> bool {
    exists|ws: Seq<Seq<char>>| words_shape(m, ws, s, n)
}

/// What a successful word-bounded walk returns: `n` chain words, joined by
/// single spaces, and nothing else.
pub open spec fn words_shape(
    m: Map<(Seq<char>, Seq<char>), Seq<Seq<char>>>,
    ws: Seq<Seq<char>>,
    s: Seq<char>,
    n: int,
) -> bool {
    &&& ws.len() == n
    &&& is_chain(m, ws)
    &&& s == join_words(ws, seq![' '])
    &&& tokenize(s) == ws
}

/// What a successful sentence walk returns: chain words from a starter key,
/// stopping at the first word past the opening pair that ends a sentence.
pub open spec fn sentence_shape(
    m: Map<(Seq<char>, Seq<char>), Seq<Seq<char>>>,
    ws: Seq<Seq<char>>,
    s: Seq<char>,
) -> bool {
    &&& ws.len() >= 3
    &&& is_chain(m, ws)
    &&& is_starter_key((ws[0], ws[1]))
    &&& s == join_words(ws, seq![' '])
    &&& tokenize(s) == ws
    &&& s.len() > 0
    &&& is_terminal(s.last())
    &&& ws.last().len() > 0
    &&& s.last() == ws.last().last()
    &&& forall|i: int| 2 <= i < ws.len() - 1 ==> !is_terminal((#[trigger] ws[i]).last())
}

/// Joining one more word appends one separator and the word.
pub proof fn lemma_join_push(ws: Seq<Seq<char>>, w: Seq<char>, sep: Seq<char>)
    requires
        ws.len() >= 1,
    ensures
        join_words(ws.push(w), sep) == join_words(ws, sep) + sep + w,
{
    assert(ws.push(w).drop_last() =~= ws);
}

/// A chain stays a chain when extended by a recorded successor of its last
/// pair.
pub proof fn lemma_chain_push(
    m: Map<(Seq<char>, Seq<char>), Seq<Seq<char>>>,
    ws: Seq<Seq<char>>,
    w: Seq<char>,
)
    requires
        is_chain(m, ws),
        m.dom().contains((ws[ws.len() - 2], ws[ws.len() - 1])),
        m[(ws[ws.len() - 2], ws[ws.len() - 1])].contains(w),
    ensures
        is_chain(m, ws.push(w)),
{
    let ws2 = ws.push(w);
    assert forall|i: int|
        2 <= i < ws2.len() implies m.dom().contains((ws2[i - 2], ws2[i - 1])) && m[(ws2[i - 2],
        ws2[i - 1])].contains(#[trigger] ws2[i]) by {
        if i < ws.len() {
            assert(ws2[i] == ws[i] && ws2[i - 1] == ws[i - 1] && ws2[i - 2] == ws[i - 2]);
        } else {
            assert(ws2[i] == w && ws2[i - 1] == ws[ws.len() - 1] && ws2[i - 2] == ws[ws.len()
                - 2]);
        }
    }
}

/// Appends a single space and then `w`, keeping track of the tokens.
fn push_word(s: &mut String, w: &str)
    requires
        old(s)@.len() > 0,
        !is_space(old(s)@.last()),
        is_token(w@),
    ensures
        final(s)@ == old(s)@ + seq![' '] + w@,
        tokenize(final(s)@) == tokenize(old(s)@).push(w@),
        final(s)@.len() > 0,
        final(s)@.last() == w@.last(),
        !is_space(final(s)@.last()),
{
    s.append(" ");
    let ghost mid = s@;
    s.append(w);
    proof {
        reveal_strlit(" ");
        assert(" "@ =~= seq![' ']);
        assert(mid =~= old(s)@.push(' '));
        lemma_tokenize_push_space(old(s)@, ' ');
        lemma_tokenize_append_token(mid, w@);
        assert(s@ =~= old(s)@ + seq![' '] + w@);
        assert(s@.last() == w@.last());
    }
}

/// Builds the opening of a walk: the two words of the starting key.
fn start_string(first: &str, second: &str) -> (s: String)
    requires
        is_token(first@),
        is_token(second@),
    ensures
        s@ == join_words(seq![first@, second@], seq![' ']),
        tokenize(s@) == seq![first@, second@],
        s@.len() > 0,
        s@.last() == second@.last(),
        !is_space(s@.last()),
{
    let mut s = String::new();
    s.append(first);
    proof {
        assert(s@ =~= Seq::<char>::empty() + first@);
        lemma_tokenize_append_token(Seq::empty(), first@);
        assert(tokenize(s@) =~= seq![first@]);
        assert(s@.last() == first@.last());
    }
    push_word(&mut s, second);
    proof {
        assert(tokenize(s@) =~= seq![first@, second@]);
        let sep = seq![' '];
        let ws = seq![first@, second@];
        let w1 = seq![first@];
        assert(ws.drop_last() =~= w1);
        assert(join_words(w1, sep) == w1[0]);
        assert(join_words(ws, sep) == join_words(ws.drop_last(), sep) + sep + ws.last());
        assert(join_words(ws, sep) == first@ + sep + second@);
        assert(s@ == join_words(ws, sep));
    }
    s
}

/// The sentence-starting keys among `es`, in entry order: those whose first
/// word begins with an uppercase letter.
pub open spec fn starter_keys_of(es: Seq<Entry>) -> Seq<(Seq<char>, Seq<char>)> {
    es.map_values(|e: Entry| e.key()).filter(|k: (Seq<char>, Seq<char>)| is_starter_key(k))
}

/// All sentence-starting keys of the index: those whose first word begins
/// with an uppercase letter, in entry order.
pub fn sentence_starters(index: &BigramIndex) -> (r: Vec<(String, String)>)
    requires
        index.wf(),
    ensures
        r@.map_values(|p: (String, String)| (p.0@, p.1@)) == starter_keys_of(index.entries@),
        forall|i: int|
            0 <= i < r@.len() ==> {
                &&& index@.dom().contains(((#[trigger] r@[i]).0@, r@[i].1@))
                &&& is_starter_key((r@[i].0@, r@[i].1@))
            },
        forall|k: (Seq<char>, Seq<char>)|
            #[trigger] index@.dom().contains(k) && is_starter_key(k) ==> exists|i: int|
                0 <= i < r@.len() && ((#[trigger] r@[i]).0@, r@[i].1@) == k,
        (r@.len() == 0) <==> !has_starter(index@),
{
    proof {
        lemma_entries_map_dom(index.entries@);
    }
    let ghost kseq = index.entries@.map_values(|e: Entry| e.key());
    let ghost pred = (|k: (Seq<char>, Seq<char>)| is_starter_key(k));
    let ghost pv = (|p: (String, String)| (p.0@, p.1@));
    let mut r: Vec<(String, String)> = Vec::new();
    let mut j: usize = 0;
    while j < index.entries.len()
        invariant
            index.wf(),
            j <= index.entries@.len(),
            kseq == index.entries@.map_values(|e: Entry| e.key()),
            pred == (|k: (Seq<char>, Seq<char>)| is_starter_key(k)),
            pv == (|p: (String, String)| (p.0@, p.1@)),
            r@.map_values(pv) == kseq.take(j as int).filter(pred),
            forall|i: int|
                0 <= i < r@.len() ==> {
                    &&& index@.dom().contains(((#[trigger] r@[i]).0@, r@[i].1@))
                    &&& is_starter_key((r@[i].0@, r@[i].1@))
                },
            forall|t: int|
                0 <= t < j && is_starter_key((#[trigger] index.entries@[t]).key()) ==> exists|i: int|
                    0 <= i < r@.len() && ((#[trigger] r@[i]).0@, r@[i].1@)
                        == index.entries@[t].key(),
            forall|k: (Seq<char>, Seq<char>)|
                #[trigger] index@.dom().contains(k) <==> exists|i: int|
                    0 <= i < index.entries@.len() && (#[trigger] index.entries@[i].key()) == k,
        decreases index.entries@.len() - j,
    {
        let e = &index.entries[j];
        let ghost old_r = r@;
        let ghost pre = kseq.take(j as int);
        let ghost pre2 = kseq.take(j as int + 1);
        if char_is_uppercase(e.w1.as_str().get_char(0)) {
            r.push((e.w1.clone(), e.w2.clone()));
            proof {
                assert(index@.dom().contains(index.entries@[j as int].key()));
                assert(((r@[r@.len() - 1]).0@, r@[r@.len() - 1].1@)
                    == index.entries@[j as int].key());
            }
        }
        proof {
            reveal(Seq::filter);
            assert(pre2.drop_last() =~= pre);
            assert(pre2.last() == index.entries@[j as int].key());
            if pred(pre2.last()) {
                assert(pre2.filter(pred) == pre.filter(pred).push(pre2.last()));
                assert(r@.map_values(pv) =~= old_r.map_values(pv).push(
                    (r@[r@.len() - 1].0@, r@[r@.len() - 1].1@),
                ));
            } else {
                assert(pre2.filter(pred) == pre.filter(pred));
            }
            assert(r@.map_values(pv) == pre2.filter(pred));
        }
        proof {
            assert forall|t: int|
                0 <= t < j + 1 && is_starter_key(
                    (#[trigger] index.entries@[t]).key(),
                ) implies exists|i: int|
                0 <= i < r@.len() && ((#[trigger] r@[i]).0@, r@[i].1@)
                    == index.entries@[t].key() by {
                if t < j {
                    let i = choose|i: int|
                        0 <= i < old_r.len() && ((#[trigger] old_r[i]).0@, old_r[i].1@)
                            == index.entries@[t].key();
                    assert(((r@[i]).0@, r@[i].1@) == index.entries@[t].key());
                }
            }
        }
        j = j + 1;
    }
    proof {
        assert(kseq.take(index.entries@.len() as int) =~= kseq);
        assert(r@.map_values(pv) == starter_keys_of(index.entries@));
        assert forall|k: (Seq<char>, Seq<char>)|
            #[trigger] index@.dom().contains(k) && is_starter_key(k) implies exists|i: int|
            0 <= i < r@.len() && ((#[trigger] r@[i]).0@, r@[i].1@) == k by {
            let t = choose|t: int|
                0 <= t < index.entries@.len() && (#[trigger] index.entries@[t].key()) == k;
            assert(is_starter_key(index.entries@[t].key()));
            assert(exists|i: int|
                0 <= i < r@.len() && ((#[trigger] r@[i]).0@, r@[i].1@)
                    == index.entries@[t].key());
        }
        if r@.len() > 0 {
            assert(index@.dom().contains(((r@[0]).0@, r@[0].1@)));
            assert(has_starter(index@));
        }
        if has_starter(index@) {
            let k = choose|k: (Seq<char>, Seq<char>)|
                #[trigger] index@.dom().contains(k) && is_starter_key(k);
            assert(exists|i: int| 0 <= i < r@.len() && ((#[trigger] r@[i]).0@, r@[i].1@) == k);
            assert(r@.len() > 0);
        }
    }
    r
}

/// Generates `amount` words by a random walk: a random starting key, then
/// repeated uniformly random choices among the recorded successors.
#[verifier::rlimit(60)]
pub fn generate_words(index: &BigramIndex, amount: u32) -> (r: Result<String, Error>)
    requires
        index.wf(),
    ensures
        (r == Err::<String, Error>(Error::InvalidCount)) <==> amount < 2,
        amount >= 2 ==> ((r == Err::<String, Error>(Error::EmptyIndex))
            <==> index@.dom().is_empty()),
        (r == Err::<String, Error>(Error::NoSuccessors)) ==> amount > 3 && !closed_index(index@),
        r matches Err(e) ==> (e == Error::InvalidCount || e == Error::EmptyIndex
            || e == Error::NoSuccessors),
        r matches Ok(s) ==> (amount >= 2 && some_words_shape(index@, s@, amount as int)),
        amount >= 2 && !index@.dom().is_empty() && closed_index(index@) ==> r matches Ok(_),
{
    if amount < 2 {
        return Err(Error::InvalidCount);
    }
    proof {
        lemma_wf_contents(*index);
        lemma_entries_map_dom(index.entries@);
        lemma_entries_map_value(index.entries@);
    }
    if index.entries.len() == 0 {
        proof {
            assert forall|k: (Seq<char>, Seq<char>)| !(#[trigger] index@.dom().contains(k)) by {}
            assert(index@.dom() =~= Set::empty());
        }
        return Err(Error::EmptyIndex);
    }
    let start = random_below(index.entries.len());
    proof {
        assert(index@.dom().contains(index.entries@[start as int].key()));
    }
    let first = index.entries[start].w1.clone();
    let second = index.entries[start].w2.clone();
    let mut s = start_string(first.as_str(), second.as_str());
    let ghost mut ws: Seq<Seq<char>> = seq![first@, second@];
    let mut cur1 = first;
    let mut cur2 = second;
    let mut produced: u32 = 2;
    while produced < amount
        invariant
            index.wf(),
            contents_wf(index@),
            !index@.dom().is_empty(),
            2 <= produced <= amount,
            ws.len() == produced,
            is_chain(index@, ws),
            s@ == join_words(ws, seq![' ']),
            tokenize(s@) == ws,
            s@.len() > 0,
            !is_space(s@.last()),
            cur1@ == ws[ws.len() - 2],
            cur2@ == ws[ws.len() - 1],
        decreases amount - produced,
    {
        match index.lookup(cur1.as_str(), cur2.as_str()) {
            None => {
                proof {
                    let j = ws.len() as int;
                    assert(ws[j - 2] == cur1@ && ws[j - 1] == cur2@);
                    if j == 2 {
                        assert(index@.dom().contains((ws[0], ws[1])));
                        assert(false);
                    } else {
                        let k0 = (ws[j - 3], ws[j - 2]);
                        assert(index@.dom().contains(k0) && index@[k0].contains(ws[j - 1]));
                        let t = choose|t: int|
                            0 <= t < index@[k0].len() && index@[k0][t] == ws[j - 1];
                        assert(!index@.dom().contains((k0.1, index@[k0][t])));
                        assert(!closed_index(index@));
                        assert(amount > 3);
                    }
                }
                return Err(Error::NoSuccessors);
            },
            Some(succs) => {
                let ghost key = (cur1@, cur2@);
                proof {
                    assert(index@[key].len() > 0);
                    assert(succs.deep_view() == index@[key]);
                }
                let pick = random_below(succs.len());
                let next = succs[pick].clone();
                proof {
                    assert(next@ == succs.deep_view()[pick as int]);
                    assert(is_token(next@));
                    assert(index@[key].contains(next@)) by {
                        assert(index@[key][pick as int] == next@);
                    }
                }
                push_word(&mut s, next.as_str());
                proof {
                    lemma_chain_push(index@, ws, next@);
                    lemma_join_push(ws, next@, seq![' ']);
                    ws = ws.push(next@);
                }
                cur1 = cur2;
                cur2 = next;
                produced = produced + 1;
            },
        }
    }
    proof {
        assert(words_shape(index@, ws, s@, amount as int));
        assert(some_words_shape(index@, s@, amount as int));
    }
    Ok(s)
}

/// Every unfinished sentence walk can go on and ends before `max` words: a
/// chain from a starter key whose words past the opening pair are all
/// non-terminal is shorter than `max`, and its last pair is again a key.
/// Under this bound no sentence walk can fail, however the draws fall.
pub open spec fn all_starter_walks_finish(
    m: Map<(Seq<char>, Seq<char>), Seq<Seq<char>>>,
    max: int,
) -> bool {
    forall|ws: Seq<Seq<char>>|
        #[trigger] is_chain(m, ws) && is_starter_key((ws[0], ws[1])) && (forall|i: int|
            2 <= i < ws.len() ==> !is_terminal((#[trigger] ws[i]).last())) ==> ws.len() < max
            && m.dom().contains((ws[ws.len() - 2], ws[ws.len() - 1]))
}

/// Whether some word sequence of at most `n` words witnesses
/// `sentence_shape` for `s`.
pub open spec fn some_sentence_shape(
    m: Map<(Seq<char>, Seq<char>), Seq<Seq<char>>>,
    s: Seq<char>,
    n: int,
) -> bool {
    exists|ws: Seq<Seq<char>>| sentence_shape(m, ws, s) && ws.len() <= n
}

/// The default bound on the words of a single sentence.
pub const MAX_SENTENCE_WORDS: u32 = 1000000;

/// Generates one sentence: a uniformly random starter key, then the random
/// walk, stopping at the first word that ends in `.`, `?` or `!`.
///
/// A corpus can make unbounded sentences possible, so the walk gives up with
/// `NoSuccessors` once it has produced `max_words` words without a sentence
/// end; the bound makes every call return.
#[verifier::rlimit(100)]
pub fn generate_sentence_with_limit(index: &BigramIndex, max_words: u32) -> (r: Result<
    String,
    Error,
>)
    requires
        index.wf(),
    ensures
        (r == Err::<String, Error>(Error::EmptyIndex)) <==> index@.dom().is_empty(),
        (r == Err::<String, Error>(Error::NoSentenceStarters)) <==> (!index@.dom().is_empty()
            && !has_starter(index@)),
        r matches Err(e) ==> (e == Error::EmptyIndex || e == Error::NoSentenceStarters
            || e == Error::NoSuccessors),
        (r == Err::<String, Error>(Error::NoSuccessors)) ==> !index@.dom().is_empty()
            && has_starter(index@),
        r matches Ok(s) ==> some_sentence_shape(index@, s@, max_words as int),
        !index@.dom().is_empty() && has_starter(index@) && all_starter_walks_finish(
            index@,
            max_words as int,
        ) ==> r matches Ok(_),
{
    proof {
        lemma_wf_contents(*index);
        lemma_entries_map_dom(index.entries@);
        lemma_entries_map_value(index.entries@);
    }
    if index.entries.len() == 0 {
        proof {
            assert forall|k: (Seq<char>, Seq<char>)| !(#[trigger] index@.dom().contains(k)) by {}
            assert(index@.dom() =~= Set::empty());
        }
        return Err(Error::EmptyIndex);
    }
    proof {
        assert(index@.dom().contains(index.entries@[0].key()));
    }
    let starters = sentence_starters(index);
    if starters.len() == 0 {
        return Err(Error::NoSentenceStarters);
    }
    let pick = random_below(starters.len());
    let first = starters[pick].0.clone();
    let second = starters[pick].1.clone();
    proof {
        assert(index@.dom().contains((first@, second@)));
        assert(is_starter_key((first@, second@)));
    }
    let mut s = start_string(first.as_str(), second.as_str());
    let ghost mut ws: Seq<Seq<char>> = seq![first@, second@];
    let mut cur1 = first;
    let mut cur2 = second;
    let mut produced: u32 = 2;
    while produced < max_words
        invariant
            index.wf(),
            contents_wf(index@),
            !index@.dom().is_empty(),
            has_starter(index@),
            2 <= produced,
            ws.len() == produced,
            is_chain(index@, ws),
            is_starter_key((ws[0], ws[1])),
            s@ == join_words(ws, seq![' ']),
            tokenize(s@) == ws,
            s@.len() > 0,
            !is_space(s@.last()),
            cur1@ == ws[ws.len() - 2],
            cur2@ == ws[ws.len() - 1],
            forall|i: int| 2 <= i < ws.len() ==> !is_terminal((#[trigger] ws[i]).last()),
        decreases max_words - produced,
    {
        match index.lookup(cur1.as_str(), cur2.as_str()) {
            None => {
                proof {
                    assert(ws[ws.len() - 2] == cur1@ && ws[ws.len() - 1] == cur2@);
                    assert(!all_starter_walks_finish(index@, max_words as int)) by {
                        if all_starter_walks_finish(index@, max_words as int) {
                            assert(is_chain(index@, ws));
                            assert(index@.dom().contains((ws[ws.len() - 2], ws[ws.len() - 1])));
                            assert(false);
                        }
                    }
                }
                return Err(Error::NoSuccessors);
            },
            Some(succs) => {
                let ghost key = (cur1@, cur2@);
                proof {
                    assert(index@[key].len() > 0);
                    assert(succs.deep_view() == index@[key]);
                }
                let pick2 = random_below(succs.len());
                let next = succs[pick2].clone();
                proof {
                    assert(next@ == succs.deep_view()[pick2 as int]);
                    assert(is_token(next@));
                    assert(index@[key].contains(next@)) by {
                        assert(index@[key][pick2 as int] == next@);
                    }
                }
                push_word(&mut s, next.as_str());
                produced = produced + 1;
                let ghost prev = ws;
                proof {
                    lemma_chain_push(index@, ws, next@);
                    lemma_join_push(ws, next@, seq![' ']);
                    ws = ws.push(next@);
                }
                if ends_terminal(next.as_str()) {
                    proof {
                        assert(ws[ws.len() - 1] == next@);
                        assert forall|i: int|
                            2 <= i < ws.len() - 1 implies !is_terminal(
                            (#[trigger] ws[i]).last(),
                        ) by {
                            assert(ws[i] == prev[i]);
                        }
                        assert(sentence_shape(index@, ws, s@));
                        assert(some_sentence_shape(index@, s@, max_words as int));
                    }
                    return Ok(s);
                }
                proof {
                    assert forall|i: int|
                        2 <= i < ws.len() implies !is_terminal((#[trigger] ws[i]).last()) by {
                        if i < prev.len() {
                            assert(ws[i] == prev[i]);
                        } else {
                            assert(ws[i] == next@);
                        }
                    }
                }
                cur1 = cur2;
                cur2 = next;
            },
        }
    }
    proof {
        assert(!all_starter_walks_finish(index@, max_words as int)) by {
            if all_starter_walks_finish(index@, max_words as int) {
                assert(is_chain(index@, ws));
                assert(ws.len() < max_words as int);
                assert(false);
            }
        }
    }
    Err(Error::NoSuccessors)
}

/// Generates one sentence with the default word bound
/// (`MAX_SENTENCE_WORDS`); see `generate_sentence_with_limit`.
pub fn generate_sentence(index: &BigramIndex) -> (r: Result<String, Error>)
    requires
        index.wf(),
    ensures
        (r == Err::<String, Error>(Error::EmptyIndex)) <==> index@.dom().is_empty(),
        (r == Err::<String, Error>(Error::NoSentenceStarters)) <==> (!index@.dom().is_empty()
            && !has_starter(index@)),
        r matches Err(e) ==> (e == Error::EmptyIndex || e == Error::NoSentenceStarters
            || e == Error::NoSuccessors),
        (r == Err::<String, Error>(Error::NoSuccessors)) ==> !index@.dom().is_empty()
            && has_starter(index@),
        r matches Ok(s) ==> some_sentence_shape(index@, s@, MAX_SENTENCE_WORDS as int),
        !index@.dom().is_empty() && has_starter(index@) && all_starter_walks_finish(
            index@,
            MAX_SENTENCE_WORDS as int,
        ) ==> r matches Ok(_),
{
    generate_sentence_with_limit(index, MAX_SENTENCE_WORDS)
}

/// What a successful multi-sentence call returns: `n` sentences, each of
/// `sentence_shape`, joined by blank lines.
pub open spec fn sentences_shape(
    m: Map<(Seq<char>, Seq<char>), Seq<Seq<char>>>,
    parts: Seq<Seq<char>>,
    s: Seq<char>,
    n: int,
    limit: int,
) -> bool {
    &&& parts.len() == n
    &&& s == join_words(parts, seq!['\n', '\n'])
    &&& forall|i: int| 0 <= i < parts.len() ==> some_sentence_shape(m, #[trigger] parts[i], limit)
}

/// Whether some sentence split witnesses `sentences_shape` for `s`.
pub open spec fn some_sentences_shape(
    m: Map<(Seq<char>, Seq<char>), Seq<Seq<char>>>,
    s: Seq<char>,
    n: int,
    limit: int,
) -> bool {
    exists|parts: Seq<Seq<char>>| sentences_shape(m, parts, s, n, limit)
}

/// Generates `amount` sentences, joined by blank lines.
#[verifier::rlimit(60)]
pub fn generate_sentences(index: &BigramIndex, amount: u32) -> (r: Result<String, Error>)
    requires
        index.wf(),
    ensures
        (r == Err::<String, Error>(Error::InvalidCount)) <==> amount == 0,
        amount >= 1 ==> ((r == Err::<String, Error>(Error::EmptyIndex))
            <==> index@.dom().is_empty()),
        amount >= 1 ==> ((r == Err::<String, Error>(Error::NoSentenceStarters)) <==> (
        !index@.dom().is_empty() && !has_starter(index@))),
        r matches Err(e) ==> (e == Error::InvalidCount || e == Error::EmptyIndex
            || e == Error::NoSentenceStarters || e == Error::NoSuccessors),
        (r == Err::<String, Error>(Error::NoSuccessors)) ==> !index@.dom().is_empty()
            && has_starter(index@),
        r matches Ok(s) ==> (amount >= 1 && s@.len() > 0 && is_terminal(s@.last())
            && some_sentences_shape(index@, s@, amount as int, MAX_SENTENCE_WORDS as int)),
        amount >= 1 && !index@.dom().is_empty() && has_starter(index@)
            && all_starter_walks_finish(index@, MAX_SENTENCE_WORDS as int) ==> r matches Ok(_),
{
    if amount == 0 {
        return Err(Error::InvalidCount);
    }
    let mut out = match generate_sentence(index) {
        Ok(s) => s,
        Err(e) => {
            return Err(e);
        },
    };
    let ghost nl2 = seq!['\n', '\n'];
    let ghost mut parts: Seq<Seq<char>> = seq![out@];
    proof {
        assert(join_words(parts, nl2) == parts[0]);
        let ws0 = choose|ws: Seq<Seq<char>>|
            sentence_shape(index@, ws, out@) && ws.len() <= MAX_SENTENCE_WORDS as int;
        assert(out@.len() > 0 && is_terminal(out@.last()));
        assert forall|i: int|
            0 <= i < parts.len() implies some_sentence_shape(
            index@,
            #[trigger] parts[i],
            MAX_SENTENCE_WORDS as int,
        ) by {
            assert(parts[i] == out@);
        }
    }
    let mut made: u32 = 1;
    while made < amount
        invariant
            index.wf(),
            !index@.dom().is_empty(),
            has_starter(index@),
            1 <= made <= amount,
            parts.len() == made,
            out@ == join_words(parts, nl2),
            nl2 == seq!['\n', '\n'],
            forall|i: int|
                0 <= i < parts.len() ==> some_sentence_shape(
                    index@,
                    #[trigger] parts[i],
                    MAX_SENTENCE_WORDS as int,
                ),
            out@.len() > 0,
            is_terminal(out@.last()),
        decreases amount - made,
    {
        match generate_sentence(index) {
            Err(e) => {
                return Err(e);
            },
            Ok(next) => {
                let ghost before = out@;
                out.append("\n\n");
                out.append(next.as_str());
                proof {
                    reveal_strlit("\n\n");
                    assert("\n\n"@ =~= nl2);
                    let ws1 = choose|ws: Seq<Seq<char>>|
                        sentence_shape(index@, ws, next@) && ws.len() <= MAX_SENTENCE_WORDS as int;
                    assert(next@.len() > 0 && is_terminal(next@.last()));
                    let parts2 = parts.push(next@);
                    assert(parts2.drop_last() =~= parts);
                    assert(join_words(parts2, nl2) == join_words(parts, nl2) + nl2 + next@);
                    assert(out@ =~= before + nl2 + next@);
                    assert(out@ == join_words(parts2, nl2));
                    assert(out@.last() == next@.last());
                    assert forall|i: int|
                        0 <= i < parts2.len() implies some_sentence_shape(
                        index@,
                        #[trigger] parts2[i],
                        MAX_SENTENCE_WORDS as int,
                    ) by {
                        if i < parts.len() {
                            assert(parts2[i] == parts[i]);
                        } else {
                            assert(parts2[i] == next@);
                        }
                    }
                    parts = parts2;
                }
                made = made + 1;
            },
        }
    }
    proof {
        assert(sentences_shape(index@, parts, out@, amount as int, MAX_SENTENCE_WORDS as int));
        assert(some_sentences_shape(index@, out@, amount as int, MAX_SENTENCE_WORDS as int));
    }
    Ok(out)
}

} // verus!
