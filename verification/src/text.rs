//! Tokenization of a corpus: splitting text into whitespace-delimited words.
//!
//! Tokens keep their original casing and any punctuation; runs of whitespace
//! act as a single delimiter, so no empty token is ever produced.

use vstd::prelude::*;

verus! {

/// The Unicode `White_Space` characters: the delimiters between words.
pub open spec fn is_space(c: char) -> bool {
    let n = c as u32;
    (9 <= n && n <= 13) || n == 32 || n == 0x85 || n == 0xa0 || n == 0x1680 || (0x2000 <= n
        && n <= 0x200a) || n == 0x2028 || n == 0x2029 || n == 0x202f || n == 0x205f || n == 0x3000
}

/// Executable test for `is_space`.
pub fn is_space_char(c: char) -> (r: bool)
    ensures
        r == is_space(c),
{
    let n = c as u32;
    (9 <= n && n <= 13) || n == 32 || n == 0x85 || n == 0xa0 || n == 0x1680 || (0x2000 <= n
        && n <= 0x200a) || n == 0x2028 || n == 0x2029 || n == 0x202f || n == 0x205f || n == 0x3000
}

/// A word as tokenization produces it: non-empty, with no whitespace inside.
pub open spec fn is_token(w: Seq<char>) -> bool {
    w.len() > 0 && forall|i: int| 0 <= i < w.len() ==> !is_space(w[i])
}

/// The tokens of `s`: the maximal runs of non-whitespace characters, in order.
///
/// Defined by peeling the last character: a whitespace character adds nothing,
/// a non-whitespace character either extends the token it is part of or, after
/// whitespace (or at the very start), opens a new one.
pub open spec fn tokenize(s: Seq<char>) -> Seq<Seq<char>>
    decreases s.len(),
{
    if s.len() == 0 {
        Seq::empty()
    } else {
        let done = tokenize(s.drop_last());
        let c = s.last();
        if is_space(c) {
            done
        } else if s.len() >= 2 && !is_space(s[s.len() - 2]) {
            done.update(done.len() - 1, done.last().push(c))
        } else {
            done.push(seq![c])
        }
    }
}

/// Text ending in a non-whitespace character has at least one token, and its
/// last token ends in that character.
pub proof fn lemma_tokenize_last_nonempty(s: Seq<char>)
    requires
        s.len() > 0,
        !is_space(s.last()),
    ensures
        tokenize(s).len() > 0,
        tokenize(s).last().len() > 0,
        tokenize(s).last().last() == s.last(),
    decreases s.len(),
{
    if s.len() >= 2 && !is_space(s[s.len() - 2]) {
        lemma_tokenize_last_nonempty(s.drop_last());
    }
}

/// Appending a whitespace character leaves the tokens unchanged.
pub proof fn lemma_tokenize_push_space(s: Seq<char>, c: char)
    requires
        is_space(c),
    ensures
        tokenize(s.push(c)) == tokenize(s),
{
    assert(s.push(c).drop_last() =~= s);
}

/// Appending a non-whitespace character after whitespace (or to empty text)
/// opens a new single-character token.
pub proof fn lemma_tokenize_push_new(s: Seq<char>, c: char)
    requires
        !is_space(c),
        s.len() == 0 || is_space(s.last()),
    ensures
        tokenize(s.push(c)) == tokenize(s).push(seq![c]),
{
    assert(s.push(c).drop_last() =~= s);
}

/// Appending a non-whitespace character after a non-whitespace character
/// extends the last token.
pub proof fn lemma_tokenize_push_extend(s: Seq<char>, c: char)
    requires
        !is_space(c),
        s.len() > 0,
        !is_space(s.last()),
    ensures
        tokenize(s).len() > 0,
        tokenize(s.push(c)) == tokenize(s).update(
            tokenize(s).len() - 1,
            tokenize(s).last().push(c),
        ),
{
    lemma_tokenize_last_nonempty(s);
    assert(s.push(c).drop_last() =~= s);
}

/// Appending a whole word after whitespace (or to empty text) appends exactly
/// one token: the word itself.
pub proof fn lemma_tokenize_append_token(s: Seq<char>, w: Seq<char>)
    requires
        is_token(w),
        s.len() == 0 || is_space(s.last()),
    ensures
        tokenize(s + w) == tokenize(s).push(w),
    decreases w.len(),
{
    if w.len() == 1 {
        assert(s + w =~= s.push(w[0]));
        lemma_tokenize_push_new(s, w[0]);
        assert(seq![w[0]] =~= w);
    } else {
        let w0 = w.drop_last();
        let c = w.last();
        lemma_tokenize_append_token(s, w0);
        assert(s + w =~= (s + w0).push(c));
        assert((s + w0).last() == w0.last());
        lemma_tokenize_push_extend(s + w0, c);
        assert(tokenize(s + w0).last() == w0);
        assert(w0.push(c) =~= w);
        assert(tokenize(s).push(w0).update(tokenize(s).push(w0).len() - 1, w) =~= tokenize(
            s,
        ).push(w));
    }
}

/// Every token that tokenization yields is a non-empty, whitespace-free word.
pub proof fn lemma_tokenize_all_tokens(s: Seq<char>)
    ensures
        forall|i: int| 0 <= i < tokenize(s).len() ==> is_token(#[trigger] tokenize(s)[i]),
    decreases s.len(),
{
    if s.len() > 0 {
        lemma_tokenize_all_tokens(s.drop_last());
        let done = tokenize(s.drop_last());
        let c = s.last();
        if !is_space(c) && s.len() >= 2 && !is_space(s[s.len() - 2]) {
            lemma_tokenize_last_nonempty(s.drop_last());
            assert(is_token(done.last().push(c)));
        }
    }
}

/// Character-by-character string equality: true exactly when the two views
/// are the same sequence of characters.
pub fn str_eq(a: &str, b: &str) -> (r: bool)
    ensures
        r == (a@ == b@),
{
    let n = a.unicode_len();
    if n != b.unicode_len() {
        return false;
    }
    let mut i: usize = 0;
    while i < n
        invariant
            i <= n,
            n == a@.len(),
            n == b@.len(),
            forall|j: int| 0 <= j < i ==> a@[j] == b@[j],
        decreases n - i,
    {
        if a.get_char(i) != b.get_char(i) {
            return false;
        }
        i = i + 1;
    }
    proof {
        assert(a@ =~= b@);
    }
    true
}

/// Splits `s` into its whitespace-delimited words.
pub fn split_tokens(s: &str) -> (tokens: Vec<String>)
    ensures
        tokens.deep_view() == tokenize(s@),
        forall|i: int| 0 <= i < tokens.len() ==> is_token(#[trigger] tokens.deep_view()[i]),
{
    let n = s.unicode_len();
    let mut tokens: Vec<String> = Vec::new();
    let mut i: usize = 0;
    while i < n
        invariant
            i <= n,
            n == s@.len(),
            tokens.deep_view() =~= tokenize(s@.take(i as int)),
            i < n && !is_space(s@[i as int]) ==> i == 0 || is_space(s@[i as int - 1]),
        decreases n - i,
    {
        let c = s.get_char(i);
        if is_space_char(c) {
            proof {
                assert(s@.take(i as int + 1) =~= s@.take(i as int).push(s@[i as int]));
                lemma_tokenize_push_space(s@.take(i as int), s@[i as int]);
            }
            i = i + 1;
        } else {
            let start = i;
            i = i + 1;
            while i < n && !is_space_char(s.get_char(i))
                invariant
                    start < i <= n,
                    n == s@.len(),
                    !is_space(s@[start as int]),
                    forall|j: int| start <= j < i ==> !is_space(s@[j]),
                decreases n - i,
            {
                i = i + 1;
            }
            let word = s.substring_char(start, i);
            tokens.push(word.to_owned());
            proof {
                let pre = s@.take(start as int);
                let w = s@.subrange(start as int, i as int);
                assert(s@.take(i as int) =~= pre + w);
                assert(is_token(w));
                lemma_tokenize_append_token(pre, w);
                assert(tokens.deep_view() =~= tokenize(s@.take(i as int)));
            }
        }
    }
    proof {
        assert(s@.take(n as int) =~= s@);
        lemma_tokenize_all_tokens(s@);
    }
    tokens
}

} // verus!
