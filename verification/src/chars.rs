//! Text as a sequence of characters: conversion from and to strings, and the
//! splitting of a line into words at runs of ASCII whitespace.

use vstd::prelude::*;

verus! {

/// The characters of `s`, in order.
pub fn chars_of(s: &str) -> (v: Vec<char>)
    ensures
        v@ == s@,
{
    let mut v: Vec<char> = Vec::new();
    for c in it: s.chars()
        invariant
            v@ == it.seq().take(it.index()),
            it.seq() == s@,
    {
        v.push(c);
    }
    v
}

/// Collects characters into a `String` with `Iterator::collect`, which
/// keeps every character and their order.
#[verifier::external_body]
pub(crate) fn string_of(chars: &[char]) -> (s: String)
    ensures
        s@ == chars@,
{
    chars.iter().collect()
}

/// The ASCII whitespace characters: space, tab, line feed, form feed and
/// carriage return.
pub open spec fn is_space(c: char) -> bool {
    c == ' ' || c == '\t' || c == '\n' || c == '\x0C' || c == '\r'
}

/// No character of `s` is ASCII whitespace.
pub open spec fn no_space(s: Seq<char>) -> bool {
    forall|i: int| 0 <= i < s.len() ==> !is_space(#[trigger] s[i])
}

/// The number of characters at the start of `s` before the first whitespace.
pub open spec fn word_len(s: Seq<char>) -> nat
    decreases s.len(),
{
    if s.len() == 0 || is_space(s[0]) {
        0
    } else {
        1 + word_len(s.drop_first())
    }
}

/// The words of `s`: its maximal runs of characters other than whitespace,
/// from left to right.
pub open spec fn words(s: Seq<char>) -> Seq<Seq<char>>
    decreases s.len(),
{
    if s.len() == 0 {
        Seq::empty()
    } else if is_space(s[0]) {
        words(s.drop_first())
    } else {
        proof {
            lemma_word_len_bounds(s);
        }
        seq![s.take(word_len(s) as int)] + words(s.skip(word_len(s) as int))
    }
}

/// The words joined by single spaces, an empty text so far taking no space
/// before the next word.
pub open spec fn join(ws: Seq<Seq<char>>) -> Seq<char>
    decreases ws.len(),
{
    if ws.len() == 0 {
        Seq::empty()
    } else {
        let head = join(ws.drop_last());
        if head.len() == 0 {
            ws.last()
        } else {
            head + seq![' '] + ws.last()
        }
    }
}

/// A word starts where the text does not start with whitespace, it ends at
/// whitespace or at the end of the text, and it holds no whitespace.
pub proof fn lemma_word_len_bounds(s: Seq<char>)
    ensures
        word_len(s) <= s.len(),
        s.len() > 0 && !is_space(s[0]) ==> word_len(s) >= 1,
        word_len(s) < s.len() ==> is_space(s[word_len(s) as int]),
        no_space(s.take(word_len(s) as int)),
    decreases s.len(),
{
    if s.len() == 0 || is_space(s[0]) {
    } else {
        let rest = s.drop_first();
        lemma_word_len_bounds(rest);
        let n = word_len(rest) as int;
        assert forall|i: int| 0 <= i < n + 1 implies !is_space(#[trigger] s.take(n + 1)[i]) by {
            if i > 0 {
                assert(s.take(n + 1)[i] == rest.take(n)[i - 1]);
            }
        }
    }
}

fn is_space_char(c: char) -> (b: bool)
    ensures
        b == is_space(c),
{
    c == ' ' || c == '\t' || c == '\n' || c == '\x0C' || c == '\r'
}

/// Leading whitespace does not change the words of a text.
pub proof fn lemma_words_skip_spaces(s: Seq<char>, n: int)
    requires
        0 <= n <= s.len(),
        forall|i: int| 0 <= i < n ==> is_space(#[trigger] s[i]),
    ensures
        words(s) == words(s.skip(n)),
    decreases n,
{
    if n == 0 {
        assert(s.skip(0) =~= s);
    } else {
        let rest = s.drop_first();
        assert forall|i: int| 0 <= i < n - 1 implies is_space(#[trigger] rest[i]) by {
            assert(rest[i] == s[i + 1]);
        }
        lemma_words_skip_spaces(rest, n - 1);
        assert(rest.skip(n - 1) =~= s.skip(n));
    }
}

/// The length of the word at the start of `s` is where its first whitespace
/// stands.
pub proof fn lemma_word_len_is(s: Seq<char>, n: int)
    requires
        0 <= n <= s.len(),
        forall|i: int| 0 <= i < n ==> !is_space(#[trigger] s[i]),
        n < s.len() ==> is_space(s[n]),
    ensures
        word_len(s) == n,
    decreases n,
{
    if n == 0 {
    } else {
        let rest = s.drop_first();
        assert forall|i: int| 0 <= i < n - 1 implies !is_space(#[trigger] rest[i]) by {
            assert(rest[i] == s[i + 1]);
        }
        if n < s.len() {
            assert(rest[n - 1] == s[n]);
        }
        lemma_word_len_is(rest, n - 1);
    }
}

/// The next word of `s` at or after `from`: where it starts and where it
/// ends, or `None` when only whitespace is left.
pub fn next_word(s: &[char], from: usize) -> (r: Option<(usize, usize)>)
    requires
        from <= s@.len(),
    ensures
        r is None <==> words(s@.skip(from as int)).len() == 0,
        r matches Some((start, end)) ==> {
            &&& from <= start < end <= s@.len()
            &&& forall|i: int| from <= i < start ==> is_space(#[trigger] s@[i])
            &&& end < s@.len() ==> is_space(s@[end as int])
            &&& words(s@.skip(from as int)) == seq![s@.subrange(start as int, end as int)] + words(
                s@.skip(end as int),
            )
            &&& no_space(s@.subrange(start as int, end as int))
        },
{
    let mut start = from;
    while start < s.len() && is_space_char(s[start])
        invariant
            from <= start <= s@.len(),
            forall|i: int| from <= i < start ==> is_space(#[trigger] s@[i]),
        decreases s@.len() - start,
    {
        start += 1;
    }
    proof {
        let tail = s@.skip(from as int);
        assert forall|i: int| 0 <= i < start - from implies is_space(#[trigger] tail[i]) by {
            assert(tail[i] == s@[from + i]);
        }
        lemma_words_skip_spaces(tail, start - from);
        assert(tail.skip(start - from) =~= s@.skip(start as int));
    }
    if start == s.len() {
        assert(s@.skip(start as int).len() == 0);
        return None;
    }
    let mut end = start + 1;
    while end < s.len() && !is_space_char(s[end])
        invariant
            start < end <= s@.len(),
            forall|i: int| start <= i < end ==> !is_space(#[trigger] s@[i]),
        decreases s@.len() - end,
    {
        end += 1;
    }
    proof {
        let tail = s@.skip(start as int);
        assert forall|i: int| 0 <= i < end - start implies !is_space(#[trigger] tail[i]) by {
            assert(tail[i] == s@[start + i]);
        }
        if end - start < tail.len() {
            assert(tail[end - start] == s@[end as int]);
        }
        lemma_word_len_is(tail, end - start);
        assert(tail.take(end - start) =~= s@.subrange(start as int, end as int));
        assert(tail.skip(end - start) =~= s@.skip(end as int));
        assert(!is_space(tail[0]));
    }
    Some((start, end))
}

/// Appends the characters of `src` to `out`.
pub fn push_all(out: &mut Vec<char>, src: &[char])
    ensures
        final(out)@ == old(out)@ + src@,
{
    let mut i: usize = 0;
    while i < src.len()
        invariant
            i <= src@.len(),
            out@ == old(out)@ + src@.take(i as int),
        decreases src@.len() - i,
    {
        out.push(src[i]);
        i += 1;
        assert(out@ =~= old(out)@ + src@.take(i as int));
    }
    assert(src@.take(i as int) =~= src@);
}

/// The words of `line` from `from` on, joined by single spaces.
pub fn join_words(line: &[char], from: usize) -> (text: Vec<char>)
    requires
        from <= line@.len(),
    ensures
        text@ == join(words(line@.skip(from as int))),
{
    let mut text: Vec<char> = Vec::new();
    let mut at: usize = from;
    let ghost mut seen: Seq<Seq<char>> = Seq::empty();
    loop
        invariant
            from <= at <= line@.len(),
            words(line@.skip(from as int)) == seen + words(line@.skip(at as int)),
            text@ == join(seen),
        ensures
            text@ == join(words(line@.skip(from as int))),
        decreases line@.len() - at,
    {
        match next_word(line, at) {
            None => {
                assert(seen + words(line@.skip(at as int)) =~= seen);
                break ;
            },
            Some((start, end)) => {
                let ghost word = line@.subrange(start as int, end as int);
                if text.len() > 0 {
                    text.push(' ');
                }
                push_all(&mut text, vstd::slice::slice_subrange(line, start, end));
                proof {
                    assert(seen.push(word).drop_last() =~= seen);
                    assert(text@ =~= join(seen.push(word)));
                    assert(seen.push(word) + words(line@.skip(end as int)) =~= seen + (seq![word]
                        + words(line@.skip(end as int))));
                    seen = seen.push(word);
                }
                at = end;
            },
        }
    }
    text
}

/// Every character of `s` is whitespace.
pub open spec fn all_space(s: Seq<char>) -> bool {
    forall|i: int| 0 <= i < s.len() ==> is_space(#[trigger] s[i])
}

/// Each of `ws` is a word: not empty, and without whitespace.
pub open spec fn are_words(ws: Seq<Seq<char>>) -> bool {
    forall|i: int| 0 <= i < ws.len() ==> (#[trigger] ws[i]).len() > 0 && no_space(ws[i])
}

/// Whitespace alone holds no word.
pub proof fn lemma_words_of_spaces(s: Seq<char>)
    requires
        all_space(s),
    ensures
        words(s) == Seq::<Seq<char>>::empty(),
{
    lemma_words_skip_spaces(s, s.len() as int);
    assert(s.skip(s.len() as int) =~= Seq::<char>::empty());
}

/// A text without whitespace that is not empty is its own single word.
pub proof fn lemma_words_of_word(w: Seq<char>)
    requires
        w.len() > 0,
        no_space(w),
    ensures
        words(w) == seq![w],
{
    lemma_word_len_is(w, w.len() as int);
    assert(w.take(w.len() as int) =~= w);
    assert(w.skip(w.len() as int) =~= Seq::<char>::empty());
    assert(words(w.skip(w.len() as int)) =~= Seq::<Seq<char>>::empty());
    assert(seq![w] + Seq::<Seq<char>>::empty() =~= seq![w]);
}

/// The words of two texts with whitespace between them are the words of
/// the first, then the words of the second.
pub proof fn lemma_words_concat(a: Seq<char>, gap: char, b: Seq<char>)
    requires
        is_space(gap),
    ensures
        words(a + seq![gap] + b) == words(a) + words(b),
    decreases a.len(),
{
    let whole = a + seq![gap] + b;
    if a.len() == 0 {
        assert(whole.drop_first() =~= b);
        assert(words(a) + words(b) =~= words(b));
    } else if is_space(a[0]) {
        lemma_words_concat(a.drop_first(), gap, b);
        assert(whole.drop_first() =~= a.drop_first() + seq![gap] + b);
    } else {
        let n = word_len(a) as int;
        lemma_word_len_bounds(a);
        assert forall|i: int| 0 <= i < n implies !is_space(#[trigger] whole[i]) by {
            assert(whole[i] == a.take(n)[i]);
        }
        if n < a.len() {
            assert(whole[n] == a[n]);
        } else {
            assert(whole[n] == gap);
        }
        lemma_word_len_is(whole, n);
        lemma_words_concat(a.skip(n), gap, b);
        assert(whole.take(n) =~= a.take(n));
        assert(whole.skip(n) =~= a.skip(n) + seq![gap] + b);
        assert(words(whole) =~= words(a) + words(b));
    }
}

/// The words of a text are words.
pub proof fn lemma_words_are_words(s: Seq<char>)
    ensures
        are_words(words(s)),
    decreases s.len(),
{
    if s.len() == 0 {
    } else if is_space(s[0]) {
        lemma_words_are_words(s.drop_first());
    } else {
        let n = word_len(s) as int;
        lemma_word_len_bounds(s);
        lemma_words_are_words(s.skip(n));
        let rest = words(s.skip(n));
        assert forall|i: int| 0 <= i < words(s).len() implies (#[trigger] words(s)[i]).len() > 0
            && no_space(words(s)[i]) by {
            if i > 0 {
                assert(words(s)[i] == rest[i - 1]);
            }
        }
    }
}

/// Words joined by single spaces split into the same words again.
pub proof fn lemma_words_of_join(ws: Seq<Seq<char>>)
    requires
        are_words(ws),
    ensures
        words(join(ws)) == ws,
        ws.len() > 0 ==> join(ws).len() > 0,
    decreases ws.len(),
{
    if ws.len() == 0 {
    } else {
        let front = ws.drop_last();
        let last = ws.last();
        assert forall|i: int| 0 <= i < front.len() implies (#[trigger] front[i]).len() > 0
            && no_space(front[i]) by {
            assert(front[i] == ws[i]);
        }
        lemma_words_of_join(front);
        lemma_words_of_word(last);
        if join(front).len() == 0 {
            assert(front.len() == 0);
            assert(ws =~= seq![last]);
        } else {
            lemma_words_concat(join(front), ' ', last);
            assert(front + seq![last] =~= ws);
        }
    }
}

} // verus!
