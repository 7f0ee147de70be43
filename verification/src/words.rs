//! Words, sentence ends, and the text of a chunk.

use regex::Regex;
use vstd::prelude::*;

verus! {

/// The characters with the Unicode property `White_Space`.
pub open spec fn is_space(c: char) -> bool {
    ('\u{9}' <= c && c <= '\u{d}') || c == ' ' || c == '\u{85}' || c == '\u{a0}'
        || c == '\u{1680}' || ('\u{2000}' <= c && c <= '\u{200a}') || c == '\u{2028}'
        || c == '\u{2029}' || c == '\u{202f}' || c == '\u{205f}' || c == '\u{3000}'
}

/// The words of a text: its maximal runs of characters that are not
/// whitespace, in the order in which they stand.
pub open spec fn words_of(text: Seq<char>) -> Seq<Seq<char>>
    decreases text.len(),
{
    if text.len() == 0 {
        Seq::empty()
    } else {
        let before = words_of(text.drop_last());
        if is_space(text.last()) {
            before
        } else if text.len() >= 2 && !is_space(text[text.len() - 2]) {
            before.drop_last().push(before.last().push(text.last()))
        } else {
            before.push(seq![text.last()])
        }
    }
}

/// The words joined by single spaces.
pub open spec fn join_words(words: Seq<Seq<char>>) -> Seq<char>
    decreases words.len(),
{
    if words.len() == 0 {
        Seq::empty()
    } else if words.len() == 1 {
        words[0]
    } else {
        join_words(words.drop_last()) + seq![' '] + words.last()
    }
}

/// A word ends a sentence when its last character is `.`, `!` or `?`.
pub open spec fn ends_sentence(word: Seq<char>) -> bool {
    word.len() > 0 && (word.last() == '.' || word.last() == '!' || word.last() == '?')
}

/// A word holds at least one character and no whitespace.
pub open spec fn is_word(word: Seq<char>) -> bool {
    word.len() > 0 && forall|j: int| 0 <= j < word.len() ==> !is_space(#[trigger] word[j])
}

/// Every item of the sequence is a word.
pub open spec fn all_words(words: Seq<Seq<char>>) -> bool {
    forall|i: int| 0 <= i < words.len() ==> is_word(#[trigger] words[i])
}

/// What a text splits into are words: none is empty and none holds
/// whitespace.
pub proof fn lemma_words_of_are_words(text: Seq<char>)
    ensures
        all_words(words_of(text)),
        text.len() > 0 && !is_space(text.last()) ==> words_of(text).len() > 0,
    decreases text.len(),
{
    if text.len() > 0 {
        let before = words_of(text.drop_last());
        lemma_words_of_are_words(text.drop_last());
        if is_space(text.last()) {
        } else if text.len() >= 2 && !is_space(text[text.len() - 2]) {
            assert(text.drop_last().last() == text[text.len() - 2]);
            let grown = before.last().push(text.last());
            let after = before.drop_last().push(grown);
            assert(is_word(before[before.len() - 1]));
            assert forall|j: int| 0 <= j < grown.len() implies !is_space(#[trigger] grown[j]) by {
                if j < grown.len() - 1 {
                    assert(grown[j] == before.last()[j]);
                }
            }
            assert forall|i: int| 0 <= i < after.len() implies is_word(#[trigger] after[i]) by {
                if i < after.len() - 1 {
                    assert(after[i] == before[i]);
                }
            }
        } else {
            let after = before.push(seq![text.last()]);
            assert forall|i: int| 0 <= i < after.len() implies is_word(#[trigger] after[i]) by {
                if i < after.len() - 1 {
                    assert(after[i] == before[i]);
                }
            }
        }
    }
}

/// The text of a run of words ends as the run's last word ends.
pub proof fn lemma_join_last(words: Seq<Seq<char>>)
    requires
        words.len() > 0,
        words.last().len() > 0,
    ensures
        join_words(words).len() > 0,
        join_words(words).last() == words.last().last(),
{
}

/// Joining two runs that both hold a word puts one space between their
/// texts.
pub proof fn lemma_join_concat(left: Seq<Seq<char>>, right: Seq<Seq<char>>)
    requires
        left.len() > 0,
        right.len() > 0,
    ensures
        join_words(left + right) == join_words(left) + seq![' '] + join_words(right),
    decreases right.len(),
{
    let both = left + right;
    assert(both.last() == right.last());
    if right.len() == 1 {
        assert(both.drop_last() =~= left);
    } else {
        assert(both.drop_last() =~= left + right.drop_last());
        lemma_join_concat(left, right.drop_last());
        assert(join_words(both) =~= join_words(left) + seq![' '] + join_words(right));
    }
}

/// Words that are joined, the last of them `word`, split into the same
/// words again.
pub proof fn lemma_split_joined(words: Seq<Seq<char>>, word: Seq<char>)
    requires
        all_words(words),
        is_word(word),
    ensures
        words_of(join_words(words.push(word))) == words.push(word),
    decreases words.len(), word.len(),
{
    let all = words.push(word);
    let text = join_words(all);
    assert(all.drop_last() =~= words);
    assert(all.last() == word);
    assert(!is_space(word[word.len() - 1]));
    if word.len() >= 2 {
        let shorter = word.drop_last();
        assert(is_word(shorter)) by {
            assert forall|j: int| 0 <= j < shorter.len() implies !is_space(#[trigger] shorter[j]) by {
                assert(shorter[j] == word[j]);
            }
        }
        lemma_split_joined(words, shorter);
        let less = words.push(shorter);
        assert(less.drop_last() =~= words);
        assert(text.drop_last() =~= join_words(less));
        assert(text.len() >= 2);
        assert(text[text.len() - 2] == word[word.len() - 2]);
        assert(text.last() == word.last());
        assert(less.drop_last().push(less.last().push(word.last())) =~= all) by {
            assert(shorter.push(word.last()) =~= word);
        }
    } else {
        assert(word =~= seq![word.last()]);
        if words.len() == 0 {
            assert(text =~= word);
            assert(words_of(text.drop_last()) =~= Seq::<Seq<char>>::empty());
        } else {
            assert(is_word(words[words.len() - 1]));
            lemma_split_joined(words.drop_last(), words.last());
            assert(words.drop_last().push(words.last()) =~= words);
            let gap = join_words(words) + seq![' '];
            assert(text.drop_last() =~= gap);
            assert(gap.drop_last() =~= join_words(words));
            assert(is_space(gap.last()));
            assert(words_of(gap) == words);
            assert(text[text.len() - 2] == ' ');
        }
    }
}

/// Words that are joined split into the same words again.
pub proof fn lemma_split_join(words: Seq<Seq<char>>)
    requires
        all_words(words),
    ensures
        words_of(join_words(words)) == words,
{
    if words.len() > 0 {
        assert(is_word(words[words.len() - 1]));
        lemma_split_joined(words.drop_last(), words.last());
        assert(words.drop_last().push(words.last()) =~= words);
    }
}

/// The strings of a vector, each as its sequence of characters.
pub open spec fn texts_of(strings: Seq<String>) -> Seq<Seq<char>> {
    strings.map_values(|s: String| s@)
}

/// The pattern that a sentence-ending word matches.
pub open spec fn sentence_end_pattern() -> Seq<char> {
    "[.!?]$"@
}

#[verifier::external_type_specification]
#[verifier::external_body]
pub struct ExRegex(Regex);

/// The pattern that a compiled regular expression was made from: what
/// `regex::Regex::as_str` gives for it.
pub uninterp spec fn pattern_of(re: Regex) -> Seq<char>;

/// `str::split_whitespace`, each word copied into a `String`. What comes
/// back are the maximal runs of non-whitespace characters of the text, in
/// order, where whitespace is what Unicode calls `White_Space`. None of
/// this is proved here: it is what the standard library documents.
#[verifier::external_body]
pub(crate) fn split_words(text: &str) -> (words: Vec<String>)
    ensures
        texts_of(words@) == words_of(text@),
{
    text.split_whitespace().map(String::from).collect()
}

/// `regex::Regex::new` on the sentence-end pattern. That pattern is valid,
/// so compiling it does not fail; nothing is claimed for any other. The
/// result keeps the pattern it was made from.
#[verifier::external_body]
pub(crate) fn compile_sentence_end(pattern: &str) -> (re: Regex)
    requires
        pattern@ == sentence_end_pattern(),
    ensures
        pattern_of(re) == pattern@,
{
    Regex::new(pattern).unwrap()
}

/// `regex::Regex::is_match` for an expression made from the sentence-end
/// pattern: a character class of `.`, `!` and `?` followed by `$`, which
/// without the multi-line flag matches only at the end of the haystack. So
/// there is a match exactly where the last character of `word` is one of
/// the three. Nothing is claimed for any other pattern.
#[verifier::external_body]
pub(crate) fn matches_sentence_end(re: &Regex, word: &str) -> (found: bool)
    requires
        pattern_of(*re) == sentence_end_pattern(),
    ensures
        found == ends_sentence(word@),
{
    re.is_match(word)
}

/// Joins the words from `start` up to, not including, `end` by single spaces.
pub fn join_range(words: &Vec<String>, start: usize, end: usize) -> (text: String)
    requires
        start <= end <= words.len(),
    ensures
        text@ == join_words(texts_of(words@).subrange(start as int, end as int)),
{
    let mut text = String::new();
    let mut i: usize = start;
    while i < end
        invariant
            start <= i <= end <= words.len(),
            text@ == join_words(texts_of(words@).subrange(start as int, i as int)),
        decreases end - i,
    {
        let ghost so_far = texts_of(words@).subrange(start as int, i as int);
        let ghost next = texts_of(words@).subrange(start as int, i + 1);
        proof {
            reveal_strlit(" ");
            assert(next.drop_last() == so_far);
            assert(next.last() == words@[i as int]@);
            assert(" "@ == seq![' ']);
        }
        if i > start {
            text.append(" ");
        }
        text.append(words[i].as_str());
        i += 1;
    }
    text
}

} // verus!
