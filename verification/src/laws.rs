//! What holds of every chunking.

use crate::chunking::{
    batch_chunks, chunk_end, chunk_runs, chunk_texts, lemma_chunk_end_bounds, lemma_next_sentence_end,
    next_sentence_end, text_chunks,
};
use crate::words::{
    all_words, ends_sentence, is_word, join_words, lemma_join_concat, lemma_join_last,
    lemma_split_join, lemma_words_of_are_words, words_of,
};
use vstd::prelude::*;

verus! {

/// The run holds exactly `chunk_size` words, and one before its last ends
/// a sentence: the chunk was closed on reaching its size, the sentence end
/// having been seen on the way.
pub open spec fn cut_at_size(run: Seq<Seq<char>>, chunk_size: nat) -> bool {
    run.len() == chunk_size && exists|m: int| 0 <= m < run.len() - 1 && ends_sentence(#[trigger] run[m])
}

/// The chunks from `start` on hold the words from `start` on, each once and
/// in order, and no chunk is empty.
pub proof fn lemma_runs_cover(words: Seq<Seq<char>>, start: int, chunk_size: nat)
    requires
        0 <= start <= words.len(),
    ensures
        chunk_runs(words, start, chunk_size).flatten() == words.subrange(start, words.len() as int),
        forall|k: int|
            0 <= k < chunk_runs(words, start, chunk_size).len() ==> {
                let run = #[trigger] chunk_runs(words, start, chunk_size)[k];
                &&& run.len() > 0
                &&& all_words(words) ==> all_words(run)
            },
        start < words.len() ==> chunk_runs(words, start, chunk_size).len() > 0,
    decreases words.len() - start,
{
    let runs = chunk_runs(words, start, chunk_size);
    if start < words.len() {
        lemma_chunk_end_bounds(words, start, chunk_size);
        let end = chunk_end(words, start, chunk_size);
        let first = words.subrange(start, end);
        let rest = chunk_runs(words, end, chunk_size);
        lemma_runs_cover(words, end, chunk_size);
        assert(runs == seq![first] + rest);
        assert(runs.first() == first);
        assert(runs.drop_first() =~= rest);
        assert(first + words.subrange(end, words.len() as int) =~= words.subrange(
            start,
            words.len() as int,
        ));
        assert forall|k: int| 0 <= k < runs.len() implies {
            let run = #[trigger] runs[k];
            &&& run.len() > 0
            &&& all_words(words) ==> all_words(run)
        } by {
            if k == 0 {
                if all_words(words) {
                    assert forall|i: int| 0 <= i < first.len() implies is_word(#[trigger] first[i]) by {
                        assert(first[i] == words[start + i]);
                    }
                }
            } else {
                assert(runs[k] == rest[k - 1]);
            }
        }
    } else {
        assert(words.subrange(start, words.len() as int) =~= Seq::<Seq<char>>::empty());
    }
}

/// Every chunk from `start` on but the last holds at least `chunk_size`
/// words, and ends with a sentence unless it was cut at that size.
pub proof fn lemma_runs_shape(words: Seq<Seq<char>>, start: int, chunk_size: nat)
    requires
        0 <= start <= words.len(),
    ensures
        forall|k: int|
            0 <= k < chunk_runs(words, start, chunk_size).len() - 1 ==> {
                let run = #[trigger] chunk_runs(words, start, chunk_size)[k];
                &&& run.len() >= chunk_size
                &&& run.len() > 0
                &&& ends_sentence(run.last()) || cut_at_size(run, chunk_size)
            },
    decreases words.len() - start,
{
    let runs = chunk_runs(words, start, chunk_size);
    if start < words.len() {
        lemma_chunk_end_bounds(words, start, chunk_size);
        lemma_next_sentence_end(words, start);
        let end = chunk_end(words, start, chunk_size);
        let first = words.subrange(start, end);
        let rest = chunk_runs(words, end, chunk_size);
        lemma_runs_shape(words, end, chunk_size);
        assert(runs == seq![first] + rest);
        assert forall|k: int| 0 <= k < runs.len() - 1 implies {
            let run = #[trigger] runs[k];
            &&& run.len() >= chunk_size
            &&& run.len() > 0
            &&& ends_sentence(run.last()) || cut_at_size(run, chunk_size)
        } by {
            if k == 0 {
                assert(rest.len() > 0);
                assert(end < words.len());
                let sentence = next_sentence_end(words, start);
                assert(first.last() == words[end - 1]);
                if sentence < end - 1 {
                    assert(first[sentence - start] == words[sentence]);
                    assert(cut_at_size(first, chunk_size));
                }
            } else {
                assert(runs[k] == rest[k - 1]);
            }
        }
    }
}

/// The chunks of any words, laid end to end, are those words: none is
/// lost, none comes twice, and the order stays.
pub proof fn law_chunks_partition_the_words(words: Seq<Seq<char>>, chunk_size: nat)
    ensures
        chunk_runs(words, 0, chunk_size).flatten() == words,
        chunk_texts(words, chunk_size).len() == chunk_runs(words, 0, chunk_size).len(),
        forall|k: int|
            0 <= k < chunk_runs(words, 0, chunk_size).len() ==> (#[trigger] chunk_runs(
                words,
                0,
                chunk_size,
            )[k]).len() > 0,
{
    lemma_runs_cover(words, 0, chunk_size);
    assert(words.subrange(0, words.len() as int) =~= words);
}

/// No words give no chunks: a text without words has none, and neither has
/// an empty batch of texts.
pub proof fn law_nothing_from_nothing(chunk_size: nat)
    ensures
        chunk_texts(Seq::empty(), chunk_size) == Seq::<Seq<char>>::empty(),
        text_chunks(Seq::empty(), chunk_size) == Seq::<Seq<char>>::empty(),
        batch_chunks(Seq::empty(), chunk_size) == Seq::<Seq<char>>::empty(),
        batch_chunks(seq![Seq::empty()], chunk_size) == Seq::<Seq<char>>::empty(),
{
    let none = Seq::<Seq<char>>::empty();
    assert(chunk_texts(none, chunk_size) =~= none);
    assert(words_of(Seq::empty()) =~= none);
    let one = seq![Seq::<char>::empty()];
    assert(one.drop_last() =~= none);
    assert(one.last() == Seq::<char>::empty());
    assert(batch_chunks(one.drop_last(), chunk_size) =~= none);
    assert(batch_chunks(one, chunk_size) =~= batch_chunks(one.drop_last(), chunk_size)
        + text_chunks(one.last(), chunk_size));
}

/// The chunks of a batch of texts are the chunks of its first part followed
/// by those of the rest: each text is chunked by itself, and no chunk holds
/// words of two texts.
pub proof fn law_batch_by_parts(first: Seq<Seq<char>>, rest: Seq<Seq<char>>, chunk_size: nat)
    ensures
        batch_chunks(first + rest, chunk_size) == batch_chunks(first, chunk_size) + batch_chunks(
            rest,
            chunk_size,
        ),
    decreases rest.len(),
{
    if rest.len() == 0 {
        assert(first + rest =~= first);
        assert(batch_chunks(first, chunk_size) + batch_chunks(rest, chunk_size) =~= batch_chunks(
            first,
            chunk_size,
        ));
    } else {
        law_batch_by_parts(first, rest.drop_last(), chunk_size);
        assert((first + rest).drop_last() =~= first + rest.drop_last());
        assert((first + rest).last() == rest.last());
        assert(batch_chunks(first + rest, chunk_size) =~= batch_chunks(first, chunk_size)
            + batch_chunks(rest, chunk_size));
    }
}

/// The text of the chunks from `start` on, joined by single spaces, is the
/// text of the words from `start` on, joined by single spaces.
proof fn lemma_join_runs(words: Seq<Seq<char>>, start: int, chunk_size: nat)
    requires
        0 <= start <= words.len(),
    ensures
        join_words(
            chunk_runs(words, start, chunk_size).map_values(|run: Seq<Seq<char>>| join_words(run)),
        ) == join_words(words.subrange(start, words.len() as int)),
    decreases words.len() - start,
{
    let join = |run: Seq<Seq<char>>| join_words(run);
    let runs = chunk_runs(words, start, chunk_size);
    let tail = words.subrange(start, words.len() as int);
    if start < words.len() {
        lemma_chunk_end_bounds(words, start, chunk_size);
        let end = chunk_end(words, start, chunk_size);
        let first = words.subrange(start, end);
        let rest = chunk_runs(words, end, chunk_size);
        let after = words.subrange(end, words.len() as int);
        lemma_join_runs(words, end, chunk_size);
        lemma_runs_cover(words, end, chunk_size);
        assert(runs == seq![first] + rest);
        assert(runs.map_values(join) =~= seq![join_words(first)] + rest.map_values(join));
        assert(first + after =~= tail);
        if end < words.len() {
            lemma_join_concat(seq![join_words(first)], rest.map_values(join));
            lemma_join_concat(first, after);
        } else {
            assert(rest =~= Seq::empty());
            assert(seq![join_words(first)] + rest.map_values(join) =~= seq![join_words(first)]);
            assert(after =~= Seq::<Seq<char>>::empty());
            assert(first + after =~= first);
        }
    } else {
        assert(runs.map_values(join) =~= Seq::<Seq<char>>::empty());
        assert(tail =~= Seq::<Seq<char>>::empty());
    }
}

/// Joining the chunks of a text by single spaces and splitting the result
/// on whitespace gives the words of the text, in order.
pub proof fn law_round_trip(text: Seq<char>, chunk_size: nat)
    ensures
        words_of(join_words(text_chunks(text, chunk_size))) == words_of(text),
{
    let words = words_of(text);
    lemma_join_runs(words, 0, chunk_size);
    assert(words.subrange(0, words.len() as int) =~= words);
    lemma_words_of_are_words(text);
    lemma_split_join(words);
}

/// What a chunk of a text splits into is the run of words that it was
/// made of.
pub proof fn lemma_chunk_splits_into_its_run(text: Seq<char>, chunk_size: nat, k: int)
    requires
        0 <= k < text_chunks(text, chunk_size).len(),
    ensures
        words_of(text_chunks(text, chunk_size)[k]) == chunk_runs(words_of(text), 0, chunk_size)[k],
        chunk_runs(words_of(text), 0, chunk_size)[k].len() > 0,
        ends_sentence(text_chunks(text, chunk_size)[k]) == ends_sentence(
            chunk_runs(words_of(text), 0, chunk_size)[k].last(),
        ),
{
    let words = words_of(text);
    let run = chunk_runs(words, 0, chunk_size)[k];
    lemma_words_of_are_words(text);
    lemma_runs_cover(words, 0, chunk_size);
    assert(all_words(run));
    lemma_split_join(run);
    assert(is_word(run[run.len() - 1]));
    lemma_join_last(run);
}

/// Every chunk of a text but the last holds at least `chunk_size` words.
pub proof fn law_minimum_size(text: Seq<char>, chunk_size: nat)
    ensures
        forall|k: int|
            0 <= k < text_chunks(text, chunk_size).len() - 1 ==> words_of(
                #[trigger] text_chunks(text, chunk_size)[k],
            ).len() >= chunk_size,
{
    let words = words_of(text);
    let chunks = text_chunks(text, chunk_size);
    lemma_runs_shape(words, 0, chunk_size);
    assert forall|k: int| 0 <= k < chunks.len() - 1 implies words_of(#[trigger] chunks[k]).len()
        >= chunk_size by {
        lemma_chunk_splits_into_its_run(text, chunk_size, k);
        assert(chunk_runs(words, 0, chunk_size)[k].len() >= chunk_size);
    }
}

/// Every chunk of a text but the last ends with `.`, `!` or `?`, or holds
/// exactly `chunk_size` words of which one before the last ends a sentence.
pub proof fn law_sentence_ends(text: Seq<char>, chunk_size: nat)
    ensures
        forall|k: int|
            0 <= k < text_chunks(text, chunk_size).len() - 1 ==> {
                let chunk = #[trigger] text_chunks(text, chunk_size)[k];
                ends_sentence(chunk) || cut_at_size(words_of(chunk), chunk_size)
            },
{
    let words = words_of(text);
    let chunks = text_chunks(text, chunk_size);
    lemma_runs_shape(words, 0, chunk_size);
    assert forall|k: int| 0 <= k < chunks.len() - 1 implies {
        let chunk = #[trigger] chunks[k];
        ends_sentence(chunk) || cut_at_size(words_of(chunk), chunk_size)
    } by {
        lemma_chunk_splits_into_its_run(text, chunk_size, k);
        let run = chunk_runs(words, 0, chunk_size)[k];
        assert(ends_sentence(run.last()) || cut_at_size(run, chunk_size));
    }
}

/// Where no chunk before the last was cut at its size short of a sentence
/// end, every chunk of the text but the last ends with `.`, `!` or `?`.
pub proof fn law_no_cut_inside_a_sentence(text: Seq<char>, chunk_size: nat)
    requires
        forall|k: int|
            0 <= k < text_chunks(text, chunk_size).len() - 1 ==> {
                let chunk = #[trigger] text_chunks(text, chunk_size)[k];
                cut_at_size(words_of(chunk), chunk_size) ==> ends_sentence(chunk)
            },
    ensures
        forall|k: int|
            0 <= k < text_chunks(text, chunk_size).len() - 1 ==> ends_sentence(
                #[trigger] text_chunks(text, chunk_size)[k],
            ),
{
    law_sentence_ends(text, chunk_size);
}

/// With a chunk size of at most one word, every chunk of a text but the
/// last ends with `.`, `!` or `?`.
pub proof fn law_single_words_end_sentences(text: Seq<char>, chunk_size: nat)
    requires
        chunk_size <= 1,
    ensures
        forall|k: int|
            0 <= k < text_chunks(text, chunk_size).len() - 1 ==> ends_sentence(
                #[trigger] text_chunks(text, chunk_size)[k],
            ),
{
    law_sentence_ends(text, chunk_size);
}

} // verus!
