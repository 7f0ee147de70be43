//! Grouping the words of a text into chunks.

use crate::words::{
    compile_sentence_end, ends_sentence, join_range, join_words, matches_sentence_end,
    pattern_of, sentence_end_pattern, split_words, texts_of, words_of,
};
use regex::Regex;
use vstd::prelude::*;

verus! {

/// The index of the first word at or after `from` that ends a sentence,
/// or the number of words where there is none.
pub open spec fn next_sentence_end(words: Seq<Seq<char>>, from: int) -> int
    decreases words.len() - from,
{
    if from >= words.len() {
        words.len() as int
    } else if ends_sentence(words[from]) {
        from
    } else {
        next_sentence_end(words, from + 1)
    }
}

/// Where the chunk that starts at `start` ends (the index after its last
/// word). The chunk runs up to the word that brings it to the target size,
/// or up to the first sentence end found from the chunk's start, whichever
/// comes later; where that lies beyond the text, the chunk takes all the
/// words that are left. A target of zero asks for one word, as a chunk is
/// looked at only after a word has joined it.
pub open spec fn chunk_end(words: Seq<Seq<char>>, start: int, chunk_size: nat) -> int {
    let wanted = if chunk_size == 0 { 1 } else { chunk_size as int };
    let reached = start + wanted - 1;
    let sentence = next_sentence_end(words, start);
    let stop = if sentence > reached { sentence } else { reached };
    if stop < words.len() { stop + 1 } else { words.len() as int }
}

/// The chunks of the words from `start` on, each as its run of words.
pub open spec fn chunk_runs(words: Seq<Seq<char>>, start: int, chunk_size: nat) -> Seq<Seq<Seq<char>>>
    decreases words.len() - start,
{
    if start < 0 || start >= words.len() {
        Seq::empty()
    } else {
        let end = chunk_end(words, start, chunk_size);
        seq![words.subrange(start, end)] + chunk_runs(words, end, chunk_size)
    }
}

/// The chunks of a sequence of words, each as its text.
pub open spec fn chunk_texts(words: Seq<Seq<char>>, chunk_size: nat) -> Seq<Seq<char>> {
    chunk_runs(words, 0, chunk_size).map_values(|run: Seq<Seq<char>>| join_words(run))
}

/// The chunks of one text.
pub open spec fn text_chunks(text: Seq<char>, chunk_size: nat) -> Seq<Seq<char>> {
    chunk_texts(words_of(text), chunk_size)
}

/// The chunks of several texts: those of the first text, then those of the
/// second, and so on.
pub open spec fn batch_chunks(texts: Seq<Seq<char>>, chunk_size: nat) -> Seq<Seq<char>>
    decreases texts.len(),
{
    if texts.len() == 0 {
        Seq::empty()
    } else {
        batch_chunks(texts.drop_last(), chunk_size) + text_chunks(texts.last(), chunk_size)
    }
}

/// The sentence end found from `from` lies between `from` and the end of
/// the words; where it is a word, that word ends a sentence, and no word
/// between `from` and it does.
pub proof fn lemma_next_sentence_end(words: Seq<Seq<char>>, from: int)
    requires
        0 <= from <= words.len(),
    ensures
        from <= next_sentence_end(words, from) <= words.len(),
        next_sentence_end(words, from) < words.len() ==> ends_sentence(
            words[next_sentence_end(words, from)],
        ),
        forall|k: int| from <= k < next_sentence_end(words, from) ==> !ends_sentence(#[trigger] words[k]),
    decreases words.len() - from,
{
    if from < words.len() && !ends_sentence(words[from]) {
        lemma_next_sentence_end(words, from + 1);
    }
}

/// A chunk that starts inside the words holds at least one word and ends
/// inside them.
pub proof fn lemma_chunk_end_bounds(words: Seq<Seq<char>>, start: int, chunk_size: nat)
    requires
        0 <= start < words.len(),
    ensures
        start < chunk_end(words, start, chunk_size) <= words.len(),
{
    lemma_next_sentence_end(words, start);
}

fn find_sentence_end(re: &Regex, words: &Vec<String>, from: usize) -> (found: usize)
    requires
        pattern_of(*re) == sentence_end_pattern(),
        from <= words.len(),
    ensures
        found == next_sentence_end(texts_of(words@), from as int),
{
    let mut at: usize = from;
    while at < words.len()
        invariant
            pattern_of(*re) == sentence_end_pattern(),
            from <= at <= words.len(),
            next_sentence_end(texts_of(words@), from as int) == next_sentence_end(
                texts_of(words@),
                at as int,
            ),
        decreases words.len() - at,
    {
        if matches_sentence_end(re, words[at].as_str()) {
            return at;
        }
        at += 1;
    }
    at
}

fn find_chunk_end(re: &Regex, words: &Vec<String>, start: usize, chunk_size: usize) -> (end: usize)
    requires
        pattern_of(*re) == sentence_end_pattern(),
        start < words.len(),
    ensures
        end == chunk_end(texts_of(words@), start as int, chunk_size as nat),
        start < end <= words.len(),
{
    proof {
        lemma_next_sentence_end(texts_of(words@), start as int);
    }
    let wanted: usize = if chunk_size == 0 { 1 } else { chunk_size };
    if wanted > words.len() - start {
        return words.len();
    }
    let reached: usize = start + (wanted - 1);
    if matches_sentence_end(re, words[reached].as_str()) {
        assert(ends_sentence(texts_of(words@)[reached as int]));
        return reached + 1;
    }
    let sentence = find_sentence_end(re, words, start);
    if sentence >= words.len() {
        words.len()
    } else if sentence > reached {
        sentence + 1
    } else {
        reached + 1
    }
}

/// Groups the words into chunks and gives each chunk's text: its words
/// joined by single spaces. A chunk size of zero is taken as it stands: a
/// chunk is then complete with its first word, as with a size of one.
pub fn chunk_words(words: &Vec<String>, chunk_size: usize) -> (chunks: Vec<String>)
    ensures
        texts_of(chunks@) == chunk_texts(texts_of(words@), chunk_size as nat),
{
    let re = compile_sentence_end("[.!?]$");
    let mut chunks: Vec<String> = Vec::new();
    let mut start: usize = 0;
    let ghost all = texts_of(words@);
    let ghost size = chunk_size as nat;
    proof {
        assert(texts_of(chunks@) =~= Seq::<Seq<char>>::empty());
    }
    while start < words.len()
        invariant
            pattern_of(re) == sentence_end_pattern(),
            all == texts_of(words@),
            size == chunk_size as nat,
            start <= words.len(),
            texts_of(chunks@) + chunk_runs(all, start as int, size).map_values(
                |run: Seq<Seq<char>>| join_words(run),
            ) == chunk_texts(all, size),
        decreases words.len() - start,
    {
        let end = find_chunk_end(&re, words, start, chunk_size);
        let chunk = join_range(words, start, end);
        let ghost before = texts_of(chunks@);
        chunks.push(chunk);
        proof {
            let rest = chunk_runs(all, end as int, size);
            let here = chunk_runs(all, start as int, size);
            assert(here == seq![all.subrange(start as int, end as int)] + rest);
            assert(texts_of(chunks@) =~= before.push(chunk@));
            assert(before + here.map_values(|run: Seq<Seq<char>>| join_words(run))
                =~= before.push(chunk@) + rest.map_values(|run: Seq<Seq<char>>| join_words(run)));
        }
        start = end;
    }
    proof {
        assert(chunk_runs(all, start as int, size) =~= Seq::empty());
        assert(texts_of(chunks@) =~= chunk_texts(all, size));
    }
    chunks
}

/// Splits one text into its words and groups them into chunks.
pub fn divide_text_into_chunks(text: &str, chunk_size: usize) -> (chunks: Vec<String>)
    ensures
        texts_of(chunks@) == text_chunks(text@, chunk_size as nat),
{
    let words = split_words(text);
    chunk_words(&words, chunk_size)
}

/// Chunks each text by itself and gives the chunks of all of them, in the
/// order of the texts. No chunk holds words of two texts.
pub fn create_documents(texts: Vec<String>, chunk_size: usize) -> (chunks: Vec<String>)
    ensures
        texts_of(chunks@) == batch_chunks(texts_of(texts@), chunk_size as nat),
{
    let mut chunks: Vec<String> = Vec::new();
    let mut done: usize = 0;
    proof {
        assert(texts_of(texts@).subrange(0, 0) =~= Seq::<Seq<char>>::empty());
        assert(texts_of(chunks@) =~= Seq::<Seq<char>>::empty());
    }
    while done < texts.len()
        invariant
            done <= texts.len(),
            texts_of(chunks@) == batch_chunks(
                texts_of(texts@).subrange(0, done as int),
                chunk_size as nat,
            ),
        decreases texts.len() - done,
    {
        let mut found = divide_text_into_chunks(texts[done].as_str(), chunk_size);
        let ghost before = texts_of(chunks@);
        let ghost added = texts_of(found@);
        chunks.append(&mut found);
        proof {
            let upto = texts_of(texts@).subrange(0, done + 1);
            assert(upto.drop_last() =~= texts_of(texts@).subrange(0, done as int));
            assert(upto.last() == texts@[done as int]@);
            assert(texts_of(chunks@) =~= before + added);
        }
        done += 1;
    }
    proof {
        assert(texts_of(texts@).subrange(0, done as int) =~= texts_of(texts@));
    }
    chunks
}

} // verus!
