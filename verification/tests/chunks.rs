use text_splitters::chunking::{chunk_words, create_documents, divide_text_into_chunks};
use text_splitters::splitter::{Document, FastRecursiveTextSplitter};
use text_splitters::words::join_range;

fn strings(items: &[&str]) -> Vec<String> {
    items.iter().map(|s| s.to_string()).collect()
}

fn words(text: &str) -> Vec<String> {
    text.split_whitespace().map(String::from).collect()
}

#[test]
fn three_sentences_of_three_words() {
    let chunks = divide_text_into_chunks("The cat sat. It was happy! Now it sleeps.", 3);
    assert_eq!(chunks, strings(&["The cat sat.", "It was happy!", "Now it sleeps."]));
}

#[test]
fn no_punctuation_gives_one_chunk() {
    let chunks = divide_text_into_chunks("Hello there friend how are you", 2);
    assert_eq!(chunks, strings(&["Hello there friend how are you"]));
}

#[test]
fn empty_batch_gives_nothing() {
    assert_eq!(create_documents(Vec::new(), 0), Vec::<String>::new());
    assert_eq!(create_documents(Vec::new(), 1), Vec::<String>::new());
    assert_eq!(create_documents(Vec::new(), 7), Vec::<String>::new());
}

#[test]
fn empty_text_gives_nothing() {
    assert_eq!(create_documents(strings(&[""]), 3), Vec::<String>::new());
    assert_eq!(divide_text_into_chunks("", 3), Vec::<String>::new());
    assert_eq!(divide_text_into_chunks(" \t\n ", 1), Vec::<String>::new());
}

#[test]
fn texts_are_chunked_apart() {
    let chunks = create_documents(strings(&["A. B.", "C! D!"]), 1);
    assert_eq!(chunks, strings(&["A.", "B.", "C!", "D!"]));
}

#[test]
fn batch_is_the_chunks_of_each_text_in_order() {
    let texts = strings(&["One two. Three", "", "Four five six? Seven."]);
    let mut expected = Vec::new();
    for text in &texts {
        expected.extend(divide_text_into_chunks(text, 2));
    }
    assert_eq!(create_documents(texts, 2), expected);
    assert_eq!(expected, strings(&["One two.", "Three", "Four five six?", "Seven."]));
}

#[test]
fn chunk_grows_to_the_next_sentence_end() {
    let chunks = divide_text_into_chunks("a b c d e. f g", 2);
    assert_eq!(chunks, strings(&["a b c d e.", "f g"]));
}

#[test]
fn short_last_chunk_is_kept() {
    let chunks = divide_text_into_chunks("One two three. Four", 3);
    assert_eq!(chunks, strings(&["One two three.", "Four"]));
}

#[test]
fn single_word() {
    assert_eq!(divide_text_into_chunks("Hello", 5), strings(&["Hello"]));
    assert_eq!(divide_text_into_chunks("Hello.", 1), strings(&["Hello."]));
}

#[test]
fn zero_size_behaves_as_one_word() {
    let text = "Go. Stop now! Why not";
    let chunks = divide_text_into_chunks(text, 0);
    assert_eq!(chunks, strings(&["Go.", "Stop now!", "Why not"]));
    assert_eq!(chunks, divide_text_into_chunks(text, 1));
}

#[test]
fn huge_size_gives_one_chunk() {
    let chunks = divide_text_into_chunks("A. B. C.", usize::MAX);
    assert_eq!(chunks, strings(&["A. B. C."]));
}

#[test]
fn sentence_end_inside_the_chunk_closes_it_at_the_target() {
    let chunks = divide_text_into_chunks("A. b c d. e", 3);
    assert_eq!(chunks, strings(&["A. b c", "d. e"]));
}

#[test]
fn only_the_last_character_counts() {
    let chunks = divide_text_into_chunks("a.b c?d e!\" f. g", 1);
    assert_eq!(chunks, strings(&["a.b c?d e!\" f.", "g"]));
}

#[test]
fn each_terminal_character() {
    assert_eq!(divide_text_into_chunks("a. b", 1), strings(&["a.", "b"]));
    assert_eq!(divide_text_into_chunks("a! b", 1), strings(&["a!", "b"]));
    assert_eq!(divide_text_into_chunks("a? b", 1), strings(&["a?", "b"]));
    assert_eq!(divide_text_into_chunks("a, b", 1), strings(&["a, b"]));
    assert_eq!(divide_text_into_chunks("a; b: c", 1), strings(&["a; b: c"]));
}

#[test]
fn newline_after_the_mark_does_not_hide_it() {
    let chunks = divide_text_into_chunks("Yes.\nNo.\n", 1);
    assert_eq!(chunks, strings(&["Yes.", "No."]));
}

#[test]
fn whitespace_runs_become_single_spaces() {
    let chunks = divide_text_into_chunks("  One\t\ttwo.\n\nThree\u{a0}four\u{3000}five.  ", 2);
    assert_eq!(chunks, strings(&["One two.", "Three four five."]));
}

#[test]
fn chunks_hold_every_word_once_and_in_order() {
    let text = "Alpha beta. Gamma delta epsilon! Zeta? Eta theta iota kappa";
    for size in 1..8 {
        let chunks = divide_text_into_chunks(text, size);
        let joined = chunks.join(" ");
        assert_eq!(words(&joined), words(text));
    }
}

#[test]
fn chunks_before_the_last_reach_the_size() {
    let text = "Alpha beta. Gamma delta epsilon! Zeta? Eta theta iota kappa";
    for size in 1..8 {
        let chunks = divide_text_into_chunks(text, size);
        for chunk in &chunks[..chunks.len() - 1] {
            assert!(words(chunk).len() >= size);
        }
    }
}

#[test]
fn chunks_before_the_last_end_a_sentence_for_size_one() {
    let text = "Alpha beta. Gamma delta epsilon! Zeta? Eta theta iota kappa";
    let chunks = divide_text_into_chunks(text, 1);
    assert_eq!(chunks, strings(&["Alpha beta.", "Gamma delta epsilon!", "Zeta?", "Eta theta iota kappa"]));
    for chunk in &chunks[..chunks.len() - 1] {
        let last = chunk.chars().last().unwrap();
        assert!(last == '.' || last == '!' || last == '?');
    }
}

#[test]
fn chunk_words_takes_the_words_as_given() {
    let chunks = chunk_words(&strings(&["x", "y.", "z"]), 1);
    assert_eq!(chunks, strings(&["x y.", "z"]));
    assert_eq!(chunk_words(&Vec::new(), 4), Vec::<String>::new());
}

#[test]
fn join_range_puts_one_space_between_words() {
    let all = strings(&["a", "bc", "d", "e"]);
    assert_eq!(join_range(&all, 1, 3), "bc d");
    assert_eq!(join_range(&all, 0, 4), "a bc d e");
    assert_eq!(join_range(&all, 2, 3), "d");
    assert_eq!(join_range(&all, 2, 2), "");
}

#[test]
fn splitter_gives_the_same_chunks_as_documents() {
    let splitter = FastRecursiveTextSplitter::new(3);
    assert_eq!(splitter.chunk_size, 3);
    let texts = strings(&["The cat sat. It was happy! Now it sleeps.", "Hello there"]);
    let documents = splitter.create_documents(texts.clone());
    let contents: Vec<String> = documents.into_iter().map(|d| d.page_content).collect();
    assert_eq!(contents, create_documents(texts, 3));
    assert_eq!(
        contents,
        strings(&["The cat sat.", "It was happy!", "Now it sleeps.", "Hello there"])
    );
}

#[test]
fn splitter_divides_one_text() {
    let splitter = FastRecursiveTextSplitter::new(2);
    assert_eq!(
        splitter.divide_text_into_chunks("Hello there friend how are you"),
        strings(&["Hello there friend how are you"])
    );
    assert_eq!(splitter.divide_text_into_chunks("a b. c"), strings(&["a b.", "c"]));
}

#[test]
fn document_keeps_its_text() {
    let document = Document::new("Some text.".to_string());
    assert_eq!(document.page_content, "Some text.");
}

#[test]
fn whitespace_is_what_unicode_calls_white_space() {
    for code in 0u32..0x3100 {
        let Some(c) = char::from_u32(code) else { panic!("not a character") };
        let space = (0x9..=0xd).contains(&code)
            || code == 0x20
            || code == 0x85
            || code == 0xa0
            || code == 0x1680
            || (0x2000..=0x200a).contains(&code)
            || code == 0x2028
            || code == 0x2029
            || code == 0x202f
            || code == 0x205f
            || code == 0x3000;
        let text = format!("a{}b", c);
        let chunks = divide_text_into_chunks(&text, 5);
        if space {
            assert_eq!(chunks, strings(&["a b"]));
        } else {
            assert_eq!(chunks, vec![text]);
        }
    }
}

#[test]
fn batch_can_be_taken_in_parts() {
    let first = strings(&["A. B.", "one two three"]);
    let rest = strings(&["C! D!", "", "x y. z"]);
    let mut all = first.clone();
    all.extend(rest.clone());
    let mut expected = create_documents(first, 2);
    expected.extend(create_documents(rest, 2));
    assert_eq!(create_documents(all, 2), expected);
}

#[test]
fn mark_before_a_line_break_inside_a_word_does_not_end_a_sentence() {
    let chunks = chunk_words(&strings(&["a.\n", "b.", "c"]), 1);
    assert_eq!(chunks, strings(&["a.\n b.", "c"]));
    let chunks = chunk_words(&strings(&["", "x", "", "y!", "z"]), 1);
    assert_eq!(chunks, strings(&[" x  y!", "z"]));
}
