//! A splitter with a fixed chunk size, and the records it hands out.

use crate::chunking::{batch_chunks, create_documents, divide_text_into_chunks, text_chunks};
use crate::words::texts_of;
use vstd::prelude::*;

verus! {

/// One chunk of text.
pub struct Document {
    pub page_content: String,
}

impl Document {
    pub fn new(page_content: String) -> (document: Document)
        ensures
            document.page_content == page_content,
    {
        Document { page_content }
    }
}

/// The texts that the documents carry, in order.
pub open spec fn contents_of(documents: Seq<Document>) -> Seq<Seq<char>> {
    documents.map_values(|d: Document| d.page_content@)
}

/// Splits texts into chunks of about `chunk_size` words that end with a
/// sentence.
pub struct FastRecursiveTextSplitter {
    pub chunk_size: usize,
}

impl FastRecursiveTextSplitter {
    pub fn new(chunk_size: usize) -> (splitter: FastRecursiveTextSplitter)
        ensures
            splitter.chunk_size == chunk_size,
    {
        FastRecursiveTextSplitter { chunk_size }
    }

    /// The chunks of all the texts, each in a document of its own, in the
    /// order of the texts.
    pub fn create_documents(&self, texts: Vec<String>) -> (documents: Vec<Document>)
        ensures
            contents_of(documents@) == batch_chunks(texts_of(texts@), self.chunk_size as nat),
    {
        let chunks = create_documents(texts, self.chunk_size);
        let mut documents: Vec<Document> = Vec::new();
        let mut i: usize = 0;
        while i < chunks.len()
            invariant
                i <= chunks.len(),
                contents_of(documents@) =~= texts_of(chunks@).subrange(0, i as int),
            decreases chunks.len() - i,
        {
            let text = chunks[i].clone();
            let ghost before = contents_of(documents@);
            documents.push(Document::new(text));
            proof {
                assert(contents_of(documents@) =~= before.push(chunks@[i as int]@));
            }
            i += 1;
        }
        proof {
            assert(texts_of(chunks@).subrange(0, i as int) =~= texts_of(chunks@));
        }
        documents
    }

    /// The chunks of one text.
    pub fn divide_text_into_chunks(&self, text: &str) -> (chunks: Vec<String>)
        ensures
            texts_of(chunks@) == text_chunks(text@, self.chunk_size as nat),
    {
        divide_text_into_chunks(text, self.chunk_size)
    }
}

} // verus!
