//! A small owned-document type: the ownership-styled alternative to
//! leaving memory reclamation to a garbage collector.

use vstd::prelude::*;

verus! {

/// A document is the sequence of its words.
pub type Document = Vec<String>;

/// Make a document out of its words, taking ownership of them.
pub fn new_document(words: Vec<String>) -> (d: Document)
    ensures
        d@ == words@,
{
    words
}

/// Append one word, borrowing the document mutably for the call alone.
pub fn add_word(this: &mut Document, word: String)
    ensures
        final(this)@ == old(this)@.push(word),
{
    this.push(word);
}

/// Read the words without taking ownership of anything.
pub fn get_words(this: &Document) -> (r: &[String])
    ensures
        r@ == this@,
{
    this.as_slice()
}

} // verus!
