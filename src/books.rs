use vstd::prelude::*;

use crate::epub::Epub;
use crate::heuristics::guess_book_name;

verus! {

/// A book of a container: its name, author, publisher, and the spine
/// documents `start..end` that hold it.
#[derive(Debug)]
pub struct Book {
    pub name: String,
    pub author: String,
    pub publisher: String,
    pub start: usize,
    pub end: usize,
    pub files: Vec<String>,
}

/// The container as one book spanning its whole spine, named by its title.
pub fn generate(epub: &Epub) -> (r: Vec<Book>)
    ensures
        r@.len() == 1,
        crate::heuristics::is_guessed_name(epub.title@, r@[0].name@),
        r@[0].author == epub.author,
        r@[0].publisher == epub.publisher,
        r@[0].start == 0,
        r@[0].end == epub.body@.len(),
        r@[0].files@.len() == epub.body@.len(),
        forall|i: int| 0 <= i < epub.body@.len() ==> (#[trigger] r@[0].files@[i]) == epub.body@[i].0,
{
    let name = guess_book_name(epub);
    let mut files: Vec<String> = Vec::new();
    let mut i: usize = 0;
    while i < epub.body.len()
        invariant
            i <= epub.body@.len(),
            files@.len() == i,
            forall|k: int| 0 <= k < i ==> (#[trigger] files@[k]) == epub.body@[k].0,
        decreases epub.body.len() - i,
    {
        files.push(epub.body[i].0.clone());
        i += 1;
    }
    vec![
        Book {
            name,
            author: epub.author.clone(),
            publisher: epub.publisher.clone(),
            start: 0,
            end: epub.body.len(),
            files,
        },
    ]
}

} // verus!
