//! The objects served over the sample library's schema, with the pure
//! computation of each resolver.  The surrounding shell wires these into
//! its field-resolution engine and suspends through the loader where a
//! field is batched.

use vstd::prelude::*;

use crate::datamodel;

verus! {

/// The root object: resolves to the list of authors.
pub struct Library;

/// An author as served: name and date of birth.
#[derive(Clone)]
pub struct Author {
    pub name: String,
    pub born: String,
}

/// A book as served: its title.
#[derive(Clone)]
pub struct Book {
    pub title: String,
}

/// The books of the dataset written by `name`, in dataset order, as served
/// objects.
pub open spec fn books_by(books: Seq<datamodel::Book>, name: Seq<char>) -> Seq<Book>
    decreases books.len(),
{
    if books.len() == 0 {
        Seq::empty()
    } else {
        let rest = books_by(books.drop_last(), name);
        if books.last().author@ == name {
            rest.push(Book { title: books.last().title })
        } else {
            rest
        }
    }
}

/// The summary served for every book.
pub fn summary_text() -> (r: String)
    ensures
        r@ == "Don\u{2019}t know, read it yourself!"@,
{
    "Don\u{2019}t know, read it yourself!".to_string()
}

impl Library {
    /// Resolves the `authors` field: every author of the dataset, in
    /// dataset order, as a served object.
    pub fn authors(&self, dataset: &Vec<datamodel::Author>) -> (r: Vec<Author>)
        ensures
            r@.len() == dataset@.len(),
            forall|i: int|
                0 <= i < dataset@.len() ==> (#[trigger] r@[i]).name == dataset@[i].name
                    && r@[i].born == dataset@[i].born,
    {
        let mut out: Vec<Author> = Vec::new();
        let mut i: usize = 0;
        while i < dataset.len()
            invariant
                0 <= i <= dataset@.len(),
                out@.len() == i,
                forall|j: int|
                    0 <= j < i ==> (#[trigger] out@[j]).name == dataset@[j].name && out@[j].born
                        == dataset@[j].born,
            decreases dataset@.len() - i,
        {
            out.push(Author { name: dataset[i].name.clone(), born: dataset[i].born.clone() });
            i += 1;
        }
        out
    }
}

impl Author {
    /// Resolves the `books` field from the dataset: the books this author
    /// wrote, in dataset order.
    pub fn books(&self, books: &Vec<datamodel::Book>) -> (r: Vec<Book>)
        ensures
            r@ == books_by(books@, self.name@),
    {
        let mut out: Vec<Book> = Vec::new();
        let mut i: usize = 0;
        while i < books.len()
            invariant
                0 <= i <= books@.len(),
                out@ == books_by(books@.subrange(0, i as int), self.name@),
            decreases books@.len() - i,
        {
            proof {
                assert(books@.subrange(0, i + 1 as int).drop_last() =~= books@.subrange(
                    0,
                    i as int,
                ));
                assert(books@.subrange(0, i + 1 as int).last() == books@[i as int]);
            }
            if books[i].author == self.name {
                out.push(Book { title: books[i].title.clone() });
            }
            i += 1;
        }
        proof {
            assert(books@.subrange(0, books@.len() as int) =~= books@);
        }
        out
    }
}

impl Book {
    /// Resolves the `summary` field: the sample summary, the same for
    /// every book.
    pub fn summary(&self) -> (r: String)
        ensures
            r@ == "Don\u{2019}t know, read it yourself!"@,
    {
        summary_text()
    }
}

} // verus!
