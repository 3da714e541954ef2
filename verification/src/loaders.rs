//! The sample batch loaders: one bulk fetch for books by author, one for
//! book summaries by title.  Each covers every requested key, encoding
//! absence as an empty result rather than omitting the key.

use vstd::prelude::*;

use crate::dataloader::{key_views, pair_views, BatchError, BatchLoader};
use crate::datamodel;
use crate::model::complete_for;
use crate::schema::{books_by, summary_text, Book};

verus! {

/// Resolves authors' names to the books they wrote, in one call over the
/// dataset it holds.
pub struct LoadBooks {
    pub books: Vec<datamodel::Book>,
}

impl LoadBooks {
    /// A books loader over the given dataset.
    pub fn new(books: Vec<datamodel::Book>) -> (r: Self)
        ensures
            r.books == books,
    {
        LoadBooks { books }
    }

    /// The bulk fetch itself: one entry per requested key, in request
    /// order, holding that author's books in dataset order — empty for an
    /// unknown author, so every key is covered.
    pub fn batch(&self, keys: &Vec<String>) -> (r: Vec<(String, Vec<Book>)>)
        ensures
            r@.len() == keys@.len(),
            forall|i: int|
                0 <= i < keys@.len() ==> (#[trigger] r@[i]).0 == keys@[i] && r@[i].1@ == books_by(
                    self.books@,
                    keys@[i]@,
                ),
            complete_for(pair_views(r@), key_views(keys@)),
    {
        let mut out: Vec<(String, Vec<Book>)> = Vec::new();
        let mut i: usize = 0;
        while i < keys.len()
            invariant
                0 <= i <= keys@.len(),
                out@.len() == i,
                forall|j: int|
                    0 <= j < i ==> (#[trigger] out@[j]).0 == keys@[j] && out@[j].1@ == books_by(
                        self.books@,
                        keys@[j]@,
                    ),
            decreases keys@.len() - i,
        {
            let mut group: Vec<Book> = Vec::new();
            let mut j: usize = 0;
            while j < self.books.len()
                invariant
                    0 <= j <= self.books@.len(),
                    i < keys@.len(),
                    group@ == books_by(self.books@.subrange(0, j as int), keys@[i as int]@),
                decreases self.books@.len() - j,
            {
                proof {
                    assert(self.books@.subrange(0, j + 1 as int).drop_last() =~= self.books@
                        .subrange(0, j as int));
                    assert(self.books@.subrange(0, j + 1 as int).last() == self.books@[j as int]);
                }
                if self.books[j].author == keys[i] {
                    group.push(Book { title: self.books[j].title.clone() });
                }
                j += 1;
            }
            proof {
                assert(self.books@.subrange(0, self.books@.len() as int) =~= self.books@);
            }
            out.push((keys[i].clone(), group));
            i += 1;
        }
        proof {
            assert forall|j: int|
                0 <= j < key_views(keys@).len() implies crate::model::has_key(
                pair_views(out@),
                #[trigger] key_views(keys@)[j],
            ) by {
                assert(pair_views(out@)[j].0 == keys@[j]@);
            }
        }
        out
    }
}

impl BatchLoader for LoadBooks {
    type V = Vec<Book>;

    fn load_batch(&mut self, keys: Vec<String>) -> (r: Result<
        Vec<(String, Vec<Book>)>,
        BatchError,
    >)
        ensures
            *final(self) == *old(self),
            r matches Result::Ok(res) && res@.len() == keys@.len() && complete_for(
                pair_views(res@),
                key_views(keys@),
            ) && (forall|i: int|
                0 <= i < keys@.len() ==> (#[trigger] res@[i]).0 == keys@[i] && res@[i].1@
                    == books_by(old(self).books@, keys@[i]@)),
    {
        Result::Ok(self.batch(&keys))
    }
}

/// Resolves book titles to their summaries, in one call.
pub struct LoadSummaries;

impl LoadSummaries {
    /// The bulk fetch itself: one entry per requested key, in request
    /// order, each holding the sample summary, so every key is covered.
    pub fn batch(&self, keys: &Vec<String>) -> (r: Vec<(String, String)>)
        ensures
            r@.len() == keys@.len(),
            forall|i: int|
                0 <= i < keys@.len() ==> (#[trigger] r@[i]).0 == keys@[i] && r@[i].1@
                    == "Don\u{2019}t know, read it yourself!"@,
            complete_for(pair_views(r@), key_views(keys@)),
    {
        let mut out: Vec<(String, String)> = Vec::new();
        let mut i: usize = 0;
        while i < keys.len()
            invariant
                0 <= i <= keys@.len(),
                out@.len() == i,
                forall|j: int|
                    0 <= j < i ==> (#[trigger] out@[j]).0 == keys@[j] && out@[j].1@
                        == "Don\u{2019}t know, read it yourself!"@,
            decreases keys@.len() - i,
        {
            out.push((keys[i].clone(), summary_text()));
            i += 1;
        }
        proof {
            assert forall|j: int|
                0 <= j < key_views(keys@).len() implies crate::model::has_key(
                pair_views(out@),
                #[trigger] key_views(keys@)[j],
            ) by {
                assert(pair_views(out@)[j].0 == keys@[j]@);
            }
        }
        out
    }
}

impl BatchLoader for LoadSummaries {
    type V = String;

    fn load_batch(&mut self, keys: Vec<String>) -> (r: Result<
        Vec<(String, String)>,
        BatchError,
    >)
        ensures
            r matches Result::Ok(res) && res@.len() == keys@.len() && complete_for(
                pair_views(res@),
                key_views(keys@),
            ) && (forall|i: int|
                0 <= i < keys@.len() ==> (#[trigger] res@[i]).0 == keys@[i] && res@[i].1@
                    == "Don\u{2019}t know, read it yourself!"@),
    {
        Result::Ok(self.batch(&keys))
    }
}

} // verus!
