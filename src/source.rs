use vstd::prelude::*;

verus! {

/// What a reader gets where a stream has nothing left to give: its error,
/// if it has one, else nothing.
pub open spec fn end_item<T, E>(failure: Option<E>) -> Option<Result<T, E>> {
    match failure {
        Some(e) => Some(Err(e)),
        None => None,
    }
}

/// A fallible stream of characters, read once and in order.
///
/// The stream gives the characters of [`pending`](CharSource::pending) one
/// by one, then either ends or, where [`failure`](CharSource::failure) holds
/// an error, gives that error once.
pub trait CharSource {
    /// What a failing read reports.
    type Error;

    /// The characters that the stream still gives, in order.
    spec fn pending(&self) -> Seq<char>;

    /// The error that follows those characters, if any.
    spec fn failure(&self) -> Option<Self::Error>;

    /// Read the next item of the stream: a character, the error that ends
    /// it, or `None` once it has ended.
    fn pull(&mut self) -> (r: Option<Result<char, Self::Error>>)
        ensures
            old(self).pending().len() > 0 ==> {
                &&& r == Some(Ok::<char, Self::Error>(old(self).pending()[0]))
                &&& final(self).pending() == old(self).pending().drop_first()
                &&& final(self).failure() == old(self).failure()
            },
            old(self).pending().len() == 0 ==> {
                &&& r == end_item::<char, Self::Error>(old(self).failure())
                &&& final(self).pending().len() == 0
                &&& final(self).failure() is None
            },
    ;
}

/// A character source over a text held in memory, optionally ended by an
/// error.
pub struct TextSource<E> {
    chars: Vec<char>,
    next: usize,
    failure: Option<E>,
}

impl<E> TextSource<E> {
    /// The source that gives the characters of `chars`, then `failure` if it
    /// holds an error.
    pub fn new(chars: Vec<char>, failure: Option<E>) -> (r: TextSource<E>)
        ensures
            r.pending() == chars@,
            r.failure() == failure,
    {
        proof {
            assert(chars@.subrange(0, chars@.len() as int) =~= chars@);
        }
        TextSource { chars, next: 0, failure }
    }
}

impl<E> CharSource for TextSource<E> {
    type Error = E;

    closed spec fn pending(&self) -> Seq<char> {
        if self.next <= self.chars@.len() {
            self.chars@.subrange(self.next as int, self.chars@.len() as int)
        } else {
            Seq::empty()
        }
    }

    closed spec fn failure(&self) -> Option<E> {
        self.failure
    }

    fn pull(&mut self) -> (r: Option<Result<char, E>>) {
        if self.next < self.chars.len() {
            let c = self.chars[self.next];
            self.next = self.next + 1;
            proof {
                assert(self.pending() =~= old(self).pending().drop_first());
            }
            Some(Ok(c))
        } else {
            let mut failure: Option<E> = None;
            std::mem::swap(&mut failure, &mut self.failure);
            match failure {
                Some(e) => Some(Err(e)),
                None => None,
            }
        }
    }
}

} // verus!
