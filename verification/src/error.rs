//! Error type with a human-readable context message and an optional chain of
//! underlying causes.

use vstd::prelude::*;

verus! {

/// An error carrying a context message and, optionally, the error that
/// caused it.
#[derive(Debug)]
pub struct Error {
    pub context: String,
    pub cause: Option<Box<Error>>,
}

impl Error {
    /// The context message of this error followed by the messages of its
    /// causes, outermost first.
    pub open spec fn messages(&self) -> Seq<Seq<char>>
        decreases self,
    {
        match self.cause {
            None => seq![self.context@],
            Some(b) => seq![self.context@] + b.messages(),
        }
    }

    /// Builds an error from a bare context message, with no underlying cause.
    pub fn context(text: &str) -> (r: Self)
        ensures
            r.context@ == text@,
            r.cause is None,
            r.messages() == seq![text@],
    {
        Error { context: text.to_owned(), cause: None }
    }

    /// Walks this error and its causes, outermost first.
    pub fn iter(&self) -> (r: ErrorIter<'_>)
        ensures
            r@ == self.messages(),
    {
        ErrorIter::new(self)
    }
}

/// Iterator over an error and the chain of its causes.
pub struct ErrorIter<'a> {
    cur: Option<&'a Error>,
}

impl<'a> View for ErrorIter<'a> {
    type V = Seq<Seq<char>>;

    /// The messages this iterator has yet to yield.
    closed spec fn view(&self) -> Seq<Seq<char>> {
        match self.cur {
            None => Seq::empty(),
            Some(e) => e.messages(),
        }
    }
}

impl<'a> ErrorIter<'a> {
    /// Starts the walk at the given error.
    pub fn new(err: &'a Error) -> (r: Self)
        ensures
            r@ == err.messages(),
    {
        ErrorIter { cur: Some(err) }
    }

    /// Yields the current error and steps to its cause, or `None` once the
    /// chain is exhausted.
    pub fn next(&mut self) -> (r: Option<&'a Error>)
        ensures
            old(self)@.len() == 0 ==> r is None && final(self)@ == old(self)@,
            old(self)@.len() > 0 ==> (r matches Some(e) && e.messages() == old(self)@
                && final(self)@ == old(self)@.drop_first()),
    {
        match self.cur {
            None => None,
            Some(e) => {
                self.cur = match &e.cause {
                    None => None,
                    Some(b) => Some(&**b),
                };
                Some(e)
            },
        }
    }
}

/// Attaches a context message to the failure case of a result.
pub trait ResultExt<T>: Sized {
    /// True when the receiver is the success case.
    spec fn is_success(&self) -> bool;

    /// The success value.
    spec fn success_value(&self) -> T;

    /// The messages of the failure case, outermost first.
    spec fn failure_messages(&self) -> Seq<Seq<char>>;

    /// Wraps the failure case in an [`Error`] with the given context
    /// message, keeping the original failure reachable as the cause: the
    /// wrapped error's messages are the context followed by the original
    /// failure's messages.
    fn context(self, msg: &str) -> (r: Result<T, Error>)
        ensures
            r is Ok <==> self.is_success(),
            r matches Ok(v) ==> v == self.success_value(),
            r matches Err(e) ==> e.context@ == msg@ && e.messages() == seq![msg@]
                + self.failure_messages(),
    ;
}

impl<T> ResultExt<T> for Result<T, Error> {
    open spec fn is_success(&self) -> bool {
        self is Ok
    }

    open spec fn success_value(&self) -> T {
        self->Ok_0
    }

    open spec fn failure_messages(&self) -> Seq<Seq<char>> {
        self->Err_0.messages()
    }

    fn context(self, msg: &str) -> (r: Result<T, Error>) {
        match self {
            Ok(v) => Ok(v),
            Err(e) => {
                let wrapped = Error { context: msg.to_owned(), cause: Some(Box::new(e)) };
                proof {
                    assert(wrapped.messages() =~= seq![msg@] + self->Err_0.messages());
                }
                Err(wrapped)
            },
        }
    }
}

impl<T> ResultExt<T> for Result<T, String> {
    open spec fn is_success(&self) -> bool {
        self is Ok
    }

    open spec fn success_value(&self) -> T {
        self->Ok_0
    }

    open spec fn failure_messages(&self) -> Seq<Seq<char>> {
        seq![self->Err_0@]
    }

    fn context(self, msg: &str) -> (r: Result<T, Error>) {
        match self {
            Ok(v) => Ok(v),
            Err(s) => {
                let ghost sv = s@;
                let wrapped = Error {
                    context: msg.to_owned(),
                    cause: Some(Box::new(Error { context: s, cause: None })),
                };
                proof {
                    let inner = wrapped.cause->Some_0;
                    assert(inner.messages() =~= seq![sv]);
                    assert(wrapped.messages() =~= seq![msg@] + seq![sv]);
                }
                Err(wrapped)
            },
        }
    }
}

} // verus!
