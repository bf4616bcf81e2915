//! Results that are computed once and kept in a file.

use vstd::prelude::*;
use crate::text::push_text;

verus! {

/// The name of the file that keeps the result with the given key:
/// `data/<key>.<extension>`, with `.gz` behind it where the file is
/// compressed.
pub open spec fn cache_name(key: Seq<char>, extension: Seq<char>, gz: bool) -> Seq<char> {
    "data/"@ + key + "."@ + extension + if gz {
        ".gz"@
    } else {
        Seq::empty()
    }
}

/// The name of the file that keeps the result with the given key.
pub fn cache_path(key: &str, extension: &str, gz: bool) -> (path: String)
    ensures
        path@ == cache_name(key@, extension@, gz),
{
    let mut path = "data/".to_owned();
    push_text(&mut path, key);
    push_text(&mut path, ".");
    push_text(&mut path, extension);
    if gz {
        push_text(&mut path, ".gz");
    } else {
        assert(path@ + Seq::<char>::empty() =~= path@);
    }
    path
}

/// What is done with a result once it is there.
#[derive(Debug)]
pub enum Outcome<T> {
    /// The result was kept in its file: nothing is left to do.
    Cached(T),
    /// The result was computed: it is to be written to its file.
    Fresh(T),
}

/// The result that the file keeps, where it keeps one; else the result
/// that `producer` computes.
pub fn memoise<T, P: FnOnce() -> T>(cached: Option<T>, producer: P) -> (r: Outcome<T>)
    requires
        call_requires(producer, ()),
    ensures
        match cached {
            Some(value) => r == Outcome::Cached(value),
            None => r matches Outcome::Fresh(value) && call_ensures(producer, (), value),
        },
{
    match cached {
        Some(value) => Outcome::Cached(value),
        None => Outcome::Fresh(producer()),
    }
}

/// The same for a result whose file is written in a packed form, and for a
/// producer that may fail. There is no result where the file does not hold
/// a packed form; where the producer fails, its error is handed on.
pub fn memoise_bytes<T: BytesSerde, E, P: FnOnce() -> Result<T, E>>(
    cached: Option<&[u8]>,
    producer: P,
) -> (r: Result<Option<Outcome<T>>, E>)
    requires
        call_requires(producer, ()),
    ensures
        match cached {
            Some(bytes) => match r {
                Ok(Some(Outcome::Cached(value))) => T::decode(bytes@) == Some(value.model()),
                Ok(None) => T::decode(bytes@) is None,
                _ => false,
            },
            None => match r {
                Ok(Some(Outcome::Fresh(value))) => call_ensures(
                    producer,
                    (),
                    Ok::<T, E>(value),
                ),
                Err(e) => call_ensures(producer, (), Err::<T, E>(e)),
                _ => false,
            },
        },
{
    match cached {
        Some(bytes) => match T::deserialize(bytes) {
            Some(value) => Ok(Some(Outcome::Cached(value))),
            None => Ok(None),
        },
        None => match producer() {
            Ok(value) => Ok(Some(Outcome::Fresh(value))),
            Err(e) => Err(e),
        },
    }
}

/// A value with a packed form of its own.
pub trait BytesSerde: Sized {
    /// What the value holds.
    type Model;

    /// What the value holds.
    spec fn model(&self) -> Self::Model;

    /// The packed form of a value.
    spec fn encode(m: Self::Model) -> Seq<u8>;

    /// What the value holds that bytes are the packed form of, where they
    /// are one.
    spec fn decode(bytes: Seq<u8>) -> Option<Self::Model>;

    /// Writes the packed form.
    fn serialize(&self) -> (bytes: Vec<u8>)
        ensures
            bytes@ == Self::encode(self.model()),
    ;

    /// Reads a value from its packed form.
    fn deserialize(bytes: &[u8]) -> (r: Option<Self>)
        ensures
            match r {
                Some(value) => Self::decode(bytes@) == Some(value.model()),
                None => Self::decode(bytes@) is None,
            },
    ;
}

/// A reader together with the number of bytes that were read from it.
pub struct ReadProgressHook<R> {
    inner: R,
    progress: usize,
}

impl<R> ReadProgressHook<R> {
    /// The number of bytes read so far.
    pub closed spec fn count(&self) -> usize {
        self.progress
    }

    /// The reader that the hook holds.
    pub closed spec fn reader(&self) -> R {
        self.inner
    }

    /// The reader, with the number of bytes that were read from it before.
    pub fn new(inner: R, progress: usize) -> (hook: Self)
        ensures
            hook.reader() == inner,
            hook.count() == progress,
    {
        ReadProgressHook { inner, progress }
    }

    /// The reader itself, to read from: what is done to it is done to the
    /// reader that the hook holds. The count stays as it is.
    pub fn inner(&mut self) -> (r: &mut R)
        ensures
            *r == old(self).reader(),
            final(self).reader() == *final(r),
            final(self).count() == old(self).count(),
    {
        &mut self.inner
    }

    /// The number of bytes read so far.
    pub fn progress(&self) -> (n: usize)
        ensures
            n == self.count(),
    {
        self.progress
    }

    /// Takes note of `read` more bytes. The count stops at `usize::MAX`,
    /// and the reader stays as it is.
    pub fn advance(&mut self, read: usize)
        ensures
            final(self).reader() == old(self).reader(),
            final(self).count() == if old(self).count() + read <= usize::MAX {
                old(self).count() + read
            } else {
                usize::MAX as int
            },
    {
        self.progress = self.progress.saturating_add(read);
    }
}

} // verus!
