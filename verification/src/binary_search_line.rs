//! Binary search for a line in a file of lines that are sorted by a key.
//!
//! The search probes byte offsets. A probe reads the first line that starts
//! at or after its offset and is not empty: it discards what is left of the
//! line that holds the byte before the offset, and the empty lines that
//! follow. The window of offsets is halved until it is closed; the line
//! read at the offset that is left is the first line with the key, if any
//! line has it.

use vstd::prelude::*;
use vstd::slice::slice_subrange;
use vstd::utf8::{decode_utf8, valid_utf8};
use crate::keys::{Key, Relation};
use crate::text::utf8_text;

verus! {

/// The byte that ends a line.
pub const LINE_BREAK: u8 = 10;

/// The offset just behind the first line break at or after `s`, or the
/// length of the file where there is none.
pub open spec fn line_end(d: Seq<u8>, s: int) -> int
    decreases d.len() - s,
{
    if s < 0 || s >= d.len() {
        d.len() as int
    } else if d[s] == LINE_BREAK {
        s + 1
    } else {
        line_end(d, s + 1)
    }
}

/// A line starts at `s`: at the start of the file or behind a line break.
pub open spec fn is_line_start(d: Seq<u8>, s: int) -> bool {
    &&& 0 <= s < d.len()
    &&& s == 0 || d[s - 1] == LINE_BREAK
}

/// The line that starts at `s`, with its line break if it has one.
pub open spec fn line_at(d: Seq<u8>, s: int) -> Seq<u8> {
    d.subrange(s, line_end(d, s))
}

/// A line ends behind its start and within the file.
pub proof fn lemma_line_end_bounds(d: Seq<u8>, s: int)
    requires
        0 <= s <= d.len(),
    ensures
        s <= line_end(d, s) <= d.len(),
        s < d.len() ==> s < line_end(d, s),
        s < d.len() ==> d[line_end(d, s) - 1] == LINE_BREAK || line_end(d, s) == d.len(),
    decreases d.len() - s,
{
    if s < d.len() && d[s] != LINE_BREAK {
        lemma_line_end_bounds(d, s + 1);
    }
}

/// A later offset has no earlier line end.
pub proof fn lemma_line_end_monotone(d: Seq<u8>, a: int, b: int)
    requires
        0 <= a <= b <= d.len(),
    ensures
        line_end(d, a) <= line_end(d, b),
    decreases b - a,
{
    lemma_line_end_bounds(d, b);
    if a < b {
        if d[a] == LINE_BREAK {
        } else {
            lemma_line_end_monotone(d, a + 1, b);
        }
    }
}

/// A line that is not empty starts at `s`.
pub open spec fn is_full_line(d: Seq<u8>, s: int) -> bool {
    is_line_start(d, s) && d[s] != LINE_BREAK
}

/// The first offset at or after `s` that holds no line break, or the length
/// of the file where there is none.
pub open spec fn past_breaks(d: Seq<u8>, s: int) -> int
    decreases d.len() - s,
{
    if s < 0 || s >= d.len() {
        d.len() as int
    } else if d[s] == LINE_BREAK {
        past_breaks(d, s + 1)
    } else {
        s
    }
}

/// The offset at which the line read by a probe at `p` starts: behind the
/// line that holds the byte before `p`, and behind the empty lines that
/// follow it. It is the length of the file where no line is left to read.
pub open spec fn start_of(d: Seq<u8>, p: int) -> int {
    if p <= 0 {
        past_breaks(d, 0)
    } else {
        past_breaks(d, line_end(d, p - 1))
    }
}

/// Only line breaks are passed over.
pub proof fn lemma_past_breaks(d: Seq<u8>, s: int)
    requires
        0 <= s <= d.len(),
    ensures
        s <= past_breaks(d, s) <= d.len(),
        past_breaks(d, s) < d.len() ==> d[past_breaks(d, s)] != LINE_BREAK,
        forall|i: int| s <= i < past_breaks(d, s) ==> d[i] == LINE_BREAK,
    decreases d.len() - s,
{
    if s < d.len() && d[s] == LINE_BREAK {
        lemma_past_breaks(d, s + 1);
    }
}

/// What a probe reads is the first line at or after its offset that is not
/// empty.
pub proof fn lemma_start_of(d: Seq<u8>, p: int)
    requires
        0 <= p <= d.len(),
    ensures
        p <= start_of(d, p) <= d.len(),
        start_of(d, p) < d.len() ==> is_full_line(d, start_of(d, p)),
        forall|t: int| p <= t && #[trigger] is_full_line(d, t) ==> start_of(d, p) <= t,
{
    let e = if p == 0 {
        0
    } else {
        line_end(d, p - 1)
    };
    if p > 0 {
        lemma_line_end_bounds(d, p - 1);
    }
    lemma_past_breaks(d, e);
    let r = past_breaks(d, e);
    if r < d.len() && r > e {
        assert(d[r - 1] == LINE_BREAK);
    }
    assert forall|t: int| p <= t && #[trigger] is_full_line(d, t) implies r <= t by {
        if p > 0 {
            lemma_line_end_monotone(d, p - 1, t - 1);
            assert(line_end(d, t - 1) == t);
        }
        if t < r {
            assert(d[t] == LINE_BREAK);
        }
    }
}

/// The offset just behind the first line break at or after `s`.
pub fn find_line_end(data: &[u8], s: usize) -> (e: usize)
    requires
        s <= data@.len(),
    ensures
        e == line_end(data@, s as int),
        s <= e <= data@.len(),
{
    let mut e = s;
    proof {
        lemma_line_end_bounds(data@, s as int);
    }
    while e < data.len() && data[e] != LINE_BREAK
        invariant
            s <= e <= data@.len(),
            line_end(data@, e as int) == line_end(data@, s as int),
        decreases data@.len() - e,
    {
        e += 1;
    }
    if e < data.len() {
        e + 1
    } else {
        e
    }
}

/// The first line at or after the offset `start` that is not empty.
/// Returns the offsets of its start and end; they are equal where the file
/// holds no such line.
pub fn next_line_starting_at(data: &[u8], start: usize) -> (r: (usize, usize))
    requires
        start <= data@.len(),
    ensures
        r.0 == start_of(data@, start as int),
        r.1 == line_end(data@, r.0 as int),
        r.0 <= r.1 <= data@.len(),
        r.0 == r.1 <==> r.0 == data@.len(),
{
    let mut s = if start > 0 {
        find_line_end(data, start - 1)
    } else {
        0
    };
    let ghost from = s as int;
    while s < data.len() && data[s] == LINE_BREAK
        invariant
            from <= s <= data@.len(),
            past_breaks(data@, s as int) == past_breaks(data@, from),
        decreases data@.len() - s,
    {
        s += 1;
    }
    let e = find_line_end(data, s);
    proof {
        lemma_line_end_bounds(data@, s as int);
    }
    (s, e)
}

/// What a probe found, as seen from the key that is searched for.
pub enum Probe {
    /// The probe read no line: no line that is not empty starts at or after
    /// it.
    NoLine,
    /// The key searched for comes before the key of the line read.
    KeyBefore,
    /// The line read has the key searched for.
    KeyFound,
    /// The key searched for comes after the key of the line read.
    KeyAfter,
}

/// The window of byte offsets in which the search still probes: the first
/// line with the key, if there is one, is read by the probe at the least
/// offset whose probe reads no line with a smaller key, and that offset
/// lies between `lo` and `hi`.
pub struct Window {
    pub lo: u64,
    pub hi: u64,
}

impl Window {
    /// The window of a file of `len` bytes.
    pub fn new(len: u64) -> (w: Self)
        ensures
            w.lo == 0,
            w.hi == len,
    {
        Window { lo: 0, hi: len }
    }

    /// One offset is left.
    pub open spec fn closed(&self) -> bool {
        self.lo >= self.hi
    }

    /// The offset of the next probe: the middle of the window.
    pub open spec fn probe_offset(&self) -> int {
        self.lo + (self.hi - self.lo) / 2
    }

    /// Whether one offset is left.
    pub fn is_closed(&self) -> (b: bool)
        ensures
            b == self.closed(),
    {
        self.lo >= self.hi
    }

    /// The offset of the next probe.
    pub fn probe(&self) -> (p: u64)
        requires
            self.lo <= self.hi,
        ensures
            p == self.probe_offset(),
            self.lo <= p <= self.hi,
            !self.closed() ==> p < self.hi,
    {
        self.lo + (self.hi - self.lo) / 2
    }

    /// Narrows a window that is not closed after a probe at `probe()`.
    ///
    /// A probe that read a line with a smaller key makes the offset behind
    /// it the lower end. Every other probe becomes the upper end: the one
    /// that read a line with the key too, since an earlier line may have
    /// the key as well.
    pub fn step(&mut self, found: Probe)
        requires
            old(self).lo < old(self).hi,
        ensures
            final(self).lo <= final(self).hi,
            final(self).hi - final(self).lo < old(self).hi - old(self).lo,
            match found {
                Probe::KeyAfter => final(self).hi == old(self).hi && final(self).lo == old(
                    self,
                ).probe_offset() + 1,
                _ => final(self).lo == old(self).lo && final(self).hi == old(self).probe_offset(),
            },
    {
        let p = self.probe();
        match found {
            Probe::KeyAfter => {
                self.lo = p + 1;
            },
            _ => {
                self.hi = p;
            },
        }
    }
}

/// Why a search failed.
#[derive(Debug)]
pub enum SearchError {
    /// A line that was read is not valid UTF-8.
    Encoding,
    /// A line that was read has no key.
    NoKey,
}

/// `g` accepts every line and treats lines of the same text alike: it gives
/// them the same key, or none to any of them.
pub open spec fn is_extractor<L: Key, G: Fn(&str) -> Option<L>>(g: G) -> bool {
    &&& forall|t: &str| #[trigger] call_requires(g, (t,))
    &&& forall|t1: &str, r1: Option<L>, t2: &str, r2: Option<L>|
        t1@ == t2@ && #[trigger] call_ensures(g, (t1,), r1) && #[trigger] call_ensures(g, (t2,), r2)
            ==> match r1 {
            Some(k1) => r2 is Some && r2.unwrap()@ == k1@,
            None => r2 is None,
        }
}

/// `g` computes `key_of`: it accepts every line, and what it returns for a
/// line is what `key_of` gives for the text of the line.
pub open spec fn computes<L: Key, G: Fn(&str) -> Option<L>>(
    g: G,
    key_of: spec_fn(Seq<char>) -> Option<L::V>,
) -> bool {
    &&& forall|t: &str| #[trigger] call_requires(g, (t,))
    &&& forall|t: &str, r: Option<L>| #[trigger]
        call_ensures(g, (t,), r) ==> match r {
            Some(k) => key_of(t@) == Some(k@),
            None => key_of(t@) is None,
        }
}

/// Some call of `g` on the text `text` returns the key `k`.
pub open spec fn gives<L: Key, G: Fn(&str) -> Option<L>>(g: G, text: Seq<char>, k: L::V) -> bool {
    exists|t: &str, kx: L| t@ == text && kx@ == k && #[trigger] call_ensures(g, (t,), Some(kx))
}

/// The key that `g` returns for a text, where some call of it returns one.
pub open spec fn extracted<L: Key, G: Fn(&str) -> Option<L>>(g: G) -> spec_fn(Seq<char>) -> Option<
    L::V,
> {
    |text: Seq<char>|
        if exists|k: L::V| gives(g, text, k) {
            Some(choose|k: L::V| gives(g, text, k))
        } else {
            None
        }
}

/// An extractor computes the keys that it returns.
pub proof fn lemma_extracted<L: Key, G: Fn(&str) -> Option<L>>(g: G)
    requires
        is_extractor::<L, G>(g),
    ensures
        computes::<L, G>(g, extracted::<L, G>(g)),
{
    let key_of = extracted::<L, G>(g);
    assert forall|t: &str, r: Option<L>| #[trigger] call_ensures(g, (t,), r) implies match r {
        Some(k) => key_of(t@) == Some(k@),
        None => key_of(t@) is None,
    } by {
        match r {
            Some(k) => {
                assert(gives(g, t@, k@));
                let k2 = choose|k2: L::V| gives(g, t@, k2);
                let (t2, kx) = choose|t2: &str, kx: L|
                    t2@ == t@ && kx@ == k2 && #[trigger] call_ensures(g, (t2,), Some(kx));
                assert(kx@ == k@);
            },
            None => {
                if exists|k: L::V| gives(g, t@, k) {
                    let k2 = choose|k2: L::V| gives(g, t@, k2);
                    let (t2, kx) = choose|t2: &str, kx: L|
                        t2@ == t@ && kx@ == k2 && #[trigger] call_ensures(g, (t2,), Some(kx));
                    assert(false);
                }
            },
        }
    }
}

/// The key of the line that starts at `s`, where the line is valid UTF-8
/// and has one.
pub open spec fn line_key<L: Key>(
    key_of: spec_fn(Seq<char>) -> Option<L::V>,
    d: Seq<u8>,
    s: int,
) -> Option<L::V> {
    if valid_utf8(line_at(d, s)) {
        key_of(decode_utf8(line_at(d, s)))
    } else {
        None
    }
}

/// The file can be searched: every line that is not empty is valid UTF-8
/// and has a key, and the keys never decrease from one such line to the
/// next.
pub open spec fn searchable<L: Key>(key_of: spec_fn(Seq<char>) -> Option<L::V>, d: Seq<u8>) -> bool {
    &&& forall|s: int| #[trigger] is_full_line(d, s) ==> line_key::<L>(key_of, d, s) is Some
    &&& forall|s1: int, s2: int|
        #[trigger] is_full_line(d, s1) && #[trigger] is_full_line(d, s2) && s1 < s2 ==> !L::before(
            line_key::<L>(key_of, d, s2).unwrap(),
            line_key::<L>(key_of, d, s1).unwrap(),
        )
}

/// Some line of the file has the key `q`.
pub open spec fn present<L: Key>(
    key_of: spec_fn(Seq<char>) -> Option<L::V>,
    d: Seq<u8>,
    q: L::V,
) -> bool {
    exists|s: int| #[trigger] is_full_line(d, s) && line_key::<L>(key_of, d, s) == Some(q)
}

/// The line that starts at `s` is the first line with the key `q`.
pub open spec fn is_first<L: Key>(
    key_of: spec_fn(Seq<char>) -> Option<L::V>,
    d: Seq<u8>,
    q: L::V,
    s: int,
) -> bool {
    &&& is_full_line(d, s)
    &&& line_key::<L>(key_of, d, s) == Some(q)
    &&& forall|t: int| #[trigger] is_full_line(d, t) && t < s ==> line_key::<L>(key_of, d, t) != Some(q)
}

/// The probe at `p` reads a line whose key comes before `q`.
pub open spec fn reads_before<L: Key>(
    key_of: spec_fn(Seq<char>) -> Option<L::V>,
    d: Seq<u8>,
    q: L::V,
    p: int,
) -> bool {
    &&& start_of(d, p) < d.len()
    &&& line_key::<L>(key_of, d, start_of(d, p)) matches Some(k) && L::before(k, q)
}

/// The probe at `p` reads no line, or a line whose key does not come
/// before `q`.
pub open spec fn reads_no_less<L: Key>(
    key_of: spec_fn(Seq<char>) -> Option<L::V>,
    d: Seq<u8>,
    q: L::V,
    p: int,
) -> bool {
    start_of(d, p) < d.len() ==> (line_key::<L>(key_of, d, start_of(d, p)) matches Some(k)
        && !L::before(k, q))
}

/// In a searchable file, no line before the lower end of the window has
/// the key: a probe just before that end read a line with a smaller key.
pub proof fn lemma_before_window<L: Key>(
    key_of: spec_fn(Seq<char>) -> Option<L::V>,
    d: Seq<u8>,
    q: L::V,
    lo: int,
    t: int,
)
    requires
        searchable::<L>(key_of, d),
        0 < lo <= d.len(),
        reads_before::<L>(key_of, d, q, lo - 1),
        is_full_line(d, t),
        t < lo,
    ensures
        line_key::<L>(key_of, d, t) != Some(q),
{
    L::order_laws();
    lemma_start_of(d, lo - 1);
}

/// In a searchable file, a line with the key at or after a closed window
/// is read by the probe at the window: that probe reads a line, and its
/// key is neither smaller nor greater.
pub proof fn lemma_at_window<L: Key>(
    key_of: spec_fn(Seq<char>) -> Option<L::V>,
    d: Seq<u8>,
    q: L::V,
    lo: int,
    t: int,
)
    requires
        searchable::<L>(key_of, d),
        0 <= lo <= d.len(),
        reads_no_less::<L>(key_of, d, q, lo),
        is_full_line(d, t),
        lo <= t,
        line_key::<L>(key_of, d, t) == Some(q),
    ensures
        start_of(d, lo) < d.len(),
        line_key::<L>(key_of, d, start_of(d, lo)) == Some(q),
{
    L::order_laws();
    lemma_start_of(d, lo);
}

/// What a search returns, for keys given by `key_of`: a line that is
/// returned is a line of the file and has the key, and in a searchable file
/// it is the first such line; in a searchable file the search does not
/// fail, and it returns a line whenever some line has the key. A search
/// fails on a file with a line that is not valid UTF-8, or that has no key.
pub open spec fn search_result<L: Key>(
    key_of: spec_fn(Seq<char>) -> Option<L::V>,
    d: Seq<u8>,
    q: L::V,
    r: Result<Option<String>, SearchError>,
) -> bool {
    match r {
        Ok(Some(line)) => exists|s: int| #[trigger]
            is_full_line(d, s) && valid_utf8(line_at(d, s)) && line@ == decode_utf8(line_at(d, s))
                && key_of(line@) == Some(q) && (searchable::<L>(key_of, d) ==> is_first::<L>(
                key_of,
                d,
                q,
                s,
            )),
        Ok(None) => searchable::<L>(key_of, d) ==> !present::<L>(key_of, d, q),
        Err(SearchError::Encoding) => exists|s: int| #[trigger]
            is_full_line(d, s) && !valid_utf8(line_at(d, s)),
        Err(SearchError::NoKey) => exists|s: int| #[trigger]
            is_full_line(d, s) && valid_utf8(line_at(d, s)) && key_of(
                decode_utf8(line_at(d, s)),
            ) is None,
    }
}

/// In a searchable file a search does not fail; it returns a line exactly
/// where some line has the key, and the line that it returns is the first
/// line with the key.
pub proof fn lemma_search_in_sorted_file<L: Key>(
    key_of: spec_fn(Seq<char>) -> Option<L::V>,
    d: Seq<u8>,
    q: L::V,
    r: Result<Option<String>, SearchError>,
)
    requires
        searchable::<L>(key_of, d),
        search_result::<L>(key_of, d, q, r),
    ensures
        r is Ok,
        r matches Ok(Some(_)) <==> present::<L>(key_of, d, q),
        r matches Ok(Some(line)) ==> exists|s: int| #[trigger]
            is_first::<L>(key_of, d, q, s) && line@ == decode_utf8(line_at(d, s)),
{
    match r {
        Ok(Some(line)) => {
            let s = choose|s: int| #[trigger]
                is_full_line(d, s) && valid_utf8(line_at(d, s)) && line@ == decode_utf8(
                    line_at(d, s),
                ) && key_of(line@) == Some(q) && (searchable::<L>(key_of, d) ==> is_first::<L>(
                    key_of,
                    d,
                    q,
                    s,
                ));
            assert(is_first::<L>(key_of, d, q, s));
        },
        Ok(None) => {},
        Err(SearchError::Encoding) => {
            let s = choose|s: int| #[trigger] is_full_line(d, s) && !valid_utf8(line_at(d, s));
            assert(line_key::<L>(key_of, d, s) is Some);
        },
        Err(SearchError::NoKey) => {
            let s = choose|s: int| #[trigger]
                is_full_line(d, s) && valid_utf8(line_at(d, s)) && key_of(
                    decode_utf8(line_at(d, s)),
                ) is None;
            assert(line_key::<L>(key_of, d, s) is Some);
        },
    }
}

/// The search itself, for an extractor that computes `key_of`.
pub(crate) fn search_lines<L: Key, G: Fn(&str) -> Option<L>>(
    file: &[u8],
    get_key: G,
    key: &L,
    Ghost(key_of): Ghost<spec_fn(Seq<char>) -> Option<L::V>>,
) -> (r: Result<Option<String>, SearchError>)
    requires
        computes::<L, G>(get_key, key_of),
        file@.len() <= u64::MAX,
    ensures
        search_result::<L>(key_of, file@, key@, r),
        r matches Ok(Some(line)) ==> gives(get_key, line@, key@),
{
    let ghost d = file@;
    let ghost q = key@;
    let ghost sound = searchable::<L>(key_of, d);
    let len = file.len();
    let mut window = Window::new(len as u64);
    proof {
        lemma_start_of(d, d.len() as int);
    }
    loop
        invariant
            d == file@,
            q == key@,
            d.len() <= u64::MAX,
            d.len() == len,
            computes::<L, G>(get_key, key_of),
            sound == searchable::<L>(key_of, d),
            window.lo <= window.hi <= d.len(),
            window.lo > 0 ==> reads_before::<L>(key_of, d, q, window.lo - 1),
            reads_no_less::<L>(key_of, d, q, window.hi as int),
        decreases window.hi - window.lo,
    {
        let ghost lo = window.lo as int;
        let closed = window.is_closed();
        let offset = window.probe();
        let p = offset as usize;
        let (s, e) = next_line_starting_at(file, p);
        proof {
            L::order_laws();
            lemma_start_of(d, p as int);
        }
        if s == e {
            if closed {
                proof {
                    if sound && present::<L>(key_of, d, q) {
                        let t = choose|t: int| #[trigger]
                            is_full_line(d, t) && line_key::<L>(key_of, d, t) == Some(q);
                        if t < lo {
                            lemma_before_window::<L>(key_of, d, q, lo, t);
                        }
                    }
                }
                return Ok(None);
            }
            window.step(Probe::NoLine);
        } else {
            let bytes = slice_subrange(file, s, e);
            let text = match utf8_text(bytes) {
                Some(text) => text,
                None => {
                    assert(is_full_line(d, s as int) && !valid_utf8(line_at(d, s as int)));
                    return Err(SearchError::Encoding);
                },
            };
            let found = match get_key(text) {
                Some(found) => found,
                None => {
                    assert(is_full_line(d, s as int) && valid_utf8(line_at(d, s as int))
                        && key_of(decode_utf8(line_at(d, s as int))) is None);
                    return Err(SearchError::NoKey);
                },
            };
            assert(line_key::<L>(key_of, d, s as int) == Some(found@));
            let relation = key.relation(&found);
            if closed {
                match relation {
                    Relation::Same => {
                        proof {
                            assert(gives(get_key, text@, key@));
                            if sound {
                                assert forall|t: int| #[trigger]
                                    is_full_line(d, t) && t < s implies line_key::<L>(key_of, d, t)
                                    != Some(q) by {
                                    lemma_before_window::<L>(key_of, d, q, lo, t);
                                }
                                assert(is_first::<L>(key_of, d, q, s as int));
                            }
                        }
                        return Ok(Some(text.to_owned()));
                    },
                    _ => {
                        proof {
                            if sound && present::<L>(key_of, d, q) {
                                let t = choose|t: int| #[trigger]
                                    is_full_line(d, t) && line_key::<L>(key_of, d, t) == Some(q);
                                if t < lo {
                                    lemma_before_window::<L>(key_of, d, q, lo, t);
                                } else {
                                    lemma_at_window::<L>(key_of, d, q, lo, t);
                                }
                            }
                        }
                        return Ok(None);
                    },
                }
            }
            match relation {
                Relation::Same => window.step(Probe::KeyFound),
                Relation::Before => window.step(Probe::KeyBefore),
                Relation::After => window.step(Probe::KeyAfter),
            }
        }
    }
}

/// Finds the first line with the key `key` in a file of lines sorted by the
/// key that `get_key` gives them. Empty lines are passed over.
///
/// A line that is returned is a line of the file and has the key. In a
/// searchable file the search does not fail, it returns a line whenever
/// some line has the key, and that line is the first that has it.
///
/// Fails where a line that a probe reads is not valid UTF-8 or has no key.
pub fn binary_search_line_in_file<L: Key, G: Fn(&str) -> Option<L>>(
    file: &[u8],
    get_key: G,
    key: &L,
) -> (r: Result<Option<String>, SearchError>)
    requires
        is_extractor::<L, G>(get_key),
        file@.len() <= u64::MAX,
    ensures
        search_result::<L>(extracted::<L, G>(get_key), file@, key@, r),
{
    proof {
        lemma_extracted::<L, G>(get_key);
    }
    search_lines(file, get_key, key, Ghost(extracted::<L, G>(get_key)))
}

} // verus!
