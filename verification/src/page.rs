//! The pages of the dump: the lines of its index, the parts it is cut into,
//! and the fields of a page.

use vstd::prelude::*;
use vstd::bytes::{
    lemma_auto_spec_u32_to_from_le_bytes, spec_u32_from_le_bytes, spec_u32_to_le_bytes,
    u32_from_le_bytes, u32_to_le_bytes,
};
use vstd::slice::slice_subrange;
use vstd::string::StringSliceAdditionalSpecFns;
use vstd::utf8::{
    decode_utf8, encode_utf8, encode_utf8_decode_utf8, encode_utf8_valid_utf8, valid_utf8,
};
use crate::memoise::BytesSerde;
use crate::text::utf8_text;
use crate::titles::{can_canonicalise, canonical, try_canonicalise_wikilink};
use crate::parse::parse_html_index::{first_attribute, lemma_first_attribute};
use crate::parse::xml::{
    element_views, is_first_attribute, lemma_children_view, Element, ElementView,
};
use crate::text::{
    chars_of, find_char_in, find_text, first_occurrence, replace_all, replaced, same_text,
    split_once, stands_at, string_of,
};

verus! {

/// The value of a decimal digit.
pub open spec fn digit_value(c: char) -> nat {
    (c as u32 - '0' as u32) as nat
}

/// The character is a decimal digit.
pub open spec fn is_digit(c: char) -> bool {
    '0' <= c && c <= '9'
}

/// Every character is a decimal digit.
pub open spec fn all_digits(s: Seq<char>) -> bool {
    forall|i: int| 0 <= i < s.len() ==> is_digit(#[trigger] s[i])
}

/// The number that decimal digits denote.
pub open spec fn digits_value(s: Seq<char>) -> nat
    decreases s.len(),
{
    if s.len() == 0 {
        0
    } else {
        digits_value(s.drop_last()) * 10 + digit_value(s.last())
    }
}

/// The number that a text denotes: decimal digits, one at least, with or
/// without a `+` before them.
pub open spec fn number(text: Seq<char>) -> Option<nat> {
    let digits = if text.len() > 0 && text[0] == '+' {
        text.skip(1)
    } else {
        text
    };
    if digits.len() > 0 && all_digits(digits) {
        Some(digits_value(digits))
    } else {
        None
    }
}

/// More digits do not denote a smaller number.
pub proof fn lemma_digits_grow(s: Seq<char>, n: int)
    requires
        0 <= n <= s.len(),
    ensures
        digits_value(s.take(n)) <= digits_value(s),
    decreases s.len() - n,
{
    if n < s.len() {
        assert(s.take(n + 1).drop_last() =~= s.take(n));
        lemma_digits_grow(s, n + 1);
    } else {
        assert(s.take(n) =~= s);
    }
}

/// The number that a text denotes, where it denotes one that is no greater
/// than `max`.
pub fn parse_number(text: &str, max: u64) -> (r: Option<u64>)
    ensures
        match r {
            Some(v) => number(text@) == Some(v as nat) && v <= max,
            None => number(text@) is None || number(text@).unwrap() > max,
        },
{
    let chars = chars_of(text);
    let start: usize = if chars.len() > 0 && chars[0] == '+' {
        1
    } else {
        0
    };
    let ghost digits = if text@.len() > 0 && text@[0] == '+' {
        text@.skip(1)
    } else {
        text@
    };
    assert(digits =~= chars@.skip(start as int));
    if start >= chars.len() {
        return None;
    }
    let mut value: u64 = 0;
    let mut i: usize = start;
    assert(digits.take(0) =~= Seq::empty());
    while i < chars.len()
        invariant
            start <= i <= chars.len(),
            start < chars.len(),
            chars@ == text@,
            digits == (if text@.len() > 0 && text@[0] == '+' {
                text@.skip(1)
            } else {
                text@
            }),
            digits == chars@.skip(start as int),
            all_digits(digits.take(i - start)),
            value == digits_value(digits.take(i - start)),
            value <= max,
        decreases chars.len() - i,
    {
        let c = chars[i];
        proof {
            assert(digits.take(i - start + 1).drop_last() =~= digits.take(i - start));
            assert(digits.take(i - start + 1).last() == c);
            assert(digits[i - start] == c);
            lemma_digits_grow(digits, i - start + 1);
        }
        if !(c >= '0' && c <= '9') {
            assert(!is_digit(digits[i - start]));
            return None;
        }
        let d = (c as u32 - '0' as u32) as u64;
        assert(digits_value(digits.take(i - start + 1)) == value * 10 + d);
        if d > max {
            return None;
        }
        if value > (max - d) / 10 {
            assert(value * 10 + d > max) by (nonlinear_arith)
                requires
                    value > (max - d) / 10,
                    d <= max,
            ;
            return None;
        }
        assert(value * 10 + d <= max) by (nonlinear_arith)
            requires
                value <= (max - d) / 10,
                d <= max,
        ;
        value = value * 10 + d;
        assert(all_digits(digits.take(i - start + 1))) by {
            assert forall|k: int| 0 <= k < i - start + 1 implies is_digit(
                #[trigger] digits.take(i - start + 1)[k],
            ) by {
                if k < i - start {
                    assert(digits.take(i - start)[k] == digits.take(i - start + 1)[k]);
                }
            }
        }
        i += 1;
    }
    assert(digits.take(i - start) =~= digits);
    Some(value)
}

/// One line of the index of the dump: the byte offset of the part of the
/// dump that holds an article, and the identifier and the title of the
/// article.
#[derive(Debug)]
pub struct IndexEntry {
    pub byte_offset: u64,
    pub id: u32,
    pub title: String,
}

/// What a line of the index holds: a byte offset, an identifier and a
/// title, with a colon behind each of the first two.
pub open spec fn index_entry(line: Seq<char>) -> Option<(nat, nat, Seq<char>)> {
    match split_once(line, ':') {
        None => None,
        Some((offset, rest)) => match split_once(rest, ':') {
            None => None,
            Some((id, title)) => match (number(offset), number(id)) {
                (Some(o), Some(i)) => if o <= u64::MAX && i <= u32::MAX {
                    Some((o, i, title))
                } else {
                    None
                },
                _ => None,
            },
        },
    }
}

/// Reads a line of the index.
pub fn parse_index_line(line: &str) -> (r: Option<IndexEntry>)
    ensures
        match r {
            Some(e) => index_entry(line@) == Some((e.byte_offset as nat, e.id as nat, e.title@)),
            None => index_entry(line@) is None,
        },
{
    let chars = chars_of(line);
    assert(chars@.subrange(0, chars@.len() as int) =~= chars@);
    let first = match find_char_in(&chars, 0, chars.len(), ':') {
        Some(first) => first,
        None => {
            return None;
        },
    };
    let ghost rest = chars@.skip(first + 1);
    assert(chars@.subrange(first + 1, chars@.len() as int) =~= rest);
    assert(chars@.subrange(0, first as int) =~= chars@.take(first as int));
    let second = match find_char_in(&chars, first + 1, chars.len(), ':') {
        Some(second) => second,
        None => {
            return None;
        },
    };
    let offset_text = string_of(&chars, 0, first);
    let id_text = string_of(&chars, first + 1, second);
    assert(chars@.subrange(first + 1, second as int) =~= rest.take(second - first - 1));
    assert(chars@.subrange(second + 1, chars@.len() as int) =~= rest.skip(second - first));
    let byte_offset = match parse_number(offset_text.as_str(), u64::MAX) {
        Some(v) => v,
        None => {
            return None;
        },
    };
    let id = match parse_number(id_text.as_str(), u32::MAX as u64) {
        Some(v) => v as u32,
        None => {
            return None;
        },
    };
    let title = string_of(&chars, second + 1, chars.len());
    Some(IndexEntry { byte_offset, id, title })
}

/// Which parts of the dump a reader of the index has come to.
#[derive(Debug)]
pub struct StreamCursor {
    /// The greatest byte offset that an index line has had so far.
    pub latest_offset: u64,
}

impl StreamCursor {
    /// A cursor before the first line of an index.
    pub fn new() -> (c: Self)
        ensures
            c.latest_offset == 0,
    {
        StreamCursor { latest_offset: 0 }
    }

    /// Takes note of the byte offset of the next index line. The result
    /// says whether the line starts a part of the dump that has not been
    /// read yet: whether its offset is greater than all before it.
    pub fn advance(&mut self, byte_offset: u64) -> (fresh: bool)
        ensures
            fresh == (byte_offset > old(self).latest_offset),
            final(self).latest_offset == if fresh {
                byte_offset
            } else {
                old(self).latest_offset
            },
    {
        if byte_offset > self.latest_offset {
            self.latest_offset = byte_offset;
            true
        } else {
            false
        }
    }
}

/// The number of pages to read: all of them, or `cutoff` where there are more.
pub fn pages_to_read(cutoff: u64, total: u64) -> (max: u64)
    ensures
        max == if cutoff < total {
            cutoff
        } else {
            total
        },
{
    if cutoff < total {
        cutoff
    } else {
        total
    }
}

/// A point in time as the dump writes it: seconds since 1970 in UTC, the
/// nanoseconds of the second, and the offset of the local time in seconds.
#[derive(Clone, Copy, Debug)]
pub struct Timestamp {
    pub seconds: i64,
    pub nanos: u32,
    pub offset: i32,
}

/// The point in time that `chrono` reads from a text in the format of
/// RFC 3339: the seconds, the nanoseconds and the offset.
pub uninterp spec fn rfc3339_instant(text: Seq<char>) -> Option<(i64, u32, i32)>;

/// Trusted: calls `chrono::DateTime::parse_from_rfc3339` and hands out the
/// seconds, the nanoseconds and the offset of the result. The result is
/// given the name `rfc3339_instant`; nothing else is claimed.
#[verifier::external_body]
fn parse_rfc3339(text: &str) -> (r: Option<Timestamp>)
    ensures
        match r {
            Some(t) => rfc3339_instant(text@) == Some((t.seconds, t.nanos, t.offset)),
            None => rfc3339_instant(text@) is None,
        },
{
    match chrono::DateTime::parse_from_rfc3339(text) {
        Ok(t) => Some(
            Timestamp {
                seconds: t.timestamp(),
                nanos: t.timestamp_subsec_nanos(),
                offset: t.offset().local_minus_utc(),
            },
        ),
        Err(_) => None,
    }
}

/// A revision of a page.
#[derive(Debug)]
pub struct ParsedRevision {
    pub id: u32,
    pub timestamp: Timestamp,
    pub model: String,
    pub format: String,
    pub text: String,
}

/// A page of the dump.
#[derive(Debug)]
pub struct ParsedPage {
    pub title: String,
    pub namespace: u32,
    pub id: u32,
    pub redirect: Option<String>,
    pub revision: ParsedRevision,
}

/// Why an element is no page.
#[derive(Debug)]
pub enum PageError {
    /// A child of the page or of its revision has a name that no page has.
    Unrecognised(String),
    /// A number or a point in time cannot be read.
    Value(String),
    /// The `redirect` element has no title.
    Redirect,
}

/// The fields of a revision as values of specifications.
pub struct RevisionView {
    pub id: nat,
    pub timestamp: (i64, u32, i32),
    pub model: Seq<char>,
    pub format: Seq<char>,
    pub text: Seq<char>,
}

/// The name of a child of a revision that holds nothing that is read.
pub open spec fn is_passed_over(name: Seq<char>) -> bool {
    name == "parentid"@ || name == "contributor"@ || name == "comment"@ || name == "origin"@
        || name == "sha1"@ || name == "minor"@
}

/// The revision with what one child of it holds.
pub open spec fn revision_with(r: RevisionView, child: ElementView) -> Option<RevisionView> {
    if child.name == "id"@ {
        match number(child.text) {
            Some(id) => if id <= u32::MAX {
                Some(RevisionView { id, ..r })
            } else {
                None
            },
            None => None,
        }
    } else if child.name == "timestamp"@ {
        match rfc3339_instant(child.text) {
            Some(timestamp) => Some(RevisionView { timestamp, ..r }),
            None => None,
        }
    } else if child.name == "model"@ {
        Some(RevisionView { model: child.text, ..r })
    } else if child.name == "format"@ {
        Some(RevisionView { format: child.text, ..r })
    } else if child.name == "text"@ {
        Some(RevisionView { text: child.text, ..r })
    } else if is_passed_over(child.name) {
        Some(r)
    } else {
        None
    }
}

/// The revision that the given children describe, starting from `r`: each
/// child sets its field, and a later child replaces an earlier one.
pub open spec fn revision_of(r: RevisionView, children: Seq<ElementView>) -> Option<RevisionView>
    decreases children.len(),
{
    if children.len() == 0 {
        Some(r)
    } else {
        match revision_of(r, children.drop_last()) {
            None => None,
            Some(before) => revision_with(before, children.last()),
        }
    }
}

/// A revision without anything in it.
pub open spec fn empty_revision() -> RevisionView {
    RevisionView {
        id: 0,
        timestamp: (0, 0, 0),
        model: Seq::empty(),
        format: Seq::empty(),
        text: Seq::empty(),
    }
}

impl View for ParsedRevision {
    type V = RevisionView;

    open spec fn view(&self) -> RevisionView {
        RevisionView {
            id: self.id as nat,
            timestamp: (self.timestamp.seconds, self.timestamp.nanos, self.timestamp.offset),
            model: self.model@,
            format: self.format@,
            text: self.text@,
        }
    }
}

impl ParsedRevision {
    /// A revision without anything in it, at the start of 1970.
    pub fn empty() -> (r: Self)
        ensures
            r@ == empty_revision(),
    {
        ParsedRevision {
            id: 0,
            timestamp: Timestamp { seconds: 0, nanos: 0, offset: 0 },
            model: String::new(),
            format: String::new(),
            text: String::new(),
        }
    }

    /// The revision that a `revision` element describes.
    pub fn from_element(value: &Element) -> (r: Result<ParsedRevision, PageError>)
        ensures
            match r {
                Ok(revision) => revision_of(empty_revision(), value@.children) == Some(revision@),
                Err(_) => revision_of(empty_revision(), value@.children) is None,
            },
    {
        let mut result = ParsedRevision::empty();
        let ghost kids = value@.children;
        proof {
            lemma_children_view(*value);
        }
        let mut i: usize = 0;
        assert(kids.take(0) =~= Seq::empty());
        while i < value.children.len()
            invariant
                0 <= i <= value.children.len(),
                kids == element_views(value.children@),
                kids == value@.children,
                revision_of(empty_revision(), kids.take(i as int)) == Some(result@),
            decreases value.children.len() - i,
        {
            let child = &value.children[i];
            let name = child.name.as_str();
            let ghost before = result@;
            proof {
                assert(kids.take(i + 1).drop_last() =~= kids.take(i as int));
                assert(kids.take(i + 1).last() == child@);
                assert(child@.name == name@);
                assert(child@.text == child.text@);
            }
            if same_text(name, "id") {
                match parse_number(child.text.as_str(), u32::MAX as u64) {
                    Some(id) => {
                        result.id = id as u32;
                    },
                    None => {
                        proof {
                            assert(revision_with(before, child@) is None);
                            assert(revision_of(empty_revision(), kids.take(i + 1)) is None);
                            lemma_revision_stops(empty_revision(), kids, i + 1);
                        }
                        return Err(PageError::Value(child.text.clone()));
                    },
                }
            } else if same_text(name, "timestamp") {
                match parse_rfc3339(child.text.as_str()) {
                    Some(t) => {
                        result.timestamp = t;
                    },
                    None => {
                        proof {
                            assert(revision_with(before, child@) is None);
                            assert(revision_of(empty_revision(), kids.take(i + 1)) is None);
                            lemma_revision_stops(empty_revision(), kids, i + 1);
                        }
                        return Err(PageError::Value(child.text.clone()));
                    },
                }
            } else if same_text(name, "model") {
                result.model = child.text.clone();
            } else if same_text(name, "format") {
                result.format = child.text.clone();
            } else if same_text(name, "text") {
                result.text = child.text.clone();
            } else if same_text(name, "parentid") || same_text(name, "contributor") || same_text(
                name,
                "comment",
            ) || same_text(name, "origin") || same_text(name, "sha1") || same_text(name, "minor") {
            } else {
                proof {
                    assert(revision_with(before, child@) is None);
                    assert(revision_of(empty_revision(), kids.take(i + 1)) is None);
                    lemma_revision_stops(empty_revision(), kids, i + 1);
                }
                return Err(PageError::Unrecognised(child.name.clone()));
            }
            assert(revision_with(before, child@) == Some(result@));
            i += 1;
        }
        assert(kids.take(i as int) =~= kids);
        Ok(result)
    }
}

/// Children that describe no revision describe none with more children
/// behind them.
pub proof fn lemma_revision_stops(r: RevisionView, children: Seq<ElementView>, n: int)
    requires
        0 <= n <= children.len(),
        revision_of(r, children.take(n)) is None,
    ensures
        revision_of(r, children) is None,
    decreases children.len() - n,
{
    if n < children.len() {
        assert(children.take(n + 1).drop_last() =~= children.take(n));
        lemma_revision_stops(r, children, n + 1);
    } else {
        assert(children.take(n) =~= children);
    }
}

/// The number of articles in each part of the dump, by the name of the
/// index of the part.
#[derive(Debug)]
pub struct ArticleCount {
    pub articles_per_stream: Vec<(String, u64)>,
}

/// The sum of the numbers of the first `n` parts.
pub open spec fn sum_upto(counts: Seq<(String, u64)>, n: int) -> nat
    decreases n,
{
    if n <= 0 {
        0
    } else {
        sum_upto(counts, n - 1) + counts[n - 1].1 as nat
    }
}

impl ArticleCount {
    /// A count without any part.
    pub fn new() -> (c: Self)
        ensures
            c.articles_per_stream@.len() == 0,
    {
        ArticleCount { articles_per_stream: Vec::new() }
    }

    /// The number of articles in all parts, or `u64::MAX` where there are more.
    pub fn total(&self) -> (n: u64)
        ensures
            n == if sum_upto(self.articles_per_stream@, self.articles_per_stream@.len() as int)
                <= u64::MAX {
                sum_upto(self.articles_per_stream@, self.articles_per_stream@.len() as int) as int
            } else {
                u64::MAX as int
            },
    {
        let mut n: u64 = 0;
        let mut i: usize = 0;
        while i < self.articles_per_stream.len()
            invariant
                0 <= i <= self.articles_per_stream.len(),
                n == if sum_upto(self.articles_per_stream@, i as int) <= u64::MAX {
                    sum_upto(self.articles_per_stream@, i as int) as int
                } else {
                    u64::MAX as int
                },
            decreases self.articles_per_stream.len() - i,
        {
            n = n.saturating_add(self.articles_per_stream[i].1);
            i += 1;
        }
        n
    }
}

/// The number of lines that are not empty: the number of articles that an
/// index lists.
pub open spec fn filled_lines(lines: Seq<String>, n: int) -> nat
    decreases n,
{
    if n <= 0 {
        0
    } else {
        filled_lines(lines, n - 1) + if lines[n - 1]@.len() > 0 {
            1nat
        } else {
            0nat
        }
    }
}

/// Counts the lines of an index that are not empty.
pub fn count_articles(lines: &Vec<String>) -> (n: u64)
    requires
        lines.len() <= u64::MAX,
    ensures
        n == filled_lines(lines@, lines@.len() as int),
{
    let mut n: u64 = 0;
    let mut i: usize = 0;
    while i < lines.len()
        invariant
            0 <= i <= lines.len(),
            lines.len() <= u64::MAX,
            n <= i,
            n == filled_lines(lines@, i as int),
        decreases lines.len() - i,
    {
        if !lines[i].as_str().is_empty() {
            n += 1;
        }
        i += 1;
    }
    n
}

/// The fields of a page as values of specifications.
pub struct PageView {
    pub title: Seq<char>,
    pub namespace: nat,
    pub id: nat,
    pub redirect: Option<Seq<char>>,
    pub revision: RevisionView,
}

impl View for ParsedPage {
    type V = PageView;

    open spec fn view(&self) -> PageView {
        PageView {
            title: self.title@,
            namespace: self.namespace as nat,
            id: self.id as nat,
            redirect: match self.redirect {
                Some(r) => Some(r@),
                None => None,
            },
            revision: self.revision@,
        }
    }
}

/// A page without anything in it.
pub open spec fn empty_page() -> PageView {
    PageView {
        title: Seq::empty(),
        namespace: 0,
        id: 0,
        redirect: None,
        revision: empty_revision(),
    }
}

/// The page with what one child of it holds.
pub open spec fn page_with(p: PageView, child: ElementView) -> Option<PageView> {
    if child.name == "title"@ {
        Some(PageView { title: child.text, ..p })
    } else if child.name == "ns"@ {
        match number(child.text) {
            Some(n) => if n <= u32::MAX {
                Some(PageView { namespace: n, ..p })
            } else {
                None
            },
            None => None,
        }
    } else if child.name == "id"@ {
        match number(child.text) {
            Some(n) => if n <= u32::MAX {
                Some(PageView { id: n, ..p })
            } else {
                None
            },
            None => None,
        }
    } else if child.name == "redirect"@ {
        match first_attribute(child, "title"@) {
            Some(target) => Some(PageView { redirect: Some(target), ..p }),
            None => None,
        }
    } else if child.name == "revision"@ {
        match revision_of(empty_revision(), child.children) {
            Some(revision) => Some(PageView { revision, ..p }),
            None => None,
        }
    } else {
        None
    }
}

/// The page that the given children describe, starting from `p`: each child
/// sets its field, and a later child replaces an earlier one.
pub open spec fn page_of(p: PageView, children: Seq<ElementView>) -> Option<PageView>
    decreases children.len(),
{
    if children.len() == 0 {
        Some(p)
    } else {
        match page_of(p, children.drop_last()) {
            None => None,
            Some(before) => page_with(before, children.last()),
        }
    }
}

/// Children that describe no page describe none with more children behind
/// them.
pub proof fn lemma_page_stops(p: PageView, children: Seq<ElementView>, n: int)
    requires
        0 <= n <= children.len(),
        page_of(p, children.take(n)) is None,
    ensures
        page_of(p, children) is None,
    decreases children.len() - n,
{
    if n < children.len() {
        assert(children.take(n + 1).drop_last() =~= children.take(n));
        lemma_page_stops(p, children, n + 1);
    } else {
        assert(children.take(n) =~= children);
    }
}

impl ParsedPage {
    /// The page that a `page` element describes.
    pub fn from_element(value: &Element) -> (r: Result<ParsedPage, PageError>)
        ensures
            match r {
                Ok(page) => page_of(empty_page(), value@.children) == Some(page@),
                Err(_) => page_of(empty_page(), value@.children) is None,
            },
    {
        let mut result = ParsedPage {
            title: String::new(),
            namespace: 0,
            id: 0,
            redirect: None,
            revision: ParsedRevision::empty(),
        };
        let ghost kids = value@.children;
        proof {
            lemma_children_view(*value);
        }
        let mut i: usize = 0;
        assert(kids.take(0) =~= Seq::empty());
        while i < value.children.len()
            invariant
                0 <= i <= value.children.len(),
                kids == element_views(value.children@),
                kids == value@.children,
                page_of(empty_page(), kids.take(i as int)) == Some(result@),
            decreases value.children.len() - i,
        {
            let child = &value.children[i];
            let name = child.name.as_str();
            let ghost before = result@;
            proof {
                assert(kids.take(i + 1).drop_last() =~= kids.take(i as int));
                assert(kids.take(i + 1).last() == child@);
                assert(child@.name == name@);
                assert(child@.text == child.text@);
            }
            if same_text(name, "title") {
                result.title = child.text.clone();
            } else if same_text(name, "ns") {
                match parse_number(child.text.as_str(), u32::MAX as u64) {
                    Some(n) => {
                        result.namespace = n as u32;
                    },
                    None => {
                        proof {
                            assert(page_with(before, child@) is None);
                            assert(page_of(empty_page(), kids.take(i + 1)) is None);
                            lemma_page_stops(empty_page(), kids, i + 1);
                        }
                        return Err(PageError::Value(child.text.clone()));
                    },
                }
            } else if same_text(name, "id") {
                match parse_number(child.text.as_str(), u32::MAX as u64) {
                    Some(n) => {
                        result.id = n as u32;
                    },
                    None => {
                        proof {
                            assert(page_with(before, child@) is None);
                            assert(page_of(empty_page(), kids.take(i + 1)) is None);
                            lemma_page_stops(empty_page(), kids, i + 1);
                        }
                        return Err(PageError::Value(child.text.clone()));
                    },
                }
            } else if same_text(name, "redirect") {
                match child.get_attribute("title") {
                    Ok(target) => {
                        proof {
                            let a = choose|a: int| #[trigger]
                                is_first_attribute(child@, "title"@, a) && target@
                                    == child@.attributes[a].1;
                            lemma_first_attribute(child@, "title"@, a);
                        }
                        result.redirect = Some(target.to_owned());
                    },
                    Err(_) => {
                        proof {
                            if exists|a: int| is_first_attribute(child@, "title"@, a) {
                                let a = choose|a: int| is_first_attribute(child@, "title"@, a);
                                assert(child@.attributes[a].0 == "title"@);
                            }
                            assert(page_with(before, child@) is None);
                            assert(page_of(empty_page(), kids.take(i + 1)) is None);
                            lemma_page_stops(empty_page(), kids, i + 1);
                        }
                        return Err(PageError::Redirect);
                    },
                }
            } else if same_text(name, "revision") {
                match ParsedRevision::from_element(child) {
                    Ok(revision) => {
                        result.revision = revision;
                    },
                    Err(e) => {
                        proof {
                            assert(page_with(before, child@) is None);
                            assert(page_of(empty_page(), kids.take(i + 1)) is None);
                            lemma_page_stops(empty_page(), kids, i + 1);
                        }
                        return Err(e);
                    },
                }
            } else {
                proof {
                    assert(page_with(before, child@) is None);
                    assert(page_of(empty_page(), kids.take(i + 1)) is None);
                    lemma_page_stops(empty_page(), kids, i + 1);
                }
                return Err(PageError::Unrecognised(child.name.clone()));
            }
            assert(page_with(before, child@) == Some(result@));
            i += 1;
        }
        assert(kids.take(i as int) =~= kids);
        Ok(result)
    }
}

/// `i` is the index of the first element that describes the page with the
/// identifier: every element before it describes another page.
pub open spec fn is_page_at(pages: Seq<ElementView>, id: u32, i: int) -> bool {
    &&& 0 <= i < pages.len()
    &&& page_of(empty_page(), pages[i].children) matches Some(p) && p.id == id
    &&& forall|j: int|
        0 <= j < i ==> (page_of(empty_page(), (#[trigger] pages[j]).children) matches Some(p)
            && p.id != id)
}

/// The page with the given identifier among the elements of one part of the
/// dump: the first of them. Fails where an element before it is no page.
pub fn find_page(pages: &Vec<Element>, id: u32) -> (r: Result<Option<ParsedPage>, PageError>)
    ensures
        match r {
            Ok(Some(page)) => page.id == id && exists|i: int| #[trigger]
                is_page_at(element_views(pages@), id, i) && page_of(
                    empty_page(),
                    element_views(pages@)[i].children,
                ) == Some(page@),
            Ok(None) => forall|i: int|
                0 <= i < pages.len() ==> (page_of(
                    empty_page(),
                    (#[trigger] element_views(pages@)[i]).children,
                ) matches Some(p) && p.id != id),
            Err(_) => exists|i: int|
                0 <= i < pages.len() && page_of(
                    empty_page(),
                    (#[trigger] element_views(pages@)[i]).children,
                ) is None,
        },
{
    let ghost views = element_views(pages@);
    let mut i: usize = 0;
    while i < pages.len()
        invariant
            0 <= i <= pages.len(),
            views == element_views(pages@),
            forall|j: int|
                0 <= j < i ==> (page_of(empty_page(), (#[trigger] views[j]).children) matches Some(
                    p,
                ) && p.id != id),
        decreases pages.len() - i,
    {
        match ParsedPage::from_element(&pages[i]) {
            Ok(page) => {
                if page.id == id {
                    assert(is_page_at(views, id, i as int));
                    return Ok(Some(page));
                }
            },
            Err(e) => {
                assert(page_of(empty_page(), views[i as int].children) is None);
                return Err(e);
            },
        }
        i += 1;
    }
    Ok(None)
}

/// The address of the index that belongs to a part of the dump.
pub open spec fn index_address(url: Seq<char>) -> Seq<char> {
    replaced(replaced(url, "multistream"@, "multistream-index"@), ".xml"@, ".txt"@)
}

/// The address of the index that belongs to a part of the dump.
pub fn index_url(url: &str) -> (index: String)
    ensures
        index@ == index_address(url@),
{
    let first = replace_all(url, "multistream", "multistream-index");
    replace_all(first.as_str(), ".xml", ".txt")
}

/// The end of the run of digits, or of characters that are no digits, that
/// starts at `i`.
pub open spec fn run_end(s: Seq<char>, i: int, digits: bool) -> int
    decreases s.len() - i,
{
    if 0 <= i < s.len() && is_digit(s[i]) == digits {
        run_end(s, i + 1, digits)
    } else {
        i
    }
}

/// A run ends behind its start and within the text.
pub proof fn lemma_run_end(s: Seq<char>, i: int, digits: bool)
    requires
        0 <= i <= s.len(),
    ensures
        i <= run_end(s, i, digits) <= s.len(),
        forall|k: int| i <= k < run_end(s, i, digits) ==> is_digit(#[trigger] s[k]) == digits,
    decreases s.len() - i,
{
    if i < s.len() && is_digit(s[i]) == digits {
        lemma_run_end(s, i + 1, digits);
    }
}

/// The end of the run that starts at `i`.
fn end_of_run(chars: &Vec<char>, i: usize, digits: bool) -> (e: usize)
    requires
        i <= chars.len(),
    ensures
        e == run_end(chars@, i as int, digits),
        i <= e <= chars.len(),
{
    let mut e = i;
    proof {
        lemma_run_end(chars@, i as int, digits);
    }
    while e < chars.len() && ((chars[e] >= '0' && chars[e] <= '9') == digits)
        invariant
            i <= e <= chars.len(),
            run_end(chars@, e as int, digits) == run_end(chars@, i as int, digits),
        decreases chars.len() - e,
    {
        e += 1;
    }
    e
}

/// The two numbers that a text holds: two runs of digits, with anything
/// but digits before, between and behind them.
pub open spec fn two_numbers(s: Seq<char>) -> Option<(nat, nat)> {
    let a = run_end(s, 0, false);
    let b = run_end(s, a, true);
    let c = run_end(s, b, false);
    let e = run_end(s, c, true);
    let f = run_end(s, e, false);
    if a < b && c < e && f == s.len() {
        Some((digits_value(s.subrange(a, b)), digits_value(s.subrange(c, e))))
    } else {
        None
    }
}

/// The identifiers that a part of the dump holds, from the first to the
/// last, as the address of the part tells them: the two numbers behind
/// `.txt-` in the address of its index, which ends in `.bz2`.
pub open spec fn id_range(url: Seq<char>) -> Option<(nat, nat)> {
    let index = index_address(url);
    match first_occurrence(index, ".txt-"@, 0) {
        None => None,
        Some(at) => {
            let suffix = index.skip(at + 5);
            if suffix.len() >= 4 && suffix.skip(suffix.len() - 4) == ".bz2"@ {
                match two_numbers(suffix.take(suffix.len() - 4)) {
                    Some((first, last)) => if first <= u32::MAX && last <= u32::MAX {
                        Some((first, last))
                    } else {
                        None
                    },
                    None => None,
                }
            } else {
                None
            }
        },
    }
}

/// The identifiers that a part of the dump holds, from the first to the
/// last, or `None` where the address of the part does not tell them.
pub fn shard_range(url: &str) -> (r: Option<(u32, u32)>)
    ensures
        match r {
            Some((first, last)) => id_range(url@) == Some((first as nat, last as nat)),
            None => id_range(url@) is None,
        },
{
    let index = index_url(url);
    let chars = chars_of(index.as_str());
    let mark = chars_of(".txt-");
    proof {
        reveal_strlit(".txt-");
        reveal_strlit(".bz2");
    }
    let at = match find_text(&chars, &mark, 0) {
        Some(at) => at,
        None => {
            return None;
        },
    };
    let start = at + 5;
    let ghost suffix = chars@.skip(start as int);
    if chars.len() - start < 4 {
        return None;
    }
    let cut = chars.len() - 4;
    let tail = chars_of(".bz2");
    if !stands_at(&chars, &tail, cut) {
        assert(suffix.skip(suffix.len() - 4) =~= chars@.subrange(cut as int, cut + 4));
        return None;
    }
    assert(suffix.skip(suffix.len() - 4) =~= chars@.subrange(cut as int, cut + 4));
    let digits = string_of(&chars, start, cut);
    assert(chars@.subrange(start as int, cut as int) =~= suffix.take(suffix.len() - 4));
    let d = chars_of(digits.as_str());
    let a = end_of_run(&d, 0, false);
    let b = end_of_run(&d, a, true);
    let c = end_of_run(&d, b, false);
    let e = end_of_run(&d, c, true);
    let f = end_of_run(&d, e, false);
    if !(a < b && c < e && f == d.len()) {
        return None;
    }
    let first_text = string_of(&d, a, b);
    let last_text = string_of(&d, c, e);
    proof {
        lemma_run_end(d@, a as int, true);
        lemma_run_end(d@, c as int, true);
        lemma_digits_number(d@.subrange(a as int, b as int));
        lemma_digits_number(d@.subrange(c as int, e as int));
    }
    let first = match parse_number(first_text.as_str(), u32::MAX as u64) {
        Some(v) => v as u32,
        None => {
            return None;
        },
    };
    let last = match parse_number(last_text.as_str(), u32::MAX as u64) {
        Some(v) => v as u32,
        None => {
            return None;
        },
    };
    Some((first, last))
}

/// Digits, one at least, denote their value.
pub proof fn lemma_digits_number(s: Seq<char>)
    requires
        s.len() > 0,
        all_digits(s),
    ensures
        number(s) == Some(digits_value(s)),
{
    assert(is_digit(s[0]));
}

/// Whether a part of the dump with the given range of identifiers holds the
/// article.
pub fn covers(range: (u32, u32), id: u32) -> (b: bool)
    ensures
        b == (range.0 <= id <= range.1),
{
    range.0 <= id && id <= range.1
}

/// The part of the dump that holds a page: the index of the first range of
/// identifiers that covers `id`, or `None` where no range covers it.
pub fn covering_shard(ranges: &Vec<(u32, u32)>, id: u32) -> (r: Option<usize>)
    ensures
        match r {
            Some(i) => i < ranges@.len() && ranges@[i as int].0 <= id <= ranges@[i as int].1
                && forall|j: int| 0 <= j < i ==> !(#[trigger] ranges@[j].0 <= id <= ranges@[j].1),
            None => forall|j: int|
                0 <= j < ranges@.len() ==> !(#[trigger] ranges@[j].0 <= id <= ranges@[j].1),
        },
{
    let mut i: usize = 0;
    while i < ranges.len()
        invariant
            0 <= i <= ranges@.len(),
            forall|j: int| 0 <= j < i ==> !(#[trigger] ranges@[j].0 <= id <= ranges@[j].1),
        decreases ranges@.len() - i,
    {
        if covers(ranges[i], id) {
            return Some(i);
        }
        i += 1;
    }
    None
}

/// The stream of pages ends: as many pages were sent as are to be read.
pub fn cutoff_reached(sent: u64, max: u64) -> (b: bool)
    ensures
        b == (sent >= max),
{
    sent >= max
}

/// The two-way map of the `bimap` crate.
#[verifier::external_type_specification]
#[verifier::external_body]
#[verifier::reject_recursive_types(L)]
#[verifier::reject_recursive_types(R)]
pub struct ExBiBTreeMap<L, R>(bimap::BiBTreeMap<L, R>);

/// The pairs that a two-way map holds, as a map from the left to the right.
pub uninterp spec fn pairs(m: bimap::BiBTreeMap<u32, String>) -> Map<u32, Seq<char>>;

/// The pairs once `id` is paired with `title`: the pair itself, and every
/// pair before it that holds neither the identifier nor the title.
pub open spec fn paired_with(m: Map<u32, Seq<char>>, id: u32, title: Seq<char>) -> Map<
    u32,
    Seq<char>,
> {
    Map::new(
        |k: u32| k == id || (m.contains_key(k) && m[k] != title),
        |k: u32|
            if k == id {
                title
            } else {
                m[k]
            },
    )
}

/// No pairs.
pub open spec fn empty_pairs() -> Map<u32, Seq<char>> {
    Map::empty()
}

/// Trusted: `BiBTreeMap::new`, which makes a map without pairs.
#[verifier::external_body]
fn bimap_new() -> (made: bimap::BiBTreeMap<u32, String>)
    ensures
        pairs(made) == empty_pairs(),
{
    bimap::BiBTreeMap::new()
}

/// Trusted: `BiBTreeMap::insert`, which takes out the pair with the same
/// left value and the pair with the same right value, if there are any, and
/// puts in the new pair.
#[verifier::external_body]
fn bimap_insert(m: &mut bimap::BiBTreeMap<u32, String>, id: u32, title: String)
    ensures
        pairs(*final(m)) == paired_with(pairs(*old(m)), id, title@),
{
    m.insert(id, title);
}

/// Trusted: `BiBTreeMap::get_by_left`, which gives the right value that
/// the left value is paired with.
#[verifier::external_body]
fn bimap_get_by_left(m: &bimap::BiBTreeMap<u32, String>, id: u32) -> (r: Option<&String>)
    ensures
        match r {
            Some(title) => pairs(*m).contains_key(id) && title@ == pairs(*m)[id],
            None => !pairs(*m).contains_key(id),
        },
{
    m.get_by_left(&id)
}

/// Trusted: `BiBTreeMap::get_by_right`, which gives the left value that
/// the right value is paired with.
#[verifier::external_body]
fn bimap_get_by_right(m: &bimap::BiBTreeMap<u32, String>, title: &String) -> (r: Option<u32>)
    ensures
        match r {
            Some(id) => pairs(*m).contains_key(id) && pairs(*m)[id] == title@,
            None => forall|id: u32| pairs(*m).contains_key(id) ==> pairs(*m)[id] != title@,
        },
{
    m.get_by_right(title).copied()
}

/// `entries` are the pairs of `m`, in ascending order of the identifiers.
pub open spec fn lists_pairs(entries: Seq<(u32, String)>, m: Map<u32, Seq<char>>) -> bool {
    &&& forall|i: int, j: int| 0 <= i < j < entries.len() ==> entries[i].0 < entries[j].0
    &&& forall|i: int|
        0 <= i < entries.len() ==> m.contains_key((#[trigger] entries[i]).0) && m[entries[i].0]
            == entries[i].1@
    &&& forall|id: u32| #[trigger]
        m.contains_key(id) ==> exists|i: int| 0 <= i < entries.len() && entries[i].0 == id
}

/// Trusted: collects what `BiBTreeMap::iter` yields, which are the pairs
/// in ascending order of their left values.
#[verifier::external_body]
fn bimap_entries(m: &bimap::BiBTreeMap<u32, String>) -> (entries: Vec<(u32, String)>)
    ensures
        lists_pairs(entries@, pairs(*m)),
{
    m.iter().map(|(id, title)| (*id, title.clone())).collect()
}

/// A map between article identifiers and titles that is kept whole in
/// memory and written in a packed form.
pub struct TitleMap {
    map: bimap::BiBTreeMap<u32, String>,
}

/// The packed form of one pair: the identifier and the number of bytes of
/// the title, each as four bytes with the lowest first, and the bytes of
/// the title.
pub open spec fn packed_pair(id: u32, title: Seq<char>) -> Seq<u8> {
    spec_u32_to_le_bytes(id) + spec_u32_to_le_bytes(
        (encode_utf8(title).len() % 0x1_0000_0000) as u32,
    ) + encode_utf8(title)
}

/// The packed form of the pairs whose identifier is below `n`, in ascending
/// order of the identifiers.
pub open spec fn packed_below(m: Map<u32, Seq<char>>, n: nat) -> Seq<u8>
    decreases n,
{
    if n == 0 {
        Seq::empty()
    } else if n - 1 <= u32::MAX && m.contains_key((n - 1) as u32) {
        packed_below(m, (n - 1) as nat) + packed_pair((n - 1) as u32, m[(n - 1) as u32])
    } else {
        packed_below(m, (n - 1) as nat)
    }
}

/// Identifiers that are not paired add nothing to the packed form.
pub proof fn lemma_packed_gap(m: Map<u32, Seq<char>>, a: nat, b: nat)
    requires
        a <= b,
        forall|k: u32| a <= k < b ==> !m.contains_key(k),
    ensures
        packed_below(m, b) == packed_below(m, a),
    decreases b - a,
{
    if a < b {
        lemma_packed_gap(m, a, (b - 1) as nat);
    }
}

/// The pairs that packed bytes add to the pairs `acc`: pair after pair,
/// each put in as into a two-way map, up to the end of the bytes or to
/// fewer than four bytes that are left. There is no result where a pair
/// breaks off or its title is not valid UTF-8.
pub open spec fn unpacked_onto(b: Seq<u8>, acc: Map<u32, Seq<char>>) -> Option<Map<u32, Seq<char>>>
    decreases b.len(),
{
    if b.len() < 4 {
        Some(acc)
    } else if b.len() < 8 {
        None
    } else {
        let id = spec_u32_from_le_bytes(b.subrange(0, 4));
        let len = spec_u32_from_le_bytes(b.subrange(4, 8)) as int;
        if b.len() < 8 + len {
            None
        } else if !valid_utf8(b.subrange(8, 8 + len)) {
            None
        } else {
            unpacked_onto(
                b.skip(8 + len),
                paired_with(acc, id, decode_utf8(b.subrange(8, 8 + len))),
            )
        }
    }
}

/// The pairs of `m` whose identifier is below `n`.
pub open spec fn pairs_below(m: Map<u32, Seq<char>>, n: nat) -> Map<u32, Seq<char>> {
    Map::new(|k: u32| k < n && m.contains_key(k), |k: u32| m[k])
}

/// The pairs can be packed and read back: no title is paired with two
/// identifiers, as in a two-way map, and the number of bytes of each title
/// fits in four bytes.
pub open spec fn packable(m: Map<u32, Seq<char>>) -> bool {
    &&& forall|a: u32, b: u32|
        m.contains_key(a) && m.contains_key(b) && #[trigger] m[a] == #[trigger] m[b] ==> a == b
    &&& forall|a: u32| m.contains_key(a) ==> encode_utf8(#[trigger] m[a]).len() <= u32::MAX
}

/// Reading the packed form of one pair, with any bytes behind it, puts the
/// pair in and goes on with those bytes.
pub proof fn lemma_unpack_pair(id: u32, title: Seq<char>, rest: Seq<u8>, acc: Map<u32, Seq<char>>)
    requires
        encode_utf8(title).len() <= u32::MAX,
    ensures
        unpacked_onto(packed_pair(id, title) + rest, acc) == unpacked_onto(
            rest,
            paired_with(acc, id, title),
        ),
{
    let text = encode_utf8(title);
    let len = text.len() as u32;
    let b = packed_pair(id, title) + rest;
    lemma_auto_spec_u32_to_from_le_bytes();
    encode_utf8_valid_utf8(title);
    encode_utf8_decode_utf8(title);
    assert(spec_u32_to_le_bytes(id).len() == 4);
    assert(spec_u32_to_le_bytes(len).len() == 4);
    assert(b.subrange(0, 4) =~= spec_u32_to_le_bytes(id));
    assert(b.subrange(4, 8) =~= spec_u32_to_le_bytes(len));
    assert(b.subrange(8, 8 + len) =~= text);
    assert(b.skip(8 + len) =~= rest);
}

/// Reading the packed form of the pairs below `n`, with any bytes behind
/// it, gives those pairs and goes on with those bytes.
pub proof fn lemma_unpack_below(m: Map<u32, Seq<char>>, n: nat, rest: Seq<u8>)
    requires
        packable(m),
        n <= 0x1_0000_0000,
    ensures
        unpacked_onto(packed_below(m, n) + rest, Map::empty()) == unpacked_onto(
            rest,
            pairs_below(m, n),
        ),
    decreases n,
{
    if n == 0 {
        assert(packed_below(m, n) + rest =~= rest);
        assert(pairs_below(m, n) =~= Map::<u32, Seq<char>>::empty());
    } else {
        let id = (n - 1) as u32;
        let before = (n - 1) as nat;
        if m.contains_key(id) {
            let title = m[id];
            let pair = packed_pair(id, title);
            assert(packed_below(m, n) + rest =~= packed_below(m, before) + (pair + rest));
            lemma_unpack_below(m, before, pair + rest);
            lemma_unpack_pair(id, title, rest, pairs_below(m, before));
            assert(paired_with(pairs_below(m, before), id, title) =~= pairs_below(m, n));
        } else {
            lemma_unpack_below(m, before, rest);
            assert(pairs_below(m, n) =~= pairs_below(m, before));
        }
    }
}

/// Pairs stay packable when an identifier is paired with a title whose
/// bytes can be counted in four bytes: so the pairs of every map that was
/// filled pair by pair with such titles are.
pub proof fn lemma_paired_with_packable(m: Map<u32, Seq<char>>, id: u32, title: Seq<char>)
    requires
        packable(m),
        encode_utf8(title).len() <= u32::MAX,
    ensures
        packable(paired_with(m, id, title)),
{
}

/// Unpacking undoes packing: the packed form of pairs that can be packed
/// is read back as the same pairs.
pub proof fn lemma_packed_round_trip(m: Map<u32, Seq<char>>)
    requires
        packable(m),
    ensures
        unpacked_onto(packed_below(m, 0x1_0000_0000), Map::empty()) == Some(m),
        <TitleMap as BytesSerde>::decode(<TitleMap as BytesSerde>::encode(m)) == Some(m),
{
    let packed = packed_below(m, 0x1_0000_0000);
    lemma_unpack_below(m, 0x1_0000_0000, Seq::empty());
    assert(packed + Seq::<u8>::empty() =~= packed);
    assert(pairs_below(m, 0x1_0000_0000) =~= m);
}

impl TitleMap {
    /// The titles in memory, by identifier.
    pub closed spec fn titles(&self) -> Map<u32, Seq<char>> {
        pairs(self.map)
    }

    /// A map without pairs.
    pub fn new() -> (m: Self)
        ensures
            m.titles() == Map::<u32, Seq<char>>::empty(),
    {
        TitleMap { map: bimap_new() }
    }

    /// Pairs an identifier with a title. Pairs that hold the identifier or
    /// the title are taken out.
    pub fn insert(&mut self, id: u32, title: String)
        ensures
            final(self).titles() == paired_with(old(self).titles(), id, title@),
    {
        bimap_insert(&mut self.map, id, title);
    }

    /// The title that an identifier is paired with.
    pub fn get_title(&self, id: u32) -> (r: Option<&str>)
        ensures
            match r {
                Some(title) => self.titles().contains_key(id) && title@ == self.titles()[id],
                None => !self.titles().contains_key(id),
            },
    {
        match bimap_get_by_left(&self.map, id) {
            Some(title) => Some(title.as_str()),
            None => None,
        }
    }

    /// The identifier that the canonical form of a title is paired with. A
    /// title without a canonical form is paired with none.
    pub fn get_id(&self, title: &str) -> (r: Option<u32>)
        ensures
            match r {
                Some(id) => can_canonicalise(title@) && self.titles().contains_key(id)
                    && self.titles()[id] == canonical(title@),
                None => can_canonicalise(title@) ==> forall|id: u32|
                    self.titles().contains_key(id) ==> self.titles()[id] != canonical(title@),
            },
    {
        match try_canonicalise_wikilink(title) {
            Some(canon) => bimap_get_by_right(&self.map, &canon),
            None => None,
        }
    }
}

/// Appends bytes to a vector.
fn push_bytes(out: &mut Vec<u8>, bytes: &[u8])
    ensures
        final(out)@ == old(out)@ + bytes@,
{
    let ghost start = out@;
    let mut i: usize = 0;
    while i < bytes.len()
        invariant
            0 <= i <= bytes.len(),
            out@ == start + bytes@.take(i as int),
        decreases bytes.len() - i,
    {
        out.push(bytes[i]);
        assert(bytes@.take(i + 1) =~= bytes@.take(i as int).push(bytes@[i as int]));
        assert(out@ =~= start + bytes@.take(i + 1));
        i += 1;
    }
    assert(bytes@.take(i as int) =~= bytes@);
}

impl BytesSerde for TitleMap {
    type Model = Map<u32, Seq<char>>;

    open spec fn model(&self) -> Map<u32, Seq<char>> {
        self.titles()
    }

    open spec fn encode(m: Map<u32, Seq<char>>) -> Seq<u8> {
        packed_below(m, 0x1_0000_0000)
    }

    open spec fn decode(bytes: Seq<u8>) -> Option<Map<u32, Seq<char>>> {
        unpacked_onto(bytes, Map::empty())
    }

    fn serialize(&self) -> (bytes: Vec<u8>) {
        let entries = bimap_entries(&self.map);
        let ghost m = self.titles();
        let mut out: Vec<u8> = Vec::new();
        let mut i: usize = 0;
        let ghost mut next: nat = 0;
        while i < entries.len()
            invariant
                0 <= i <= entries.len(),
                m == self.titles(),
                lists_pairs(entries@, m),
                next <= 0x1_0000_0000,
                next == (if i == 0 {
                    0int
                } else {
                    entries@[i - 1].0 + 1
                }),
                out@ == packed_below(m, next),
            decreases entries.len() - i,
        {
            let id = entries[i].0;
            let title = entries[i].1.as_str().as_bytes();
            proof {
                assert forall|k: u32| next <= k < id implies !m.contains_key(k) by {
                    if m.contains_key(k) {
                        let j = choose|j: int| 0 <= j < entries@.len() && entries@[j].0 == k;
                        if j < i {
                            if i > 0 && j < i - 1 {
                                assert(entries@[j].0 < entries@[i - 1].0);
                            }
                        } else if j > i {
                            assert(entries@[i as int].0 < entries@[j].0);
                        }
                    }
                }
                if i > 0 {
                    assert(entries@[i - 1].0 < entries@[i as int].0);
                }
                lemma_packed_gap(m, next, id as nat);
                assert(m.contains_key(entries@[i as int].0));
            }
            let id_bytes = u32_to_le_bytes(id);
            let len = ((title.len() as u64) % 0x1_0000_0000u64) as u32;
            let len_bytes = u32_to_le_bytes(len);
            let ghost before = out@;
            push_bytes(&mut out, id_bytes.as_slice());
            push_bytes(&mut out, len_bytes.as_slice());
            push_bytes(&mut out, title);
            proof {
                assert(out@ =~= before + packed_pair(id, m[id]));
                next = (id + 1) as nat;
            }
            i += 1;
        }
        proof {
            assert forall|k: u32| next <= k < 0x1_0000_0000 implies !m.contains_key(k) by {
                if m.contains_key(k) {
                    let j = choose|j: int| 0 <= j < entries@.len() && entries@[j].0 == k;
                    if j < entries@.len() - 1 {
                        assert(entries@[j].0 < entries@[entries@.len() - 1].0);
                    }
                }
            }
            lemma_packed_gap(m, next, 0x1_0000_0000);
        }
        out
    }

    fn deserialize(bytes: &[u8]) -> (r: Option<Self>) {
        let mut result = TitleMap::new();
        let mut at: usize = 0;
        assert(bytes@.skip(0) =~= bytes@);
        while bytes.len() - at >= 4
            invariant
                0 <= at <= bytes.len(),
                unpacked_onto(bytes@, Map::empty()) == unpacked_onto(
                    bytes@.skip(at as int),
                    result.titles(),
                ),
            decreases bytes.len() - at,
        {
            let ghost rest = bytes@.skip(at as int);
            if bytes.len() - at < 8 {
                return None;
            }
            let id = u32_from_le_bytes(slice_subrange(bytes, at, at + 4));
            let len = u32_from_le_bytes(slice_subrange(bytes, at + 4, at + 8)) as usize;
            proof {
                assert(rest.subrange(0, 4) =~= bytes@.subrange(at as int, at + 4));
                assert(rest.subrange(4, 8) =~= bytes@.subrange(at + 4, at + 8));
            }
            if bytes.len() - at - 8 < len {
                return None;
            }
            let value = slice_subrange(bytes, at + 8, at + 8 + len);
            proof {
                assert(rest.subrange(8, 8 + len) =~= bytes@.subrange(at + 8, at + 8 + len));
                assert(rest.skip(8 + len) =~= bytes@.skip(at + 8 + len));
            }
            let title = match utf8_text(value) {
                Some(title) => title,
                None => {
                    return None;
                },
            };
            result.insert(id, title.to_owned());
            at = at + 8 + len;
        }
        Some(result)
    }
}

} // verus!
