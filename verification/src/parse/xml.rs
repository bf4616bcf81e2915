//! A small reader for the markup of the dump: elements with attributes,
//! one run of text and child elements. It is no general XML reader.
//!
//! Tags whose name is made of ASCII letters and digits open and close
//! elements. An element that is closed by the tag of another element ends
//! there, and the closing tag is left for the element it belongs to.

use vstd::prelude::*;
use vstd::string::StringSliceAdditionalSpecFns;
use vstd::utf8::encode_utf8;
use crate::text::{
    chars_of, decimal, decimal_text, push_text, same_chars, same_text, string_of,
};

verus! {

/// An element of the markup.
#[derive(Debug)]
pub struct Element {
    pub name: String,
    pub attributes: Vec<(String, String)>,
    pub children: Vec<Element>,
    pub text: String,
}

/// An element as a value of specifications.
pub struct ElementView {
    pub name: Seq<char>,
    pub attributes: Seq<(Seq<char>, Seq<char>)>,
    pub children: Seq<ElementView>,
    pub text: Seq<char>,
}

/// The element as a value of specifications.
pub open spec fn element_view(e: Element) -> ElementView
    decreases e,
{
    ElementView {
        name: e.name@,
        attributes: attribute_views(e.attributes@),
        children: Seq::new(
            e.children@.len(),
            |i: int|
                if 0 <= i < e.children.len() {
                    element_view(e.children[i])
                } else {
                    arbitrary()
                },
        ),
        text: e.text@,
    }
}

impl View for Element {
    type V = ElementView;

    open spec fn view(&self) -> ElementView {
        element_view(*self)
    }
}

/// The views of a vector of attributes.
pub open spec fn attribute_views(a: Seq<(String, String)>) -> Seq<(Seq<char>, Seq<char>)> {
    a.map_values(|p: (String, String)| (p.0@, p.1@))
}

/// The views of a vector of elements.
pub open spec fn element_views(e: Seq<Element>) -> Seq<ElementView> {
    e.map_values(|x: Element| x@)
}

/// The children of the view of an element are the views of its children.
pub proof fn lemma_children_view(e: Element)
    ensures
        e@.children == element_views(e.children@),
{
    let a = e@.children;
    let b = element_views(e.children@);
    assert(a.len() == b.len());
    assert forall|i: int| 0 <= i < a.len() implies a[i] == b[i] by {
        assert(e.children[i] == e.children@[i]);
    }
    assert(a =~= b);
}

/// How tags are read.
#[derive(Clone, Copy, Debug)]
pub struct Dialect {
    /// A tag that ends in `/>` is an element without content.
    pub self_closing: bool,
    /// The name of an attribute may hold any character but white space and
    /// `=`; else it is made of ASCII letters and digits.
    pub loose_names: bool,
}

/// A class of characters.
#[derive(Clone, Copy, Debug)]
pub enum CharClass {
    /// White space.
    White,
    /// ASCII letters and digits.
    Alphanumeric,
    /// Anything but `<`.
    NotOpen,
    /// Anything but `"`.
    NotQuote,
    /// Anything but white space and `=`.
    NameChar,
}

/// The character is white space, as Unicode defines it.
pub open spec fn is_white(c: char) -> bool {
    let n = c as u32;
    (0x09 <= n <= 0x0d) || n == 0x20 || n == 0x85 || n == 0xa0 || n == 0x1680 || (0x2000 <= n
        <= 0x200a) || n == 0x2028 || n == 0x2029 || n == 0x202f || n == 0x205f || n == 0x3000
}

/// The character is an ASCII letter or digit.
pub open spec fn is_alphanumeric(c: char) -> bool {
    ('0' <= c && c <= '9') || ('a' <= c && c <= 'z') || ('A' <= c && c <= 'Z')
}

/// The character belongs to the class.
pub open spec fn in_class(k: CharClass, c: char) -> bool {
    match k {
        CharClass::White => is_white(c),
        CharClass::Alphanumeric => is_alphanumeric(c),
        CharClass::NotOpen => c != '<',
        CharClass::NotQuote => c != '"',
        CharClass::NameChar => !is_white(c) && c != '=',
    }
}

/// Whether the character is white space.
pub fn white(c: char) -> (b: bool)
    ensures
        b == is_white(c),
{
    let n = c as u32;
    (0x09 <= n && n <= 0x0d) || n == 0x20 || n == 0x85 || n == 0xa0 || n == 0x1680 || (0x2000 <= n
        && n <= 0x200a) || n == 0x2028 || n == 0x2029 || n == 0x202f || n == 0x205f || n == 0x3000
}

/// Whether the character belongs to the class.
pub fn class_holds(k: CharClass, c: char) -> (b: bool)
    ensures
        b == in_class(k, c),
{
    match k {
        CharClass::White => white(c),
        CharClass::Alphanumeric => (c >= '0' && c <= '9') || (c >= 'a' && c <= 'z') || (c >= 'A'
            && c <= 'Z'),
        CharClass::NotOpen => c != '<',
        CharClass::NotQuote => c != '"',
        CharClass::NameChar => !white(c) && c != '=',
    }
}

/// The first index from `i` on whose character is not of the class, or the
/// length of the text.
pub open spec fn skipped(t: Seq<char>, i: int, k: CharClass) -> int
    decreases t.len() - i,
{
    if 0 <= i < t.len() && in_class(k, t[i]) {
        skipped(t, i + 1, k)
    } else {
        i
    }
}

/// Skipping goes forward, stays within the text, and stops at a character
/// that is not of the class.
pub proof fn lemma_skipped(t: Seq<char>, i: int, k: CharClass)
    requires
        0 <= i <= t.len(),
    ensures
        i <= skipped(t, i, k) <= t.len(),
        skipped(t, i, k) < t.len() ==> !in_class(k, t[skipped(t, i, k)]),
    decreases t.len() - i,
{
    if i < t.len() && in_class(k, t[i]) {
        lemma_skipped(t, i + 1, k);
    }
}

/// The first index from `i` on whose character is not of the class.
pub fn skip(chars: &Vec<char>, i: usize, k: CharClass) -> (j: usize)
    requires
        i <= chars.len(),
    ensures
        j == skipped(chars@, i as int, k),
        i <= j <= chars.len(),
{
    let mut j = i;
    proof {
        lemma_skipped(chars@, i as int, k);
    }
    while j < chars.len() && class_holds(k, chars[j])
        invariant
            i <= j <= chars.len(),
            skipped(chars@, j as int, k) == skipped(chars@, i as int, k),
        decreases chars.len() - j,
    {
        j += 1;
    }
    j
}

/// The class of the characters of an attribute name.
pub open spec fn name_class(d: Dialect) -> CharClass {
    if d.loose_names {
        CharClass::NameChar
    } else {
        CharClass::Alphanumeric
    }
}

/// The attribute that starts at `i`, and the index behind it: a name, `=`
/// and a value between double quotes, with white space allowed around the
/// `=`.
pub open spec fn attribute_at(t: Seq<char>, i: int, d: Dialect) -> Option<
    ((Seq<char>, Seq<char>), int),
> {
    let name_end = skipped(t, i, name_class(d));
    let equals = skipped(t, name_end, CharClass::White);
    let quote = skipped(t, equals + 1, CharClass::White);
    let value_end = skipped(t, quote + 1, CharClass::NotQuote);
    if name_end > i && equals < t.len() && t[equals] == '=' && quote < t.len() && t[quote] == '"'
        && value_end < t.len() {
        Some(((t.subrange(i, name_end), t.subrange(quote + 1, value_end)), value_end + 1))
    } else {
        None
    }
}

/// The attributes from `i` on, and the index behind them and the white
/// space that follows them. An attribute starts with an ASCII letter or
/// digit.
pub open spec fn attributes_at(t: Seq<char>, i: int, d: Dialect) -> Option<
    (Seq<(Seq<char>, Seq<char>)>, int),
>
    decreases t.len() - i,
{
    if 0 <= i < t.len() && is_alphanumeric(t[i]) {
        match attribute_at(t, i, d) {
            None => None,
            Some((attribute, end)) => {
                let next = skipped(t, end, CharClass::White);
                if i < next <= t.len() {
                    match attributes_at(t, next, d) {
                        None => None,
                        Some((rest, last)) => Some((seq![attribute] + rest, last)),
                    }
                } else {
                    None
                }
            },
        }
    } else {
        Some((Seq::empty(), i))
    }
}

/// What an opening tag holds.
pub struct OpenTag {
    pub name: Seq<char>,
    pub attributes: Seq<(Seq<char>, Seq<char>)>,
    /// The tag ends in `/>`.
    pub closed: bool,
    /// The index behind the tag.
    pub end: int,
}

/// The opening tag at `i`: `<`, a name, attributes, and `>` or, where the
/// dialect has it, `/>`.
pub open spec fn open_tag_at(t: Seq<char>, i: int, d: Dialect) -> Option<OpenTag> {
    let name_end = skipped(t, i + 1, CharClass::Alphanumeric);
    if 0 <= i < t.len() && t[i] == '<' && name_end > i + 1 {
        match attributes_at(t, skipped(t, name_end, CharClass::White), d) {
            None => None,
            Some((attributes, p)) => {
                let name = t.subrange(i + 1, name_end);
                if d.self_closing && p + 1 < t.len() && t[p] == '/' && t[p + 1] == '>' {
                    Some(OpenTag { name, attributes, closed: true, end: p + 2 })
                } else if p < t.len() && t[p] == '>' {
                    Some(OpenTag { name, attributes, closed: false, end: p + 1 })
                } else {
                    None
                }
            },
        }
    } else {
        None
    }
}

/// A closing tag starts at `i`.
pub open spec fn closes_at(t: Seq<char>, i: int) -> bool {
    0 <= i && i + 1 < t.len() && t[i] == '<' && t[i + 1] == '/'
}

/// The name of the closing tag at `i`, and the index behind the tag.
pub open spec fn close_tag_at(t: Seq<char>, i: int) -> Option<(Seq<char>, int)> {
    let name_end = skipped(t, i + 2, CharClass::Alphanumeric);
    if closes_at(t, i) && name_end > i + 2 && name_end < t.len() && t[name_end] == '>' {
        Some((t.subrange(i + 2, name_end), name_end + 1))
    } else {
        None
    }
}

/// The element that starts at `i`, and the index behind it.
///
/// An element whose tag is closed in itself, and an `hr` element, has no
/// content. Else the text up to the next `<` is the text of the element,
/// its children follow, and a closing tag ends it. Where that tag has
/// another name, the element ends before it.
pub open spec fn element_at(t: Seq<char>, i: int, d: Dialect) -> Option<(ElementView, int)>
    decreases t.len() - i, 0int,
{
    match open_tag_at(t, i, d) {
        None => None,
        Some(tag) => {
            if tag.closed || tag.name == "hr"@ {
                Some(
                    (
                        ElementView {
                            name: tag.name,
                            attributes: tag.attributes,
                            children: Seq::empty(),
                            text: Seq::empty(),
                        },
                        tag.end,
                    ),
                )
            } else {
                let text_end = skipped(t, tag.end, CharClass::NotOpen);
                let start = skipped(t, text_end, CharClass::White);
                if 0 <= i < start <= t.len() && i < tag.end <= text_end {
                    match children_at(t, start, d) {
                        None => None,
                        Some((children, p)) => match close_tag_at(t, p) {
                            None => None,
                            Some((name, end)) => Some(
                                (
                                    ElementView {
                                        name: tag.name,
                                        attributes: tag.attributes,
                                        children,
                                        text: t.subrange(tag.end, text_end),
                                    },
                                    if name == tag.name {
                                        end
                                    } else {
                                        p
                                    },
                                ),
                            ),
                        },
                    }
                } else {
                    None
                }
            }
        },
    }
}

/// The elements from `i` up to the next closing tag or the end of the text,
/// and the index behind them. Text between them is passed over.
pub open spec fn children_at(t: Seq<char>, i: int, d: Dialect) -> Option<(Seq<ElementView>, int)>
    decreases t.len() - i, 1int,
{
    if i < 0 || i >= t.len() || closes_at(t, i) {
        Some((Seq::empty(), i))
    } else {
        match element_at(t, i, d) {
            None => None,
            Some((child, end)) => {
                let next = skipped(t, end, CharClass::NotOpen);
                if i < next <= t.len() {
                    match children_at(t, next, d) {
                        None => None,
                        Some((rest, last)) => Some((seq![child] + rest, last)),
                    }
                } else {
                    None
                }
            },
        }
    }
}

/// Where the text is no element.
#[derive(Debug)]
pub struct ParseError {
    /// The index of the character at which reading stopped.
    pub position: usize,
}

/// The attribute that starts at `i`.
fn parse_attribute(chars: &Vec<char>, i: usize, d: Dialect) -> (r: Result<
    ((String, String), usize),
    ParseError,
>)
    requires
        i <= chars.len(),
    ensures
        match r {
            Ok((a, end)) => attribute_at(chars@, i as int, d) == Some(((a.0@, a.1@), end as int))
                && i < end <= chars.len(),
            Err(_) => attribute_at(chars@, i as int, d) is None,
        },
{
    let class = if d.loose_names {
        CharClass::NameChar
    } else {
        CharClass::Alphanumeric
    };
    let name_end = skip(chars, i, class);
    if name_end == i {
        return Err(ParseError { position: i });
    }
    let equals = skip(chars, name_end, CharClass::White);
    if equals >= chars.len() || chars[equals] != '=' {
        return Err(ParseError { position: equals });
    }
    let quote = skip(chars, equals + 1, CharClass::White);
    if quote >= chars.len() || chars[quote] != '"' {
        return Err(ParseError { position: quote });
    }
    let value_end = skip(chars, quote + 1, CharClass::NotQuote);
    if value_end >= chars.len() {
        return Err(ParseError { position: value_end });
    }
    let name = string_of(chars, i, name_end);
    let value = string_of(chars, quote + 1, value_end);
    Ok(((name, value), value_end + 1))
}

/// The attributes from `i` on.
fn parse_attributes(chars: &Vec<char>, i: usize, d: Dialect) -> (r: Result<
    (Vec<(String, String)>, usize),
    ParseError,
>)
    requires
        i <= chars.len(),
    ensures
        match r {
            Ok((a, end)) => attributes_at(chars@, i as int, d) == Some(
                (attribute_views(a@), end as int),
            ) && i <= end <= chars.len(),
            Err(_) => attributes_at(chars@, i as int, d) is None,
        },
{
    let ghost t = chars@;
    let mut attributes: Vec<(String, String)> = Vec::new();
    let mut at = i;
    assert(attribute_views(attributes@) =~= Seq::empty());
    while at < chars.len() && class_holds(CharClass::Alphanumeric, chars[at])
        invariant
            i <= at <= chars.len(),
            t == chars@,
            attributes_at(t, i as int, d) == match attributes_at(t, at as int, d) {
                Some((rest, last)) => Some((attribute_views(attributes@) + rest, last)),
                None => None,
            },
        decreases chars.len() - at,
    {
        match parse_attribute(chars, at, d) {
            Err(e) => {
                return Err(e);
            },
            Ok((attribute, end)) => {
                let next = skip(chars, end, CharClass::White);
                let ghost before = attribute_views(attributes@);
                let ghost view = (attribute.0@, attribute.1@);
                attributes.push(attribute);
                proof {
                    assert(attribute_views(attributes@) =~= before.push(view));
                    match attributes_at(t, next as int, d) {
                        Some((rest, last)) => {
                            assert(before + (seq![view] + rest) =~= before.push(view) + rest);
                        },
                        None => {},
                    }
                }
                at = next;
            },
        }
    }
    proof {
        assert(attribute_views(attributes@) + Seq::empty() =~= attribute_views(attributes@));
    }
    Ok((attributes, at))
}

/// What an opening tag holds, as read.
struct Opened {
    name: String,
    attributes: Vec<(String, String)>,
    closed: bool,
    end: usize,
}

/// The opening tag at `i`.
fn parse_open_tag(chars: &Vec<char>, i: usize, d: Dialect) -> (r: Result<Opened, ParseError>)
    requires
        i <= chars.len(),
    ensures
        match r {
            Ok(tag) => open_tag_at(chars@, i as int, d) == Some(
                OpenTag {
                    name: tag.name@,
                    attributes: attribute_views(tag.attributes@),
                    closed: tag.closed,
                    end: tag.end as int,
                },
            ) && i < tag.end <= chars.len(),
            Err(_) => open_tag_at(chars@, i as int, d) is None,
        },
{
    if i >= chars.len() || chars[i] != '<' {
        return Err(ParseError { position: i });
    }
    let name_end = skip(chars, i + 1, CharClass::Alphanumeric);
    if name_end == i + 1 {
        return Err(ParseError { position: name_end });
    }
    let start = skip(chars, name_end, CharClass::White);
    let (attributes, p) = match parse_attributes(chars, start, d) {
        Ok(found) => found,
        Err(e) => {
            return Err(e);
        },
    };
    let name = string_of(chars, i + 1, name_end);
    if d.self_closing && p < chars.len() && p + 1 < chars.len() && chars[p] == '/' && chars[p + 1]
        == '>' {
        Ok(Opened { name, attributes, closed: true, end: p + 2 })
    } else if p < chars.len() && chars[p] == '>' {
        Ok(Opened { name, attributes, closed: false, end: p + 1 })
    } else {
        Err(ParseError { position: p })
    }
}

/// The closing tag at `i`: the end of its name, which starts at `i + 2`.
fn parse_close_tag(chars: &Vec<char>, i: usize) -> (r: Result<usize, ParseError>)
    requires
        i <= chars.len(),
    ensures
        match r {
            Ok(name_end) => close_tag_at(chars@, i as int) == Some(
                (chars@.subrange(i + 2, name_end as int), name_end + 1),
            ) && i + 2 < name_end < chars.len(),
            Err(_) => close_tag_at(chars@, i as int) is None,
        },
{
    if !(i < chars.len() && i + 1 < chars.len() && chars[i] == '<' && chars[i + 1] == '/') {
        return Err(ParseError { position: i });
    }
    let name_end = skip(chars, i + 2, CharClass::Alphanumeric);
    if name_end == i + 2 || name_end >= chars.len() || chars[name_end] != '>' {
        return Err(ParseError { position: name_end });
    }
    Ok(name_end)
}

/// Whether the string is the text `hr`.
fn is_rule(name: &String) -> (b: bool)
    ensures
        b == (name@ == "hr"@),
{
    let chars = chars_of(name.as_str());
    let same = same_chars(&chars, 0, chars.len(), "hr");
    assert(chars@.subrange(0, chars@.len() as int) =~= chars@);
    same
}

/// The element that starts at index `i` of the characters.
pub fn parse_element_at(chars: &Vec<char>, i: usize, d: Dialect) -> (r: Result<
    (Element, usize),
    ParseError,
>)
    requires
        i <= chars.len(),
    ensures
        match r {
            Ok((e, end)) => element_at(chars@, i as int, d) == Some((e@, end as int)) && i < end
                <= chars.len(),
            Err(_) => element_at(chars@, i as int, d) is None,
        },
    decreases chars.len() - i,
{
    let ghost t = chars@;
    let tag = match parse_open_tag(chars, i, d) {
        Ok(tag) => tag,
        Err(e) => {
            return Err(e);
        },
    };
    if tag.closed || is_rule(&tag.name) {
        let end = tag.end;
        let e = Element {
            name: tag.name,
            attributes: tag.attributes,
            children: Vec::new(),
            text: String::new(),
        };
        proof {
            lemma_children_view(e);
            assert(element_views(e.children@) =~= Seq::empty());
        }
        return Ok((e, end));
    }
    let text_end = skip(chars, tag.end, CharClass::NotOpen);
    let start = skip(chars, text_end, CharClass::White);
    let mut children: Vec<Element> = Vec::new();
    let mut at = start;
    assert(element_views(children@) =~= Seq::empty());
    while at < chars.len() && !(at + 1 < chars.len() && chars[at] == '<' && chars[at + 1] == '/')
        invariant
            i < tag.end <= text_end <= start <= at <= chars.len(),
            t == chars@,
            open_tag_at(t, i as int, d) == Some(
                OpenTag {
                    name: tag.name@,
                    attributes: attribute_views(tag.attributes@),
                    closed: tag.closed,
                    end: tag.end as int,
                },
            ),
            !tag.closed,
            tag.name@ != "hr"@,
            text_end == skipped(t, tag.end as int, CharClass::NotOpen),
            start == skipped(t, text_end as int, CharClass::White),
            children_at(t, start as int, d) == match children_at(t, at as int, d) {
                Some((rest, last)) => Some((element_views(children@) + rest, last)),
                None => None,
            },
        decreases chars.len() - at,
    {
        match parse_element_at(chars, at, d) {
            Err(e) => {
                proof {
                    assert(children_at(t, at as int, d) is None);
                    assert(children_at(t, start as int, d) is None);
                }
                return Err(e);
            },
            Ok((child, end)) => {
                let next = skip(chars, end, CharClass::NotOpen);
                let ghost before = element_views(children@);
                let ghost view = child@;
                children.push(child);
                proof {
                    assert(element_views(children@) =~= before.push(view));
                    match children_at(t, next as int, d) {
                        Some((rest, last)) => {
                            assert(before + (seq![view] + rest) =~= before.push(view) + rest);
                        },
                        None => {},
                    }
                }
                at = next;
            },
        }
    }
    proof {
        assert(element_views(children@) + Seq::empty() =~= element_views(children@));
    }
    let name_end = match parse_close_tag(chars, at) {
        Ok(name_end) => name_end,
        Err(e) => {
            return Err(e);
        },
    };
    let matches = same_chars(chars, at + 2, name_end, tag.name.as_str());
    let end = if matches {
        name_end + 1
    } else {
        at
    };
    let text = string_of(chars, tag.end, text_end);
    let e = Element { name: tag.name, attributes: tag.attributes, children, text };
    proof {
        lemma_children_view(e);
    }
    Ok((e, end))
}

impl Dialect {
    /// The dialect of the dump: tags may end in `/>`, and the names of
    /// attributes may hold any character but white space and `=`.
    pub fn xml() -> (d: Dialect)
        ensures
            d.self_closing,
            d.loose_names,
    {
        Dialect { self_closing: true, loose_names: true }
    }

    /// The dialect of a directory index: no tag ends in `/>`, and the names
    /// of attributes are made of ASCII letters and digits.
    pub fn index() -> (d: Dialect)
        ensures
            !d.self_closing,
            !d.loose_names,
    {
        Dialect { self_closing: false, loose_names: false }
    }
}

/// The index behind the white space at the start of `chars[i..]`.
pub fn parse_whitespace(chars: &Vec<char>, i: usize) -> (j: usize)
    requires
        i <= chars.len(),
    ensures
        j == skipped(chars@, i as int, CharClass::White),
        i <= j <= chars.len(),
{
    skip(chars, i, CharClass::White)
}

/// The element that the text starts with, in the dialect of the dump, and
/// the text that is left behind it.
pub fn parse_element(input: &str) -> (r: Result<(String, Element), ParseError>)
    ensures
        match r {
            Ok((rest, e)) => exists|end: int|
                0 <= end <= input@.len() && #[trigger] element_at(
                    input@,
                    0,
                    Dialect { self_closing: true, loose_names: true },
                ) == Some((e@, end)) && rest@ == input@.skip(end),
            Err(_) => element_at(
                input@,
                0,
                Dialect { self_closing: true, loose_names: true },
            ) is None,
        },
{
    let chars = chars_of(input);
    match parse_element_at(&chars, 0, Dialect::xml()) {
        Ok((e, end)) => {
            let rest = string_of(&chars, end, chars.len());
            assert(chars@.subrange(end as int, chars@.len() as int) =~= chars@.skip(end as int));
            Ok((rest, e))
        },
        Err(e) => Err(e),
    }
}

/// The elements that a text is made of, with white space before, between
/// and behind them.
pub open spec fn elements_at(t: Seq<char>, i: int, d: Dialect) -> Option<Seq<ElementView>>
    decreases t.len() - i,
{
    let start = skipped(t, i, CharClass::White);
    if start >= t.len() || i < 0 {
        Some(Seq::empty())
    } else {
        match element_at(t, start, d) {
            None => None,
            Some((e, end)) => if i < end <= t.len() {
                match elements_at(t, end, d) {
                    None => None,
                    Some(rest) => Some(seq![e] + rest),
                }
            } else {
                None
            },
        }
    }
}

/// The elements that a text is made of, in the dialect of the dump: the
/// pages of one part of the dump.
pub fn parse_elements(input: &str) -> (r: Result<Vec<Element>, ParseError>)
    ensures
        match r {
            Ok(found) => elements_at(input@, 0, Dialect { self_closing: true, loose_names: true })
                == Some(element_views(found@)),
            Err(_) => elements_at(
                input@,
                0,
                Dialect { self_closing: true, loose_names: true },
            ) is None,
        },
{
    let chars = chars_of(input);
    let ghost t = chars@;
    let d = Dialect::xml();
    let mut found: Vec<Element> = Vec::new();
    let mut at: usize = 0;
    assert(element_views(found@) =~= Seq::empty());
    loop
        invariant
            0 <= at <= chars.len(),
            t == chars@,
            t == input@,
            d == (Dialect { self_closing: true, loose_names: true }),
            elements_at(t, 0, d) == match elements_at(t, at as int, d) {
                Some(rest) => Some(element_views(found@) + rest),
                None => None,
            },
        decreases chars.len() - at,
    {
        let start = skip(&chars, at, CharClass::White);
        if start >= chars.len() {
            proof {
                assert(element_views(found@) + Seq::empty() =~= element_views(found@));
            }
            return Ok(found);
        }
        match parse_element_at(&chars, start, d) {
            Err(e) => {
                return Err(e);
            },
            Ok((e, end)) => {
                let ghost before = element_views(found@);
                let ghost view = e@;
                found.push(e);
                proof {
                    assert(element_views(found@) =~= before.push(view));
                    match elements_at(t, end as int, d) {
                        Some(rest) => {
                            assert(before + (seq![view] + rest) =~= before.push(view) + rest);
                        },
                        None => {},
                    }
                }
                at = end;
            },
        }
    }
}

/// The text between double quotes, with the escapes that `Debug` writes
/// for a string.
pub uninterp spec fn debug_quoted(text: Seq<char>) -> Seq<char>;

/// Trusted: formats the text with `{:?}`. The result is given the name
/// `debug_quoted`; nothing else is claimed.
#[verifier::external_body]
fn debug_quote(text: &str) -> (quoted: String)
    ensures
        quoted@ == debug_quoted(text@),
{
    format!("{:?}", text)
}

/// The first `n` characters of a text, or all of them where it has fewer.
pub open spec fn first_chars(t: Seq<char>, n: int) -> Seq<char> {
    if t.len() <= n {
        t
    } else {
        t.take(n)
    }
}

/// A text as it is shown in a summary: quoted, and cut to its first 80
/// characters where it has 100 bytes or more, with the number of bytes
/// that were cut.
pub open spec fn shortened(t: Seq<char>) -> Seq<char> {
    if encode_utf8(t).len() < 100 {
        debug_quoted(t)
    } else {
        debug_quoted(first_chars(t, 80)) + "... ("@ + decimal(
            (encode_utf8(t).len() - encode_utf8(first_chars(t, 80)).len()) as nat,
        ) + " bytes hidden)"@
    }
}

/// A text as it is shown in a summary.
pub fn shorten(text: String) -> (short: String)
    ensures
        short@ == shortened(text@),
{
    if text.as_str().as_bytes().len() < 100 {
        debug_quote(text.as_str())
    } else {
        let chars = chars_of(text.as_str());
        let n = if chars.len() <= 80 {
            chars.len()
        } else {
            80
        };
        let shorter = string_of(&chars, 0, n);
        assert(chars@.subrange(0, n as int) =~= first_chars(text@, 80));
        assert(chars@.subrange(0, n as int) =~= text@.take(n as int));
        proof {
            lemma_prefix_bytes(text@, n as int);
        }
        let mut short = debug_quote(shorter.as_str());
        push_text(&mut short, "... (");
        let whole = text.as_str().as_bytes().len();
        let part = shorter.as_str().as_bytes().len();
        assert(whole == encode_utf8(text@).len());
        assert(part == encode_utf8(first_chars(text@, 80)).len());
        let hidden = whole - part;
        let count = decimal_text(hidden as u64);
        push_text(&mut short, count.as_str());
        push_text(&mut short, " bytes hidden)");
        assert(short@ =~= shortened(text@));
        short
    }
}

/// The first characters of a text have no more bytes than the text.
pub proof fn lemma_prefix_bytes(t: Seq<char>, n: int)
    requires
        0 <= n <= t.len(),
    ensures
        encode_utf8(t.take(n)).len() <= encode_utf8(t).len(),
    decreases n,
{
    if n > 0 {
        assert(t.take(n).drop_first() =~= t.drop_first().take(n - 1));
        lemma_prefix_bytes(t.drop_first(), n - 1);
    } else {
        assert(t.take(0) =~= Seq::<char>::empty());
    }
}

/// An element or an attribute that was looked for is not there.
#[derive(Debug)]
pub struct Missing {
    /// The name that was looked for.
    pub name: String,
}

/// `i` is the index of the first child of the element with the name.
pub open spec fn is_first_child(e: ElementView, name: Seq<char>, i: int) -> bool {
    &&& 0 <= i < e.children.len()
    &&& e.children[i].name == name
    &&& forall|j: int| 0 <= j < i ==> e.children[j].name != name
}

/// `i` is the index of the first attribute of the element with the name.
pub open spec fn is_first_attribute(e: ElementView, name: Seq<char>, i: int) -> bool {
    &&& 0 <= i < e.attributes.len()
    &&& e.attributes[i].0 == name
    &&& forall|j: int| 0 <= j < i ==> e.attributes[j].0 != name
}

/// The attributes as they are shown in a summary: a list of pairs of the
/// quoted name and the quoted short form of the value.
pub open spec fn shown_attributes(a: Seq<(Seq<char>, Seq<char>)>) -> Seq<char>
    decreases a.len(),
{
    if a.len() == 0 {
        Seq::empty()
    } else {
        shown_attributes(a.drop_last()) + (if a.len() > 1 {
            ", "@
        } else {
            Seq::empty()
        }) + "("@ + debug_quoted(a.last().0) + ", "@ + debug_quoted(shortened(a.last().1)) + ")"@
    }
}

/// The names of the children as they are shown in a summary: a list of
/// quoted names.
pub open spec fn shown_children(c: Seq<ElementView>) -> Seq<char>
    decreases c.len(),
{
    if c.len() == 0 {
        Seq::empty()
    } else {
        shown_children(c.drop_last()) + (if c.len() > 1 {
            ", "@
        } else {
            Seq::empty()
        }) + debug_quoted(c.last().name)
    }
}

/// The summary of an element: its name, its attributes, the names of its
/// children and its text, each text in its short form.
pub open spec fn summary(e: ElementView) -> Seq<char> {
    shortened(e.name) + "\n- attrs: ["@ + shown_attributes(e.attributes) + "]\n- children: ["@
        + shown_children(e.children) + "]\n- text: "@ + shortened(e.text)
}

impl Element {
    /// A summary of the element for messages.
    pub fn summarise(&self) -> (s: String)
        ensures
            s@ == summary(self@),
    {
        let mut s = shorten(self.name.clone());
        push_text(&mut s, "\n- attrs: [");
        let ghost head = s@;
        let ghost attrs = self@.attributes;
        let mut i: usize = 0;
        assert(attrs.take(0) =~= Seq::empty());
        while i < self.attributes.len()
            invariant
                0 <= i <= self.attributes.len(),
                attrs == attribute_views(self.attributes@),
                s@ == head + shown_attributes(attrs.take(i as int)),
            decreases self.attributes.len() - i,
        {
            proof {
                assert(attrs.take(i + 1).drop_last() =~= attrs.take(i as int));
                assert(attrs.take(i + 1).last() == attrs[i as int]);
            }
            if i > 0 {
                push_text(&mut s, ", ");
            }
            push_text(&mut s, "(");
            let key = debug_quote(self.attributes[i].0.as_str());
            push_text(&mut s, key.as_str());
            push_text(&mut s, ", ");
            let value = debug_quote(shorten(self.attributes[i].1.clone()).as_str());
            push_text(&mut s, value.as_str());
            push_text(&mut s, ")");
            assert(s@ =~= head + shown_attributes(attrs.take(i + 1)));
            i += 1;
        }
        assert(attrs.take(i as int) =~= attrs);
        push_text(&mut s, "]\n- children: [");
        let ghost head = s@;
        let ghost kids = self@.children;
        proof {
            lemma_children_view(*self);
        }
        let mut j: usize = 0;
        assert(kids.take(0) =~= Seq::empty());
        while j < self.children.len()
            invariant
                0 <= j <= self.children.len(),
                kids == element_views(self.children@),
                s@ == head + shown_children(kids.take(j as int)),
            decreases self.children.len() - j,
        {
            proof {
                assert(kids.take(j + 1).drop_last() =~= kids.take(j as int));
                assert(kids.take(j + 1).last() == kids[j as int]);
            }
            if j > 0 {
                push_text(&mut s, ", ");
            }
            let name = debug_quote(self.children[j].name.as_str());
            push_text(&mut s, name.as_str());
            assert(s@ =~= head + shown_children(kids.take(j + 1)));
            j += 1;
        }
        assert(kids.take(j as int) =~= kids);
        push_text(&mut s, "]\n- text: ");
        let text = shorten(self.text.clone());
        push_text(&mut s, text.as_str());
        assert(s@ =~= summary(self@));
        s
    }

    /// The first child with the given name.
    pub fn find(&self, name: &str) -> (r: Result<&Element, Missing>)
        ensures
            match r {
                Ok(child) => exists|i: int| #[trigger]
                    is_first_child(self@, name@, i) && *child == self.children@[i],
                Err(e) => e.name@ == name@ && forall|i: int|
                    0 <= i < self@.children.len() ==> (#[trigger] self@.children[i]).name != name@,
            },
    {
        proof {
            lemma_children_view(*self);
        }
        let mut i: usize = 0;
        while i < self.children.len()
            invariant
                0 <= i <= self.children.len(),
                self@.children == element_views(self.children@),
                forall|j: int| 0 <= j < i ==> (#[trigger] self@.children[j]).name != name@,
            decreases self.children.len() - i,
        {
            if same_text(self.children[i].name.as_str(), name) {
                assert(is_first_child(self@, name@, i as int));
                return Ok(&self.children[i]);
            }
            i += 1;
        }
        Err(Missing { name: name.to_owned() })
    }

    /// The value of the first attribute with the given name.
    pub fn get_attribute(&self, name: &str) -> (r: Result<&str, Missing>)
        ensures
            match r {
                Ok(value) => exists|i: int| #[trigger]
                    is_first_attribute(self@, name@, i) && value@ == self@.attributes[i].1,
                Err(e) => e.name@ == name@ && forall|i: int|
                    0 <= i < self@.attributes.len() ==> (#[trigger] self@.attributes[i]).0 != name@,
            },
    {
        let mut i: usize = 0;
        while i < self.attributes.len()
            invariant
                0 <= i <= self.attributes.len(),
                forall|j: int| 0 <= j < i ==> (#[trigger] self@.attributes[j]).0 != name@,
            decreases self.attributes.len() - i,
        {
            if same_text(self.attributes[i].0.as_str(), name) {
                assert(is_first_attribute(self@, name@, i as int));
                return Ok(self.attributes[i].1.as_str());
            }
            i += 1;
        }
        Err(Missing { name: name.to_owned() })
    }
}

} // verus!
