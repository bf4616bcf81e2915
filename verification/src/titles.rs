//! Titles: their canonical form, the short keys under which they and the
//! article identifiers are stored, and the map between the two.

use vstd::prelude::*;
use vstd::string::StringSliceAdditionalSpecFns;
use vstd::utf8::{decode_utf8, encode_utf8, valid_utf8};
use crate::hierarchical_map::{is_shortener, HierarchicalMap, MapError, MapFiles};
use crate::parse::xml::is_white;
use crate::text::{
    ascii_alphabetic, ascii_upper, chars_of, find_char, is_ascii_alphabetic, push_char,
    split_once, string_of, to_ascii_upper, utf8_text,
};

verus! {

/// The byte is a hexadecimal digit.
pub open spec fn is_hex(b: u8) -> bool {
    (0x30 <= b <= 0x39) || (0x41 <= b <= 0x46) || (0x61 <= b <= 0x66)
}

/// The value of a hexadecimal digit.
pub open spec fn hex_value(b: u8) -> int {
    if 0x30 <= b <= 0x39 {
        b - 0x30
    } else if 0x41 <= b <= 0x46 {
        b - 0x41 + 10
    } else {
        b - 0x61 + 10
    }
}

/// The bytes with every `%` that two hexadecimal digits follow replaced,
/// together with the digits, by the byte that the digits denote.
pub open spec fn percent_decoded(b: Seq<u8>) -> Seq<u8>
    decreases b.len(),
{
    if b.len() == 0 {
        Seq::empty()
    } else if b[0] == 0x25 && b.len() >= 3 && is_hex(b[1]) && is_hex(b[2]) {
        seq![(hex_value(b[1]) * 16 + hex_value(b[2])) as u8] + percent_decoded(b.skip(3))
    } else {
        seq![b[0]] + percent_decoded(b.skip(1))
    }
}

/// The text that `html_escape::decode_html_entities` gives for a text.
pub uninterp spec fn html_decoded(text: Seq<char>) -> Seq<char>;

/// The characters that `char::to_uppercase` gives for a character.
pub uninterp spec fn uppercased(c: char) -> Seq<char>;

/// The text that `str::to_lowercase` gives for a text.
pub uninterp spec fn lowercased(text: Seq<char>) -> Seq<char>;

/// The text without the white space at its start.
pub open spec fn trimmed_start(text: Seq<char>) -> Seq<char>
    decreases text.len(),
{
    if text.len() > 0 && is_white(text[0]) {
        trimmed_start(text.skip(1))
    } else {
        text
    }
}

/// The text without the white space at its end.
pub open spec fn trimmed_end(text: Seq<char>) -> Seq<char>
    decreases text.len(),
{
    if text.len() > 0 && is_white(text.last()) {
        trimmed_end(text.drop_last())
    } else {
        text
    }
}

/// The text without the white space at its start and at its end.
pub open spec fn trimmed(text: Seq<char>) -> Seq<char> {
    trimmed_end(trimmed_start(text))
}

/// Trusted: collects what `percent_encoding::percent_decode_str` yields for
/// the text. Its source decodes each `%` that two hexadecimal digits follow
/// and hands every other byte on unchanged.
#[verifier::external_body]
fn percent_decode(input: &str) -> (bytes: Vec<u8>)
    ensures
        bytes@ == percent_decoded(input.spec_bytes()),
{
    percent_encoding::percent_decode_str(input).collect::<Vec<u8>>()
}

/// Trusted: calls `html_escape::decode_html_entities`. The result is given
/// the name `html_decoded`; nothing else is claimed.
#[verifier::external_body]
fn decode_entities(text: &str) -> (decoded: String)
    ensures
        decoded@ == html_decoded(text@),
{
    html_escape::decode_html_entities(text).into_owned()
}

/// Trusted: collects what `char::to_uppercase` yields. The result is given
/// the name `uppercased`; nothing else is claimed.
#[verifier::external_body]
fn uppercase(c: char) -> (upper: String)
    ensures
        upper@ == uppercased(c),
{
    c.to_uppercase().collect::<String>()
}

/// Trusted: calls `str::to_lowercase`. The result is given the name
/// `lowercased`; nothing else is claimed.
#[verifier::external_body]
fn lowercase(text: &str) -> (lower: String)
    ensures
        lower@ == lowercased(text@),
{
    text.to_lowercase()
}

/// Trusted: calls `str::trim`, which takes the white space, as Unicode
/// defines it, off both ends of the text.
#[verifier::external_body]
fn trim(text: &str) -> (inner: &str)
    ensures
        inner@ == trimmed(text@),
{
    text.trim()
}

/// The namespace that a lower-case word names, in its canonical casing.
pub open spec fn canonical_namespace(lower: Seq<char>) -> Option<Seq<char>> {
    if lower == "main"@ {
        Some("Main"@)
    } else if lower == "article"@ {
        Some("Article"@)
    } else if lower == "user"@ {
        Some("User"@)
    } else if lower == "wikipedia"@ {
        Some("Wikipedia"@)
    } else if lower == "file"@ {
        Some("File"@)
    } else if lower == "mediawiki"@ {
        Some("MediaWiki"@)
    } else if lower == "template"@ {
        Some("Template"@)
    } else if lower == "help"@ {
        Some("Help"@)
    } else if lower == "category"@ {
        Some("Category"@)
    } else if lower == "portal"@ {
        Some("Portal"@)
    } else if lower == "draft"@ {
        Some("Draft"@)
    } else if lower == "timedtext"@ {
        Some("TimedText"@)
    } else if lower == "module"@ {
        Some("Module"@)
    } else if lower == "special"@ {
        Some("Special"@)
    } else if lower == "media"@ {
        Some("Media"@)
    } else {
        None
    }
}

/// Whether the string is the given text.
pub(crate) fn is_text(s: &String, text: &str) -> (b: bool)
    ensures
        b == (s@ == text@),
{
    let a = chars_of(s.as_str());
    let same = crate::text::same_chars(&a, 0, a.len(), text);
    assert(a@.subrange(0, a@.len() as int) =~= a@);
    same
}

/// The namespace that a lower-case word names, in its canonical casing.
fn namespace_word(lower: &String) -> (r: Option<String>)
    ensures
        match r {
            Some(w) => canonical_namespace(lower@) == Some(w@),
            None => canonical_namespace(lower@) is None,
        },
{
    if is_text(lower, "main") {
        Some("Main".to_owned())
    } else if is_text(lower, "article") {
        Some("Article".to_owned())
    } else if is_text(lower, "user") {
        Some("User".to_owned())
    } else if is_text(lower, "wikipedia") {
        Some("Wikipedia".to_owned())
    } else if is_text(lower, "file") {
        Some("File".to_owned())
    } else if is_text(lower, "mediawiki") {
        Some("MediaWiki".to_owned())
    } else if is_text(lower, "template") {
        Some("Template".to_owned())
    } else if is_text(lower, "help") {
        Some("Help".to_owned())
    } else if is_text(lower, "category") {
        Some("Category".to_owned())
    } else if is_text(lower, "portal") {
        Some("Portal".to_owned())
    } else if is_text(lower, "draft") {
        Some("Draft".to_owned())
    } else if is_text(lower, "timedtext") {
        Some("TimedText".to_owned())
    } else if is_text(lower, "module") {
        Some("Module".to_owned())
    } else if is_text(lower, "special") {
        Some("Special".to_owned())
    } else if is_text(lower, "media") {
        Some("Media".to_owned())
    } else {
        None
    }
}

/// The namespace of a link and what is left of the link behind it. A link
/// has a namespace where the part before its first colon, trimmed and in
/// lower case, names one; else the whole link is left.
pub open spec fn split_prefix(s: Seq<char>) -> (Option<Seq<char>>, Seq<char>) {
    match split_once(s, ':') {
        Some((prefix, rest)) => match canonical_namespace(lowercased(trimmed(prefix))) {
            Some(namespace) => (Some(namespace), rest),
            None => (None, s),
        },
        None => (None, s),
    }
}

/// The text without percent escapes and HTML entities.
pub open spec fn decoded(rem: Seq<char>) -> Seq<char> {
    html_decoded(decode_utf8(percent_decoded(encode_utf8(rem))))
}

/// The text can be decoded: without percent escapes it is valid UTF-8.
pub open spec fn decodable(rem: Seq<char>) -> bool {
    valid_utf8(percent_decoded(encode_utf8(rem)))
}

/// The text with its first character in upper case; an empty text stays
/// empty.
pub open spec fn titled(d: Seq<char>) -> Seq<char> {
    if d.len() == 0 {
        Seq::empty()
    } else {
        uppercased(d[0]) + d.skip(1)
    }
}

/// The text with a space for every underscore.
pub open spec fn underscores_to_spaces(x: Seq<char>) -> Seq<char> {
    x.map_values(|c: char| if c == '_' { ' ' } else { c })
}

/// The text without the spaces that follow a space.
pub open spec fn collapsed(x: Seq<char>) -> Seq<char>
    decreases x.len(),
{
    if x.len() == 0 {
        Seq::empty()
    } else if x.len() >= 2 && x.last() == ' ' && x[x.len() - 2] == ' ' {
        collapsed(x.drop_last())
    } else {
        collapsed(x.drop_last()).push(x.last())
    }
}

/// The text with underscores as spaces and runs of spaces as one space.
pub open spec fn spaced(x: Seq<char>) -> Seq<char> {
    collapsed(underscores_to_spaces(x))
}

/// A namespace, if any, with a colon, and the body behind it.
pub open spec fn assembled(namespace: Option<Seq<char>>, body: Seq<char>) -> Seq<char> {
    match namespace {
        Some(n) => n + seq![':'] + body,
        None => body,
    }
}

/// The link has a canonical form.
pub open spec fn can_canonicalise(s: Seq<char>) -> bool {
    decodable(split_prefix(s).1)
}

/// The canonical form of a link: the namespace in its canonical casing,
/// and the rest without percent escapes and HTML entities, its first
/// character in upper case, underscores as spaces and runs of spaces as one.
pub open spec fn canonical(s: Seq<char>) -> Seq<char> {
    assembled(split_prefix(s).0, spaced(titled(decoded(split_prefix(s).1))))
}

/// The text without the spaces that follow a space, underscores counting
/// as spaces.
fn space_out(x: &Vec<char>) -> (out: Vec<char>)
    ensures
        out@ == spaced(x@),
{
    let ghost u = underscores_to_spaces(x@);
    let mut out: Vec<char> = Vec::new();
    let mut i: usize = 0;
    assert(u.take(0) =~= Seq::<char>::empty());
    while i < x.len()
        invariant
            0 <= i <= x.len(),
            u == underscores_to_spaces(x@),
            out@ == collapsed(u.take(i as int)),
        decreases x.len() - i,
    {
        let c = if x[i] == '_' {
            ' '
        } else {
            x[i]
        };
        let follows_space = i > 0 && (x[i - 1] == ' ' || x[i - 1] == '_');
        proof {
            assert(u.take(i + 1).drop_last() =~= u.take(i as int));
            assert(u.take(i + 1).last() == c);
            if i > 0 {
                assert(u.take(i + 1)[i - 1] == u[i - 1]);
            }
        }
        if !(c == ' ' && follows_space) {
            out.push(c);
        }
        i += 1;
    }
    assert(u.take(i as int) =~= u);
    out
}

/// The text with its first character in upper case.
fn title_case(d: &Vec<char>) -> (t: Vec<char>)
    ensures
        t@ == titled(d@),
{
    if d.len() == 0 {
        return Vec::new();
    }
    let upper = uppercase(d[0]);
    let mut t = chars_of(upper.as_str());
    let mut i: usize = 1;
    while i < d.len()
        invariant
            1 <= i <= d.len(),
            t@ == uppercased(d@[0]) + d@.subrange(1, i as int),
        decreases d.len() - i,
    {
        t.push(d[i]);
        assert(d@.subrange(1, i + 1) =~= d@.subrange(1, i as int).push(d@[i as int]));
        assert(t@ =~= uppercased(d@[0]) + d@.subrange(1, i + 1));
        i += 1;
    }
    assert(d@.subrange(1, d@.len() as int) =~= d@.skip(1));
    t
}

/// The canonical form of a link whose namespace and decoded rest are given.
pub fn canonical_form(namespace: Option<String>, decoded: &str) -> (title: String)
    ensures
        title@ == assembled(
            match namespace {
                Some(n) => Some(n@),
                None => None,
            },
            spaced(titled(decoded@)),
        ),
{
    let d = chars_of(decoded);
    let t = title_case(&d);
    let body = space_out(&t);
    let mut title = match namespace {
        Some(n) => {
            let mut title = n;
            push_char(&mut title, ':');
            title
        },
        None => String::new(),
    };
    let ghost head = title@;
    let mut j: usize = 0;
    while j < body.len()
        invariant
            0 <= j <= body.len(),
            title@ == head + body@.take(j as int),
        decreases body.len() - j,
    {
        push_char(&mut title, body[j]);
        assert(body@.take(j + 1) =~= body@.take(j as int).push(body@[j as int]));
        assert(title@ =~= head + body@.take(j + 1));
        j += 1;
    }
    assert(body@.take(j as int) =~= body@);
    assert(Seq::<char>::empty() + body@ =~= body@);
    title
}

/// The namespace of a link, if it has one, and the index at which the rest
/// of the link starts.
fn split_link(chars: &Vec<char>) -> (r: (Option<String>, usize))
    ensures
        r.1 <= chars.len(),
        split_prefix(chars@) == (
            match r.0 {
                Some(n) => Some(n@),
                None => None,
            },
            chars@.skip(r.1 as int),
        ),
{
    assert(chars@.skip(0) =~= chars@);
    match find_char(chars, 0, ':') {
        Some(colon) => {
            let prefix = string_of(chars, 0, colon);
            assert(chars@.subrange(0, colon as int) =~= chars@.take(colon as int));
            let lower = lowercase(trim(prefix.as_str()));
            match namespace_word(&lower) {
                Some(namespace) => (Some(namespace), colon + 1),
                None => (None, 0),
            }
        },
        None => (None, 0),
    }
}

/// The canonical form of a link that has one.
///
/// See `try_canonicalise_wikilink` for links of which this is not known.
pub fn canonicalise_wikilink(input: &str) -> (title: String)
    requires
        can_canonicalise(input@),
    ensures
        title@ == canonical(input@),
{
    let chars = chars_of(input);
    let (namespace, start) = split_link(&chars);
    let rest = string_of(&chars, start, chars.len());
    assert(chars@.subrange(start as int, chars@.len() as int) =~= chars@.skip(start as int));
    let bytes = percent_decode(rest.as_str());
    match utf8_text(bytes.as_slice()) {
        Some(text) => {
            let unescaped = decode_entities(text);
            canonical_form(namespace, unescaped.as_str())
        },
        None => String::new(),
    }
}

/// The canonical form of a link, or `None` where it has none: where its
/// percent escapes do not give valid UTF-8.
pub fn try_canonicalise_wikilink(input: &str) -> (r: Option<String>)
    ensures
        match r {
            Some(title) => can_canonicalise(input@) && title@ == canonical(input@),
            None => !can_canonicalise(input@),
        },
{
    let chars = chars_of(input);
    let (_, start) = split_link(&chars);
    let rest = string_of(&chars, start, chars.len());
    assert(chars@.subrange(start as int, chars@.len() as int) =~= chars@.skip(start as int));
    let bytes = percent_decode(rest.as_str());
    match utf8_text(bytes.as_slice()) {
        Some(_) => Some(canonicalise_wikilink(input)),
        None => None,
    }
}

/// A text without a space that follows a space.
pub open spec fn single_spaced(x: Seq<char>) -> bool {
    forall|i: int| 0 < i < x.len() ==> !(#[trigger] x[i] == ' ' && x[i - 1] == ' ')
}

/// Collapsing leaves the last character in place and no space behind a
/// space, and it adds no character.
pub proof fn lemma_collapsed(x: Seq<char>)
    ensures
        single_spaced(collapsed(x)),
        x.len() > 0 ==> collapsed(x).len() > 0 && collapsed(x).last() == x.last(),
        forall|c: char| collapsed(x).contains(c) ==> x.contains(c),
    decreases x.len(),
{
    if x.len() > 0 {
        let init = x.drop_last();
        lemma_collapsed(init);
        let y = collapsed(x);
        assert forall|c: char| y.contains(c) implies x.contains(c) by {
            let i = choose|i: int| 0 <= i < y.len() && y[i] == c;
            if i < collapsed(init).len() {
                assert(collapsed(init)[i] == c);
                assert(collapsed(init).contains(c));
                assert(init.contains(c));
                let j = choose|j: int| 0 <= j < init.len() && init[j] == c;
                assert(x[j] == c);
            } else {
                assert(x[x.len() - 1] == c);
            }
        }
        if x.len() >= 2 && x.last() == ' ' && x[x.len() - 2] == ' ' {
            assert(init.last() == ' ');
        } else {
            assert forall|i: int| 0 < i < y.len() implies !(#[trigger] y[i] == ' ' && y[i - 1]
                == ' ') by {
                if i == y.len() - 1 && init.len() > 0 {
                    assert(y[i - 1] == init.last());
                }
            }
        }
    }
}

/// A text without a space behind a space is left as it is.
pub proof fn lemma_collapsed_fixed(x: Seq<char>)
    requires
        single_spaced(x),
    ensures
        collapsed(x) == x,
    decreases x.len(),
{
    if x.len() > 0 {
        let init = x.drop_last();
        assert(single_spaced(init)) by {
            assert forall|i: int| 0 < i < init.len() implies !(#[trigger] init[i] == ' ' && init[i
                - 1] == ' ') by {
                assert(x[i] == init[i]);
            }
        }
        lemma_collapsed_fixed(init);
        if x.len() >= 2 {
            assert(!(x[x.len() - 1] == ' ' && x[x.len() - 2] == ' '));
        }
        assert(init.push(x.last()) =~= x);
    }
}

/// Spacing a text out twice is spacing it out once.
pub proof fn lemma_spaced_twice(x: Seq<char>)
    ensures
        spaced(spaced(x)) == spaced(x),
{
    let u = underscores_to_spaces(x);
    let y = collapsed(u);
    lemma_collapsed(u);
    assert(underscores_to_spaces(y) =~= y) by {
        assert forall|i: int| 0 <= i < y.len() implies y[i] != '_' by {
            assert(y.contains(y[i]));
            assert(u.contains(y[i]));
            let j = choose|j: int| 0 <= j < u.len() && u[j] == y[i];
            assert(u[j] != '_');
        }
    }
    lemma_collapsed_fixed(y);
}

/// A canonical form is its own canonical form wherever the decoders and the
/// namespaces leave it alone: where it is split at its namespace as it was
/// put together, where its body holds no percent escape and no HTML entity,
/// and where the first character of its body, if it has one, is its own
/// upper case.
pub proof fn lemma_canonical_twice(s: Seq<char>)
    ensures
        ({
            let body = spaced(titled(decoded(split_prefix(s).1)));
            &&& split_prefix(canonical(s)) == (split_prefix(s).0, body)
            &&& decoded(body) == body
            &&& body.len() > 0 ==> uppercased(body[0]) == seq![body[0]]
        }) ==> canonical(canonical(s)) == canonical(s),
{
    let x = titled(decoded(split_prefix(s).1));
    let body = spaced(x);
    if split_prefix(canonical(s)) == (split_prefix(s).0, body) && decoded(body) == body && (
    body.len() > 0 ==> uppercased(body[0]) == seq![body[0]]) {
        assert(titled(body) =~= body);
        lemma_spaced_twice(x);
    }
}

/// The short key of an article identifier: its lowest eight bits.
pub fn id_short_key(id: &u32) -> (k: u8)
    ensures
        k == *id % 256,
{
    let id = *id;
    assert(id & 0xff == id % 256) by (bit_vector);
    assert(id & 0xff < 256) by (bit_vector);
    (id & 0xff) as u8
}

/// The first `n` ASCII letters of a text, in upper case.
pub open spec fn first_letters(x: Seq<char>, n: nat) -> Seq<char>
    decreases x.len(),
{
    if n == 0 || x.len() == 0 {
        Seq::empty()
    } else if is_ascii_alphabetic(x[0]) {
        seq![ascii_upper(x[0])] + first_letters(x.drop_first(), (n - 1) as nat)
    } else {
        first_letters(x.drop_first(), n)
    }
}

/// What stands behind the first colon of a title, or the whole title where
/// it holds no colon.
pub open spec fn behind_colon(t: Seq<char>) -> Seq<char> {
    match split_once(t, ':') {
        Some((_, rest)) => rest,
        None => t,
    }
}

/// The short key of a title: the first two ASCII letters behind its first
/// colon, in upper case; one letter where there is one only; `other` where
/// there is none.
pub open spec fn short_title(t: Seq<char>) -> Seq<char> {
    if first_letters(behind_colon(t), 2).len() == 0 {
        "other"@
    } else {
        first_letters(behind_colon(t), 2)
    }
}

/// The short key of a title.
pub fn title_short_key(title: &str) -> (k: String)
    ensures
        k@ == short_title(title@),
{
    let chars = chars_of(title);
    assert(chars@.skip(0) =~= chars@);
    let start = match find_char(&chars, 0, ':') {
        Some(colon) => colon + 1,
        None => 0,
    };
    let ghost x = behind_colon(title@);
    assert(x =~= chars@.skip(start as int));
    let mut k = String::new();
    let mut taken: usize = 0;
    let mut i: usize = start;
    while i < chars.len() && taken < 2
        invariant
            start <= i <= chars.len(),
            x == chars@.skip(start as int),
            taken <= 2,
            k@.len() == taken,
            k@ + first_letters(chars@.skip(i as int), (2 - taken) as nat) == first_letters(x, 2),
        decreases chars.len() - i,
    {
        let c = chars[i];
        proof {
            assert(chars@.skip(i as int).drop_first() =~= chars@.skip(i + 1));
            assert(chars@.skip(i as int)[0] == c);
        }
        if ascii_alphabetic(c) {
            let ghost before = k@;
            push_char(&mut k, to_ascii_upper(c));
            taken += 1;
            assert(k@ + first_letters(chars@.skip(i + 1), (2 - taken) as nat) =~= before
                + first_letters(chars@.skip(i as int), (2 - (taken - 1)) as nat));
        }
        i += 1;
    }
    proof {
        assert(k@ =~= first_letters(x, 2));
    }
    if taken == 0 {
        "other".to_owned()
    } else {
        k
    }
}

/// The word is the name of a namespace, in its canonical casing.
pub open spec fn is_namespace_name(w: Seq<char>) -> bool {
    w == "Main"@ || w == "Article"@ || w == "User"@ || w == "Wikipedia"@ || w == "File"@ || w
        == "MediaWiki"@ || w == "Template"@ || w == "Help"@ || w == "Category"@ || w == "Portal"@
        || w == "Draft"@ || w == "TimedText"@ || w == "Module"@ || w == "Special"@ || w == "Media"@
}

/// The namespace of a canonical title, if it has one, and what stands
/// behind it; the whole title where it has none.
pub open spec fn namespace_split(t: Seq<char>) -> (Option<Seq<char>>, Seq<char>) {
    match split_once(t, ':') {
        Some((prefix, rest)) => if is_namespace_name(prefix) {
            (Some(prefix), rest)
        } else {
            (None, t)
        },
        None => (None, t),
    }
}

/// Whether the word is the name of a namespace, in its canonical casing.
fn namespace_name(w: &String) -> (b: bool)
    ensures
        b == is_namespace_name(w@),
{
    is_text(w, "Main") || is_text(w, "Article") || is_text(w, "User") || is_text(w, "Wikipedia")
        || is_text(w, "File") || is_text(w, "MediaWiki") || is_text(w, "Template") || is_text(
        w,
        "Help",
    ) || is_text(w, "Category") || is_text(w, "Portal") || is_text(w, "Draft") || is_text(
        w,
        "TimedText",
    ) || is_text(w, "Module") || is_text(w, "Special") || is_text(w, "Media")
}

/// Splits a canonical title into its namespace, if it has one, and the rest.
pub fn split_namespace(title: &str) -> (r: (Option<String>, String))
    ensures
        namespace_split(title@) == (
            match r.0 {
                Some(n) => Some(n@),
                None => None,
            },
            r.1@,
        ),
{
    let chars = chars_of(title);
    assert(chars@.skip(0) =~= chars@);
    assert(chars@.subrange(0, chars@.len() as int) =~= chars@);
    match find_char(&chars, 0, ':') {
        Some(colon) => {
            let prefix = string_of(&chars, 0, colon);
            assert(chars@.subrange(0, colon as int) =~= chars@.take(colon as int));
            if namespace_name(&prefix) {
                let rest = string_of(&chars, colon + 1, chars.len());
                assert(chars@.subrange(colon + 1, chars@.len() as int) =~= chars@.skip(colon + 1));
                (Some(prefix), rest)
            } else {
                (None, string_of(&chars, 0, chars.len()))
            }
        },
        None => (None, string_of(&chars, 0, chars.len())),
    }
}

/// `x` starts with `prefix` and a colon.
pub open spec fn has_prefix(x: Seq<char>, prefix: Seq<char>) -> bool {
    &&& prefix.len() < x.len()
    &&& x.take(prefix.len() as int) == prefix
    &&& x[prefix.len() as int] == ':'
}

/// The text starts with one of the prefixes and a colon.
pub open spec fn is_interwiki(x: Seq<char>, prefixes: Seq<String>) -> bool {
    exists|i: int| 0 <= i < prefixes.len() && has_prefix(x, #[trigger] prefixes[i]@)
}

/// Whether what is left of a link behind its namespace leads to another
/// wiki: whether it starts with one of the given prefixes and a colon. The
/// prefixes are compared as they are given; for canonical titles they are
/// given with their first letter in upper case.
pub fn is_interwiki_link(remainder: &str, prefixes: &Vec<String>) -> (b: bool)
    ensures
        b == is_interwiki(remainder@, prefixes@),
{
    let chars = chars_of(remainder);
    let mut i: usize = 0;
    while i < prefixes.len()
        invariant
            0 <= i <= prefixes.len(),
            chars@ == remainder@,
            forall|j: int| 0 <= j < i ==> !has_prefix(chars@, #[trigger] prefixes@[j]@),
        decreases prefixes.len() - i,
    {
        let prefix = chars_of(prefixes[i].as_str());
        if prefix.len() < chars.len() && chars[prefix.len()] == ':' {
            assert(chars@.subrange(0, prefix@.len() as int) =~= chars@.take(prefix@.len() as int));
            if crate::text::same_chars(&chars, 0, prefix.len(), prefixes[i].as_str()) {
                return true;
            }
        }
        i += 1;
    }
    false
}

/// The map between article identifiers and canonical titles, in both
/// directions.
#[verifier::reject_recursive_types(F)]
#[verifier::reject_recursive_types(G)]
pub struct TitleMap<F, G> {
    id_to_title: HierarchicalMap<u8, u32, String, F>,
    title_to_id: HierarchicalMap<String, String, u32, G>,
}

impl<F: Fn(&u32) -> u8, G: Fn(&String) -> String> TitleMap<F, G> {
    /// The map from identifiers to titles.
    pub closed spec fn by_id(&self) -> HierarchicalMap<u8, u32, String, F> {
        self.id_to_title
    }

    /// The map from titles to identifiers.
    pub closed spec fn by_title(&self) -> HierarchicalMap<String, String, u32, G> {
        self.title_to_id
    }

    /// Both maps are valid.
    pub open spec fn wf(&self) -> bool {
        self.by_id().wf() && self.by_title().wf()
    }

    /// The titles in memory, by identifier.
    pub open spec fn titles(&self) -> Map<u32, Seq<char>> {
        self.by_id().view_map()
    }

    /// The identifiers in memory, by title.
    pub open spec fn ids(&self) -> Map<Seq<char>, u32> {
        self.by_title().view_map()
    }

    /// The title stored for an identifier.
    pub open spec fn title_of(&self, id: u32) -> Option<Seq<char>> {
        if self.titles().contains_key(id) {
            Some(self.titles()[id])
        } else {
            None
        }
    }

    /// The identifier stored for the canonical form of a title.
    pub open spec fn id_of(&self, title: Seq<char>) -> Option<u32> {
        if can_canonicalise(title) && self.ids().contains_key(canonical(title)) {
            Some(self.ids()[canonical(title)])
        } else {
            None
        }
    }

    /// The two directions agree: the title of an identifier has that
    /// identifier, and the identifier of a title has that title.
    pub open spec fn agrees(&self) -> bool {
        &&& forall|id: u32| #[trigger]
            self.titles().contains_key(id) ==> self.ids().contains_key(self.titles()[id])
                && self.ids()[self.titles()[id]] == id
        &&& forall|t: Seq<char>| #[trigger]
            self.ids().contains_key(t) ==> self.titles().contains_key(self.ids()[t])
                && self.titles()[self.ids()[t]] == t
    }

    /// In a map whose directions agree, the title of an identifier leads
    /// back to the identifier, provided that the title is its own canonical
    /// form.
    pub proof fn lemma_title_leads_back(&self, id: u32)
        requires
            self.agrees(),
            self.title_of(id) is Some,
        ensures
            can_canonicalise(self.title_of(id).unwrap()) && canonical(self.title_of(id).unwrap())
                == self.title_of(id).unwrap() ==> self.id_of(self.title_of(id).unwrap()) == Some(
                id,
            ),
    {
        assert(self.titles().contains_key(id));
    }

    /// In a map whose directions agree, the identifier of a title leads
    /// back to the canonical form of the title.
    pub proof fn lemma_id_leads_back(&self, title: Seq<char>)
        requires
            self.agrees(),
            self.id_of(title) is Some,
        ensures
            self.title_of(self.id_of(title).unwrap()) == Some(canonical(title)),
    {
        assert(self.ids().contains_key(canonical(title)));
    }

    /// The directions still agree when a new identifier is stored with a
    /// new title.
    pub proof fn lemma_insert_agrees(before: Self, after: Self, id: u32, t: Seq<char>)
        requires
            before.agrees(),
            !before.titles().contains_key(id),
            !before.ids().contains_key(t),
            after.titles() == before.titles().insert(id, t),
            after.ids() == before.ids().insert(t, id),
        ensures
            after.agrees(),
    {
        assert forall|i: u32| #[trigger] after.titles().contains_key(i) implies after.ids().contains_key(
            after.titles()[i],
        ) && after.ids()[after.titles()[i]] == i by {
            if i != id {
                assert(before.titles().contains_key(i));
            }
        }
        assert forall|x: Seq<char>| #[trigger] after.ids().contains_key(x) implies after.titles().contains_key(
            after.ids()[x],
        ) && after.titles()[after.ids()[x]] == x by {
            if x != t {
                assert(before.ids().contains_key(x));
            }
        }
    }

    /// An empty map of titles that is not yet fully loaded, partitioned by
    /// the given shorteners. Its files are named `id_to_title` and
    /// `title_to_id`.
    pub fn new(by_id: F, by_title: G) -> (m: Self)
        requires
            is_shortener::<u8, u32, F>(by_id),
            is_shortener::<String, String, G>(by_title),
        ensures
            m.wf(),
            m.titles() == Map::<u32, Seq<char>>::empty(),
            m.ids() == Map::<Seq<char>, u32>::empty(),
            m.agrees(),
            !m.by_id().loaded(),
            !m.by_title().loaded(),
    {
        let m = TitleMap {
            id_to_title: HierarchicalMap::new("id_to_title".to_owned(), by_id),
            title_to_id: HierarchicalMap::new("title_to_id".to_owned(), by_title),
        };
        assert(m.titles() =~= Map::<u32, Seq<char>>::empty());
        assert(m.ids() =~= Map::<Seq<char>, u32>::empty());
        m
    }

    /// The map from identifiers to titles, to read files into.
    pub fn id_to_title_mut(&mut self) -> (m: &mut HierarchicalMap<u8, u32, String, F>)
        ensures
            *m == old(self).by_id(),
            final(self).by_id() == *final(m),
            final(self).by_title() == old(self).by_title(),
    {
        &mut self.id_to_title
    }

    /// The map from titles to identifiers, to read files into.
    pub fn title_to_id_mut(&mut self) -> (m: &mut HierarchicalMap<String, String, u32, G>)
        ensures
            *m == old(self).by_title(),
            final(self).by_title() == *final(m),
            final(self).by_id() == old(self).by_id(),
    {
        &mut self.title_to_id
    }

    /// The map from identifiers to titles.
    pub fn id_to_title(&self) -> (m: &HierarchicalMap<u8, u32, String, F>)
        ensures
            *m == self.by_id(),
    {
        &self.id_to_title
    }

    /// The map from titles to identifiers.
    pub fn title_to_id(&self) -> (m: &HierarchicalMap<String, String, u32, G>)
        ensures
            *m == self.by_title(),
    {
        &self.title_to_id
    }

    /// The title stored for an identifier, in its canonical form.
    pub fn get_title(&self, id: u32) -> (r: Option<String>)
        requires
            self.wf(),
        ensures
            match r {
                Some(t) => self.title_of(id) == Some(t@),
                None => self.title_of(id) is None,
            },
    {
        match self.id_to_title.get(&id) {
            Some(title) => Some(title.clone()),
            None => None,
        }
    }

    /// The identifier stored for the canonical form of a title. A title
    /// without a canonical form has no identifier.
    pub fn get_id(&self, title: &str) -> (r: Option<u32>)
        requires
            self.wf(),
        ensures
            r == self.id_of(title@),
    {
        match try_canonicalise_wikilink(title) {
            Some(canon) => match self.title_to_id.get(&canon) {
                Some(id) => Some(*id),
                None => None,
            },
            None => None,
        }
    }

    /// Declares that the entries in memory are all there is.
    pub fn mark_loaded(&mut self)
        requires
            old(self).wf(),
        ensures
            final(self).wf(),
            final(self).by_id().loaded(),
            final(self).by_title().loaded(),
            final(self).titles() == old(self).titles(),
            final(self).ids() == old(self).ids(),
    {
        self.id_to_title.mark_loaded();
        self.title_to_id.mark_loaded();
    }

    /// Stores an identifier with the canonical form of a title, in both
    /// directions. Nothing is stored, and the result is `false`, where the
    /// title has no canonical form. The directions go on agreeing where the
    /// identifier and the canonical title are both new.
    pub fn insert(&mut self, id: u32, title: &str) -> (stored: bool)
        requires
            old(self).wf(),
        ensures
            final(self).wf(),
            stored == can_canonicalise(title@),
            stored ==> final(self).titles() == old(self).titles().insert(id, canonical(title@))
                && final(self).ids() == old(self).ids().insert(canonical(title@), id),
            !stored ==> final(self).titles() == old(self).titles() && final(self).ids() == old(
                self,
            ).ids(),
            old(self).agrees() && !old(self).titles().contains_key(id) && !old(
                self,
            ).ids().contains_key(canonical(title@)) ==> final(self).agrees(),
            final(self).by_id().loaded() == old(self).by_id().loaded(),
            final(self).by_title().loaded() == old(self).by_title().loaded(),
    {
        match try_canonicalise_wikilink(title) {
            Some(canon) => {
                let copy = canon.clone();
                let _ = self.id_to_title.insert(id, copy);
                let _ = self.title_to_id.insert(canon, id);
                proof {
                    assert(self.titles() =~= old(self).titles().insert(id, canonical(title@)));
                    assert(self.ids() =~= old(self).ids().insert(canonical(title@), id));
                    if old(self).agrees() && !old(self).titles().contains_key(id) && !old(
                        self,
                    ).ids().contains_key(canonical(title@)) {
                        Self::lemma_insert_agrees(*old(self), *self, id, canonical(title@));
                    }
                }
                true
            },
            None => false,
        }
    }

    /// The texts of the files of both maps, which must be fully loaded.
    pub fn serialise(&self) -> (r: Result<(MapFiles<u8>, MapFiles<String>), MapError>)
        requires
            self.wf(),
            self.by_id().loaded(),
            self.by_title().loaded(),
        ensures
            match r {
                Ok(files) => {
                    &&& self.by_id().encodable() && self.by_id().is_image(files.0)
                    &&& self.by_title().encodable() && self.by_title().is_image(files.1)
                },
                Err(_) => !self.by_id().encodable() || !self.by_title().encodable(),
            },
    {
        let first = match self.id_to_title.serialize() {
            Ok(files) => files,
            Err(e) => {
                return Err(e);
            },
        };
        match self.title_to_id.serialize() {
            Ok(second) => Ok((first, second)),
            Err(e) => Err(e),
        }
    }

    /// Reads the files of both maps, where there are any; see
    /// `HierarchicalMap::deserialize`. The files of the map from titles are
    /// read only where those of the map from identifiers were there.
    pub fn deserialise(
        &mut self,
        by_id: Option<&MapFiles<u8>>,
        by_title: Option<&MapFiles<String>>,
        full: bool,
    ) -> (r: Result<bool, MapError>)
        requires
            old(self).wf(),
        ensures
            final(self).wf(),
            match r {
                Ok(found) => {
                    &&& found == (by_id is Some && by_title is Some)
                    &&& match by_id {
                        Some(files) => old(self).by_id().restorable(*files, full) && old(
                            self,
                        ).by_id().restored(*files, full, final(self).by_id()),
                        None => *final(self) == *old(self),
                    }
                    &&& by_id is Some ==> match by_title {
                        Some(files) => old(self).by_title().restorable(*files, full) && old(
                            self,
                        ).by_title().restored(*files, full, final(self).by_title()),
                        None => final(self).by_title() == old(self).by_title(),
                    }
                },
                Err(_) => match by_id {
                    Some(files) => !old(self).by_id().restorable(*files, full) || (
                    by_title matches Some(other) && !old(self).by_title().restorable(*other, full)),
                    None => false,
                },
            },
    {
        match self.id_to_title.deserialize(by_id, full) {
            Ok(true) => self.title_to_id.deserialize(by_title, full),
            Ok(false) => Ok(false),
            Err(e) => Err(e),
        }
    }
}

/// An empty map of titles that is not yet fully loaded. Its files are named
/// `id_to_title` and `title_to_id`.
pub fn new_title_map() -> (m: TitleMap<impl Fn(&u32) -> u8, impl Fn(&String) -> String>)
    ensures
        m.wf(),
        m.titles() == Map::<u32, Seq<char>>::empty(),
        m.ids() == Map::<Seq<char>, u32>::empty(),
        m.agrees(),
        !m.by_id().loaded(),
        !m.by_title().loaded(),
{
    let by_title = |title: &String| -> (k: String)
        ensures
            k@ == short_title(title@),
        { title_short_key(title.as_str()) };
    assert(is_shortener::<u8, u32, _>(id_short_key));
    assert(is_shortener::<String, String, _>(by_title));
    TitleMap::new(id_short_key, by_title)
}

/// The title under which a page with the given title is stored: the
/// canonical form of the canonical form of its title, where both exist.
pub open spec fn stored_title(title: Seq<char>) -> Option<Seq<char>> {
    if can_canonicalise(title) && can_canonicalise(canonical(title)) {
        Some(canonical(canonical(title)))
    } else {
        None
    }
}

/// The titles that the first `n` pages are stored under, by identifier. A
/// later page replaces an earlier one with the same identifier.
pub open spec fn titles_upto(pages: Seq<(u32, String)>, n: int) -> Map<u32, Seq<char>>
    decreases n,
{
    if n <= 0 {
        Map::empty()
    } else {
        match stored_title(pages[n - 1].1@) {
            Some(title) => titles_upto(pages, n - 1).insert(pages[n - 1].0, title),
            None => titles_upto(pages, n - 1),
        }
    }
}

/// The identifiers that the first `n` pages are stored under, by title. A
/// later page replaces an earlier one with the same title.
pub open spec fn ids_upto(pages: Seq<(u32, String)>, n: int) -> Map<Seq<char>, u32>
    decreases n,
{
    if n <= 0 {
        Map::empty()
    } else {
        match stored_title(pages[n - 1].1@) {
            Some(title) => ids_upto(pages, n - 1).insert(title, pages[n - 1].0),
            None => ids_upto(pages, n - 1),
        }
    }
}

/// The number of pages among the first `n` that are not stored.
pub open spec fn skipped_upto(pages: Seq<(u32, String)>, n: int) -> nat
    decreases n,
{
    if n <= 0 {
        0
    } else {
        skipped_upto(pages, n - 1) + if stored_title(pages[n - 1].1@) is None {
            1nat
        } else {
            0nat
        }
    }
}

/// The map of the titles of the given pages, fully loaded: each page is
/// stored under the canonical form of the canonical form of its title.
/// Pages whose title has none are left out, and their number is the second
/// result.
pub fn generate_title_map(pages: &Vec<(u32, String)>) -> (r: (
    TitleMap<impl Fn(&u32) -> u8, impl Fn(&String) -> String>,
    usize,
))
    ensures
        r.0.wf(),
        r.0.by_id().loaded(),
        r.0.by_title().loaded(),
        r.0.titles() == titles_upto(pages@, pages@.len() as int),
        r.0.ids() == ids_upto(pages@, pages@.len() as int),
        r.1 == skipped_upto(pages@, pages@.len() as int),
{
    let mut map = new_title_map();
    let mut skipped: usize = 0;
    let mut i: usize = 0;
    while i < pages.len()
        invariant
            0 <= i <= pages.len(),
            skipped <= i,
            map.wf(),
            map.titles() == titles_upto(pages@, i as int),
            map.ids() == ids_upto(pages@, i as int),
            skipped == skipped_upto(pages@, i as int),
        decreases pages.len() - i,
    {
        let stored = match try_canonicalise_wikilink(pages[i].1.as_str()) {
            Some(title) => map.insert(pages[i].0, title.as_str()),
            None => false,
        };
        if !stored {
            skipped += 1;
        }
        i += 1;
    }
    map.mark_loaded();
    (map, skipped)
}

} // verus!
