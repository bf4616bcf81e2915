//! Character-level helpers shared by the text-processing modules.

use vstd::prelude::*;
use vstd::utf8::{decode_utf8, valid_utf8};

verus! {

/// The text that bytes encode, where they are valid UTF-8.
///
/// Trusted: stands for `core::str::from_utf8`, which std documents as
/// succeeding exactly on valid UTF-8 and then giving the same bytes as a
/// string slice.
#[verifier::external_body]
pub(crate) fn utf8_text(bytes: &[u8]) -> (r: Option<&str>)
    ensures
        match r {
            Some(s) => valid_utf8(bytes@) && s@ == decode_utf8(bytes@),
            None => !valid_utf8(bytes@),
        },
{
    core::str::from_utf8(bytes).ok()
}

/// Appends one character to a string.
///
/// Trusted: stands for `String::push`, which std documents as appending the
/// given `char` to the end of the string.
#[verifier::external_body]
pub(crate) fn push_char(s: &mut String, c: char)
    ensures
        final(s)@ == old(s)@.push(c),
{
    s.push(c);
}

/// The characters of `s`, in order.
pub fn chars_of(s: &str) -> (out: Vec<char>)
    ensures
        out@ == s@,
{
    let mut out: Vec<char> = Vec::new();
    for c in it: s.chars()
        invariant
            out@ == it.seq().take(it.index() as int),
            it.seq() == s@,
    {
        out.push(c);
    }
    out
}

/// The string made of the characters `chars[from..to]`.
pub fn string_of(chars: &Vec<char>, from: usize, to: usize) -> (s: String)
    requires
        from <= to <= chars.len(),
    ensures
        s@ == chars@.subrange(from as int, to as int),
{
    let mut s = String::new();
    let mut i: usize = from;
    while i < to
        invariant
            from <= i <= to <= chars.len(),
            s@ == chars@.subrange(from as int, i as int),
        decreases to - i,
    {
        push_char(&mut s, chars[i]);
        i += 1;
    }
    s
}

/// The character is one of the letters `a` to `z` or `A` to `Z`.
pub open spec fn is_ascii_alphabetic(c: char) -> bool {
    ('a' <= c && c <= 'z') || ('A' <= c && c <= 'Z')
}

/// Whether the character is one of the letters `a` to `z` or `A` to `Z`.
pub fn ascii_alphabetic(c: char) -> (b: bool)
    ensures
        b == is_ascii_alphabetic(c),
{
    (c >= 'a' && c <= 'z') || (c >= 'A' && c <= 'Z')
}

/// `i` is the first index at which `s` holds `c`.
pub open spec fn is_first_at(s: Seq<char>, c: char, i: int) -> bool {
    &&& 0 <= i < s.len()
    &&& s[i] == c
    &&& forall|j: int| 0 <= j < i ==> s[j] != c
}

/// The first index at which `s` holds `c`, if it holds it at all.
pub open spec fn first_index(s: Seq<char>, c: char) -> Option<int> {
    if exists|i: int| is_first_at(s, c, i) {
        Some(choose|i: int| is_first_at(s, c, i))
    } else {
        None
    }
}

/// There is one first index only.
pub proof fn lemma_first_index(s: Seq<char>, c: char, i: int)
    requires
        is_first_at(s, c, i),
    ensures
        first_index(s, c) == Some(i),
{
    let j = choose|j: int| is_first_at(s, c, j);
    if j < i {
        assert(s[j] != c);
    } else if i < j {
        assert(s[i] != c);
    }
}

/// The parts of `s` before and behind the first `c`, if `s` holds `c`.
pub open spec fn split_once(s: Seq<char>, c: char) -> Option<(Seq<char>, Seq<char>)> {
    match first_index(s, c) {
        Some(i) => Some((s.take(i), s.skip(i + 1))),
        None => None,
    }
}

/// The first index from `from` on at which `chars` holds `c`.
pub fn find_char(chars: &Vec<char>, from: usize, c: char) -> (r: Option<usize>)
    requires
        from <= chars.len(),
    ensures
        match r {
            Some(i) => from <= i && first_index(chars@.skip(from as int), c) == Some(i - from),
            None => first_index(chars@.skip(from as int), c) is None,
        },
{
    let ghost rest = chars@.skip(from as int);
    let mut i: usize = from;
    while i < chars.len()
        invariant
            from <= i <= chars.len(),
            rest == chars@.skip(from as int),
            forall|j: int| 0 <= j < i - from ==> rest[j] != c,
        decreases chars.len() - i,
    {
        if chars[i] == c {
            proof {
                assert(is_first_at(rest, c, i - from));
                lemma_first_index(rest, c, i - from);
            }
            return Some(i);
        }
        i += 1;
    }
    proof {
        if exists|k: int| is_first_at(rest, c, k) {
            let k = choose|k: int| is_first_at(rest, c, k);
            assert(rest[k] != c);
        }
    }
    None
}

/// The first index in `chars[from..to]` at which `chars` holds `c`.
pub fn find_char_in(chars: &Vec<char>, from: usize, to: usize, c: char) -> (r: Option<usize>)
    requires
        from <= to <= chars.len(),
    ensures
        match r {
            Some(i) => from <= i < to && first_index(
                chars@.subrange(from as int, to as int),
                c,
            ) == Some(i - from),
            None => first_index(chars@.subrange(from as int, to as int), c) is None,
        },
{
    let ghost part = chars@.subrange(from as int, to as int);
    let mut i: usize = from;
    while i < to
        invariant
            from <= i <= to <= chars.len(),
            part == chars@.subrange(from as int, to as int),
            forall|j: int| 0 <= j < i - from ==> part[j] != c,
        decreases to - i,
    {
        if chars[i] == c {
            proof {
                assert(is_first_at(part, c, i - from));
                lemma_first_index(part, c, i - from);
            }
            return Some(i);
        }
        i += 1;
    }
    proof {
        if exists|k: int| is_first_at(part, c, k) {
            let k = choose|k: int| is_first_at(part, c, k);
            assert(part[k] != c);
        }
    }
    None
}

/// Whether `chars[from..to]` is the text `text`.
pub fn same_chars(chars: &Vec<char>, from: usize, to: usize, text: &str) -> (b: bool)
    requires
        from <= to <= chars.len(),
    ensures
        b == (chars@.subrange(from as int, to as int) == text@),
{
    let other = chars_of(text);
    if other.len() != to - from {
        return false;
    }
    let mut i: usize = 0;
    while i < other.len()
        invariant
            0 <= i <= other.len(),
            other.len() == to - from,
            from <= to <= chars.len(),
            other@ == text@,
            forall|j: int| 0 <= j < i ==> chars@[from + j] == other@[j],
        decreases other.len() - i,
    {
        if chars[from + i] != other[i] {
            assert(chars@.subrange(from as int, to as int)[i as int] != text@[i as int]);
            return false;
        }
        i += 1;
    }
    assert(chars@.subrange(from as int, to as int) =~= text@);
    true
}

/// The letter as an upper-case ASCII letter, where it is a lower-case one.
pub open spec fn ascii_upper(c: char) -> char {
    if 'a' <= c && c <= 'z' {
        ((c as u8 - 32) as u8) as char
    } else {
        c
    }
}

/// The letter as an upper-case ASCII letter, where it is a lower-case one.
pub fn to_ascii_upper(c: char) -> (u: char)
    ensures
        u == ascii_upper(c),
{
    if c >= 'a' && c <= 'z' {
        ((c as u8) - 32) as char
    } else {
        c
    }
}

/// Whether two texts are the same.
pub fn same_text(a: &str, b: &str) -> (same: bool)
    ensures
        same == (a@ == b@),
{
    let chars = chars_of(a);
    let same = same_chars(&chars, 0, chars.len(), b);
    assert(chars@.subrange(0, chars@.len() as int) =~= chars@);
    same
}

/// Appends a text to a string.
pub fn push_text(s: &mut String, t: &str)
    ensures
        final(s)@ == old(s)@ + t@,
{
    let chars = chars_of(t);
    let ghost start = s@;
    let mut i: usize = 0;
    while i < chars.len()
        invariant
            0 <= i <= chars.len(),
            s@ == start + chars@.take(i as int),
        decreases chars.len() - i,
    {
        push_char(s, chars[i]);
        assert(chars@.take(i + 1) =~= chars@.take(i as int).push(chars@[i as int]));
        assert(s@ =~= start + chars@.take(i + 1));
        i += 1;
    }
    assert(chars@.take(i as int) =~= chars@);
}

/// The decimal digit of a number below ten.
pub open spec fn digit(d: int) -> char {
    if d == 0 {
        '0'
    } else if d == 1 {
        '1'
    } else if d == 2 {
        '2'
    } else if d == 3 {
        '3'
    } else if d == 4 {
        '4'
    } else if d == 5 {
        '5'
    } else if d == 6 {
        '6'
    } else if d == 7 {
        '7'
    } else if d == 8 {
        '8'
    } else {
        '9'
    }
}

/// The number in decimal digits.
pub open spec fn decimal(n: nat) -> Seq<char>
    decreases n,
{
    if n < 10 {
        seq![digit(n as int)]
    } else {
        decimal(n / 10).push(digit((n % 10) as int))
    }
}

/// The decimal digit of a number below ten.
fn digit_of(d: u64) -> (c: char)
    requires
        d < 10,
    ensures
        c == digit(d as int),
{
    if d == 0 {
        '0'
    } else if d == 1 {
        '1'
    } else if d == 2 {
        '2'
    } else if d == 3 {
        '3'
    } else if d == 4 {
        '4'
    } else if d == 5 {
        '5'
    } else if d == 6 {
        '6'
    } else if d == 7 {
        '7'
    } else if d == 8 {
        '8'
    } else {
        '9'
    }
}

/// The number in decimal digits.
pub fn decimal_text(n: u64) -> (s: String)
    ensures
        s@ == decimal(n as nat),
    decreases n,
{
    if n < 10 {
        let mut s = String::new();
        push_char(&mut s, digit_of(n));
        assert(s@ =~= seq![digit(n as int)]);
        s
    } else {
        let mut s = decimal_text(n / 10);
        push_char(&mut s, digit_of(n % 10));
        s
    }
}

/// The pattern stands in the text at index `i`.
pub open spec fn occurs_at(t: Seq<char>, pat: Seq<char>, i: int) -> bool {
    0 <= i && i + pat.len() <= t.len() && t.subrange(i, i + pat.len()) == pat
}

/// `i` is the first index from `from` on at which the pattern stands.
pub open spec fn is_first_occurrence(t: Seq<char>, pat: Seq<char>, from: int, i: int) -> bool {
    &&& from <= i
    &&& occurs_at(t, pat, i)
    &&& forall|j: int| from <= j < i ==> !occurs_at(t, pat, j)
}

/// The first index from `from` on at which the pattern stands, if any.
pub open spec fn first_occurrence(t: Seq<char>, pat: Seq<char>, from: int) -> Option<int> {
    if exists|i: int| is_first_occurrence(t, pat, from, i) {
        Some(choose|i: int| is_first_occurrence(t, pat, from, i))
    } else {
        None
    }
}

/// There is one first occurrence only.
pub proof fn lemma_first_occurrence(t: Seq<char>, pat: Seq<char>, from: int, i: int)
    requires
        is_first_occurrence(t, pat, from, i),
    ensures
        first_occurrence(t, pat, from) == Some(i),
{
    let j = choose|j: int| is_first_occurrence(t, pat, from, j);
    if j < i {
        assert(!occurs_at(t, pat, j));
    } else if i < j {
        assert(!occurs_at(t, pat, i));
    }
}

/// Whether the pattern stands in the text at index `i`.
pub fn stands_at(chars: &Vec<char>, pat: &Vec<char>, i: usize) -> (b: bool)
    requires
        i <= chars.len(),
    ensures
        b == occurs_at(chars@, pat@, i as int),
{
    if pat.len() > chars.len() - i {
        return false;
    }
    let mut k: usize = 0;
    while k < pat.len()
        invariant
            0 <= k <= pat.len(),
            i + pat.len() <= chars.len(),
            forall|m: int| 0 <= m < k ==> chars@[i + m] == pat@[m],
        decreases pat.len() - k,
    {
        if chars[i + k] != pat[k] {
            assert(chars@.subrange(i as int, i + pat.len())[k as int] != pat@[k as int]);
            return false;
        }
        k += 1;
    }
    assert(chars@.subrange(i as int, i + pat.len()) =~= pat@);
    true
}

/// The first index from `from` on at which the pattern stands.
pub fn find_text(chars: &Vec<char>, pat: &Vec<char>, from: usize) -> (r: Option<usize>)
    requires
        from <= chars.len(),
    ensures
        match r {
            Some(i) => from <= i && i + pat.len() <= chars.len() && first_occurrence(
                chars@,
                pat@,
                from as int,
            ) == Some(i as int),
            None => first_occurrence(chars@, pat@, from as int) is None,
        },
{
    let mut i: usize = from;
    while i < chars.len()
        invariant
            from <= i <= chars.len(),
            forall|j: int| from <= j < i ==> !occurs_at(chars@, pat@, j),
        decreases chars.len() - i,
    {
        if stands_at(chars, pat, i) {
            proof {
                assert(is_first_occurrence(chars@, pat@, from as int, i as int));
                lemma_first_occurrence(chars@, pat@, from as int, i as int);
            }
            return Some(i);
        }
        i += 1;
    }
    if stands_at(chars, pat, i) {
        proof {
            assert(is_first_occurrence(chars@, pat@, from as int, i as int));
            lemma_first_occurrence(chars@, pat@, from as int, i as int);
        }
        return Some(i);
    }
    proof {
        if exists|k: int| is_first_occurrence(chars@, pat@, from as int, k) {
            let k = choose|k: int| is_first_occurrence(chars@, pat@, from as int, k);
            assert(occurs_at(chars@, pat@, k));
        }
    }
    None
}

/// Whether the text holds the pattern.
pub fn contains_text(text: &str, pat: &str) -> (b: bool)
    ensures
        b == (first_occurrence(text@, pat@, 0) is Some),
{
    let chars = chars_of(text);
    let p = chars_of(pat);
    find_text(&chars, &p, 0).is_some()
}

/// The text with every occurrence of the pattern replaced, from left to
/// right and without overlap.
pub open spec fn replaced(t: Seq<char>, pat: Seq<char>, to: Seq<char>) -> Seq<char>
    decreases t.len(),
{
    if pat.len() == 0 || t.len() < pat.len() {
        t
    } else if t.take(pat.len() as int) == pat {
        to + replaced(t.skip(pat.len() as int), pat, to)
    } else {
        seq![t[0]] + replaced(t.skip(1), pat, to)
    }
}

/// The text with every occurrence of the pattern replaced.
pub fn replace_all(text: &str, pat: &str, to: &str) -> (out: String)
    ensures
        out@ == replaced(text@, pat@, to@),
{
    let chars = chars_of(text);
    let p = chars_of(pat);
    let mut out = String::new();
    if p.len() == 0 {
        push_text(&mut out, text);
        assert(Seq::<char>::empty() + text@ =~= text@);
        return out;
    }
    let ghost t = chars@;
    let mut i: usize = 0;
    assert(t.skip(0) =~= t);
    assert(Seq::<char>::empty() + replaced(t, p@, to@) =~= replaced(t, p@, to@));
    while i < chars.len()
        invariant
            0 <= i <= chars.len(),
            t == chars@,
            p@.len() > 0,
            p@ == pat@,
            out@ + replaced(t.skip(i as int), pat@, to@) == replaced(t, pat@, to@),
        decreases chars.len() - i,
    {
        let ghost rest = t.skip(i as int);
        let ghost before = out@;
        if stands_at(&chars, &p, i) {
            assert(rest.take(p@.len() as int) =~= t.subrange(i as int, i + p@.len()));
            assert(rest.skip(p@.len() as int) =~= t.skip(i + p@.len()));
            push_text(&mut out, to);
            assert(out@ + replaced(t.skip(i + p@.len()), pat@, to@) =~= before + replaced(
                rest,
                pat@,
                to@,
            ));
            i += p.len();
        } else {
            proof {
                if rest.len() >= p@.len() {
                    assert(rest.take(p@.len() as int) =~= t.subrange(i as int, i + p@.len()));
                }
            }
            if chars.len() - i < p.len() {
                // Too little is left for the pattern: the rest stays.
                let tail = string_of(&chars, i, chars.len());
                assert(t.subrange(i as int, t.len() as int) =~= rest);
                push_text(&mut out, tail.as_str());
                assert(t.skip(t.len() as int) =~= Seq::<char>::empty());
                assert(out@ + Seq::<char>::empty() =~= out@);
                i = chars.len();
            } else {
                assert(rest.skip(1) =~= t.skip(i + 1));
                push_char(&mut out, chars[i]);
                assert(out@ + replaced(t.skip(i + 1), pat@, to@) =~= before + replaced(
                    rest,
                    pat@,
                    to@,
                ));
                i += 1;
            }
        }
    }
    assert(t.skip(i as int) =~= Seq::<char>::empty());
    assert(out@ + Seq::<char>::empty() =~= out@);
    out
}

} // verus!
