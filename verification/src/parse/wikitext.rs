//! The links of a page, found by a plain scan for `[[` and `]]`.

use vstd::prelude::*;
use crate::text::{chars_of, find_char_in, push_char, split_once, string_of};
use crate::titles::{can_canonicalise, canonical, canonicalise_wikilink, try_canonicalise_wikilink};

verus! {

/// A link opens at `i`: two opening brackets stand there.
pub open spec fn opens_at(t: Seq<char>, i: int) -> bool {
    0 <= i && i + 1 < t.len() && t[i] == '[' && t[i + 1] == '['
}

/// A link closes at `i`: two closing brackets stand there.
pub open spec fn closes_at(t: Seq<char>, i: int) -> bool {
    0 <= i && i + 1 < t.len() && t[i] == ']' && t[i + 1] == ']'
}

/// `e` is the first index from `j` on at which a link closes.
pub open spec fn is_first_close(t: Seq<char>, j: int, e: int) -> bool {
    &&& j <= e
    &&& closes_at(t, e)
    &&& forall|k: int| j <= k < e ==> !closes_at(t, k)
}

/// The first index from `j` on at which a link closes, if there is one.
pub open spec fn first_close(t: Seq<char>, j: int) -> Option<int> {
    if exists|e: int| is_first_close(t, j, e) {
        Some(choose|e: int| is_first_close(t, j, e))
    } else {
        None
    }
}

/// There is one first close only.
pub proof fn lemma_first_close(t: Seq<char>, j: int, e: int)
    requires
        is_first_close(t, j, e),
    ensures
        first_close(t, j) == Some(e),
{
    let f = choose|f: int| is_first_close(t, j, f);
    if f < e {
        assert(!closes_at(t, f));
    } else if e < f {
        assert(!closes_at(t, e));
    }
}

/// The target and the text of a link with the given contents: what stands
/// before and behind the first bar, or the contents twice where they hold
/// no bar.
pub open spec fn link_of(contents: Seq<char>) -> (Seq<char>, Seq<char>) {
    match split_once(contents, '|') {
        Some(parts) => parts,
        None => (contents, contents),
    }
}

/// The links that open at `i` or behind it, each as its target and its
/// text. A link reaches from two opening brackets to the first two closing
/// brackets behind them; brackets that open within a link open a link of
/// their own.
pub open spec fn links_from(t: Seq<char>, i: int) -> Seq<(Seq<char>, Seq<char>)>
    decreases t.len() - i,
{
    if i < 0 || i + 1 >= t.len() {
        Seq::empty()
    } else if opens_at(t, i) {
        (match first_close(t, i + 2) {
            Some(e) => seq![link_of(t.subrange(i + 2, e))],
            None => Seq::empty(),
        }) + links_from(t, i + 2)
    } else {
        links_from(t, i + 1)
    }
}

/// A link of a page: where it leads, and the text that the page shows for it.
#[derive(Debug)]
pub struct Wikilink {
    pub target: String,
    pub text: String,
}

impl View for Wikilink {
    type V = (Seq<char>, Seq<char>);

    open spec fn view(&self) -> (Seq<char>, Seq<char>) {
        (self.target@, self.text@)
    }
}

/// The views of a vector of links.
pub open spec fn link_views(links: Seq<Wikilink>) -> Seq<(Seq<char>, Seq<char>)> {
    links.map_values(|l: Wikilink| l@)
}

/// The target without its anchor: what stands before the first `#`.
pub open spec fn root_of(target: Seq<char>) -> Seq<char> {
    match split_once(target, '#') {
        Some(parts) => parts.0,
        None => target,
    }
}

impl Wikilink {
    /// The link itself: it owns its target and its text.
    pub fn to_owned(self) -> (link: Wikilink)
        ensures
            link@ == self@,
    {
        self
    }

    /// The link as it stands in a page: `[[target|text]]`.
    pub fn to_text(&self) -> (s: String)
        ensures
            s@ == seq!['[', '['] + self.target@ + seq!['|'] + self.text@ + seq![']', ']'],
    {
        let target = chars_of(self.target.as_str());
        let text = chars_of(self.text.as_str());
        let mut s = String::new();
        push_char(&mut s, '[');
        push_char(&mut s, '[');
        let mut i: usize = 0;
        while i < target.len()
            invariant
                0 <= i <= target.len(),
                s@ == seq!['[', '['] + target@.take(i as int),
            decreases target.len() - i,
        {
            push_char(&mut s, target[i]);
            assert(target@.take(i + 1) =~= target@.take(i as int).push(target@[i as int]));
            assert(s@ =~= seq!['[', '['] + target@.take(i + 1));
            i += 1;
        }
        assert(target@.take(i as int) =~= target@);
        push_char(&mut s, '|');
        let ghost head = s@;
        let mut j: usize = 0;
        while j < text.len()
            invariant
                0 <= j <= text.len(),
                s@ == head + text@.take(j as int),
            decreases text.len() - j,
        {
            push_char(&mut s, text[j]);
            assert(text@.take(j + 1) =~= text@.take(j as int).push(text@[j as int]));
            assert(s@ =~= head + text@.take(j + 1));
            j += 1;
        }
        assert(text@.take(j as int) =~= text@);
        push_char(&mut s, ']');
        push_char(&mut s, ']');
        assert(s@ =~= seq!['[', '['] + self.target@ + seq!['|'] + self.text@ + seq![']', ']']);
        s
    }

    /// The target without its anchor.
    fn root(&self) -> (r: String)
        ensures
            r@ == root_of(self.target@),
    {
        let chars = chars_of(self.target.as_str());
        assert(chars@.subrange(0, chars@.len() as int) =~= chars@);
        match find_char_in(&chars, 0, chars.len(), '#') {
            Some(hash) => {
                assert(chars@.subrange(0, hash as int) =~= chars@.take(hash as int));
                string_of(&chars, 0, hash)
            },
            None => string_of(&chars, 0, chars.len()),
        }
    }

    /// The canonical form of the target without its anchor, for a target
    /// that has one. See `try_target_root` for the others.
    pub fn target_root(&self) -> (r: String)
        requires
            can_canonicalise(root_of(self.target@)),
        ensures
            r@ == canonical(root_of(self.target@)),
    {
        let root = self.root();
        canonicalise_wikilink(root.as_str())
    }

    /// The canonical form of the target without its anchor, or `None` where
    /// it has none.
    pub fn try_target_root(&self) -> (r: Option<String>)
        ensures
            match r {
                Some(t) => can_canonicalise(root_of(self.target@)) && t@ == canonical(
                    root_of(self.target@),
                ),
                None => !can_canonicalise(root_of(self.target@)),
            },
    {
        let root = self.root();
        match try_canonicalise_wikilink(root.as_str()) {
            Some(_) => Some(self.target_root()),
            None => None,
        }
    }
}

/// The first index from `j` on at which a link closes.
fn find_close(chars: &Vec<char>, j: usize) -> (r: Option<usize>)
    requires
        j <= chars.len(),
    ensures
        match r {
            Some(e) => j <= e && e + 1 < chars.len() && first_close(chars@, j as int) == Some(
                e as int,
            ),
            None => first_close(chars@, j as int) is None,
        },
{
    let mut k: usize = j;
    while k < chars.len() && k + 1 < chars.len()
        invariant
            j <= k <= chars.len(),
            forall|m: int| j <= m < k ==> !closes_at(chars@, m),
        decreases chars.len() - k,
    {
        if chars[k] == ']' && chars[k + 1] == ']' {
            proof {
                assert(is_first_close(chars@, j as int, k as int));
                lemma_first_close(chars@, j as int, k as int);
            }
            return Some(k);
        }
        k += 1;
    }
    proof {
        if exists|e: int| is_first_close(chars@, j as int, e) {
            let e = choose|e: int| is_first_close(chars@, j as int, e);
            assert(closes_at(chars@, e));
        }
    }
    None
}

/// Finds the links of a page.
///
/// Links within links are not fitted together: the text of a link that
/// holds another may come out shorter than it is, but its target is right.
pub fn find_links(text: &str) -> (out: Vec<Wikilink>)
    ensures
        link_views(out@) == links_from(text@, 0),
{
    let chars = chars_of(text);
    let ghost t = chars@;
    let mut out: Vec<Wikilink> = Vec::new();
    let mut i: usize = 0;
    assert(link_views(out@) =~= Seq::empty());
    while i < chars.len() && i + 1 < chars.len()
        invariant
            0 <= i <= chars.len(),
            t == chars@,
            link_views(out@) + links_from(t, i as int) == links_from(t, 0),
        decreases chars.len() - i,
    {
        if chars[i] == '[' && chars[i + 1] == '[' {
            let start = i + 2;
            let ghost before = link_views(out@);
            match find_close(&chars, start) {
                Some(end) => {
                    let link = match find_char_in(&chars, start, end, '|') {
                        Some(bar) => {
                            let target = string_of(&chars, start, bar);
                            let text = string_of(&chars, bar + 1, end);
                            proof {
                                let c = t.subrange(start as int, end as int);
                                assert(c.take(bar - start) =~= t.subrange(start as int, bar as int));
                                assert(c.skip(bar - start + 1) =~= t.subrange(
                                    bar + 1,
                                    end as int,
                                ));
                            }
                            Wikilink { target, text }
                        },
                        None => {
                            let target = string_of(&chars, start, end);
                            let text = string_of(&chars, start, end);
                            Wikilink { target, text }
                        },
                    };
                    assert(link@ == link_of(t.subrange(start as int, end as int)));
                    out.push(link);
                    assert(link_views(out@) =~= before + seq![
                        link_of(t.subrange(start as int, end as int)),
                    ]);
                    assert(link_views(out@) + links_from(t, i + 2) =~= before + links_from(
                        t,
                        i as int,
                    ));
                },
                None => {
                    assert(link_views(out@) + links_from(t, i + 2) =~= before + links_from(
                        t,
                        i as int,
                    ));
                },
            }
            i += 2;
        } else {
            i += 1;
        }
    }
    assert(links_from(t, i as int) =~= Seq::empty());
    assert(link_views(out@) + Seq::empty() =~= link_views(out@));
    out
}

} // verus!
