//! The names of the files that a directory index, rendered as HTML, lists.

use vstd::prelude::*;
use crate::parse::xml;
use crate::parse::xml::{element_at, Dialect, ElementView, Missing, ParseError};
use crate::text::{chars_of, same_text};

verus! {

/// An element of a directory index.
#[derive(Debug)]
pub struct Element {
    name: String,
    attributes: Vec<(String, String)>,
    children: Vec<Element>,
    text: String,
}

/// The element as a value of specifications.
pub closed spec fn element_view(e: Element) -> ElementView
    decreases e,
{
    ElementView {
        name: e.name@,
        attributes: xml::attribute_views(e.attributes@),
        children: Seq::new(
            e.children@.len(),
            |i: int|
                if 0 <= i < e.children.len() {
                    element_view(e.children[i])
                } else {
                    arbitrary()
                },
        ),
        text: e.text@,
    }
}

impl View for Element {
    type V = ElementView;

    open spec fn view(&self) -> ElementView {
        element_view(*self)
    }
}

/// The views of a vector of elements.
pub open spec fn element_views(e: Seq<Element>) -> Seq<ElementView> {
    e.map_values(|x: Element| x@)
}

proof fn lemma_children_view(e: Element)
    ensures
        e@.children == element_views(e.children@),
{
    let a = e@.children;
    let b = element_views(e.children@);
    assert(a.len() == b.len());
    assert forall|i: int| 0 <= i < a.len() implies a[i] == b[i] by {
        assert(e.children[i] == e.children@[i]);
    }
    assert(a =~= b);
}

/// The same element as an element of a directory index.
fn adopt(e: xml::Element) -> (out: Element)
    ensures
        out@ == e@,
    decreases e,
{
    let ghost whole = e;
    let xml::Element { name, attributes, children, text } = e;
    let ghost kids = children@;
    let mut adopted: Vec<Element> = Vec::new();
    let mut rest = children;
    let mut taken: Vec<xml::Element> = Vec::new();
    // The children are taken from the back and put in order afterwards.
    while rest.len() > 0
        invariant
            whole == e,
            kids == whole.children@,
            rest@.len() + adopted@.len() == kids.len(),
            rest@ == kids.take(rest@.len() as int),
            forall|i: int|
                0 <= i < adopted@.len() ==> (#[trigger] adopted@[i])@ == kids[kids.len() - 1 - i]@,
        decreases rest@.len(),
    {
        let ghost n = rest@.len();
        let child = rest.pop().unwrap();
        proof {
            assert(child == kids[n - 1]);
            vstd::std_specs::vec::axiom_vec_index_decreases(whole.children, n - 1);
        }
        adopted.push(adopt(child));
        assert(rest@ =~= kids.take(rest@.len() as int));
    }
    let mut ordered: Vec<Element> = Vec::new();
    while adopted.len() > 0
        invariant
            ordered@.len() + adopted@.len() == kids.len(),
            forall|i: int|
                0 <= i < adopted@.len() ==> (#[trigger] adopted@[i])@ == kids[kids.len() - 1 - i]@,
            forall|i: int| 0 <= i < ordered@.len() ==> (#[trigger] ordered@[i])@ == kids[i]@,
        decreases adopted@.len(),
    {
        let child = adopted.pop().unwrap();
        ordered.push(child);
    }
    let out = Element { name, attributes, children: ordered, text };
    proof {
        lemma_children_view(out);
        xml::lemma_children_view(whole);
        assert(element_views(out.children@) =~= xml::element_views(whole.children@));
    }
    out
}

/// `i` is the index of the first child of the element with the name.
pub open spec fn is_first_child(e: ElementView, name: Seq<char>, i: int) -> bool {
    xml::is_first_child(e, name, i)
}

impl Element {
    /// The children of the element.
    pub closed spec fn child_seq(&self) -> Seq<Element> {
        self.children@
    }

    /// The first child with the given name.
    pub fn find(&self, name: &str) -> (r: Result<&Element, Missing>)
        ensures
            match r {
                Ok(child) => exists|i: int| #[trigger]
                    is_first_child(self@, name@, i) && *child == self.child_seq()[i],
                Err(e) => e.name@ == name@ && forall|i: int|
                    0 <= i < self@.children.len() ==> (#[trigger] self@.children[i]).name != name@,
            },
    {
        proof {
            lemma_children_view(*self);
        }
        let mut i: usize = 0;
        while i < self.children.len()
            invariant
                0 <= i <= self.children.len(),
                self@.children == element_views(self.children@),
                forall|j: int| 0 <= j < i ==> (#[trigger] self@.children[j]).name != name@,
            decreases self.children.len() - i,
        {
            if same_text(self.children[i].name.as_str(), name) {
                assert(is_first_child(self@, name@, i as int));
                return Ok(&self.children[i]);
            }
            i += 1;
        }
        Err(Missing { name: name.to_owned() })
    }

    /// The value of the first attribute with the given name.
    pub fn get_attribute(&self, name: &str) -> (r: Result<&str, Missing>)
        ensures
            match r {
                Ok(value) => exists|i: int| #[trigger]
                    xml::is_first_attribute(self@, name@, i) && value@ == self@.attributes[i].1,
                Err(e) => e.name@ == name@ && forall|i: int|
                    0 <= i < self@.attributes.len() ==> (#[trigger] self@.attributes[i]).0 != name@,
            },
    {
        let mut i: usize = 0;
        while i < self.attributes.len()
            invariant
                0 <= i <= self.attributes.len(),
                forall|j: int| 0 <= j < i ==> (#[trigger] self@.attributes[j]).0 != name@,
            decreases self.attributes.len() - i,
        {
            if same_text(self.attributes[i].0.as_str(), name) {
                assert(xml::is_first_attribute(self@, name@, i as int));
                return Ok(self.attributes[i].1.as_str());
            }
            i += 1;
        }
        Err(Missing { name: name.to_owned() })
    }
}

/// Why a directory index could not be read.
#[derive(Debug)]
pub enum IndexError {
    /// The text is no element.
    Parse(ParseError),
    /// An element or an attribute that every index has is not there.
    Missing(Missing),
}

/// The first child of the element with the name, if it has one.
pub open spec fn first_child(e: ElementView, name: Seq<char>) -> Option<ElementView> {
    if exists|i: int| xml::is_first_child(e, name, i) {
        Some(e.children[choose|i: int| xml::is_first_child(e, name, i)])
    } else {
        None
    }
}

/// The value of the first attribute of the element with the name.
pub open spec fn first_attribute(e: ElementView, name: Seq<char>) -> Option<Seq<char>> {
    if exists|i: int| xml::is_first_attribute(e, name, i) {
        Some(e.attributes[choose|i: int| xml::is_first_attribute(e, name, i)].1)
    } else {
        None
    }
}

/// The name leads to the directory itself or to the one above it.
pub open spec fn is_own_path(href: Seq<char>) -> bool {
    href == "../"@ || href == "./"@
}

/// `names` are the targets of the given links, in their order, without the
/// directory itself and the one above it.
pub open spec fn are_targets(links: Seq<ElementView>, names: Seq<Seq<char>>) -> bool
    decreases links.len(),
{
    if links.len() == 0 {
        names.len() == 0
    } else {
        match first_attribute(links.last(), "href"@) {
            None => false,
            Some(href) => if is_own_path(href) {
                are_targets(links.drop_last(), names)
            } else {
                names.len() > 0 && names.last() == href && are_targets(
                    links.drop_last(),
                    names.drop_last(),
                )
            },
        }
    }
}

/// The links of a directory index: the children of the `pre` element in
/// the `body` element of the element that the text starts with.
pub open spec fn links_of(html: Seq<char>) -> Option<Seq<ElementView>> {
    match element_at(html, 0, Dialect { self_closing: false, loose_names: false }) {
        None => None,
        Some((root, _)) => match first_child(root, "body"@) {
            None => None,
            Some(body) => match first_child(body, "pre"@) {
                None => None,
                Some(pre) => Some(pre.children),
            },
        },
    }
}

/// The names of the files and directories that a directory index lists:
/// the `href` of every link of the index, without `../` and `./`.
pub fn file_names(html_index: &str) -> (r: Result<Vec<String>, IndexError>)
    ensures
        match r {
            Ok(names) => links_of(html_index@) is Some && are_targets(
                links_of(html_index@).unwrap(),
                crate::json::texts(names@),
            ),
            Err(IndexError::Parse(_)) => element_at(
                html_index@,
                0,
                Dialect { self_closing: false, loose_names: false },
            ) is None,
            Err(IndexError::Missing(_)) => element_at(
                html_index@,
                0,
                Dialect { self_closing: false, loose_names: false },
            ) is Some,
        },
{
    let chars = chars_of(html_index);
    let root = match xml::parse_element_at(&chars, 0, Dialect::index()) {
        Ok((e, _)) => adopt(e),
        Err(e) => {
            return Err(IndexError::Parse(e));
        },
    };
    let body = match root.find("body") {
        Ok(body) => body,
        Err(e) => {
            return Err(IndexError::Missing(e));
        },
    };
    let pre = match body.find("pre") {
        Ok(pre) => pre,
        Err(e) => {
            return Err(IndexError::Missing(e));
        },
    };
    proof {
        let i = choose|i: int| #[trigger]
            is_first_child(root@, "body"@, i) && *body == root.child_seq()[i];
        lemma_first_child(root@, "body"@, i);
        lemma_children_view(root);
        let j = choose|j: int| #[trigger]
            is_first_child(body@, "pre"@, j) && *pre == body.child_seq()[j];
        lemma_first_child(body@, "pre"@, j);
        lemma_children_view(*body);
        lemma_children_view(*pre);
    }
    let mut names: Vec<String> = Vec::new();
    let ghost links = pre@.children;
    let mut k: usize = 0;
    assert(links.take(0) =~= Seq::empty());
    while k < pre.children.len()
        invariant
            0 <= k <= pre.children.len(),
            element_at(
                html_index@,
                0,
                Dialect { self_closing: false, loose_names: false },
            ) is Some,
            links == element_views(pre.children@),
            are_targets(links.take(k as int), crate::json::texts(names@)),
        decreases pre.children.len() - k,
    {
        let href = match pre.children[k].get_attribute("href") {
            Ok(href) => href,
            Err(e) => {
                return Err(IndexError::Missing(e));
            },
        };
        proof {
            let a = choose|a: int| #[trigger]
                xml::is_first_attribute(links[k as int], "href"@, a) && href@ == links[k
                    as int].attributes[a].1;
            lemma_first_attribute(links[k as int], "href"@, a);
            assert(links.take(k + 1).drop_last() =~= links.take(k as int));
            assert(links.take(k + 1).last() == links[k as int]);
        }
        if !(same_text(href, "../") || same_text(href, "./")) {
            let ghost before = crate::json::texts(names@);
            names.push(href.to_owned());
            assert(crate::json::texts(names@).drop_last() =~= before);
        }
        k += 1;
    }
    assert(links.take(k as int) =~= links);
    Ok(names)
}

/// There is one first child with a name only.
pub proof fn lemma_first_child(e: ElementView, name: Seq<char>, i: int)
    requires
        xml::is_first_child(e, name, i),
    ensures
        first_child(e, name) == Some(e.children[i]),
{
    let j = choose|j: int| xml::is_first_child(e, name, j);
    if j < i {
        assert(e.children[j].name != name);
    } else if i < j {
        assert(e.children[i].name != name);
    }
}

/// There is one first attribute with a name only.
pub proof fn lemma_first_attribute(e: ElementView, name: Seq<char>, i: int)
    requires
        xml::is_first_attribute(e, name, i),
    ensures
        first_attribute(e, name) == Some(e.attributes[i].1),
{
    let j = choose|j: int| xml::is_first_attribute(e, name, j);
    if j < i {
        assert(e.attributes[j].0 != name);
    } else if i < j {
        assert(e.attributes[i].0 != name);
    }
}

} // verus!
