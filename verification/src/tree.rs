//! The labelled tree in which a document arrives, and the lookups made in it.

use vstd::prelude::*;

verus! {

/// A node of the generic tree: a tag name, attributes, an optional text and
/// the child nodes in document order.
#[derive(Debug)]
pub struct Element {
    /// The tag name.
    pub name: String,
    /// The attributes as pairs of a name and a value. Where a name occurs
    /// more than once, its first pair counts.
    pub attrs: Vec<(String, String)>,
    /// The text inside the node, if it has any.
    pub content: Option<String>,
    /// The child nodes, in document order.
    pub children: Vec<Element>,
}

/// A leaf of a document that stands for one recorded event. Only its generic
/// children matter here.
#[derive(Debug)]
pub struct Placemark {
    /// The child nodes, in document order.
    pub children: Vec<Element>,
}

/// A parsed document, or a part of one, by its syntactic kind.
#[derive(Debug)]
pub enum Document {
    /// The top-level wrapper with its elements in document order.
    Wrapper(Vec<Document>),
    /// A named container with its elements in document order.
    Container(Vec<Document>),
    /// A placemark.
    Placemark(Placemark),
    /// An element of any other kind.
    Other,
}

/// The value of the first attribute called `key`.
pub open spec fn attribute(attrs: Seq<(String, String)>, key: Seq<char>) -> Option<Seq<char>>
    decreases attrs.len(),
{
    if attrs.len() == 0 {
        None
    } else if attrs[0].0@ == key {
        Some(attrs[0].1@)
    } else {
        attribute(attrs.drop_first(), key)
    }
}

/// The first of `children` whose tag name is `name`.
pub open spec fn first_named(children: Seq<Element>, name: Seq<char>) -> Option<Element>
    decreases children.len(),
{
    if children.len() == 0 {
        None
    } else if children[0].name@ == name {
        Some(children[0])
    } else {
        first_named(children.drop_first(), name)
    }
}

/// The first of `children` whose attribute `key` has the value `value`.
pub open spec fn first_with_attribute(
    children: Seq<Element>,
    key: Seq<char>,
    value: Seq<char>,
) -> Option<Element>
    decreases children.len(),
{
    if children.len() == 0 {
        None
    } else if attribute(children[0].attrs@, key) == Some(value) {
        Some(children[0])
    } else {
        first_with_attribute(children.drop_first(), key, value)
    }
}

/// Whether the first attribute called `key` has the value `value`.
pub fn attribute_is(attrs: &Vec<(String, String)>, key: &String, value: &String) -> (r: bool)
    ensures
        r == (attribute(attrs@, key@) == Some(value@)),
{
    let mut i: usize = 0;
    assert(attrs@.skip(0) == attrs@);
    while i < attrs.len()
        invariant
            i <= attrs.len(),
            attribute(attrs@, key@) == attribute(attrs@.skip(i as int), key@),
        decreases attrs.len() - i,
    {
        assert(attrs@.skip(i as int).drop_first() == attrs@.skip(i as int + 1));
        if attrs[i].0 == *key {
            return attrs[i].1 == *value;
        }
        i += 1;
    }
    false
}

/// Finds the first of `children` whose tag name is `name`.
pub fn child_named<'a>(children: &'a Vec<Element>, name: &str) -> (r: Option<&'a Element>)
    ensures
        match r {
            Some(e) => first_named(children@, name@) == Some(*e),
            None => first_named(children@, name@) is None,
        },
{
    let wanted = String::from_str(name);
    let mut i: usize = 0;
    assert(children@.skip(0) == children@);
    while i < children.len()
        invariant
            i <= children.len(),
            wanted@ == name@,
            first_named(children@, name@) == first_named(children@.skip(i as int), name@),
        decreases children.len() - i,
    {
        assert(children@.skip(i as int).drop_first() == children@.skip(i as int + 1));
        if children[i].name == wanted {
            return Some(&children[i]);
        }
        i += 1;
    }
    None
}

/// Finds the first of `children` whose attribute `key` has the value `value`.
pub fn child_with_attribute<'a>(children: &'a Vec<Element>, key: &str, value: &str) -> (r: Option<
    &'a Element,
>)
    ensures
        match r {
            Some(e) => first_with_attribute(children@, key@, value@) == Some(*e),
            None => first_with_attribute(children@, key@, value@) is None,
        },
{
    let key_text = String::from_str(key);
    let value_text = String::from_str(value);
    let mut i: usize = 0;
    assert(children@.skip(0) == children@);
    while i < children.len()
        invariant
            i <= children.len(),
            key_text@ == key@,
            value_text@ == value@,
            first_with_attribute(children@, key@, value@) == first_with_attribute(
                children@.skip(i as int),
                key@,
                value@,
            ),
        decreases children.len() - i,
    {
        assert(children@.skip(i as int).drop_first() == children@.skip(i as int + 1));
        if attribute_is(&children[i].attrs, &key_text, &value_text) {
            return Some(&children[i]);
        }
        i += 1;
    }
    None
}

} // verus!
