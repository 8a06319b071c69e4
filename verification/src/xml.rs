//! The XML tree the property resolver walks.  The caller builds it from an
//! already-parsed document: elements with their local tag name, attributes
//! and children in document order, text runs, comments and processing
//! instructions.

use vstd::prelude::*;

use crate::table::{lemma_lookup_found, lemma_lookup_skip, spec_lookup};
use crate::text::str_eq;

verus! {

/// One node of the tree.
pub enum XmlNode {
    Element(XmlElement),
    Text(String),
    Comment,
    ProcessingInstruction,
}

/// An element: local tag name, attributes and children in document order.
pub struct XmlElement {
    pub name: String,
    pub attrs: Vec<(String, String)>,
    pub children: Vec<XmlNode>,
}

impl XmlElement {
    /// The value of the first attribute with the given name, if any.
    pub fn attribute(&self, name: &str) -> (r: Option<&String>)
        ensures
            match r {
                Some(v) => spec_lookup(self.attrs@, name@) == Some(v@),
                None => spec_lookup(self.attrs@, name@) is None,
            },
    {
        let n = self.attrs.len();
        for i in 0..n
            invariant
                n == self.attrs.len(),
                forall|j: int| 0 <= j < i ==> self.attrs@[j].0@ != name@,
        {
            if str_eq(self.attrs[i].0.as_str(), name) {
                proof {
                    lemma_lookup_found(self.attrs@, name@, i as int);
                }
                return Some(&self.attrs[i].1);
            }
        }
        proof {
            lemma_lookup_skip(self.attrs@, name@, n as int);
        }
        None
    }
}

/// The number of element nodes in a subtree rooted at `e`, itself included.
pub open spec fn element_count(e: XmlElement) -> nat
    decreases e, 0int,
{
    1 + children_element_count(e.children@, 0)
}

/// The number of element nodes in the subtrees of `s[i..]`.
pub open spec fn children_element_count(s: Seq<XmlNode>, i: int) -> nat
    decreases s, s.len() - i,
{
    if i < 0 || i >= s.len() {
        0
    } else {
        (match s[i] {
            XmlNode::Element(e) => element_count(e),
            _ => 0,
        }) + children_element_count(s, i + 1)
    }
}

/// A subtree under a sequence counts no more than the whole sequence.
pub proof fn lemma_children_count_ge(s: Seq<XmlNode>, i: int, j: int, e: XmlElement)
    requires
        0 <= i <= j < s.len(),
        s[j] == XmlNode::Element(e),
    ensures
        children_element_count(s, i) >= element_count(e),
    decreases j - i,
{
    if i < j {
        lemma_children_count_ge(s, i + 1, j, e);
    }
}

/// First-match lookup in a sequence of path/tree pairs.
pub open spec fn spec_lookup_nodes(s: Seq<(String, Vec<XmlNode>)>, k: Seq<char>) -> Option<
    Seq<XmlNode>,
>
    decreases s.len(),
{
    if s.len() == 0 {
        None
    } else if s[0].0@ == k {
        Some(s[0].1@)
    } else {
        spec_lookup_nodes(s.drop_first(), k)
    }
}

/// The trees the caller has supplied, one per file path.  Viewed as a
/// `Map<Seq<char>, Seq<XmlNode>>` from path to the root's children.
pub struct FileSet {
    entries: Vec<(String, Vec<XmlNode>)>,
}

impl View for FileSet {
    type V = Map<Seq<char>, Seq<XmlNode>>;

    closed spec fn view(&self) -> Map<Seq<char>, Seq<XmlNode>> {
        Map::new(
            |k: Seq<char>| spec_lookup_nodes(self.entries@, k) is Some,
            |k: Seq<char>| spec_lookup_nodes(self.entries@, k).unwrap(),
        )
    }
}

impl FileSet {
    /// An empty set.
    pub fn new() -> (r: FileSet)
        ensures
            r@ == Map::<Seq<char>, Seq<XmlNode>>::empty(),
    {
        let r = FileSet { entries: Vec::new() };
        proof {
            assert(r@ =~= Map::<Seq<char>, Seq<XmlNode>>::empty());
        }
        r
    }

    /// The tree supplied for a path, if any.
    pub fn get(&self, path: &str) -> (r: Option<&Vec<XmlNode>>)
        ensures
            match r {
                Some(v) => self@.contains_key(path@) && v@ == self@[path@],
                None => !self@.contains_key(path@),
            },
    {
        let n = self.entries.len();
        for i in 0..n
            invariant
                n == self.entries.len(),
                forall|j: int| 0 <= j < i ==> self.entries@[j].0@ != path@,
        {
            if str_eq(self.entries[i].0.as_str(), path) {
                proof {
                    lemma_lookup_nodes_found(self.entries@, path@, i as int);
                }
                return Some(&self.entries[i].1);
            }
        }
        proof {
            lemma_lookup_nodes_skip(self.entries@, path@, n as int);
        }
        None
    }

    /// Supplies the tree for a path, shadowing any earlier one.
    pub fn insert(&mut self, path: String, tree: Vec<XmlNode>)
        ensures
            final(self)@ == old(self)@.insert(path@, tree@),
    {
        let ghost s0 = self.entries@;
        let ghost tv = tree@;
        self.entries.insert(0, (path, tree));
        proof {
            assert(self.entries@.drop_first() =~= s0);
            assert(self@ =~= old(self)@.insert(self.entries@[0].0@, tv));
        }
    }
}

proof fn lemma_lookup_nodes_skip(s: Seq<(String, Vec<XmlNode>)>, k: Seq<char>, i: int)
    requires
        0 <= i <= s.len(),
        forall|j: int| 0 <= j < i ==> s[j].0@ != k,
    ensures
        spec_lookup_nodes(s, k) == spec_lookup_nodes(s.skip(i), k),
    decreases i,
{
    if i > 0 {
        assert(s.drop_first().skip(i - 1) =~= s.skip(i));
        lemma_lookup_nodes_skip(s.drop_first(), k, i - 1);
    } else {
        assert(s.skip(0) =~= s);
    }
}

proof fn lemma_lookup_nodes_found(s: Seq<(String, Vec<XmlNode>)>, k: Seq<char>, i: int)
    requires
        0 <= i < s.len(),
        s[i].0@ == k,
        forall|j: int| 0 <= j < i ==> s[j].0@ != k,
    ensures
        spec_lookup_nodes(s, k) == Some(s[i].1@),
    decreases i,
{
    if i > 0 {
        lemma_lookup_nodes_found(s.drop_first(), k, i - 1);
    }
}

} // verus!
