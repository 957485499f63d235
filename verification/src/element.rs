//! The tree that a markup grammar built on the parsers would produce.
use vstd::prelude::*;

verus! {

/// One element of a document: its name, its attributes and the elements
/// inside it. Attributes and children stand in the order of the document,
/// and nothing asks that attribute keys differ.
#[derive(Debug, PartialEq, Eq)]
pub struct Element {
    pub name: String,
    pub attributes: Vec<(String, String)>,
    pub children: Vec<Element>,
}

/// Whether two attribute lists hold the same keys and values in the same
/// order.
pub open spec fn same_attributes(a: Seq<(String, String)>, b: Seq<(String, String)>) -> bool {
    &&& a.len() == b.len()
    &&& forall|i: int|
        0 <= i < a.len() ==> (#[trigger] a[i]).0@ == b[i].0@ && a[i].1@ == b[i].1@
}

impl Element {
    /// Whether `self` and `other` are the same tree: the same name, the
    /// same attributes in the same order, and children that are the same
    /// trees in the same order.
    pub open spec fn same_as(self, other: Element) -> bool
        decreases self,
    {
        &&& self.name@ == other.name@
        &&& same_attributes(self.attributes@, other.attributes@)
        &&& self.children@.len() == other.children@.len()
        &&& forall|i: int|
            0 <= i < self.children@.len() ==> (#[trigger] self.children@[i]).same_as(
                other.children@[i],
            )
    }
}

impl Clone for Element {
    /// The clone is the same tree.
    fn clone(&self) -> (r: Self)
        ensures
            self.same_as(r),
        decreases self,
    {
        let mut attributes: Vec<(String, String)> = Vec::new();
        let mut i: usize = 0;
        while i < self.attributes.len()
            invariant
                i <= self.attributes.len(),
                same_attributes(self.attributes@.take(i as int), attributes@),
            decreases self.attributes.len() - i,
        {
            let pair = &self.attributes[i];
            attributes.push((pair.0.clone(), pair.1.clone()));
            i += 1;
        }
        let mut children: Vec<Element> = Vec::new();
        let mut j: usize = 0;
        while j < self.children.len()
            invariant
                j <= self.children.len(),
                children@.len() == j,
                forall|k: int|
                    0 <= k < j ==> (#[trigger] self.children@[k]).same_as(children@[k]),
            decreases self.children.len() - j,
        {
            let child = self.children[j].clone();
            children.push(child);
            j += 1;
        }
        proof {
            assert(self.attributes@.take(i as int) =~= self.attributes@);
        }
        Element { name: self.name.clone(), attributes, children }
    }
}

} // verus!
