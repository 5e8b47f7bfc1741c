//! The document tree and its mathematical model.
use vstd::prelude::*;

verus! {

broadcast use {
    vstd::group_vstd_default,
    vstd::seq::axiom_seq_index_decreases,
    vstd::seq::axiom_seq_subrange_decreases,
};

/// The model of a tree node: every string is a sequence of characters and
/// every list a sequence.
///
/// The kind of a node is read off `element`: the four names that start with
/// a colon mark the root, a text line, a doctype and an inclusion; any other
/// name is that of a tag.
pub struct Node {
    pub children: Seq<Node>,
    pub id: Option<Seq<char>>,
    pub element: Seq<char>,
    pub class: Seq<Seq<char>>,
    pub attrs: Seq<Seq<char>>,
}

impl Node {
    /// A node of the given name with nothing else set.
    pub open spec fn named(element: Seq<char>) -> Node {
        Node { children: seq![], id: None, element, class: seq![], attrs: seq![] }
    }

    /// A node of the given name that carries `id` as its payload.
    pub open spec fn special(element: Seq<char>, id: Seq<char>) -> Node {
        Node { children: seq![], id: Some(id), element, class: seq![], attrs: seq![] }
    }

    /// The empty root of a document.
    pub open spec fn root() -> Node {
        Node::named(":document"@)
    }

    pub open spec fn is_document(self) -> bool {
        self.element == ":document"@
    }

    pub open spec fn is_text(self) -> bool {
        self.element == ":text"@
    }

    pub open spec fn is_doctype(self) -> bool {
        self.element == ":doctype"@
    }

    /// The node bears the inclusion mark, with or without a target.
    pub open spec fn is_include_mark(self) -> bool {
        self.element == ":include"@
    }

    /// The node is an inclusion that can be resolved: it names a target.
    pub open spec fn is_include(self) -> bool {
        self.is_include_mark() && self.id is Some
    }

    /// The node with one more child at the end.
    pub open spec fn with_child(self, child: Node) -> Node {
        Node { children: self.children.push(child), ..self }
    }

    /// The node with its children replaced.
    pub open spec fn with_children(self, children: Seq<Node>) -> Node {
        Node { children, ..self }
    }

    /// Every text line, doctype and inclusion of the tree has its payload.
    pub open spec fn sound(self) -> bool
        decreases self,
    {
        &&& self.is_text() || self.is_doctype() || self.is_include_mark() ==> self.id is Some
        &&& forall|i: int| 0 <= i < self.children.len() ==> (#[trigger] self.children[i]).sound()
    }

    /// No node of the tree is a resolvable inclusion.
    pub open spec fn include_free(self) -> bool
        decreases self,
    {
        &&& !self.is_include()
        &&& forall|i: int|
            0 <= i < self.children.len() ==> (#[trigger] self.children[i]).include_free()
    }
}

/// The characters of each string of a list.
pub open spec fn strings_view(v: Seq<String>) -> Seq<Seq<char>> {
    v.map_values(|s: String| s@)
}

/// The characters of an optional string.
pub open spec fn option_view(o: Option<String>) -> Option<Seq<char>> {
    match o {
        Some(s) => Some(s@),
        None => None,
    }
}

/// A node of the document tree.
///
/// `element` is the tag's name, or one of `:document`, `:text`, `:doctype`,
/// `:include`; for the last three `id` holds the text, the doctype or the
/// target.
#[derive(Debug, PartialEq, Eq)]
pub struct Ast {
    pub children: Vec<Ast>,
    pub id: Option<String>,
    pub element: String,
    pub class: Vec<String>,
    pub attrs: Vec<String>,
}

impl View for Ast {
    type V = Node;

    open spec fn view(&self) -> Node
        decreases self, 0nat,
    {
        Node {
            children: trees_view(self.children@),
            id: option_view(self.id),
            element: self.element@,
            class: strings_view(self.class@),
            attrs: strings_view(self.attrs@),
        }
    }
}

/// The models of a list of trees.
pub open spec fn trees_view(v: Seq<Ast>) -> Seq<Node>
    decreases v, v.len(),
{
    if v.len() == 0 {
        Seq::empty()
    } else {
        trees_view(v.drop_last()).push(v.last()@)
    }
}

/// The model of a list of trees has the model of each tree at its place.
pub proof fn lemma_trees_view(v: Seq<Ast>)
    ensures
        trees_view(v).len() == v.len(),
        forall|i: int| 0 <= i < v.len() ==> (#[trigger] trees_view(v)[i]) == v[i]@,
    decreases v.len(),
{
    if v.len() > 0 {
        lemma_trees_view(v.drop_last());
        assert(trees_view(v) == trees_view(v.drop_last()).push(v.last()@));
    }
}

/// Appending to a list of strings appends to its model.
pub proof fn lemma_strings_push(v: Seq<String>, s: String)
    ensures
        strings_view(v.push(s)) == strings_view(v).push(s@),
{
    assert(strings_view(v.push(s)) =~= strings_view(v).push(s@));
}

/// Appending to a list of trees appends to its model.
pub proof fn lemma_trees_push(v: Seq<Ast>, a: Ast)
    ensures
        trees_view(v.push(a)) == trees_view(v).push(a@),
{
    assert(v.push(a).drop_last() =~= v);
}

impl Default for Ast {
    /// A node with an empty name and nothing else.
    fn default() -> (r: Ast)
        ensures
            r@ == Node::named(Seq::<char>::empty()),
    {
        let r = Ast {
            children: Vec::new(),
            id: None,
            element: String::new(),
            class: Vec::new(),
            attrs: Vec::new(),
        };
        proof {
            assert(r@.children =~= Seq::<Node>::empty());
            assert(r@.class =~= Seq::<Seq<char>>::empty());
            assert(r@.attrs =~= Seq::<Seq<char>>::empty());
        }
        r
    }
}

impl Ast {
    /// A childless node named `element` that carries `id`: the way text
    /// lines, doctypes and inclusions are made.
    pub fn special(element: &str, id: &str) -> (r: Ast)
        ensures
            r@ == Node::special(element@, id@),
    {
        let r = Ast {
            children: Vec::new(),
            id: Some(id.to_owned()),
            element: element.to_owned(),
            class: Vec::new(),
            attrs: Vec::new(),
        };
        proof {
            assert(r@.children =~= Seq::<Node>::empty());
            assert(r@.class =~= Seq::<Seq<char>>::empty());
            assert(r@.attrs =~= Seq::<Seq<char>>::empty());
        }
        r
    }

    /// A childless node named `element`, with no id.
    pub fn named(element: &str) -> (r: Ast)
        ensures
            r@ == Node::named(element@),
    {
        let r = Ast {
            children: Vec::new(),
            id: None,
            element: element.to_owned(),
            class: Vec::new(),
            attrs: Vec::new(),
        };
        proof {
            assert(r@.children =~= Seq::<Node>::empty());
            assert(r@.class =~= Seq::<Seq<char>>::empty());
            assert(r@.attrs =~= Seq::<Seq<char>>::empty());
        }
        r
    }

    /// Appends `child` as the last child.
    pub fn push_child(&mut self, child: Ast)
        ensures
            final(self)@ == old(self)@.with_child(child@),
    {
        self.children.push(child);
        proof {
            lemma_trees_push(old(self).children@, child);
        }
    }
}

} // verus!
