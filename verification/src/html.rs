//! The HTML that a document tree stands for, and the serializer that writes
//! it.
use vstd::prelude::*;
use vstd::string::StringExecFns;
use vstd::utf8::encode_utf8;
use crate::ast::{Ast, Node, lemma_trees_view, strings_view};
use crate::text::str_eq;

verus! {

broadcast use {
    vstd::group_vstd_default,
    vstd::seq::axiom_seq_index_decreases,
    vstd::std_specs::vec::group_vec_axioms,
};

/// The names of the elements that have neither content nor a closing tag.
pub open spec fn is_void(name: Seq<char>) -> bool {
    ||| name == "area"@
    ||| name == "base"@
    ||| name == "br"@
    ||| name == "col"@
    ||| name == "command"@
    ||| name == "embed"@
    ||| name == "hr"@
    ||| name == "img"@
    ||| name == "input"@
    ||| name == "keygen"@
    ||| name == "link"@
    ||| name == "meta"@
    ||| name == "param"@
    ||| name == "source"@
    ||| name == "track"@
    ||| name == "wbr"@
}

/// The words joined by single spaces.
pub open spec fn joined(words: Seq<Seq<char>>) -> Seq<char>
    decreases words.len(),
{
    if words.len() == 0 {
        Seq::empty()
    } else if words.len() == 1 {
        words[0]
    } else {
        joined(words.drop_last()) + " "@ + words.last()
    }
}

/// The attributes in order, a space before each.
pub open spec fn spaced(attrs: Seq<Seq<char>>) -> Seq<char>
    decreases attrs.len(),
{
    if attrs.len() == 0 {
        Seq::empty()
    } else {
        spaced(attrs.drop_last()) + " "@ + attrs.last()
    }
}

/// The `class` attribute of an opening tag; nothing where there is no class.
pub open spec fn class_text(class: Seq<Seq<char>>) -> Seq<char> {
    if class.len() == 0 {
        Seq::empty()
    } else {
        " class=\""@ + joined(class) + "\""@
    }
}

/// The `id` attribute of an opening tag; nothing where there is no id.
pub open spec fn id_text(id: Option<Seq<char>>) -> Seq<char> {
    match id {
        Some(id) => " id=\""@ + id + "\""@,
        None => Seq::empty(),
    }
}

impl Node {
    /// The opening tag of an element: the name, then the classes, then the
    /// id, then the other attributes as they were written.
    pub open spec fn open_tag(self) -> Seq<char> {
        "<"@ + self.element + class_text(self.class) + id_text(self.id) + spaced(self.attrs)
            + ">"@
    }

    /// The closing tag of an element.
    pub open spec fn close_tag(self) -> Seq<char> {
        "</"@ + self.element + ">"@
    }

    /// What separates child `i` from the one before it: a line break between
    /// two text lines, nothing otherwise.
    pub open spec fn gap(self, i: int) -> Seq<char> {
        if 0 < i < self.children.len() && self.children[i - 1].is_text()
            && self.children[i].is_text() {
            "\n"@
        } else {
            Seq::empty()
        }
    }

    /// The HTML of the first `k` children.
    pub open spec fn children_html(self, k: nat) -> Seq<char>
        decreases self, k,
    {
        if k == 0 || k > self.children.len() {
            Seq::empty()
        } else {
            self.children_html((k - 1) as nat) + self.gap(k - 1) + self.children[k - 1].html()
        }
    }

    /// The HTML of the node. An inclusion has none, and neither has a text
    /// line or a doctype that lacks its payload: `renderable` rules them out.
    pub open spec fn html(self) -> Seq<char>
        decreases self, self.children.len() + 1,
    {
        if self.is_include_mark() {
            Seq::empty()
        } else if self.is_document() {
            self.children_html(self.children.len())
        } else if self.is_text() {
            match self.id {
                Some(text) => text,
                None => Seq::empty(),
            }
        } else if self.is_doctype() {
            match self.id {
                Some(text) => "<!DOCTYPE "@ + text + ">"@,
                None => Seq::empty(),
            }
        } else if is_void(self.element) {
            self.open_tag()
        } else {
            self.open_tag() + self.children_html(self.children.len()) + self.close_tag()
        }
    }

    /// The node can be written out: no inclusion is left where the
    /// serializer goes, and every text line and doctype has its payload. The
    /// serializer does not go below a text line, a doctype or a void element.
    pub open spec fn renderable(self) -> bool
        decreases self,
    {
        if self.is_include_mark() {
            false
        } else if self.is_document() {
            forall|i: int|
                0 <= i < self.children.len() ==> (#[trigger] self.children[i]).renderable()
        } else if self.is_text() || self.is_doctype() {
            self.id is Some
        } else if is_void(self.element) {
            true
        } else {
            forall|i: int|
                0 <= i < self.children.len() ==> (#[trigger] self.children[i]).renderable()
        }
    }
}

/// Whether `name` is the name of a void element.
pub fn is_void_name(name: &str) -> (b: bool)
    ensures
        b == is_void(name@),
{
    str_eq(name, "area") || str_eq(name, "base") || str_eq(name, "br") || str_eq(name, "col")
        || str_eq(name, "command") || str_eq(name, "embed") || str_eq(name, "hr") || str_eq(
        name,
        "img",
    ) || str_eq(name, "input") || str_eq(name, "keygen") || str_eq(name, "link") || str_eq(
        name,
        "meta",
    ) || str_eq(name, "param") || str_eq(name, "source") || str_eq(name, "track") || str_eq(
        name,
        "wbr",
    )
}

/// Appends the words, joined by single spaces.
fn write_joined(words: &Vec<String>, out: &mut String)
    ensures
        final(out)@ == old(out)@ + joined(strings_view(words@)),
{
    let ghost all = strings_view(words@);
    let mut i: usize = 0;
    while i < words.len()
        invariant
            i <= words@.len(),
            all == strings_view(words@),
            out@ == old(out)@ + joined(all.take(i as int)),
        decreases words@.len() - i,
    {
        proof {
            assert(all.take(i + 1).drop_last() =~= all.take(i as int));
        }
        if i > 0 {
            out.append(" ");
        }
        out.append(words[i].as_str());
        i += 1;
        proof {
            let s = all.take(i as int);
            if i == 1 {
                assert(joined(s) == s[0]);
                assert(joined(all.take(0)) =~= Seq::<char>::empty());
                assert(out@ =~= old(out)@ + joined(s));
            } else {
                assert(out@ =~= old(out)@ + joined(s));
            }
        }
    }
    proof {
        assert(all.take(words@.len() as int) =~= all);
    }
}

/// Appends the attributes, a space before each.
fn write_spaced(attrs: &Vec<String>, out: &mut String)
    ensures
        final(out)@ == old(out)@ + spaced(strings_view(attrs@)),
{
    let ghost all = strings_view(attrs@);
    let mut i: usize = 0;
    while i < attrs.len()
        invariant
            i <= attrs@.len(),
            all == strings_view(attrs@),
            out@ == old(out)@ + spaced(all.take(i as int)),
        decreases attrs@.len() - i,
    {
        proof {
            assert(all.take(i + 1).drop_last() =~= all.take(i as int));
        }
        out.append(" ");
        out.append(attrs[i].as_str());
        i += 1;
        proof {
            assert(out@ =~= old(out)@ + spaced(all.take(i as int)));
        }
    }
    proof {
        assert(all.take(attrs@.len() as int) =~= all);
    }
}

impl Ast {
    /// Appends the opening tag.
    fn write_open_tag(&self, out: &mut String)
        ensures
            final(out)@ == old(out)@ + self@.open_tag(),
    {
        out.append("<");
        out.append(self.element.as_str());
        let ghost named = out@;
        if self.class.len() > 0 {
            out.append(" class=\"");
            write_joined(&self.class, out);
            out.append("\"");
        }
        proof {
            assert(out@ =~= named + class_text(self@.class));
        }
        let ghost classed = out@;
        match &self.id {
            Some(id) => {
                out.append(" id=\"");
                out.append(id.as_str());
                out.append("\"");
            },
            None => {},
        }
        proof {
            assert(out@ =~= classed + id_text(self@.id));
        }
        write_spaced(&self.attrs, out);
        out.append(">");
        proof {
            assert(out@ =~= old(out)@ + self@.open_tag());
        }
    }

    /// Appends the HTML of all children.
    fn write_children(&self, out: &mut String)
        requires
            forall|i: int|
                0 <= i < self@.children.len() ==> (#[trigger] self@.children[i]).renderable(),
        ensures
            final(out)@ == old(out)@ + self@.children_html(self@.children.len()),
        decreases self, 0nat,
    {
        proof {
            lemma_trees_view(self.children@);
        }
        let mut after_text = false;
        let mut i: usize = 0;
        while i < self.children.len()
            invariant
                i <= self.children@.len(),
                self@.children.len() == self.children@.len(),
                forall|j: int|
                    0 <= j < self.children@.len() ==> (#[trigger] self@.children[j])
                        == self.children@[j]@,
                forall|j: int|
                    0 <= j < self@.children.len() ==> (#[trigger] self@.children[j]).renderable(),
                after_text == (i > 0 && self@.children[i - 1].is_text()),
                out@ == old(out)@ + self@.children_html(i as nat),
            decreases self.children@.len() - i,
        {
            let child = &self.children[i];
            let is_text = str_eq(child.element.as_str(), ":text");
            let ghost before = out@;
            if after_text && is_text {
                out.append("\n");
            }
            proof {
                assert(child@ == self@.children[i as int]);
                assert(out@ =~= before + self@.gap(i as int));
            }
            child.write(out);
            after_text = is_text;
            i += 1;
            proof {
                assert(out@ =~= old(out)@ + self@.children_html(i as nat));
            }
        }
    }

    /// Appends the HTML of the node.
    fn write(&self, out: &mut String)
        requires
            self@.renderable(),
        ensures
            final(out)@ == old(out)@ + self@.html(),
        decreases self, 1nat,
    {
        let name = self.element.as_str();
        if str_eq(name, ":document") {
            self.write_children(out);
        } else if str_eq(name, ":text") {
            match &self.id {
                Some(text) => {
                    out.append(text.as_str());
                },
                None => {},
            }
        } else if str_eq(name, ":doctype") {
            match &self.id {
                Some(text) => {
                    out.append("<!DOCTYPE ");
                    out.append(text.as_str());
                    out.append(">");
                    proof {
                        assert(out@ =~= old(out)@ + self@.html());
                    }
                },
                None => {},
            }
        } else if is_void_name(name) {
            self.write_open_tag(out);
        } else {
            self.write_open_tag(out);
            self.write_children(out);
            out.append("</");
            out.append(name);
            out.append(">");
            proof {
                assert(out@ =~= old(out)@ + self@.html());
            }
        }
    }

    /// Whether every child can be written out as HTML.
    fn children_renderable(&self) -> (b: bool)
        ensures
            b == forall|i: int|
                0 <= i < self@.children.len() ==> (#[trigger] self@.children[i]).renderable(),
        decreases self, 0nat,
    {
        proof {
            lemma_trees_view(self.children@);
        }
        let mut i: usize = 0;
        while i < self.children.len()
            invariant
                i <= self.children@.len(),
                self@.children.len() == self.children@.len(),
                forall|j: int|
                    0 <= j < self.children@.len() ==> (#[trigger] self@.children[j])
                        == self.children@[j]@,
                forall|j: int| 0 <= j < i ==> (#[trigger] self@.children[j]).renderable(),
            decreases self.children@.len() - i,
        {
            if !self.children[i].renderable() {
                assert(!self@.children[i as int].renderable());
                return false;
            }
            i += 1;
        }
        true
    }

    /// Whether the tree can be written out as HTML.
    pub fn renderable(&self) -> (b: bool)
        ensures
            b == self@.renderable(),
        decreases self, 1nat,
    {
        let name = self.element.as_str();
        if str_eq(name, ":include") {
            false
        } else if str_eq(name, ":document") {
            self.children_renderable()
        } else if str_eq(name, ":text") || str_eq(name, ":doctype") {
            self.id.is_some()
        } else if is_void_name(name) {
            true
        } else {
            self.children_renderable()
        }
    }

    /// Writes the tree to `w` as HTML, encoded as UTF-8.
    ///
    /// The tree must be renderable: an inclusion has to be expanded first.
    pub fn to_html(&self, w: &mut Vec<u8>)
        requires
            self@.renderable(),
        ensures
            final(w)@ == old(w)@ + encode_utf8(self@.html()),
    {
        let mut out = String::new();
        self.write(&mut out);
        let bytes = out.as_str().as_bytes();
        let mut i: usize = 0;
        while i < bytes.len()
            invariant
                i <= bytes@.len(),
                bytes@ == encode_utf8(self@.html()),
                w@ == old(w)@ + bytes@.take(i as int),
            decreases bytes@.len() - i,
        {
            w.push(bytes[i]);
            i += 1;
            proof {
                assert(w@ =~= old(w)@ + bytes@.take(i as int));
            }
        }
        proof {
            assert(bytes@.take(bytes@.len() as int) =~= bytes@);
            assert(out@ =~= self@.html());
        }
    }
}

} // verus!
