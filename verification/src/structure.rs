//! A small document tree, rendered back to markup text.
//!
//! Each node knows the exact text it prints: the specification functions
//! here give that text as a character sequence, and every `print` method
//! returns precisely it. Comments and processing instructions print inside
//! the same delimiters the lexer strips from them, which is what makes
//! re-tokenizing a printed node come full circle.

use vstd::prelude::*;

use vstd::string::StringExecFns;

verus! {

/// Whether an element prints as self-closing or with a child list.
pub enum ElementType {
    Regular,
    Single,
}

/// A named attribute with a quoted value.
pub struct Attribute {
    pub title: String,
    pub value: String,
}

/// A comment node: its content, without the delimiters.
pub struct Comment {
    pub content: String,
}

/// A processing-instruction node: its content, without the delimiters.
pub struct ProcessingInstructions {
    pub content: String,
}

/// An element with a name, attributes and child elements.
pub struct Element {
    pub title: String,
    pub element_type: ElementType,
    pub attributes: Vec<Attribute>,
    pub elements: Vec<Element>,
}

/// The text an attribute prints: `title="value"`.
pub open spec fn attribute_text(a: Attribute) -> Seq<char> {
    a.title@ + "=\""@ + a.value@ + "\""@
}

/// The text a comment prints: its content between `<!-- ` and ` -->`.
pub open spec fn comment_text(content: Seq<char>) -> Seq<char> {
    "<!-- "@ + content + " -->"@
}

/// The text a processing instruction prints: its content between `<?` and
/// `?>`.
pub open spec fn pi_text(content: Seq<char>) -> Seq<char> {
    "<?"@ + content + "?>"@
}

/// The attribute block of an element: each attribute indented on a line of
/// its own.
pub open spec fn attributes_text(ats: Seq<Attribute>) -> Seq<char>
    decreases ats.len(),
{
    if ats.len() == 0 {
        Seq::<char>::empty()
    } else {
        "\t"@ + attribute_text(ats[0]) + "\n"@ + attributes_text(ats.drop_first())
    }
}

/// The text an element prints: its name and attribute block, then either a
/// self-closing `/>` or its children between `>` and `>`.
pub open spec fn element_text(e: Element) -> Seq<char>
    decreases e, 1int,
{
    let head = "<"@ + e.title@ + "\n"@ + attributes_text(e.attributes@);
    match e.element_type {
        ElementType::Single => head + "/>"@,
        ElementType::Regular => head + ">"@ + elements_text(e.elements@) + ">"@,
    }
}

/// The child block of an element: each child indented on a line of its own.
pub open spec fn elements_text(es: Seq<Element>) -> Seq<char>
    decreases es, 0int,
{
    if es.len() == 0 {
        Seq::<char>::empty()
    } else {
        "\t"@ + element_text(es[0]) + "\n"@ + elements_text(es.drop_first())
    }
}

impl Attribute {
    /// Renders the attribute as `title="value"`.
    pub fn print(&self) -> (s: String)
        ensures
            s@ == attribute_text(*self),
    {
        let mut buf = String::new();
        buf.append(self.title.as_str());
        buf.append("=\"");
        buf.append(self.value.as_str());
        buf.append("\"");
        proof {
            assert(buf@ =~= attribute_text(*self));
        }
        buf
    }
}

impl Comment {
    /// Renders the comment inside its delimiters: `<!-- content -->`.
    pub fn print(&self) -> (s: String)
        ensures
            s@ == comment_text(self.content@),
    {
        let mut buf = String::new();
        buf.append("<!-- ");
        buf.append(self.content.as_str());
        buf.append(" -->");
        proof {
            assert(buf@ =~= comment_text(self.content@));
        }
        buf
    }
}

impl ProcessingInstructions {
    /// Renders the processing instruction inside its delimiters:
    /// `<?content?>`.
    pub fn print(&self) -> (s: String)
        ensures
            s@ == pi_text(self.content@),
    {
        let mut buf = String::new();
        buf.append("<?");
        buf.append(self.content.as_str());
        buf.append("?>");
        proof {
            assert(buf@ =~= pi_text(self.content@));
        }
        buf
    }
}

impl Element {
    /// Renders the element: name and attribute block, then `/>` for a
    /// self-closing element or the indented children between `>` and `>`.
    pub fn print(&self) -> (s: String)
        ensures
            s@ == element_text(*self),
        decreases *self,
    {
        let mut buf = String::new();
        buf.append("<");
        buf.append(self.title.as_str());
        buf.append("\n");

        let ghost head: Seq<char> = "<"@ + self.title@ + "\n"@ + attributes_text(
            self.attributes@,
        );
        let mut i: usize = 0;
        proof {
            assert(self.attributes@.skip(0) =~= self.attributes@);
            assert(buf@ + attributes_text(self.attributes@) =~= head);
        }
        while i < self.attributes.len()
            invariant
                i <= self.attributes@.len(),
                buf@ + attributes_text(self.attributes@.skip(i as int)) == head,
            decreases self.attributes@.len() - i,
        {
            let ghost rest: Seq<Attribute> = self.attributes@.skip(i as int);
            buf.append("\t");
            let printed = self.attributes[i].print();
            buf.append(printed.as_str());
            buf.append("\n");
            proof {
                assert(rest[0] == self.attributes@[i as int]);
                assert(rest.drop_first() =~= self.attributes@.skip(i as int + 1));
                assert(buf@ + attributes_text(self.attributes@.skip(i as int + 1)) =~= head);
            }
            i = i + 1;
        }
        proof {
            assert(self.attributes@.skip(self.attributes@.len() as int) =~= Seq::<
                Attribute,
            >::empty());
            assert(buf@ =~= head);
        }

        match self.element_type {
            ElementType::Single => {
                buf.append("/>");
                proof {
                    assert(buf@ =~= element_text(*self));
                }
                buf
            },
            ElementType::Regular => {
                buf.append(">");
                let ghost mid: Seq<char> = head + ">"@ + elements_text(self.elements@);
                let mut j: usize = 0;
                proof {
                    assert(self.elements@.skip(0) =~= self.elements@);
                    assert(buf@ + elements_text(self.elements@) =~= mid);
                }
                while j < self.elements.len()
                    invariant
                        j <= self.elements@.len(),
                        buf@ + elements_text(self.elements@.skip(j as int)) == mid,
                    decreases self.elements@.len() - j,
                {
                    let ghost rest: Seq<Element> = self.elements@.skip(j as int);
                    buf.append("\t");
                    let printed = self.elements[j].print();
                    buf.append(printed.as_str());
                    buf.append("\n");
                    proof {
                        assert(rest[0] == self.elements@[j as int]);
                        assert(rest.drop_first() =~= self.elements@.skip(j as int + 1));
                        assert(buf@ + elements_text(self.elements@.skip(j as int + 1)) =~= mid);
                    }
                    j = j + 1;
                }
                proof {
                    assert(self.elements@.skip(self.elements@.len() as int) =~= Seq::<
                        Element,
                    >::empty());
                    assert(buf@ =~= mid);
                }
                buf.append(">");
                proof {
                    assert(buf@ =~= element_text(*self));
                }
                buf
            },
        }
    }
}

} // verus!
