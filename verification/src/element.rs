//! Declarative element descriptions.
//!
//! The engine itself never touches a concrete display: a host shell walks
//! these descriptions, materializes them, and mounts the dynamic parts as
//! computations.  What the engine owns is the pure assembly: building the
//! description, and deriving the inline style text.

use vstd::prelude::*;

use crate::hook::Template;

verus! {

/// A placeholder element with no content of its own.
pub struct Comment;

/// One child of an element description.
pub enum NodeChild {
    /// A nested element.
    Element(Box<HtmlElement>),
    /// Fixed text.
    Text(String),
    /// A placeholder.
    Comment,
    /// A reactive part, mounted as a computation by the host shell.
    Dynamic(Template),
}

/// A description of one element: its tag, event subscriptions (as handler
/// identifiers the host shell resolves), children, inline styles and
/// attributes.
pub struct HtmlElement {
    pub name: &'static str,
    pub events: Vec<(&'static str, u64)>,
    pub children: Vec<NodeChild>,
    pub styles: Vec<(&'static str, String)>,
    pub attributes: Vec<(&'static str, String)>,
}

/// The inline style text for a list of style entries: each key-value
/// pair printed as `key:value;`, in order.
pub open spec fn style_text(s: Seq<(&'static str, String)>) -> Seq<char>
    decreases s.len(),
{
    if s.len() == 0 {
        Seq::empty()
    } else {
        style_text(s.drop_last()) + s.last().0@ + ":"@ + s.last().1@ + ";"@
    }
}

impl HtmlElement {
    pub fn new(name: &'static str) -> (r: HtmlElement)
        ensures
            r.name == name,
            r.events@ == Seq::<(&'static str, u64)>::empty(),
            r.children@.len() == 0,
            r.styles@ == Seq::<(&'static str, String)>::empty(),
            r.attributes@ == Seq::<(&'static str, String)>::empty(),
    {
        HtmlElement {
            name,
            events: Vec::new(),
            children: Vec::new(),
            styles: Vec::new(),
            attributes: Vec::new(),
        }
    }

    /// Subscribe a handler (by identifier) to an event.
    pub fn on(self, event: &'static str, handler: u64) -> (r: HtmlElement)
        ensures
            r.events@ == self.events@.push((event, handler)),
            r.name == self.name,
            r.children == self.children,
            r.styles == self.styles,
            r.attributes == self.attributes,
    {
        let mut this = self;
        this.events.push((event, handler));
        this
    }

    /// Append a nested element.
    pub fn child(self, child: HtmlElement) -> (r: HtmlElement)
        ensures
            r.children@ == self.children@.push(NodeChild::Element(Box::new(child))),
            r.name == self.name,
            r.events == self.events,
            r.styles == self.styles,
            r.attributes == self.attributes,
    {
        let mut this = self;
        this.children.push(NodeChild::Element(Box::new(child)));
        this
    }

    /// Append fixed text content.
    pub fn text(self, text: String) -> (r: HtmlElement)
        ensures
            r.children@ == self.children@.push(NodeChild::Text(text)),
            r.name == self.name,
            r.events == self.events,
            r.styles == self.styles,
            r.attributes == self.attributes,
    {
        let mut this = self;
        this.children.push(NodeChild::Text(text));
        this
    }

    /// Append a reactive part, mounted as a computation by the host shell.
    pub fn dynamic(self, part: Template) -> (r: HtmlElement)
        ensures
            r.children@ == self.children@.push(NodeChild::Dynamic(part)),
            r.name == self.name,
            r.events == self.events,
            r.styles == self.styles,
            r.attributes == self.attributes,
    {
        let mut this = self;
        this.children.push(NodeChild::Dynamic(part));
        this
    }

    /// Add an inline style entry.
    pub fn style(self, key: &'static str, value: String) -> (r: HtmlElement)
        ensures
            r.styles@ == self.styles@.push((key, value)),
            r.name == self.name,
            r.events == self.events,
            r.children == self.children,
            r.attributes == self.attributes,
    {
        let mut this = self;
        this.styles.push((key, value));
        this
    }

    /// Add an attribute.
    pub fn attr(self, key: &'static str, value: String) -> (r: HtmlElement)
        ensures
            r.attributes@ == self.attributes@.push((key, value)),
            r.name == self.name,
            r.events == self.events,
            r.children == self.children,
            r.styles == self.styles,
    {
        let mut this = self;
        this.attributes.push((key, value));
        this
    }

    /// Set the `id` attribute.
    pub fn id(self, id: String) -> (r: HtmlElement)
        ensures
            r.attributes@ == self.attributes@.push(("id", id)),
            r.name == self.name,
            r.events == self.events,
            r.children == self.children,
            r.styles == self.styles,
    {
        self.attr("id", id)
    }

    /// The inline style text of this element: every entry printed as
    /// `key:value;`, in order.
    pub fn style_string(&self) -> (r: String)
        ensures
            r@ == style_text(self.styles@),
    {
        let mut out = String::new();
        let mut i: usize = 0;
        while i < self.styles.len()
            invariant
                i <= self.styles@.len(),
                out@ == style_text(self.styles@.subrange(0, i as int)),
            decreases self.styles@.len() - i,
        {
            let ghost prefix = self.styles@.subrange(0, i as int);
            let pair = &self.styles[i];
            out.append(pair.0);
            out.append(":");
            out.append(pair.1.as_str());
            out.append(";");
            i = i + 1;
            proof {
                let cur = self.styles@.subrange(0, i as int);
                assert(cur.drop_last() =~= prefix);
                assert(cur.last() == self.styles@[i - 1]);
            }
        }
        proof {
            assert(self.styles@.subrange(0, self.styles@.len() as int) =~= self.styles@);
        }
        out
    }
}

} // verus!
