use vstd::prelude::*;
use crate::BuildError;
use crate::Builder;
use crate::chars::push_char;
use vstd::string::StringExecFns;
use crate::text::Heading;
use crate::text::HeadingLvl;
use crate::text::HeadingView;
use crate::text::Item;
use crate::text::ItemView;
use crate::text::Link;
use crate::text::LinkSource;
use crate::text::LinkView;
use crate::text::Reference;
use crate::text::SourceView;

verus! {

/// Scratch value for one inline item. The variant is the emphasis state; the
/// `bold` and `italic` toggles move along the same bounded ladder the
/// tokenizer walks.
#[derive(Debug, Clone, PartialEq, Eq)]
pub enum ItemBuilder {
    Bold(String),
    BoldItalic(String),
    Def(String),
    Italic(String),
    Link(Link),
    Undefined,
}

/// The mathematical value of an `ItemBuilder`.
pub enum ItemBuilderView {
    Bold(Seq<char>),
    BoldItalic(Seq<char>),
    Def(Seq<char>),
    Italic(Seq<char>),
    Link(LinkView),
    Undefined,
}

impl View for ItemBuilder {
    type V = ItemBuilderView;

    open spec fn view(&self) -> ItemBuilderView {
        match self {
            ItemBuilder::Bold(s) => ItemBuilderView::Bold(s@),
            ItemBuilder::BoldItalic(s) => ItemBuilderView::BoldItalic(s@),
            ItemBuilder::Def(s) => ItemBuilderView::Def(s@),
            ItemBuilder::Italic(s) => ItemBuilderView::Italic(s@),
            ItemBuilder::Link(l) => ItemBuilderView::Link(l@),
            ItemBuilder::Undefined => ItemBuilderView::Undefined,
        }
    }
}

impl ItemBuilderView {
    /// Toggling the bold half of the emphasis state.
    pub open spec fn spec_bold(self) -> ItemBuilderView {
        match self {
            ItemBuilderView::Bold(s) => ItemBuilderView::Def(s),
            ItemBuilderView::BoldItalic(s) => ItemBuilderView::Italic(s),
            ItemBuilderView::Italic(s) => ItemBuilderView::BoldItalic(s),
            ItemBuilderView::Def(s) => ItemBuilderView::Bold(s),
            _ => ItemBuilderView::Undefined,
        }
    }

    /// Toggling the italic half of the emphasis state.
    pub open spec fn spec_italic(self) -> ItemBuilderView {
        match self {
            ItemBuilderView::Bold(s) => ItemBuilderView::BoldItalic(s),
            ItemBuilderView::BoldItalic(s) => ItemBuilderView::Bold(s),
            ItemBuilderView::Italic(s) => ItemBuilderView::Def(s),
            ItemBuilderView::Def(s) => ItemBuilderView::Italic(s),
            _ => ItemBuilderView::Undefined,
        }
    }

    /// What `build` produces: the finished item, or nothing while the state
    /// is still undefined.
    pub open spec fn spec_built(self) -> Option<ItemView> {
        match self {
            ItemBuilderView::Bold(s) => Some(ItemView::Bold(s)),
            ItemBuilderView::BoldItalic(s) => Some(ItemView::BoldItalic(s)),
            ItemBuilderView::Def(s) => Some(ItemView::Def(s)),
            ItemBuilderView::Italic(s) => Some(ItemView::Italic(s)),
            ItemBuilderView::Link(l) => Some(ItemView::Link(l)),
            ItemBuilderView::Undefined => None,
        }
    }
}

impl ItemBuilder {
    /// Toggle the bold half of the emphasis state.
    pub fn bold(self) -> (r: Self)
        ensures
            r@ == self@.spec_bold(),
    {
        match self {
            Self::Bold(s) => Self::Def(s),
            Self::BoldItalic(s) => Self::Italic(s),
            Self::Italic(s) => Self::BoldItalic(s),
            Self::Def(s) => Self::Bold(s),
            _ => Self::Undefined,
        }
    }

    /// Toggle the italic half of the emphasis state.
    pub fn italic(self) -> (r: Self)
        ensures
            r@ == self@.spec_italic(),
    {
        match self {
            Self::Bold(s) => Self::BoldItalic(s),
            Self::BoldItalic(s) => Self::Bold(s),
            Self::Italic(s) => Self::Def(s),
            Self::Def(s) => Self::Italic(s),
            _ => Self::Undefined,
        }
    }

    /// Replace the state with a finished link.
    pub fn link(self, l: Link) -> (r: Self)
        ensures
            r@ == ItemBuilderView::Link(l@),
    {
        Self::Link(l)
    }

    /// Set the text, keeping the emphasis state (a link or undefined state
    /// becomes plain text).
    pub fn content(self, s: String) -> (r: Self)
        ensures
            r@ == match self@ {
                ItemBuilderView::Bold(_) => ItemBuilderView::Bold(s@),
                ItemBuilderView::BoldItalic(_) => ItemBuilderView::BoldItalic(s@),
                ItemBuilderView::Italic(_) => ItemBuilderView::Italic(s@),
                _ => ItemBuilderView::Def(s@),
            },
    {
        match self {
            Self::Bold(_) => Self::Bold(s),
            Self::BoldItalic(_) => Self::BoldItalic(s),
            Self::Italic(_) => Self::Italic(s),
            _ => Self::Def(s),
        }
    }
}

impl Builder for ItemBuilder {
    type Output = Item;

    /// Succeeds exactly when the state is defined, carrying it over.
    fn build(self) -> (r: Result<Item, BuildError>)
        ensures
            match r {
                Ok(it) => self@.spec_built() == Some(it@),
                Err(e) => self@.spec_built() is None && e == BuildError::IncompleteData,
            },
    {
        match self {
            Self::Bold(s) => Ok(Item::Bold(s)),
            Self::BoldItalic(s) => Ok(Item::BoldItalic(s)),
            Self::Def(s) => Ok(Item::Def(s)),
            Self::Italic(s) => Ok(Item::Italic(s)),
            Self::Link(l) => Ok(Item::Link(l)),
            Self::Undefined => Err(BuildError::IncompleteData),
        }
    }
}

impl Default for ItemBuilder {
    fn default() -> (r: Self)
        ensures
            r@ is Undefined,
    {
        ItemBuilder::Undefined
    }
}

/// Whether a link source is a reference with an empty name (which `build`
/// rejects).
pub open spec fn empty_ref(src: SourceView) -> bool {
    match src {
        SourceView::Ref(n) => n.len() == 0,
        _ => false,
    }
}

/// Scratch value for a `Link`: the display name is mandatory and must be
/// nonempty; the source defaults to unset; the image flag to false.
#[derive(Debug, Clone, PartialEq, Eq)]
pub struct LinkBuilder {
    name: String,
    src: LinkSource,
    img: bool,
}

/// The mathematical value of a `LinkBuilder`.
pub struct LinkBuilderView {
    pub name: Seq<char>,
    pub src: SourceView,
    pub img: bool,
}

impl View for LinkBuilder {
    type V = LinkBuilderView;

    closed spec fn view(&self) -> LinkBuilderView {
        LinkBuilderView { name: self.name@, src: self.src@, img: self.img }
    }
}

impl LinkBuilder {
    /// Set the display name.
    pub fn name(self, name: String) -> (r: Self)
        ensures
            r@ == (LinkBuilderView { name: name@, ..self@ }),
    {
        let mut s = self;
        s.name = name;
        s
    }

    /// Append one character to the display name.
    pub fn name_push(&mut self, c: char)
        ensures
            final(self)@ == (LinkBuilderView { name: old(self)@.name.push(c), ..old(self)@ }),
    {
        push_char(&mut self.name, c);
    }

    /// Append text to the display name.
    pub fn name_push_str(&mut self, s: &str)
        ensures
            final(self)@ == (LinkBuilderView { name: old(self)@.name + s@, ..old(self)@ }),
    {
        self.name.append(s);
    }

    /// Set the source to a literal target.
    pub fn href(self, href: String) -> (r: Self)
        ensures
            r@ == (LinkBuilderView { src: SourceView::Url(href@), ..self@ }),
    {
        let mut s = self;
        s.src = LinkSource::Url(href);
        s
    }

    /// Set the source to a reference on the given definition's name.
    pub fn reference(self, r: Reference) -> (res: Self)
        ensures
            res@ == (LinkBuilderView { src: SourceView::Ref(r@.name), ..self@ }),
    {
        let mut s = self;
        s.src = LinkSource::Ref(r.name);
        s
    }

    /// Set the source to a reference by name.
    pub fn reference_name(self, n: String) -> (res: Self)
        ensures
            res@ == (LinkBuilderView { src: SourceView::Ref(n@), ..self@ }),
    {
        let mut s = self;
        s.src = LinkSource::Ref(n);
        s
    }

    /// Mark the link as an image.
    pub fn make_img(self) -> (r: Self)
        ensures
            r@ == (LinkBuilderView { img: true, ..self@ }),
    {
        let mut s = self;
        s.img = true;
        s
    }
}

impl Builder for LinkBuilder {
    type Output = Link;

    /// Succeeds exactly when the display name is nonempty and the source is
    /// not an empty reference name; the link keeps the scratch fields.
    fn build(self) -> (r: Result<Link, BuildError>)
        ensures
            match r {
                Ok(l) => self@.name.len() > 0 && !empty_ref(self@.src) && l@.name == self@.name
                    && l@.src == self@.src && l@.img == self@.img,
                Err(e) => (self@.name.len() == 0 || empty_ref(self@.src)) && e
                    == BuildError::IncompleteData,
            },
    {
        if self.name.as_str().is_empty() {
            return Err(BuildError::IncompleteData);
        }
        if let LinkSource::Ref(s) = &self.src {
            if s.as_str().is_empty() {
                return Err(BuildError::IncompleteData);
            }
        }
        Ok(Link { name: self.name, src: self.src, img: self.img })
    }
}

impl Default for LinkBuilder {
    fn default() -> (r: Self)
        ensures
            r@.name == Seq::<char>::empty(),
            r@.src is Unset,
            !r@.img,
    {
        Self { name: String::new(), src: LinkSource::Unset, img: false }
    }
}

/// Scratch value for a `Reference`: the name and the target are mandatory
/// (and the name must be nonempty); the title defaults to empty.
#[derive(Debug, Clone, PartialEq, Eq)]
pub struct ReferenceBuilder {
    name: String,
    href: Option<String>,
    title: String,
}

/// The mathematical value of a `ReferenceBuilder`.
pub struct ReferenceBuilderView {
    pub name: Seq<char>,
    pub href: Option<Seq<char>>,
    pub title: Seq<char>,
}

impl View for ReferenceBuilder {
    type V = ReferenceBuilderView;

    closed spec fn view(&self) -> ReferenceBuilderView {
        ReferenceBuilderView {
            name: self.name@,
            href: match &self.href {
                Some(h) => Some(h@),
                None => None,
            },
            title: self.title@,
        }
    }
}

impl ReferenceBuilder {
    /// Set the name.
    pub fn name(self, s: &str) -> (r: Self)
        ensures
            r@ == (ReferenceBuilderView { name: s@, ..self@ }),
    {
        let mut b = self;
        b.name = String::from_str(s);
        b
    }

    /// Set the title.
    pub fn title(self, s: &str) -> (r: Self)
        ensures
            r@ == (ReferenceBuilderView { title: s@, ..self@ }),
    {
        let mut b = self;
        b.title = String::from_str(s);
        b
    }

    /// Set the target.
    pub fn href(self, u: String) -> (r: Self)
        ensures
            r@ == (ReferenceBuilderView { href: Some(u@), ..self@ }),
    {
        let mut b = self;
        b.href = Some(u);
        b
    }
}

impl Builder for ReferenceBuilder {
    type Output = Reference;

    /// Succeeds exactly when the target is set and the name is nonempty.
    fn build(self) -> (r: Result<Reference, BuildError>)
        ensures
            match r {
                Ok(d) => self@.name.len() > 0 && self@.href == Some(d@.href) && d@.name
                    == self@.name && d@.title == self@.title,
                Err(e) => (self@.name.len() == 0 || self@.href is None) && e
                    == BuildError::IncompleteData,
            },
    {
        let href = if let Some(u) = self.href {
            u
        } else {
            return Err(BuildError::IncompleteData);
        };
        if self.name.as_str().is_empty() {
            return Err(BuildError::IncompleteData);
        }
        Ok(Reference { name: self.name, title: self.title, href })
    }
}

impl Default for ReferenceBuilder {
    fn default() -> (r: Self)
        ensures
            r@.name == Seq::<char>::empty(),
            r@.href is None,
            r@.title == Seq::<char>::empty(),
    {
        Self { name: String::new(), href: None, title: String::new() }
    }
}

/// Scratch value for a `Heading`: the level defaults to 1; the inline
/// content is mandatory and must be nonempty.
#[derive(Debug, Clone, PartialEq, Eq)]
pub struct HeadingBuilder {
    content: Vec<Item>,
    level: HeadingLvl,
}

/// The mathematical value of a `HeadingBuilder`.
pub struct HeadingBuilderView {
    pub content: Seq<ItemView>,
    pub level: HeadingLvl,
}

impl View for HeadingBuilder {
    type V = HeadingBuilderView;

    closed spec fn view(&self) -> HeadingBuilderView {
        HeadingBuilderView { content: self.content.deep_view(), level: self.level }
    }
}

impl HeadingBuilder {
    /// Set the inline content.
    pub fn content(self, s: Vec<Item>) -> (r: Self)
        ensures
            r@ == (HeadingBuilderView { content: s.deep_view(), ..self@ }),
    {
        let mut b = self;
        b.content = s;
        b
    }

    /// Set the level.
    pub fn level(self, l: HeadingLvl) -> (r: Self)
        ensures
            r@ == (HeadingBuilderView { level: l, ..self@ }),
    {
        let mut b = self;
        b.level = l;
        b
    }
}

impl Builder for HeadingBuilder {
    type Output = Heading;

    /// Succeeds exactly when the content is nonempty.
    fn build(self) -> (r: Result<Heading, BuildError>)
        ensures
            match r {
                Ok(h) => self@.content.len() > 0 && h@ == (HeadingView {
                    level: self@.level,
                    content: self@.content,
                }),
                Err(e) => self@.content.len() == 0 && e == BuildError::IncompleteData,
            },
    {
        if self.content.len() == 0 {
            return Err(BuildError::IncompleteData);
        }
        Ok(Heading { level: self.level, content: self.content })
    }
}

impl Default for HeadingBuilder {
    fn default() -> (r: Self)
        ensures
            r@.content == Seq::<ItemView>::empty(),
            r@.level == HeadingLvl::Level1,
    {
        Self { content: Vec::new(), level: HeadingLvl::Level1 }
    }
}

} // verus!
