use vstd::prelude::*;

verus! {

/// Heading depth. Levels run from 1 to 6; transitions saturate at the ends.
#[derive(Debug, Copy, Clone, PartialEq, Eq, Structural)]
pub enum HeadingLvl {
    Level1,
    Level2,
    Level3,
    Level4,
    Level5,
    Level6,
}

/// One step up a bounded ladder: below `top` the position advances by one,
/// at `top` it moves to `wrap_to`. Heading levels use `wrap_to == top`
/// (saturating); emphasis kinds use `wrap_to == top - 1` (wrapping back).
pub open spec fn ladder_next(i: int, top: int, wrap_to: int) -> int {
    if i < top {
        i + 1
    } else {
        wrap_to
    }
}

/// One step down a bounded ladder, saturating at `bottom`.
pub open spec fn ladder_prev(i: int, bottom: int) -> int {
    if i > bottom {
        i - 1
    } else {
        bottom
    }
}

impl HeadingLvl {
    /// The numeric depth of the level, in 1..=6.
    pub open spec fn spec_num(self) -> int {
        match self {
            HeadingLvl::Level1 => 1,
            HeadingLvl::Level2 => 2,
            HeadingLvl::Level3 => 3,
            HeadingLvl::Level4 => 4,
            HeadingLvl::Level5 => 5,
            HeadingLvl::Level6 => 6,
        }
    }

    /// The level whose depth is `n`, clamped into 1..=6.
    pub open spec fn spec_of_num(n: int) -> HeadingLvl {
        if n <= 1 {
            HeadingLvl::Level1
        } else if n == 2 {
            HeadingLvl::Level2
        } else if n == 3 {
            HeadingLvl::Level3
        } else if n == 4 {
            HeadingLvl::Level4
        } else if n == 5 {
            HeadingLvl::Level5
        } else {
            HeadingLvl::Level6
        }
    }

    /// Build the level for a run of `n` heading markers, clamping at 6.
    pub fn of_num(n: usize) -> (r: HeadingLvl)
        ensures
            r == HeadingLvl::spec_of_num(n as int),
    {
        if n <= 1 {
            HeadingLvl::Level1
        } else if n == 2 {
            HeadingLvl::Level2
        } else if n == 3 {
            HeadingLvl::Level3
        } else if n == 4 {
            HeadingLvl::Level4
        } else if n == 5 {
            HeadingLvl::Level5
        } else {
            HeadingLvl::Level6
        }
    }

    /// The numeric depth, for callers that need the count of markers.
    pub fn num(self) -> (r: usize)
        ensures
            r as int == self.spec_num(),
    {
        match self {
            HeadingLvl::Level1 => 1,
            HeadingLvl::Level2 => 2,
            HeadingLvl::Level3 => 3,
            HeadingLvl::Level4 => 4,
            HeadingLvl::Level5 => 5,
            HeadingLvl::Level6 => 6,
        }
    }

    /// One level deeper, saturating at level 6.
    pub fn increment(self) -> (r: Self)
        ensures
            r.spec_num() == ladder_next(self.spec_num(), 6, 6),
    {
        match self {
            Self::Level1 => Self::Level2,
            Self::Level2 => Self::Level3,
            Self::Level3 => Self::Level4,
            Self::Level4 => Self::Level5,
            Self::Level5 => Self::Level6,
            Self::Level6 => Self::Level6,
        }
    }

    /// One level shallower, saturating at level 1.
    pub fn decrement(self) -> (r: Self)
        ensures
            r.spec_num() == ladder_prev(self.spec_num(), 1),
    {
        match self {
            Self::Level1 => Self::Level1,
            Self::Level2 => Self::Level1,
            Self::Level3 => Self::Level2,
            Self::Level4 => Self::Level3,
            Self::Level5 => Self::Level4,
            Self::Level6 => Self::Level5,
        }
    }
}

impl Default for HeadingLvl {
    fn default() -> (r: Self)
        ensures
            r == HeadingLvl::Level1,
    {
        Self::Level1
    }
}

/// Where a link points: a literal target, a reference name still to be
/// resolved, or nothing yet (the last only while a link is being built;
/// a finished document holds only literal targets).
#[derive(Debug, Clone, PartialEq, Eq)]
pub enum LinkSource {
    Url(String),
    Ref(String),
    Unset,
}

/// The mathematical value of a `LinkSource`.
pub enum SourceView {
    Url(Seq<char>),
    Ref(Seq<char>),
    Unset,
}

impl View for LinkSource {
    type V = SourceView;

    open spec fn view(&self) -> SourceView {
        match self {
            LinkSource::Url(u) => SourceView::Url(u@),
            LinkSource::Ref(r) => SourceView::Ref(r@),
            LinkSource::Unset => SourceView::Unset,
        }
    }
}

impl DeepView for LinkSource {
    type V = SourceView;

    open spec fn deep_view(&self) -> SourceView {
        self.view()
    }
}

impl Default for LinkSource {
    fn default() -> (r: Self)
        ensures
            r == LinkSource::Unset,
    {
        Self::Unset
    }
}

/// A link or image: display name, target, and whether it is an image.
#[derive(Debug, Clone, PartialEq, Eq)]
pub struct Link {
    pub name: String,
    pub src: LinkSource,
    pub img: bool,
}

/// The mathematical value of a `Link`.
pub struct LinkView {
    pub name: Seq<char>,
    pub src: SourceView,
    pub img: bool,
}

impl View for Link {
    type V = LinkView;

    open spec fn view(&self) -> LinkView {
        LinkView { name: self.name@, src: self.src@, img: self.img }
    }
}

impl DeepView for Link {
    type V = LinkView;

    open spec fn deep_view(&self) -> LinkView {
        self.view()
    }
}

/// One span within a block's text: plain text, an emphasis span,
/// a link or image, or a line break.
#[derive(Debug, Clone, PartialEq, Eq)]
pub enum Item {
    Bold(String),
    BoldItalic(String),
    Def(String),
    Italic(String),
    Link(Link),
    NewLine,
}

/// The mathematical value of an `Item`.
pub enum ItemView {
    Bold(Seq<char>),
    BoldItalic(Seq<char>),
    Def(Seq<char>),
    Italic(Seq<char>),
    Link(LinkView),
    NewLine,
}

impl View for Item {
    type V = ItemView;

    open spec fn view(&self) -> ItemView {
        match self {
            Item::Bold(s) => ItemView::Bold(s@),
            Item::BoldItalic(s) => ItemView::BoldItalic(s@),
            Item::Def(s) => ItemView::Def(s@),
            Item::Italic(s) => ItemView::Italic(s@),
            Item::Link(l) => ItemView::Link(l@),
            Item::NewLine => ItemView::NewLine,
        }
    }
}

impl DeepView for Item {
    type V = ItemView;

    open spec fn deep_view(&self) -> ItemView {
        self.view()
    }
}

impl Item {
    /// What one more emphasis marker does to an emphasis span: italic becomes
    /// bold, bold becomes bold-italic, and bold-italic wraps back to bold
    /// (the same ladder the tokenizer walks). Other items are unchanged.
    pub open spec fn spec_asterick(self) -> Item {
        match self {
            Item::Italic(c) => Item::Bold(c),
            Item::Bold(c) => Item::BoldItalic(c),
            Item::BoldItalic(c) => Item::Bold(c),
            _ => self,
        }
    }

    /// Step the emphasis ladder in place.
    pub fn asterick(&mut self)
        ensures
            *final(self) == old(self).spec_asterick(),
    {
        let repl: Option<Item> = match self {
            Self::Italic(c) => Some(Self::Bold(c.clone())),
            Self::Bold(c) => Some(Self::BoldItalic(c.clone())),
            Self::BoldItalic(c) => Some(Self::Bold(c.clone())),
            _ => None,
        };
        match repl {
            Some(it) => {
                *self = it;
            },
            None => {},
        }
    }

    /// Step the emphasis ladder, by value.
    pub fn asterick_cons(self) -> (r: Self)
        ensures
            r == self.spec_asterick(),
    {
        match self {
            Self::Italic(c) => Self::Bold(c),
            Self::Bold(c) => Self::BoldItalic(c),
            Self::BoldItalic(c) => Self::Bold(c),
            other => other,
        }
    }

    /// Whether an emphasis span encloses no text (a structural error in a
    /// finished document). Items that are not emphasis spans report `false`.
    pub fn is_empty(&self) -> (r: bool)
        ensures
            r == match self@ {
                ItemView::Italic(c) => c.len() == 0,
                ItemView::Bold(c) => c.len() == 0,
                ItemView::BoldItalic(c) => c.len() == 0,
                _ => false,
            },
    {
        match self {
            Self::Italic(c) => c.as_str().is_empty(),
            Self::Bold(c) => c.as_str().is_empty(),
            Self::BoldItalic(c) => c.as_str().is_empty(),
            _ => false,
        }
    }
}

/// A heading: its depth and its inline content.
#[derive(Debug, Clone, PartialEq, Eq)]
pub struct Heading {
    pub level: HeadingLvl,
    pub content: Vec<Item>,
}

/// The mathematical value of a `Heading`.
pub struct HeadingView {
    pub level: HeadingLvl,
    pub content: Seq<ItemView>,
}

impl View for Heading {
    type V = HeadingView;

    open spec fn view(&self) -> HeadingView {
        HeadingView { level: self.level, content: self.content.deep_view() }
    }
}

impl DeepView for Heading {
    type V = HeadingView;

    open spec fn deep_view(&self) -> HeadingView {
        self.view()
    }
}

/// A paragraph: a run of inline items.
#[derive(Debug, Clone, PartialEq, Eq)]
pub struct Paragraph(pub Vec<Item>);

impl View for Paragraph {
    type V = Seq<ItemView>;

    open spec fn view(&self) -> Seq<ItemView> {
        self.0.deep_view()
    }
}

impl DeepView for Paragraph {
    type V = Seq<ItemView>;

    open spec fn deep_view(&self) -> Seq<ItemView> {
        self.view()
    }
}

/// A reference definition: the name as written, an optional title, and the
/// canonical target.
#[derive(Debug, Clone, PartialEq, Eq)]
pub struct Reference {
    pub name: String,
    pub title: String,
    pub href: String,
}

/// The mathematical value of a `Reference`.
pub struct ReferenceView {
    pub name: Seq<char>,
    pub title: Seq<char>,
    pub href: Seq<char>,
}

impl View for Reference {
    type V = ReferenceView;

    open spec fn view(&self) -> ReferenceView {
        ReferenceView { name: self.name@, title: self.title@, href: self.href@ }
    }
}

impl DeepView for Reference {
    type V = ReferenceView;

    open spec fn deep_view(&self) -> ReferenceView {
        self.view()
    }
}

} // verus!
