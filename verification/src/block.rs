use vstd::prelude::*;
use crate::BuildError;
use crate::Builder;
use vstd::string::StringExecFns;

verus! {

/// The language tag of a code span or block, together with the fence width
/// (the exact count of backticks that opened it, and must close it).
/// Known languages form a closed set; any other tag is kept verbatim as
/// `Unknown`; `Plain` is a span or block with no tag at all.
#[derive(Debug, Clone, PartialEq, Eq)]
pub enum CodeKind {
    Cpp(usize),
    CStandard(usize),
    CSharp(usize),
    Go(usize),
    Haskell(usize),
    Java(usize),
    JavaScript(usize),
    Lua(usize),
    Python(usize),
    Ruby(usize),
    Rust(usize),
    Plain(usize),
    Unknown(String, usize),
}

/// The mathematical value of a `CodeKind`.
pub enum CodeKindView {
    Cpp(int),
    CStandard(int),
    CSharp(int),
    Go(int),
    Haskell(int),
    Java(int),
    JavaScript(int),
    Lua(int),
    Python(int),
    Ruby(int),
    Rust(int),
    Plain(int),
    Unknown(Seq<char>, int),
}

impl View for CodeKind {
    type V = CodeKindView;

    open spec fn view(&self) -> CodeKindView {
        match self {
            CodeKind::Cpp(w) => CodeKindView::Cpp(*w as int),
            CodeKind::CStandard(w) => CodeKindView::CStandard(*w as int),
            CodeKind::CSharp(w) => CodeKindView::CSharp(*w as int),
            CodeKind::Go(w) => CodeKindView::Go(*w as int),
            CodeKind::Haskell(w) => CodeKindView::Haskell(*w as int),
            CodeKind::Java(w) => CodeKindView::Java(*w as int),
            CodeKind::JavaScript(w) => CodeKindView::JavaScript(*w as int),
            CodeKind::Lua(w) => CodeKindView::Lua(*w as int),
            CodeKind::Python(w) => CodeKindView::Python(*w as int),
            CodeKind::Ruby(w) => CodeKindView::Ruby(*w as int),
            CodeKind::Rust(w) => CodeKindView::Rust(*w as int),
            CodeKind::Plain(w) => CodeKindView::Plain(*w as int),
            CodeKind::Unknown(s, w) => CodeKindView::Unknown(s@, *w as int),
        }
    }
}

impl DeepView for CodeKind {
    type V = CodeKindView;

    open spec fn deep_view(&self) -> CodeKindView {
        self.view()
    }
}

impl CodeKindView {
    /// The fence width carried by the kind.
    pub open spec fn width(self) -> int {
        match self {
            CodeKindView::Cpp(w) => w,
            CodeKindView::CStandard(w) => w,
            CodeKindView::CSharp(w) => w,
            CodeKindView::Go(w) => w,
            CodeKindView::Haskell(w) => w,
            CodeKindView::Java(w) => w,
            CodeKindView::JavaScript(w) => w,
            CodeKindView::Lua(w) => w,
            CodeKindView::Python(w) => w,
            CodeKindView::Ruby(w) => w,
            CodeKindView::Rust(w) => w,
            CodeKindView::Plain(w) => w,
            CodeKindView::Unknown(_, w) => w,
        }
    }

    /// The same kind with the fence width replaced.
    pub open spec fn with_width(self, w: int) -> CodeKindView {
        match self {
            CodeKindView::Cpp(_) => CodeKindView::Cpp(w),
            CodeKindView::CStandard(_) => CodeKindView::CStandard(w),
            CodeKindView::CSharp(_) => CodeKindView::CSharp(w),
            CodeKindView::Go(_) => CodeKindView::Go(w),
            CodeKindView::Haskell(_) => CodeKindView::Haskell(w),
            CodeKindView::Java(_) => CodeKindView::Java(w),
            CodeKindView::JavaScript(_) => CodeKindView::JavaScript(w),
            CodeKindView::Lua(_) => CodeKindView::Lua(w),
            CodeKindView::Python(_) => CodeKindView::Python(w),
            CodeKindView::Ruby(_) => CodeKindView::Ruby(w),
            CodeKindView::Rust(_) => CodeKindView::Rust(w),
            CodeKindView::Plain(_) => CodeKindView::Plain(w),
            CodeKindView::Unknown(s, _) => CodeKindView::Unknown(s, w),
        }
    }

    /// The tag text the kind renders as: the known identifier, the verbatim
    /// unknown tag, or nothing.
    pub open spec fn tag(self) -> Seq<char> {
        match self {
            CodeKindView::Cpp(_) => "cpp"@,
            CodeKindView::CStandard(_) => "c"@,
            CodeKindView::CSharp(_) => "csharp"@,
            CodeKindView::Go(_) => "go"@,
            CodeKindView::Haskell(_) => "haskell"@,
            CodeKindView::Java(_) => "java"@,
            CodeKindView::JavaScript(_) => "javascript"@,
            CodeKindView::Lua(_) => "lua"@,
            CodeKindView::Python(_) => "python"@,
            CodeKindView::Ruby(_) => "ruby"@,
            CodeKindView::Rust(_) => "rust"@,
            CodeKindView::Plain(_) => Seq::empty(),
            CodeKindView::Unknown(s, _) => s,
        }
    }
}

/// The kind a tag maps to: a case-sensitive exact match against the closed
/// set of known identifiers, the empty tag for none, and anything else kept
/// verbatim as unknown.
pub open spec fn spec_kind_of_tag(tag: Seq<char>, w: int) -> CodeKindView {
    if tag == Seq::<char>::empty() {
        CodeKindView::Plain(w)
    } else if tag == "csharp"@ {
        CodeKindView::CSharp(w)
    } else if tag == "c"@ {
        CodeKindView::CStandard(w)
    } else if tag == "cpp"@ {
        CodeKindView::Cpp(w)
    } else if tag == "go"@ {
        CodeKindView::Go(w)
    } else if tag == "haskell"@ {
        CodeKindView::Haskell(w)
    } else if tag == "java"@ {
        CodeKindView::Java(w)
    } else if tag == "javascript"@ {
        CodeKindView::JavaScript(w)
    } else if tag == "lua"@ {
        CodeKindView::Lua(w)
    } else if tag == "python"@ {
        CodeKindView::Python(w)
    } else if tag == "ruby"@ {
        CodeKindView::Ruby(w)
    } else if tag == "rust"@ {
        CodeKindView::Rust(w)
    } else {
        CodeKindView::Unknown(tag, w)
    }
}

impl CodeKind {
    /// Widen the fence by `n` backticks, keeping the tag.
    pub fn increase_indent(self, n: usize) -> (r: Self)
        requires
            self@.width() + n <= usize::MAX,
        ensures
            r@ == self@.with_width(self@.width() + n),
    {
        match self {
            CodeKind::Cpp(c) => CodeKind::Cpp(c + n),
            CodeKind::CSharp(c) => CodeKind::CSharp(c + n),
            CodeKind::CStandard(c) => CodeKind::CStandard(c + n),
            CodeKind::Go(c) => CodeKind::Go(c + n),
            CodeKind::Haskell(c) => CodeKind::Haskell(c + n),
            CodeKind::Java(c) => CodeKind::Java(c + n),
            CodeKind::JavaScript(c) => CodeKind::JavaScript(c + n),
            CodeKind::Lua(c) => CodeKind::Lua(c + n),
            CodeKind::Python(c) => CodeKind::Python(c + n),
            CodeKind::Ruby(c) => CodeKind::Ruby(c + n),
            CodeKind::Rust(c) => CodeKind::Rust(c + n),
            CodeKind::Plain(c) => CodeKind::Plain(c + n),
            CodeKind::Unknown(s, c) => CodeKind::Unknown(s, c + n),
        }
    }

    /// The fence width.
    pub fn get_index(&self) -> (r: usize)
        ensures
            r as int == self@.width(),
    {
        match self {
            Self::Cpp(c) => *c,
            Self::CSharp(c) => *c,
            Self::CStandard(c) => *c,
            Self::Go(c) => *c,
            Self::Haskell(c) => *c,
            Self::Java(c) => *c,
            Self::JavaScript(c) => *c,
            Self::Lua(c) => *c,
            Self::Python(c) => *c,
            Self::Ruby(c) => *c,
            Self::Rust(c) => *c,
            Self::Plain(c) => *c,
            Self::Unknown(_, c) => *c,
        }
    }
}

impl CodeKind {
    /// The tag text the kind renders as.
    pub fn tag_text(&self) -> (r: String)
        ensures
            r@ == self@.tag(),
    {
        match self {
            Self::Cpp(_) => String::from_str("cpp"),
            Self::CStandard(_) => String::from_str("c"),
            Self::CSharp(_) => String::from_str("csharp"),
            Self::Go(_) => String::from_str("go"),
            Self::Haskell(_) => String::from_str("haskell"),
            Self::Java(_) => String::from_str("java"),
            Self::JavaScript(_) => String::from_str("javascript"),
            Self::Lua(_) => String::from_str("lua"),
            Self::Python(_) => String::from_str("python"),
            Self::Ruby(_) => String::from_str("ruby"),
            Self::Rust(_) => String::from_str("rust"),
            Self::Plain(_) => String::new(),
            Self::Unknown(s, _) => s.clone(),
        }
    }

    /// An equal copy.
    pub fn duplicate(&self) -> (r: Self)
        ensures
            r == *self,
    {
        match self {
            Self::Cpp(c) => Self::Cpp(*c),
            Self::CSharp(c) => Self::CSharp(*c),
            Self::CStandard(c) => Self::CStandard(*c),
            Self::Go(c) => Self::Go(*c),
            Self::Haskell(c) => Self::Haskell(*c),
            Self::Java(c) => Self::Java(*c),
            Self::JavaScript(c) => Self::JavaScript(*c),
            Self::Lua(c) => Self::Lua(*c),
            Self::Python(c) => Self::Python(*c),
            Self::Ruby(c) => Self::Ruby(*c),
            Self::Rust(c) => Self::Rust(*c),
            Self::Plain(c) => Self::Plain(*c),
            Self::Unknown(s, c) => Self::Unknown(s.clone(), *c),
        }
    }
}

/// A code span (fence width below 3) or fenced code block (width 3), with
/// its raw content and language tag.
#[derive(Debug, Clone, PartialEq, Eq)]
pub struct Code {
    pub content: String,
    pub kind: CodeKind,
}

/// The mathematical value of a `Code`.
pub struct CodeView {
    pub content: Seq<char>,
    pub kind: CodeKindView,
}

impl View for Code {
    type V = CodeView;

    open spec fn view(&self) -> CodeView {
        CodeView { content: self.content@, kind: self.kind@ }
    }
}

impl DeepView for Code {
    type V = CodeView;

    open spec fn deep_view(&self) -> CodeView {
        self.view()
    }
}

impl CodeView {
    /// Whether this is a fenced block rather than an inline span: the fence
    /// is at least 3 backticks wide.
    pub open spec fn is_block(self) -> bool {
        self.kind.width() >= 3
    }
}

impl Code {
    /// Whether this is a fenced block rather than an inline span.
    pub fn is_block(&self) -> (r: bool)
        ensures
            r == self@.is_block(),
    {
        self.kind.get_index() >= 3
    }
}

/// Scratch value for a `Code` node: content is optional (defaults empty),
/// the kind is mandatory.
#[derive(Debug, Clone, PartialEq, Eq)]
pub struct CodeBuilder {
    content: String,
    kind: Option<CodeKind>,
}

/// The mathematical value of a `CodeBuilder`.
pub struct CodeBuilderView {
    pub content: Seq<char>,
    pub kind: Option<CodeKindView>,
}

impl View for CodeBuilder {
    type V = CodeBuilderView;

    closed spec fn view(&self) -> CodeBuilderView {
        CodeBuilderView {
            content: self.content@,
            kind: match &self.kind {
                Some(k) => Some(k@),
                None => None,
            },
        }
    }
}

impl CodeBuilder {
    /// Set the content.
    pub fn content(self, c: &str) -> (r: Self)
        ensures
            r@.content == c@,
            r@.kind == self@.kind,
    {
        let mut s = self;
        s.content = String::from_str(c);
        s
    }

    /// Set the kind.
    pub fn kind(self, k: CodeKind) -> (r: Self)
        ensures
            r@.content == self@.content,
            r@.kind == Some(k@),
    {
        let mut s = self;
        s.kind = Some(k);
        s
    }
}

impl Builder for CodeBuilder {
    type Output = Code;

    /// Succeeds exactly when the kind has been set; the node keeps the
    /// scratch fields unchanged.
    fn build(self) -> (r: Result<Code, BuildError>)
        ensures
            match r {
                Ok(code) => self@.kind == Some(code@.kind) && code@.content == self@.content,
                Err(e) => self@.kind is None && e == BuildError::IncompleteData,
            },
    {
        let kind = if let Some(k) = self.kind {
            k
        } else {
            return Err(BuildError::IncompleteData);
        };
        Ok(Code { content: self.content, kind })
    }
}

impl Default for CodeBuilder {
    fn default() -> (r: Self)
        ensures
            r@.content == Seq::<char>::empty(),
            r@.kind is None,
    {
        Self { content: String::new(), kind: None }
    }
}

} // verus!
