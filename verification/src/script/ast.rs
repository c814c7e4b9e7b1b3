//! The syntax tree of a placement script.

use vstd::prelude::*;
use vstd::string::StringExecFns;

verus! {

/// A script: a list of blocks.
#[derive(Debug)]
pub struct Script {
    pub blocks: Vec<Block>,
}

/// `NAME { ... }`
#[derive(Debug)]
pub struct Block {
    /// The name of the block, in lower case.
    pub name: String,
    pub elems: Vec<Element>,
}

/// `NAME: key = value, ...;`
#[derive(Debug)]
pub struct Element {
    pub name: String,
    pub attrs: Vec<Attribute>,
}

/// `key = value`
#[derive(Debug)]
pub struct Attribute {
    /// The key, in lower case.
    pub key: String,
    pub value: Value,
}

/// A value of an attribute.
#[derive(Debug)]
pub enum Value {
    Uint(u32),
    Bool(bool),
    String(FormatString),
    /// A name. Words such as `zp` and `bss` are names too.
    Ident(String),
}

impl Value {
    pub fn as_uint(&self) -> (r: Option<u32>)
        ensures
            r == match *self {
                Value::Uint(x) => Some(x),
                _ => None,
            },
    {
        if let Value::Uint(x) = self {
            Some(*x)
        } else {
            None
        }
    }

    pub fn as_bool(&self) -> (r: Option<bool>)
        ensures
            r == match *self {
                Value::Bool(x) => Some(x),
                _ => None,
            },
    {
        if let Value::Bool(x) = self {
            Some(*x)
        } else {
            None
        }
    }

    pub fn as_string(&self) -> (r: Option<&FormatString>)
        ensures
            match *self {
                Value::String(s) => r == Some(&s),
                _ => r is None,
            },
    {
        if let Value::String(s) = self {
            Some(s)
        } else {
            None
        }
    }

    pub fn as_ident(&self) -> (r: Option<&str>)
        ensures
            match *self {
                Value::Ident(s) => r is Some && r->0@ == s@,
                _ => r is None,
            },
    {
        if let Value::Ident(ident) = self {
            Some(ident.as_str())
        } else {
            None
        }
    }
}

/// A piece of a string of a script.
#[derive(Debug)]
pub enum FormatStringPart {
    /// Text that stands for itself.
    Literal(String),
    /// `%O`: the name of the main output file.
    MainOutFile,
    /// `%%`: a percent sign.
    EscapedPercent,
}

/// A string of a script, in which `%O` stands for the name of the main
/// output file and `%%` for a percent sign.
#[derive(Debug)]
pub struct FormatString {
    pub parts: Vec<FormatStringPart>,
}

/// A piece of a string as a value.
pub enum PartView {
    Literal(Seq<char>),
    MainOutFile,
    EscapedPercent,
}

/// A value of an attribute as a value.
pub enum ValueView {
    Uint(u32),
    Bool(bool),
    String(Seq<PartView>),
    Ident(Seq<char>),
}

/// An attribute as a value.
pub struct AttributeView {
    pub key: Seq<char>,
    pub value: ValueView,
}

/// An element as a value.
pub struct ElementView {
    pub name: Seq<char>,
    pub attrs: Seq<AttributeView>,
}

/// A block as a value.
pub struct BlockView {
    pub name: Seq<char>,
    pub elems: Seq<ElementView>,
}

/// A script as a value.
pub struct ScriptView {
    pub blocks: Seq<BlockView>,
}

impl DeepView for FormatStringPart {
    type V = PartView;

    open spec fn deep_view(&self) -> PartView {
        match *self {
            FormatStringPart::Literal(s) => PartView::Literal(s@),
            FormatStringPart::MainOutFile => PartView::MainOutFile,
            FormatStringPart::EscapedPercent => PartView::EscapedPercent,
        }
    }
}

impl DeepView for Value {
    type V = ValueView;

    open spec fn deep_view(&self) -> ValueView {
        match *self {
            Value::Uint(x) => ValueView::Uint(x),
            Value::Bool(b) => ValueView::Bool(b),
            Value::String(s) => ValueView::String(s.parts.deep_view()),
            Value::Ident(s) => ValueView::Ident(s@),
        }
    }
}

impl DeepView for Attribute {
    type V = AttributeView;

    open spec fn deep_view(&self) -> AttributeView {
        AttributeView { key: self.key@, value: self.value.deep_view() }
    }
}

impl DeepView for Element {
    type V = ElementView;

    open spec fn deep_view(&self) -> ElementView {
        ElementView { name: self.name@, attrs: self.attrs.deep_view() }
    }
}

impl DeepView for Block {
    type V = BlockView;

    open spec fn deep_view(&self) -> BlockView {
        BlockView { name: self.name@, elems: self.elems.deep_view() }
    }
}

impl DeepView for Script {
    type V = ScriptView;

    open spec fn deep_view(&self) -> ScriptView {
        ScriptView { blocks: self.blocks.deep_view() }
    }
}

/// The text of one piece.
pub open spec fn part_text(part: FormatStringPart, main_outfile: Seq<char>) -> Seq<char> {
    match part {
        FormatStringPart::Literal(s) => s@,
        FormatStringPart::MainOutFile => main_outfile,
        FormatStringPart::EscapedPercent => seq!['%'],
    }
}

/// The texts of the first `n` pieces, one after the other.
pub open spec fn parts_text(parts: Seq<FormatStringPart>, main_outfile: Seq<char>, n: int) -> Seq<char>
    decreases n,
{
    if n <= 0 {
        Seq::empty()
    } else {
        parts_text(parts, main_outfile, n - 1) + part_text(parts[n - 1], main_outfile)
    }
}

impl FormatString {
    /// The text of the string for a main output file of that name.
    pub open spec fn text(&self, main_outfile: Seq<char>) -> Seq<char> {
        parts_text(self.parts@, main_outfile, self.parts@.len() as int)
    }

    pub fn format(&self, main_outfile: &str) -> (r: String)
        ensures
            r@ == self.text(main_outfile@),
    {
        let mut res = String::new();
        let mut i: usize = 0;
        while i < self.parts.len()
            invariant
                i <= self.parts@.len(),
                res@ == parts_text(self.parts@, main_outfile@, i as int),
            decreases self.parts@.len() - i,
        {
            match &self.parts[i] {
                FormatStringPart::Literal(s) => res.append(s.as_str()),
                FormatStringPart::MainOutFile => res.append(main_outfile),
                FormatStringPart::EscapedPercent => {
                    proof {
                        reveal_strlit("%");
                    }
                    assert("%"@ =~= seq!['%']);
                    res.append("%")
                },
            }
            i += 1;
        }
        res
    }
}

} // verus!
